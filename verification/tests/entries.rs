use wordgen::entries::{dictionary_entries, parse_key_val, PairError};

fn strings(words: &[&str]) -> Vec<String> {
    words.iter().map(|w| w.to_string()).collect()
}

#[test]
fn pair_of_two_characters() {
    let pair = parse_key_val("e=3").unwrap();
    assert_eq!(pair.from(), 'e');
    assert_eq!(pair.to(), '3');
    let other = parse_key_val("a==").unwrap();
    assert_eq!((other.from(), other.to()), ('a', '='));
    let wide = parse_key_val("é=€").unwrap();
    assert_eq!((wide.from(), wide.to()), ('é', '€'));
}

#[test]
fn pair_without_equals() {
    assert_eq!(parse_key_val("e3").err(), Some(PairError::NoEquals));
    assert_eq!(parse_key_val("").err(), Some(PairError::NoEquals));
}

#[test]
fn pair_with_a_bad_key() {
    assert_eq!(parse_key_val("=3").err(), Some(PairError::BadKey));
    assert_eq!(parse_key_val("ab=3").err(), Some(PairError::BadKey));
    assert_eq!(parse_key_val("==3").err(), Some(PairError::BadKey));
    assert_eq!(parse_key_val("=").err(), Some(PairError::BadKey));
    assert_eq!(parse_key_val("ab=").err(), Some(PairError::BadKey));
}

#[test]
fn pair_with_a_bad_value() {
    assert_eq!(parse_key_val("e=").err(), Some(PairError::BadValue));
    assert_eq!(parse_key_val("e=33").err(), Some(PairError::BadValue));
    assert_eq!(parse_key_val("e=3=").err(), Some(PairError::BadValue));
}

#[test]
fn default_pairs_parse() {
    let parsed: Vec<(char, char)> = "o=0,e=3,l=1,i=!,a=@,s=$,t=7"
        .split(',')
        .map(|s| parse_key_val(s).unwrap())
        .map(|p| (p.from(), p.to()))
        .collect();
    assert_eq!(
        parsed,
        vec![('o', '0'), ('e', '3'), ('l', '1'), ('i', '!'), ('a', '@'), ('s', '$'), ('t', '7')]
    );
}

#[test]
fn entries_are_trimmed_and_filtered() {
    let lines = strings(&["  apple ", "", "   ", "kiwi", "banana", "\tfig\r", "élan"]);
    assert_eq!(dictionary_entries(&lines, 5), strings(&["apple", "kiwi", "fig", "élan"]));
    assert_eq!(dictionary_entries(&lines, 3), strings(&["fig"]));
    assert!(dictionary_entries(&lines, 0).is_empty());
    assert!(dictionary_entries(&vec![], 5).is_empty());
}
