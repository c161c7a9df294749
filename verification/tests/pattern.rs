use wordgen::expand::{
    class_strings, clone_words, expand, is_token, keep_within, regex_words, walk_regex,
    ExpandError, Generator,
};
use wordgen::pattern::{CharRange, Pattern};
use wordgen::syntax::parse_pattern;

fn strings(words: &[&str]) -> Vec<String> {
    words.iter().map(|w| w.to_string()).collect()
}

fn lists(dictionary: &[&str], terms: &[&str], min: usize, max: usize) -> Generator {
    Generator {
        min_length: min,
        max_length: max,
        transforms: vec![],
        terms: strings(terms),
        dictionary: strings(dictionary),
    }
}

fn empty_gen(min: usize, max: usize) -> Generator {
    Generator {
        min_length: min,
        max_length: max,
        transforms: vec![],
        terms: vec![],
        dictionary: vec![],
    }
}

fn expect(gen: &Generator, pattern: &str, expected: Vec<&str>, count: usize) -> Vec<String> {
    let result = regex_words(pattern, gen).expect("regex is invalid");

    assert_eq!(result.len(), count, "RESULT: {:?}", &result[0..50.min(result.len())]);
    for s in expected {
        assert!(result.contains(&s.to_string()), "doesn't contain {}", s);
    }
    result
}

// [a-d]+[1-3]+
// 3 => 84 == 4^2 * 3^1 + 4^1 * 3^2
// 4 => 444 == 4^3 * 3^1 + 4^2 * 3^2 + 4^1*3^3
// 5 => 2100 == 4^4 * 3^1 + 4^3 * 3^2 + 4^2 * 3^3 + 4^1 * 3^4
fn calculate_total_creations(
    pool1_size: usize,
    pool2_size: usize,
    length_range: std::ops::RangeInclusive<usize>,
) -> usize {
    length_range
        .map(|string_length| {
            let mut total = 0;

            for i in 1..string_length {
                let pool1_contrib = pool1_size.pow((string_length - i) as u32);
                let pool2_contrib = pool2_size.pow(i as u32);
                total += pool1_contrib * pool2_contrib;
            }

            total
        })
        .sum()
}

#[test]
fn play() {}

#[test]
fn simple_concat() {
    let gen = empty_gen(2, 2);
    let pattern = "[a-c][1-3]";
    let expected = vec!["a1", "b2", "c3"];

    expect(&gen, pattern, expected, 9);
}

#[test]
fn repeat_1() {
    let gen1 = empty_gen(1, 1);
    let pattern1 = "[a-z]+";
    let expected1 = vec!["a", "m", "z"];
    expect(&gen1, pattern1, expected1, 26);
}

#[test]
fn repeat_2() {
    let gen = empty_gen(2, 2);
    let pattern = "[a-c]+";
    let expected = vec!["aa", "bc", "cc"];
    expect(&gen, pattern, expected, 9);
}

#[test]
fn repeat_1_2() {
    let gen2 = empty_gen(1, 2);
    let pattern2 = "[a-z]+";
    let expected2 = vec!["a", "mt", "zz"];
    expect(&gen2, pattern2, expected2, 26 * 26 + 26);
}

#[test]
fn concat_repeat_2_5() {
    let min = 2;
    let max = 5;
    let gen = empty_gen(min, max);
    let pattern = "[a-d]+[1-6]+";
    let expected = vec!["a3", "abcb1", "b2312", "cca33", "cc2", "abc3"];

    let count = calculate_total_creations(4, 6, min..=max);
    let _res = expect(&gen, pattern, expected, count);
}

#[test]
fn simple_concat_gives_all_nine_in_order() {
    let gen = empty_gen(2, 2);
    let result = regex_words("[a-c][1-3]", &gen).unwrap();
    assert_eq!(result, vec!["a1", "a2", "a3", "b1", "b2", "b3", "c1", "c2", "c3"]);
}

#[test]
fn repeat_1_gives_each_letter_once() {
    let gen = empty_gen(1, 1);
    let result = regex_words("[a-z]+", &gen).unwrap();
    let letters: Vec<String> = ('a'..='z').map(|c| c.to_string()).collect();
    assert_eq!(result, letters);
}

#[test]
fn candidates_stay_in_the_window() {
    let gen = empty_gen(2, 3);
    let result = regex_words("[a-c]+x?|abcdef|z", &gen).unwrap();
    assert!(!result.is_empty());
    assert!(result.iter().all(|w| 2 <= w.len() && w.len() <= 3));
    assert!(result.contains(&"ax".to_string()));
    assert!(!result.contains(&"abcdef".to_string()));
    assert!(!result.contains(&"z".to_string()));
}

#[test]
fn invalid_pattern_is_reported() {
    let gen = empty_gen(0, 5);
    assert_eq!(regex_words("(", &gen), Err(ExpandError::InvalidPattern));
    assert_eq!(regex_words("a{2,1}", &gen), Err(ExpandError::InvalidPattern));
}

#[test]
fn invalid_text_is_reported() {
    let gen = empty_gen(0, 5);
    let bad = Pattern::Literal(vec![0xff, 0x61]);
    assert_eq!(expand(&bad, &gen), Err(ExpandError::InvalidText));
    assert_eq!(walk_regex(&bad, &gen), Err(ExpandError::InvalidText));
    let nested = Pattern::Concat(vec![
        Pattern::Literal(vec![0x61]),
        Pattern::Alternation(vec![
            Pattern::Empty,
            Pattern::Capture(Box::new(Pattern::Repetition {
                min: 0,
                max: Some(1),
                sub: Box::new(Pattern::Literal(vec![0xc3])),
            })),
        ]),
    ]);
    assert_eq!(expand(&nested, &gen), Err(ExpandError::InvalidText));
}

#[test]
fn literal_is_decoded_as_text() {
    let gen = empty_gen(0, 5);
    assert_eq!(regex_words("abc", &gen), Ok(strings(&["abc"])));
    assert_eq!(regex_words("é", &gen), Ok(strings(&["é"])));
    let lit = Pattern::Literal("héllo".as_bytes().to_vec());
    assert_eq!(walk_regex(&lit, &gen), Ok(strings(&["héllo"])));
}

#[test]
fn placeholders_stand_for_their_lists() {
    let gen = lists(&["pass", "word"], &["2024", "x"], 0, 8);
    assert_eq!(regex_words("%w", &gen), Ok(strings(&["pass", "word"])));
    assert_eq!(regex_words("%t", &gen), Ok(strings(&["2024", "x"])));
    assert_eq!(
        regex_words("(%w)(%t)", &gen),
        Ok(strings(&["pass2024", "passx", "word2024", "wordx"]))
    );
    assert_eq!(regex_words("%x", &gen), Ok(strings(&["%x"])));
    assert_eq!(regex_words("a%t", &gen), Ok(strings(&["a%t"])));
}

#[test]
fn token_test() {
    assert!(is_token(&vec![0x25, 0x74], 0x74));
    assert!(!is_token(&vec![0x25, 0x74], 0x77));
    assert!(!is_token(&vec![0x25], 0x74));
    assert!(!is_token(&vec![0x25, 0x74, 0x74], 0x74));
    assert!(!is_token(&vec![0x24, 0x74], 0x74));
}

#[test]
fn clone_words_copies() {
    assert_eq!(clone_words(&strings(&["a", "", "bc"])), strings(&["a", "", "bc"]));
}

#[test]
fn class_gives_one_word_per_character() {
    let gen = empty_gen(0, 5);
    assert_eq!(regex_words("[a-cx]", &gen), Ok(strings(&["a", "b", "c", "x"])));
    let ranges = vec![CharRange { start: '0', end: '2' }, CharRange { start: 'z', end: 'z' }];
    assert_eq!(class_strings(&ranges), strings(&["0", "1", "2", "z"]));
    let backwards = vec![CharRange { start: 'b', end: 'a' }];
    assert!(class_strings(&backwards).is_empty());
    let whole = vec![CharRange { start: '\u{0}', end: '\u{7f}' }];
    assert_eq!(class_strings(&whole).len(), 128);
}

#[test]
fn class_beyond_ascii_gives_nothing() {
    let gen = empty_gen(0, 5);
    assert_eq!(regex_words("[α-ω]", &gen), Ok(vec![]));
    assert_eq!(regex_words("[a-cα-ω]", &gen), Ok(vec![]));
    assert_eq!(regex_words("x[α-ω]", &gen), Ok(vec![]));
    let mixed = vec![CharRange { start: 'a', end: 'b' }, CharRange { start: 'é', end: 'é' }];
    assert!(class_strings(&mixed).is_empty());
    assert_eq!(walk_regex(&Pattern::ByteClass, &gen), Ok(vec![]));
}

#[test]
fn empty_and_anchor_give_the_empty_word() {
    let gen = empty_gen(0, 5);
    assert_eq!(regex_words("", &gen), Ok(strings(&[""])));
    assert_eq!(regex_words("ab$", &gen), Ok(strings(&["ab"])));
    assert_eq!(walk_regex(&Pattern::Look, &gen), Ok(strings(&[""])));
    assert_eq!(walk_regex(&Pattern::Empty, &gen), Ok(strings(&[""])));
}

#[test]
fn alternation_is_the_union_of_its_branches() {
    let gen = empty_gen(0, 5);
    assert_eq!(regex_words("ab|cd|ab", &gen).map(|mut v| { v.sort(); v }), Ok(strings(&["ab", "ab", "cd"])));
    let alt = Pattern::Alternation(vec![
        Pattern::Literal(b"toolong".to_vec()),
        Pattern::Class(vec![CharRange { start: 'a', end: 'b' }]),
        Pattern::Literal(b"a".to_vec()),
    ]);
    assert_eq!(walk_regex(&alt, &gen), Ok(strings(&["toolong", "a", "b", "a"])));
    assert_eq!(expand(&alt, &gen), Ok(strings(&["a", "b", "a"])));
}

#[test]
fn capture_is_transparent() {
    let gen = empty_gen(0, 5);
    assert_eq!(regex_words("(ab)", &gen), regex_words("ab", &gen));
    assert_eq!(regex_words("([a-b])(x)", &gen), Ok(strings(&["ax", "bx"])));
}

#[test]
fn repetition_bounds() {
    let gen = empty_gen(0, 5);
    assert_eq!(regex_words("(ab){2,3}", &gen), Ok(strings(&["abab"])));
    assert_eq!(regex_words("(ab){2}", &gen), Ok(strings(&["abab"])));
    assert_eq!(regex_words("(ab)+", &gen), Ok(strings(&["ab", "abab"])));
    let star = regex_words("a*", &empty_gen(0, 2)).unwrap();
    assert!(star.contains(&String::new()));
    assert_eq!(star[0], "");
    assert!(star.contains(&"a".to_string()));
    assert!(star.contains(&"aa".to_string()));
    assert!(!star.contains(&"aaa".to_string()));
}

#[test]
fn walk_regex_does_not_apply_the_minimum() {
    let gen = empty_gen(3, 5);
    let ast = Pattern::Class(vec![CharRange { start: 'a', end: 'b' }]);
    assert_eq!(walk_regex(&ast, &gen), Ok(strings(&["a", "b"])));
    assert_eq!(expand(&ast, &gen), Ok(vec![]));
}

#[test]
fn keep_within_filters_both_ends() {
    let words = strings(&["", "a", "ab", "abc", "é", "abcd"]);
    assert_eq!(keep_within(words.clone(), 1, 3), strings(&["a", "ab", "abc", "é"]));
    assert_eq!(keep_within(words.clone(), 0, 0), strings(&[""]));
    assert!(keep_within(words, 3, 2).is_empty());
}

fn tree(pattern: &str) -> String {
    format!("{:?}", parse_pattern(pattern).expect("regex is invalid"))
}

#[test]
fn parse_pattern_reads_the_tree() {
    assert_eq!(tree(""), "Empty");
    assert_eq!(tree("ab"), "Literal([97, 98])");
    assert_eq!(tree("%t"), "Literal([37, 116])");
    assert_eq!(tree("$"), "Look");
    assert_eq!(
        tree("[a-c0]"),
        "Class([CharRange { start: '0', end: '0' }, CharRange { start: 'a', end: 'c' }])"
    );
    assert_eq!(tree("(?-u:[a-c])"), "ByteClass");
    assert_eq!(
        tree("x{2,5}"),
        "Repetition { min: 2, max: Some(5), sub: Literal([120]) }"
    );
    assert_eq!(tree("x+"), "Repetition { min: 1, max: None, sub: Literal([120]) }");
    assert_eq!(tree("(x)"), "Capture(Literal([120]))");
    assert_eq!(
        tree("a[b-c]"),
        "Concat([Literal([97]), Class([CharRange { start: 'b', end: 'c' }])])"
    );
    assert_eq!(
        tree("ab|(c)"),
        "Alternation([Literal([97, 98]), Capture(Literal([99]))])"
    );
}

#[test]
fn parse_pattern_rejects_what_the_grammar_rejects() {
    assert!(parse_pattern("(").is_none());
    assert!(parse_pattern("[z-a]").is_none());
    assert!(parse_pattern("a**").is_some());
}
