use wordgen::combine::{cartesian_concat, fits, last_repeat, repeat_level, repeat_pool, shortest_len};

fn strings(words: &[&str]) -> Vec<String> {
    words.iter().map(|w| w.to_string()).collect()
}

fn powers(alphabet: &[&str], upto: usize) -> Vec<String> {
    let mut all: Vec<String> = Vec::new();
    let mut level: Vec<String> = vec![String::new()];
    for _ in 0..upto {
        let mut next = Vec::new();
        for w in &level {
            for a in alphabet {
                next.push(format!("{}{}", w, a));
            }
        }
        all.extend(next.iter().cloned());
        level = next;
    }
    all
}

#[test]
fn concat_of_large_groups_is_pruned() {
    let left = powers(&["a", "b", "c", "d"], 5);
    let right = powers(&["1", "2", "3", "4", "5", "6"], 5);
    assert_eq!(left.len(), 1364);
    assert_eq!(right.len(), 9330);
    let out = cartesian_concat(&vec![&left, &right], 5);
    assert!(out.iter().all(|w| w.len() <= 5));
    assert!(out.contains(&"abcb1".to_string()));
}

#[test]
fn concat_last_group_varies_fastest() {
    let a = strings(&["x", "y"]);
    let b = strings(&["1", "2", "3"]);
    let out = cartesian_concat(&vec![&a, &b], 2);
    assert_eq!(out, strings(&["x1", "x2", "x3", "y1", "y2", "y3"]));
}

#[test]
fn concat_drops_what_is_too_long() {
    let a = strings(&["a", "bb", "ccc"]);
    let b = strings(&["1", "22"]);
    let out = cartesian_concat(&vec![&a, &b], 3);
    assert_eq!(out, strings(&["a1", "a22", "bb1"]));
}

#[test]
fn concat_of_no_groups_is_the_empty_word() {
    let out = cartesian_concat(&vec![], 3);
    assert_eq!(out, strings(&[""]));
}

#[test]
fn concat_with_an_empty_group_is_empty() {
    let a = strings(&["a"]);
    let none: Vec<String> = Vec::new();
    let out = cartesian_concat(&vec![&a, &none], 3);
    assert!(out.is_empty());
}

#[test]
fn concat_counts_characters() {
    let a = strings(&["é"]);
    let b = strings(&["ü", "xy"]);
    let out = cartesian_concat(&vec![&a, &b], 2);
    assert_eq!(out, strings(&["éü"]));
}

#[test]
fn fits_compares_the_total_length() {
    let a = "ab".to_string();
    let b = "cde".to_string();
    assert!(fits(&vec![&a, &b], 5));
    assert!(!fits(&vec![&a, &b], 4));
    assert!(fits(&vec![], 0));
    assert!(!fits(&vec![&a, &b], 0));
    assert!(fits(&vec![&a], usize::MAX));
}

#[test]
fn repeat_level_two() {
    let pool = strings(&["a", "bc"]);
    assert_eq!(repeat_level(&pool, 2, 3), strings(&["aa", "abc", "bca"]));
    assert_eq!(repeat_level(&pool, 0, 3), strings(&[""]));
    assert_eq!(repeat_level(&pool, 1, 1), strings(&["a"]));
}

#[test]
fn shortest_len_of_pools() {
    assert_eq!(shortest_len(&strings(&[])), 0);
    assert_eq!(shortest_len(&strings(&["abc"])), 3);
    assert_eq!(shortest_len(&strings(&["abc", "de", "fghi"])), 2);
    assert_eq!(shortest_len(&strings(&["abc", ""])), 0);
}

#[test]
fn last_repeat_takes_explicit_or_rounds_up() {
    assert_eq!(last_repeat(&strings(&["ab", "c"]), None, 5), 5);
    assert_eq!(last_repeat(&strings(&["ab", "cd"]), None, 5), 3);
    assert_eq!(last_repeat(&strings(&["ab", "cd"]), None, 4), 2);
    assert_eq!(last_repeat(&strings(&["ab", "cd"]), Some(7), 4), 7);
    assert_eq!(last_repeat(&strings(&[]), None, 4), 4);
    assert_eq!(last_repeat(&strings(&[""]), None, 4), 4);
    assert_eq!(last_repeat(&strings(&["abc"]), None, 0), 0);
}

#[test]
fn repeat_pool_from_one() {
    let pool = strings(&["a", "b"]);
    let out = repeat_pool(&pool, 1, None, 2);
    assert_eq!(out, strings(&["a", "b", "aa", "ab", "ba", "bb"]));
}

#[test]
fn repeat_pool_from_zero_starts_with_the_empty_word() {
    let pool = strings(&["a"]);
    let out = repeat_pool(&pool, 0, Some(1), 3);
    assert_eq!(out[0], "");
    assert_eq!(out, strings(&["", "", "a"]));
}

#[test]
fn repeat_pool_with_explicit_bounds() {
    let pool = strings(&["ab"]);
    let out = repeat_pool(&pool, 2, Some(3), 10);
    assert_eq!(out, strings(&["abab", "ababab"]));
    let cut = repeat_pool(&pool, 2, Some(3), 5);
    assert_eq!(cut, strings(&["abab"]));
}

#[test]
fn repeat_pool_of_nothing() {
    let pool = strings(&[]);
    assert!(repeat_pool(&pool, 1, None, 3).is_empty());
    assert_eq!(repeat_pool(&pool, 0, None, 3), strings(&["", ""]));
    let some = strings(&["a"]);
    assert!(repeat_pool(&some, 3, Some(2), 5).is_empty());
}

#[test]
fn counts_beyond_the_last_give_nothing() {
    let pool = strings(&["ab", "cd"]);
    let last = last_repeat(&pool, None, 5);
    assert_eq!(last, 3);
    assert!(repeat_level(&pool, last + 1, 5).is_empty());
    assert!(repeat_level(&pool, last + 2, 5).is_empty());
    assert_eq!(repeat_level(&pool, 2, 5).len(), 4);
}
