use kmp::kmp::{char_at, prefix_function, search, string_match};

#[test]
fn prefix_match_table() {
    assert_eq!(prefix_function("ABCDABD"), vec![-1, -1, -1, -1, 0, 1, -1]);
    assert_eq!(prefix_function("AAAA"), vec![-1, 0, 1, 2]);
    assert_eq!(prefix_function("ABAB"), vec![-1, -1, 0, 1]);
}

#[test]
fn kmp_match() {
    let result = string_match("ABCDABD", "ABC ABCDAB ABCDABCDABDABCDABDE");
    assert_eq!(result, vec![15, 22]);

    assert_eq!(string_match("ABAB", "aaaABCABABcc"), vec![6]);
}

#[test]
fn table_first_entry_is_minus_one() {
    for pattern in ["A", "AB", "AAAA", "ABCDABD", "xyzxyzxy"] {
        let table = prefix_function(pattern);
        assert_eq!(table[0], -1);
    }
}

#[test]
fn table_entries_below_their_position() {
    for pattern in ["A", "ABAB", "AAAA", "ABCDABD", "abcabcabd"] {
        let table = prefix_function(pattern);
        for (q, &v) in table.iter().enumerate() {
            assert!((v as i64) < (q as i64));
        }
    }
}

#[test]
fn reported_offsets_are_occurrences() {
    let pattern = "aba";
    let text = "abababa";
    let offsets = string_match(pattern, text);
    assert_eq!(offsets, vec![0, 2, 4]);
    let text_chars: Vec<char> = text.chars().collect();
    let pattern_chars: Vec<char> = pattern.chars().collect();
    for &o in &offsets {
        assert_eq!(&text_chars[o..o + pattern_chars.len()], &pattern_chars[..]);
    }
}

#[test]
fn overlapping_occurrences_all_reported_in_order() {
    assert_eq!(string_match("AA", "AAAA"), vec![0, 1, 2]);
    assert_eq!(string_match("aa", "aabaaa"), vec![0, 3, 4]);
}

#[test]
fn search_with_precomputed_table() {
    let pattern = "ABCDABD";
    let table = prefix_function(pattern);
    let offsets = search(pattern, &table, "ABC ABCDAB ABCDABCDABDABCDABDE");
    assert_eq!(offsets, vec![15, 22]);

    let pattern = "ABAB";
    let table = prefix_function(pattern);
    assert_eq!(search(pattern, &table, "aaaABCABABcc"), vec![6]);
}

#[test]
fn text_shorter_than_pattern() {
    assert_eq!(string_match("ABCDABD", "ABC"), Vec::<usize>::new());
    let table = prefix_function("ABCDABD");
    assert_eq!(search("ABCDABD", &table, "ABC"), Vec::<usize>::new());
}

#[test]
fn empty_pattern_matches_nowhere() {
    assert_eq!(string_match("", "anything"), Vec::<usize>::new());
    let table = prefix_function("");
    assert_eq!(table, Vec::<i32>::new());
    assert_eq!(search("", &table, "anything"), Vec::<usize>::new());
}

#[test]
fn empty_text() {
    assert_eq!(string_match("a", ""), Vec::<usize>::new());
}

#[test]
fn single_character_pattern() {
    assert_eq!(string_match("a", "banana"), vec![1, 3, 5]);
}

#[test]
fn pattern_equals_text() {
    assert_eq!(string_match("needle", "needle"), vec![0]);
}

#[test]
fn no_occurrence() {
    assert_eq!(string_match("xyz", "abcabcabc"), Vec::<usize>::new());
}

#[test]
fn char_at_returns_position() {
    let s = "hello";
    assert_eq!(char_at(s, 0), 'h');
    assert_eq!(char_at(s, 4), 'o');
}
