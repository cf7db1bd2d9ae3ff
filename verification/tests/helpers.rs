use regexer::flags::{clear_flags, merge_flags, same_flags};
use regexer::text::{chars_of, contains_text, same_text};

#[test]
fn clear_flags_are_all_clear() {
    assert_eq!(clear_flags(0), Vec::<bool>::new());
    assert_eq!(clear_flags(3), vec![false, false, false]);
}

#[test]
fn same_flags_compares_every_flag() {
    assert!(same_flags(&vec![], &vec![]));
    assert!(same_flags(&vec![true, false], &vec![true, false]));
    assert!(!same_flags(&vec![true, false], &vec![true, true]));
    assert!(!same_flags(&vec![true], &vec![true, false]));
}

#[test]
fn merge_sets_what_is_set_in_either() {
    let mut into = vec![true, false, false, true];
    merge_flags(&mut into, &vec![false, false, true, true]);
    assert_eq!(into, vec![true, false, true, true]);
}

#[test]
fn chars_of_lists_characters() {
    assert_eq!(chars_of(""), Vec::<char>::new());
    assert_eq!(chars_of("aé("), vec!['a', 'é', '(']);
}

#[test]
fn same_text_compares_characters() {
    assert!(same_text("", ""));
    assert!(same_text("dfa", "dfa"));
    assert!(!same_text("dfa", "dfb"));
    assert!(!same_text("dfa", "df"));
    assert!(!same_text("df", "dfa"));
}

#[test]
fn contains_text_finds_a_piece() {
    assert!(contains_text("No matches found.", "No matches found"));
    assert!(contains_text("abc", ""));
    assert!(contains_text("", ""));
    assert!(contains_text("abc", "c"));
    assert!(contains_text("abc", "abc"));
    assert!(contains_text("aab", "ab"));
    assert!(!contains_text("abc", "abcd"));
    assert!(!contains_text("abc", "ac"));
    assert!(!contains_text("", "a"));
    assert!(contains_text("xéy", "éy"));
}
