use calendar::clock::local_now_strings;
use calendar::strutil::{contains_sub, split_char, str_eq, str_lt};

#[test]
fn str_lt_is_lexicographic_by_code_point() {
    assert!(str_lt("2025-01-31", "2025-02-01"));
    assert!(!str_lt("2025-02-01", "2025-01-31"));
    assert!(!str_lt("2025-02-01", "2025-02-01"));
    assert!(str_lt("", "a"));
    assert!(!str_lt("a", ""));
    assert!(str_lt("ab", "abc"));
    assert!(str_lt("09:00", "10:00"));
    assert_eq!(str_lt("abc", "abd"), "abc" < "abd");
}

#[test]
fn str_eq_compares_contents() {
    assert!(str_eq("", ""));
    assert!(str_eq("2025-02-01", "2025-02-01"));
    assert!(!str_eq("2025-02-01", "2025-02-02"));
    assert!(!str_eq("a", "ab"));
}

#[test]
fn contains_sub_finds_substrings() {
    assert!(contains_sub("team lunch", "lunch"));
    assert!(contains_sub("lunch", "lunch"));
    assert!(contains_sub("anything", ""));
    assert!(contains_sub("", ""));
    assert!(!contains_sub("", "a"));
    assert!(!contains_sub("team lunch", "Lunch"));
    assert_eq!(contains_sub("aaab", "aab"), "aaab".contains("aab"));
}

#[test]
fn split_char_keeps_empty_pieces() {
    let parts = split_char("1|A|2025-02-01|10:00|x", '|');
    assert_eq!(parts, vec!["1", "A", "2025-02-01", "10:00", "x"]);
    assert_eq!(split_char("", '|'), vec![""]);
    assert_eq!(split_char("||", '|'), vec!["", "", ""]);
    assert_eq!(split_char("a|", '|'), vec!["a", ""]);
    assert_eq!(split_char("a\nb\n", '\n'), vec!["a", "b", ""]);
}

#[test]
fn clock_yields_date_and_time_shaped_strings() {
    let (date, time) = local_now_strings();
    assert_eq!(date.len(), 10);
    assert_eq!(&date[4..5], "-");
    assert_eq!(&date[7..8], "-");
    assert_eq!(time.len(), 5);
    assert_eq!(&time[2..3], ":");
}
