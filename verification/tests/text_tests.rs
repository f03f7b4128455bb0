use lazyfinder::text::{join, lines, replace_all, split_on_char, str_contains, str_equals};

#[test]
fn contains_finds_substrings() {
    assert!(str_contains("hello world", "o w"));
    assert!(str_contains("hello", ""));
    assert!(str_contains("", ""));
    assert!(!str_contains("hello", "world"));
    assert!(!str_contains("he", "hello"));
}

#[test]
fn equals_compares_texts() {
    assert!(str_equals("abc", "abc"));
    assert!(!str_equals("abc", "abd"));
    assert!(!str_equals("abc", "ab"));
}

#[test]
fn replace_all_replaces_non_overlapping() {
    assert_eq!(replace_all("aaa", "aa", "b"), "ba");
    assert_eq!(replace_all("one two one", "one", "1"), "1 two 1");
    assert_eq!(replace_all("abc", "x", "y"), "abc");
}

#[test]
fn replace_all_with_empty_pattern() {
    assert_eq!(replace_all("abc", "", "x"), "xaxbxcx");
    assert_eq!(replace_all("", "", "x"), "x");
}

#[test]
fn split_keeps_empty_pieces() {
    assert_eq!(split_on_char("a,,b", ','), vec!["a", "", "b"]);
    assert_eq!(split_on_char("", ','), vec![""]);
    assert_eq!(split_on_char(",", ','), vec!["", ""]);
}

#[test]
fn lines_follow_str_lines() {
    let text = "a\r\nb\n\nc\r";
    let expected: Vec<&str> = text.lines().collect();
    assert_eq!(lines(text), expected);
    assert_eq!(lines("x\n"), vec!["x"]);
    assert!(lines("").is_empty());
}

#[test]
fn join_puts_separator_between() {
    assert_eq!(join(&["a", "b", "c"], "|"), "a|b|c");
    assert_eq!(join(&["a"], "|"), "a");
    assert_eq!(join(&[], "|"), "");
}

#[test]
fn split_then_join_gives_back_text() {
    let text = "x,,y,z";
    let pieces = split_on_char(text, ',');
    let refs: Vec<&str> = pieces.iter().map(|s| s.as_str()).collect();
    assert_eq!(join(&refs, ","), text);
}

#[test]
fn replacing_by_itself_changes_nothing() {
    assert_eq!(replace_all("abab cab", "ab", "ab"), "abab cab");
    assert_eq!(replace_all("abc", "", ""), "abc");
}
