use lazyfinder::utils::{count_lines, extract_context, truncate_to_width};

#[test]
fn test_extract_context() {
    let content = b"hello world\nthis is a test\nfor lazyfinder";

    // the match "is a"
    let start = 17;
    let end = 21;

    // five characters of context
    let ctx = extract_context(content, start, end, 5);
    assert_eq!(ctx, b"this is a test");

    // the context does not cross a line feed
    let ctx_large = extract_context(content, start, end, 100);
    assert_eq!(ctx_large, b"this is a test");

    // a match alone on its line
    let content2 = b"line1\nalone\nline3";
    let start2 = 6;
    let end2 = 11;
    let ctx_alone = extract_context(content2, start2, end2, 10);
    assert_eq!(ctx_alone, b"alone");
}

#[test]
fn extract_context_limits_each_side() {
    let content = b"abcdefghijklmnop";
    // match "gh" at 6..8, two characters on each side
    assert_eq!(extract_context(content, 6, 8, 2), b"efghij");
    // no context at all
    assert_eq!(extract_context(content, 6, 8, 0), b"gh");
    // at the very start and end of the buffer
    assert_eq!(extract_context(content, 0, 1, 3), b"abcd");
    assert_eq!(extract_context(content, 15, 16, 3), b"mnop");
}

#[test]
fn extract_context_stops_after_newline_before() {
    let content = b"ab\ncdXef\ngh";
    // match "X" at 5..6, wide context stays on the middle line
    assert_eq!(extract_context(content, 5, 6, 50), b"cdXef");
    // an empty match
    assert_eq!(extract_context(content, 5, 5, 1), b"dX");
}

#[test]
fn count_lines_counts_from_one() {
    let content = b"a\nb\nc";
    assert_eq!(count_lines(content, 0), 1);
    assert_eq!(count_lines(content, 1), 1);
    assert_eq!(count_lines(content, 2), 2);
    assert_eq!(count_lines(content, 4), 3);
    assert_eq!(count_lines(content, 5), 3);
    assert_eq!(count_lines(b"", 0), 1);
}

#[test]
fn truncate_keeps_short_lines() {
    assert_eq!(truncate_to_width("hello", 10), "hello");
    assert_eq!(truncate_to_width("hello", 5), "hello");
    assert_eq!(truncate_to_width("", 0), "");
}

#[test]
fn truncate_cuts_long_lines() {
    assert_eq!(truncate_to_width("hello world", 5), "hello...\x1B[0m");
    assert_eq!(truncate_to_width("abc", 0), "...\x1B[0m");
}

#[test]
fn truncate_does_not_count_escape_sequences() {
    let line = "\x1B[31mred\x1B[0m text";
    assert_eq!(truncate_to_width(line, 3), "\x1B[31mred\x1B[0m...\x1B[0m");
    assert_eq!(truncate_to_width(line, 8), line);
}

#[test]
fn truncate_counts_characters_not_bytes() {
    assert_eq!(truncate_to_width("黑风雷", 3), "黑风雷");
    assert_eq!(truncate_to_width("黑风雷", 2), "黑风...\x1B[0m");
}

#[test]
fn extract_context_counts_characters_not_bytes() {
    let content = "中文key中文".as_bytes();
    assert_eq!(extract_context(content, 6, 9, 1), "文key中".as_bytes());
    assert_eq!(extract_context(content, 6, 9, 2), content);
    assert_eq!(extract_context(content, 6, 9, 0), b"key");
    // a line feed still ends the context
    let content2 = "é\nàkeyç\nü".as_bytes();
    assert_eq!(extract_context(content2, 5, 8, 3), "àkeyç".as_bytes());
}

#[test]
fn truncate_twice_narrows_like_once() {
    let line = "\x1B[31mred\x1B[0m and more text";
    let once = truncate_to_width(line, 6);
    assert_eq!(truncate_to_width(&once, 6), once);
    assert_eq!(truncate_to_width(&once, 4), truncate_to_width(line, 4));
    assert_eq!(truncate_to_width(&once, 4), "\x1B[31mred\x1B[0m ...\x1B[0m");
}

#[test]
fn truncated_width_is_max_plus_ellipsis() {
    // "hello..." shows eight characters after a cut at five
    let cut = truncate_to_width("hello world", 5);
    assert_eq!(cut.trim_end_matches("\x1B[0m").chars().count(), 8);
}
