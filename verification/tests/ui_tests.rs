use lazyfinder::ui::{
    decimal_text, line_width, log_line, path_width, screen_line, separator_width, should_redraw,
    shorten_path, RecentMatches,
};

#[test]
fn recent_matches_keep_last_five() {
    let mut r = RecentMatches::new();
    for i in 0..7 {
        r.push(format!("m{}", i));
    }
    assert_eq!(r.len(), 5);
    let kept: Vec<String> = (0..5).map(|i| r.get(i).unwrap().clone()).collect();
    assert_eq!(kept, vec!["m2", "m3", "m4", "m5", "m6"]);
    assert!(r.get(5).is_none());
}

#[test]
fn widths_follow_terminal() {
    assert_eq!(path_width(80), 65);
    assert_eq!(path_width(20), 10);
    assert_eq!(separator_width(120), 80);
    assert_eq!(separator_width(40), 40);
    assert_eq!(line_width(80), 78);
    assert_eq!(line_width(1), 0);
}

#[test]
fn long_paths_are_shortened() {
    // room is 10 on a narrow terminal: "..." and the last 7 bytes
    assert_eq!(shorten_path("/a/b/c/d/e/file.rs", 20), "...file.rs");
    assert_eq!(shorten_path("short.rs", 20), "short.rs");
    assert_eq!(shorten_path("abcdefghij", 20), "abcdefghij");
}

#[test]
fn redraw_is_throttled() {
    assert!(should_redraw(true, 0));
    assert!(!should_redraw(false, 49));
    assert!(should_redraw(false, 50));
}

#[test]
fn decimal_text_writes_numbers() {
    assert_eq!(decimal_text(0), "0");
    assert_eq!(decimal_text(7), "7");
    assert_eq!(decimal_text(42), "42");
    assert_eq!(decimal_text(1000), "1000");
    assert_eq!(decimal_text(usize::MAX), usize::MAX.to_string());
}

#[test]
fn log_line_has_no_colour() {
    assert_eq!(log_line(12, "a = b"), "\tline 12: a = b");
}

#[test]
fn screen_line_paints_word_and_number() {
    colored::control::set_override(true);
    assert_eq!(
        screen_line(3, "x"),
        "\t\x1B[31mline\x1B[0m \x1B[36m3\x1B[0m: x"
    );
    colored::control::set_override(false);
    assert_eq!(screen_line(3, "x"), "\tline 3: x");
}
