use lazyfinder::scanner::{keep_entry, match_records, matches_prefix, process_file, FileMatcher, Reporter};

fn strings(v: &[&str]) -> Vec<String> {
    v.iter().map(|s| s.to_string()).collect()
}

#[test]
fn new_keeps_only_compiling_patterns() {
    let m = FileMatcher::new(strings(&[""]), strings(&["a+", "(", "b"]), true, None, false);
    assert_eq!(m.regex_keys, Some(strings(&["a+", "b"])));
    let n = FileMatcher::new(strings(&[""]), strings(&["("]), false, Some(3), true);
    assert!(n.regex_keys.is_none());
    assert_eq!(n.context, Some(3));
    assert!(n.ignore_dirs);
}

#[test]
fn keyword_matches_with_line_numbers() {
    colored::control::set_override(false);
    let m = FileMatcher::new(strings(&[""]), strings(&["foo"]), false, None, false);
    let recs = match_records(b"foo bar\nbaz foo\nfoo", &m);
    let lines: Vec<usize> = recs.iter().map(|r| r.line_num).collect();
    assert_eq!(lines, vec![1, 2, 3]);
    for r in &recs {
        assert_eq!(r.raw_line, "foo");
        assert_eq!(r.colored_line, "foo");
    }
}

#[test]
fn keyword_matches_do_not_overlap() {
    colored::control::set_override(false);
    let m = FileMatcher::new(strings(&[""]), strings(&["aa"]), false, None, false);
    assert_eq!(match_records(b"aaaaa", &m).len(), 2);
}

#[test]
fn context_and_highlight() {
    colored::control::set_override(true);
    let m = FileMatcher::new(strings(&[""]), strings(&["is a"]), false, Some(5), false);
    let recs = match_records(b"hello world\nthis is a test\nfor lazyfinder", &m);
    assert_eq!(recs.len(), 1);
    assert_eq!(recs[0].line_num, 2);
    assert_eq!(recs[0].raw_line, "this is a test");
    assert_eq!(recs[0].colored_line, "this \x1B[32mis a\x1B[0m test");
}

#[test]
fn pattern_matches_in_key_order() {
    colored::control::set_override(false);
    let m = FileMatcher::new(strings(&[""]), strings(&["b[0-9]", "a[0-9]"]), true, None, false);
    let recs = match_records(b"a1 b2\na3", &m);
    let shown: Vec<(usize, String)> = recs.iter().map(|r| (r.line_num, r.raw_line.clone())).collect();
    assert_eq!(
        shown,
        vec![(1, "b2".to_string()), (1, "a1".to_string()), (2, "a3".to_string())]
    );
}

#[test]
fn invalid_bytes_are_shown_lossily() {
    colored::control::set_override(false);
    let m = FileMatcher::new(strings(&[""]), strings(&["x"]), false, Some(2), false);
    let recs = match_records(b"\xffx", &m);
    assert_eq!(recs.len(), 1);
    assert_eq!(recs[0].raw_line, "\u{FFFD}x");
}

#[test]
fn empty_keyword_matches_everywhere() {
    colored::control::set_override(false);
    let m = FileMatcher::new(strings(&[""]), strings(&[""]), false, None, false);
    assert_eq!(match_records(b"ab", &m).len(), 3);
}

struct Collect {
    events: Vec<String>,
    colored: Vec<String>,
}

impl Reporter for Collect {
    fn on_file_scanned(&mut self, path: &str) {
        self.events.push(format!("scanned {}", path));
    }
    fn on_file_match_start(&mut self, path: &str) {
        self.events.push(format!("start {}", path));
    }
    fn on_match(&mut self, line_num: usize, raw_line: &str, colored_line: &str) {
        self.events.push(format!("{}:{}", line_num, raw_line));
        self.colored.push(colored_line.to_string());
    }
}

#[test]
fn process_file_reports_path_once_then_matches() {
    colored::control::set_override(false);
    let m = FileMatcher::new(strings(&[""]), strings(&["k"]), false, None, false);
    let mut c = Collect { events: Vec::new(), colored: Vec::new() };
    process_file("f.txt", b"k\nk", &m, &mut c);
    assert_eq!(c.events, vec!["start f.txt", "1:k", "2:k"]);
    let mut d = Collect { events: Vec::new(), colored: Vec::new() };
    process_file("g.txt", b"none", &m, &mut d);
    assert!(d.events.is_empty());
}

#[test]
fn prefixes_are_contained_in_names() {
    assert!(matches_prefix("main.rs", &strings(&[".py", ".rs"])));
    assert!(!matches_prefix("main.rs", &strings(&[".py"])));
    assert!(matches_prefix("anything", &strings(&[""])));
    assert!(!matches_prefix("anything", &Vec::new()));
}

#[test]
fn entries_kept_when_skipping_dirs() {
    assert!(!keep_entry(true, "node_modules"));
    assert!(keep_entry(true, "src"));
    assert!(keep_entry(false, "node_modules"));
}

#[test]
fn records_follow_given_spans() {
    colored::control::set_override(false);
    let recs = lazyfinder::scanner::records_for_spans(b"ab\ncd", &[(3, 4), (0, 2)], None);
    let shown: Vec<(usize, String)> = recs.iter().map(|r| (r.line_num, r.raw_line.clone())).collect();
    assert_eq!(shown, vec![(2, "c".to_string()), (1, "ab".to_string())]);
}

#[test]
fn match_record_with_context_and_colour() {
    colored::control::set_override(true);
    let r = lazyfinder::scanner::match_record(b"xx key yy\nz", 3, 6, Some(2));
    assert_eq!(r.line_num, 1);
    assert_eq!(r.raw_line, "x key y");
    assert_eq!(r.colored_line, "x \x1B[32mkey\x1B[0m y");
}

#[test]
fn process_file_reports_each_occurrence_with_its_line() {
    colored::control::set_override(true);
    let m = FileMatcher::new(strings(&[""]), strings(&["ab"]), false, None, false);
    let mut c = Collect { events: Vec::new(), colored: Vec::new() };
    process_file("p", b"ab\nab", &m, &mut c);
    assert_eq!(c.events, vec!["start p", "1:ab", "2:ab"]);
    assert_eq!(c.colored, vec!["\x1B[32mab\x1B[0m", "\x1B[32mab\x1B[0m"]);
}

#[test]
fn process_file_skips_overlapping_occurrences() {
    colored::control::set_override(false);
    let m = FileMatcher::new(strings(&[""]), strings(&["aa"]), false, None, false);
    let mut c = Collect { events: Vec::new(), colored: Vec::new() };
    process_file("p", b"aaaa", &m, &mut c);
    assert_eq!(c.events, vec!["start p", "1:aa", "1:aa"]);
    assert_eq!(c.colored, vec!["aa", "aa"]);
}

#[test]
fn process_file_keeps_context_on_the_line() {
    colored::control::set_override(true);
    let m = FileMatcher::new(strings(&[""]), strings(&["is a"]), false, Some(5), false);
    let mut c = Collect { events: Vec::new(), colored: Vec::new() };
    process_file("p", b"hello world\nthis is a test\nfor lazyfinder", &m, &mut c);
    assert_eq!(c.events, vec!["start p", "2:this is a test"]);
    assert_eq!(c.colored, vec!["this \x1B[32mis a\x1B[0m test"]);
}

#[test]
fn process_file_reports_pattern_matches() {
    colored::control::set_override(false);
    let m = FileMatcher::new(strings(&[""]), strings(&["[0-9]+", "("]), true, None, false);
    let mut c = Collect { events: Vec::new(), colored: Vec::new() };
    process_file("p", b"a12\nb3", &m, &mut c);
    assert_eq!(c.events, vec!["start p", "1:12", "2:3"]);
}

#[test]
fn context_counts_characters() {
    colored::control::set_override(false);
    let content = "中文key中文".as_bytes();
    let r = lazyfinder::scanner::match_record(content, 6, 9, Some(1));
    assert_eq!(r.raw_line, "文key中");
    assert_eq!(r.line_num, 1);
}
