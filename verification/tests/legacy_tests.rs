use lazyfinder::{normal_search, reg_search, run, FileMatcher, KeyOutcome};

fn shown(hits: &[lazyfinder::LineHit]) -> Vec<(usize, String)> {
    hits.iter().map(|h| (h.line, h.text.clone())).collect()
}

#[test]
fn normal_search_lists_lines_with_key() {
    let hits = normal_search("foo", "foo\nbar\nbarfoo\n").unwrap();
    assert_eq!(shown(&hits), vec![(1, "foo".to_string()), (3, "barfoo".to_string())]);
    assert!(normal_search("zzz", "foo").is_none());
}

#[test]
fn reg_search_lists_each_match() {
    let hits = reg_search("[0-9]+", "a1b22\nxx\n333").unwrap();
    assert_eq!(
        shown(&hits),
        vec![(1, "1".to_string()), (1, "22".to_string()), (3, "333".to_string())]
    );
    assert!(reg_search("q", "abc").is_none());
}

#[test]
fn reg_search_is_gated_by_whole_text() {
    // matches the whole text only across the line feed: the file is reported, no line is
    let hits = reg_search("a\nb", "a\nb").unwrap();
    assert!(hits.is_empty());
}

#[test]
fn run_stops_at_invalid_pattern() {
    let name = "f".to_string();
    let keys = vec!["a".to_string(), "(".to_string(), "b".to_string()];
    let reg = true;
    let out = run(FileMatcher::new(&name, &keys, &reg), "a b");
    assert_eq!(out.len(), 2);
    assert!(matches!(out[0], KeyOutcome::Found(_)));
    assert!(matches!(out[1], KeyOutcome::InvalidPattern));
}

#[test]
fn run_searches_every_keyword() {
    let name = "f".to_string();
    let keys = vec!["a".to_string(), "z".to_string()];
    let reg = false;
    let out = run(FileMatcher::new(&name, &keys, &reg), "a\nb a");
    assert_eq!(out.len(), 2);
    match &out[0] {
        KeyOutcome::Found(h) => assert_eq!(shown(h), vec![(1, "a".to_string()), (2, "b a".to_string())]),
        _ => panic!("expected hits"),
    }
    assert!(matches!(out[1], KeyOutcome::NoMatch));
}

#[test]
fn number_hits_counts_lines_from_one() {
    let found = vec![
        vec!["a".to_string()],
        vec![],
        vec!["b".to_string(), "c".to_string()],
    ];
    let hits = lazyfinder::number_hits(&found);
    assert_eq!(
        shown(&hits),
        vec![(1, "a".to_string()), (3, "b".to_string()), (3, "c".to_string())]
    );
}
