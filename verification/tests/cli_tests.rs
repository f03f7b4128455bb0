use lazyfinder::cli::{context_width, keys_from_arg, prefixes_from_arg, DEFAULT_CONTEXT};

#[test]
fn prefixes_split_on_commas() {
    assert_eq!(prefixes_from_arg(".rs,.toml"), vec![".rs", ".toml"]);
    assert_eq!(prefixes_from_arg(""), vec![""]);
}

#[test]
fn keys_split_unless_pattern() {
    assert_eq!(keys_from_arg("a,b", false), vec!["a", "b"]);
    assert_eq!(keys_from_arg("a,b", true), vec!["a,b"]);
}

#[test]
fn context_width_defaults() {
    assert_eq!(context_width(false, Some(Some(3))), None);
    assert_eq!(context_width(true, Some(Some(3))), Some(3));
    assert_eq!(context_width(true, Some(None)), Some(DEFAULT_CONTEXT));
    assert_eq!(context_width(true, None), Some(10));
}
