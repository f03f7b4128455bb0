//! Regular expressions, through the `regex` crate. What a pattern matches is named,
//! not restated: the crate decides it.
use vstd::prelude::*;

verus! {

/// Whether `regex::bytes::Regex::new` accepts `pattern`.
pub uninterp spec fn byte_regex_compiles(pattern: Seq<char>) -> bool;

/// The spans `(start, end)` that `regex::bytes::Regex::find_iter` reports for `pattern`
/// on `haystack`.
pub uninterp spec fn byte_regex_spans(pattern: Seq<char>, haystack: Seq<u8>) -> Seq<(usize, usize)>;

/// Whether `regex::Regex::new` accepts `pattern`.
pub uninterp spec fn text_regex_compiles(pattern: Seq<char>) -> bool;

/// What `regex::Regex::is_match` answers for `pattern` on `haystack`.
pub uninterp spec fn text_regex_is_match(pattern: Seq<char>, haystack: Seq<char>) -> bool;

/// The texts of the matches that `regex::Regex::find_iter` reports for `pattern` on
/// `haystack`.
pub uninterp spec fn text_regex_found(pattern: Seq<char>, haystack: Seq<char>) -> Seq<Seq<char>>;

/// Spans that lie within a haystack of length `len`, each starting no earlier than the
/// previous one ends.
pub open spec fn spans_in_order(spans: Seq<(usize, usize)>, len: int) -> bool {
    &&& forall|k: int| 0 <= k < spans.len() ==> #[trigger] spans[k].0 <= spans[k].1 <= len
    &&& forall|k: int| 0 < k < spans.len() ==> spans[k - 1].1 <= #[trigger] spans[k].0
}

/// Whether `pattern` compiles as a regular expression over bytes, through
/// `regex::bytes::Regex::new`. Trusted to answer `byte_regex_compiles`.
#[verifier::external_body]
pub(crate) fn byte_regex_is_valid(pattern: &str) -> (res: bool)
    ensures
        res == byte_regex_compiles(pattern@),
{
    regex::bytes::Regex::new(pattern).is_ok()
}

/// The spans of the successive non-overlapping matches of `pattern` in `haystack`,
/// through `regex::bytes::Regex::new` and `find_iter`; `None` when the pattern does not
/// compile. Trusted to give `byte_regex_spans`, whose spans lie in the haystack in order
/// (the crate documents each match's start as no greater than its end, and the matches
/// as successive and non-overlapping). Which spans those are is left to the crate.
#[verifier::external_body]
pub(crate) fn byte_regex_find_all(pattern: &str, haystack: &[u8]) -> (res: Option<
    Vec<(usize, usize)>,
>)
    ensures
        res is Some <==> byte_regex_compiles(pattern@),
        res matches Some(spans) ==> spans@ == byte_regex_spans(pattern@, haystack@),
        res matches Some(spans) ==> spans_in_order(spans@, haystack@.len() as int),
{
    match regex::bytes::Regex::new(pattern) {
        Ok(re) => Some(re.find_iter(haystack).map(|m| (m.start(), m.end())).collect()),
        Err(_) => None,
    }
}

/// Whether `pattern` compiles as a regular expression over text, through
/// `regex::Regex::new`. Trusted to answer `text_regex_compiles`.
#[verifier::external_body]
pub(crate) fn text_regex_is_valid(pattern: &str) -> (res: bool)
    ensures
        res == text_regex_compiles(pattern@),
{
    regex::Regex::new(pattern).is_ok()
}

/// Whether `pattern` matches anywhere in `haystack`, through `regex::Regex::new` and
/// `is_match`; `None` when the pattern does not compile. Trusted to give
/// `text_regex_is_match`.
#[verifier::external_body]
pub(crate) fn text_regex_matches(pattern: &str, haystack: &str) -> (res: Option<bool>)
    ensures
        res is Some <==> text_regex_compiles(pattern@),
        res matches Some(b) ==> b == text_regex_is_match(pattern@, haystack@),
{
    match regex::Regex::new(pattern) {
        Ok(re) => Some(re.is_match(haystack)),
        Err(_) => None,
    }
}

/// The texts of the successive non-overlapping matches of `pattern` in `haystack`,
/// through `regex::Regex::new` and `find_iter`; `None` when the pattern does not compile.
/// Trusted to give `text_regex_found`.
#[verifier::external_body]
pub(crate) fn text_regex_find_all(pattern: &str, haystack: &str) -> (res: Option<Vec<String>>)
    ensures
        res is Some <==> text_regex_compiles(pattern@),
        res matches Some(found) ==> found.deep_view() == text_regex_found(pattern@, haystack@),
{
    match regex::Regex::new(pattern) {
        Ok(re) => Some(re.find_iter(haystack).map(|m| m.as_str().to_string()).collect()),
        Err(_) => None,
    }
}

/// Whether `c` has a meaning of its own in a pattern and is escaped by `regex::escape`.
pub open spec fn is_meta_character(c: char) -> bool {
    c == '\\' || c == '.' || c == '+' || c == '*' || c == '?' || c == '(' || c == ')' || c
        == '|' || c == '[' || c == ']' || c == '{' || c == '}' || c == '^' || c == '$' || c
        == '#' || c == '&' || c == '-' || c == '~'
}

/// `text` with a backslash put before each meta character.
pub open spec fn escaped(text: Seq<char>) -> Seq<char>
    decreases text.len(),
{
    if text.len() == 0 {
        seq![]
    } else {
        escaped(text.drop_last()) + if is_meta_character(text.last()) {
            seq!['\\', text.last()]
        } else {
            seq![text.last()]
        }
    }
}

/// A pattern that matches `text` literally, through `regex::escape`.
/// Trusted to put a backslash before each meta character and change nothing else.
#[verifier::external_body]
pub(crate) fn escape(text: &str) -> (res: String)
    ensures
        res@ == escaped(text@),
{
    regex::escape(text)
}


/// Escaping works character by character: escaping a joined text escapes each part,
/// a meta character gets a backslash before it, any other character stays as it is;
/// so a text without meta characters is left unchanged.
pub proof fn law_escape_by_character(a: Seq<char>, b: Seq<char>, c: char)
    ensures
        escaped(a + b) == escaped(a) + escaped(b),
        escaped(seq![c]) == if is_meta_character(c) {
            seq!['\\', c]
        } else {
            seq![c]
        },
        (forall|j: int| 0 <= j < a.len() ==> !is_meta_character(#[trigger] a[j])) ==> escaped(a)
            == a,
    decreases b.len(),
{
    assert(seq![c].drop_last() =~= Seq::<char>::empty());
    assert(escaped(Seq::<char>::empty()) =~= Seq::<char>::empty());
    if b.len() == 0 {
        assert(a + b =~= a);
        assert(escaped(a) + escaped(b) =~= escaped(a));
    } else {
        law_escape_by_character(a, b.drop_last(), c);
        assert((a + b).drop_last() =~= a + b.drop_last());
        assert((a + b).last() == b.last());
    }
    if forall|j: int| 0 <= j < a.len() ==> !is_meta_character(#[trigger] a[j]) {
        lemma_escaped_plain(a);
    }
}

proof fn lemma_escaped_plain(a: Seq<char>)
    requires
        forall|j: int| 0 <= j < a.len() ==> !is_meta_character(#[trigger] a[j]),
    ensures
        escaped(a) == a,
    decreases a.len(),
{
    if a.len() > 0 {
        assert(forall|j: int| 0 <= j < a.drop_last().len() ==> a.drop_last()[j] == a[j]);
        lemma_escaped_plain(a.drop_last());
        assert(a.drop_last().push(a.last()) =~= a);
    }
}

} // verus!
