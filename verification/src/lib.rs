//! Fast file and content search: which files to scan, where a keyword or a
//! pattern occurs in a file, and how each occurrence is shown.
//!
//! The root module keeps the line-oriented search of single files; `scanner`
//! holds the byte-oriented engine that walks whole directory trees.
use vstd::prelude::*;

pub mod cli;
pub mod pattern;
pub mod scanner;
pub mod search;
pub mod sensitive;
pub mod style;
pub mod text;
pub mod ui;
pub mod utils;

use crate::pattern::{
    text_regex_compiles, text_regex_find_all, text_regex_found, text_regex_is_match,
    text_regex_is_valid, text_regex_matches,
};
use crate::text::{contains_text, lines, lines_of, str_contains};

verus! {

/// A file to search and what to search it for.
pub struct FileMatcher<'a> {
    pub filename: &'a String,
    pub keys: &'a Vec<String>,
    pub is_reg_word: &'a bool,
}

impl<'a> FileMatcher<'a> {
    pub fn new(filename: &'a String, k: &'a Vec<String>, iw: &'a bool) -> (res: FileMatcher<'a>)
        ensures
            res.filename == filename,
            res.keys == k,
            res.is_reg_word == iw,
    {
        let keys = k;
        let is_reg_word = iw;
        FileMatcher { filename, keys, is_reg_word }
    }
}

/// A line that holds a match: its number, counted from 1, and the text shown for it.
pub struct LineHit {
    pub line: usize,
    pub text: String,
}

/// A hit as a line number and a text.
pub open spec fn hit_view(h: LineHit) -> (int, Seq<char>) {
    (h.line as int, h.text@)
}

/// The hits of a list, as line numbers and texts.
pub open spec fn hits_view(hits: Seq<LineHit>) -> Seq<(int, Seq<char>)> {
    hits.map_values(|h: LineHit| hit_view(h))
}

/// The texts found on each line, line after line, each with the number of its line.
pub open spec fn numbered(found: Seq<Seq<Seq<char>>>) -> Seq<(int, Seq<char>)>
    decreases found.len(),
{
    if found.len() == 0 {
        seq![]
    } else {
        numbered(found.drop_last()) + found.last().map_values(
            |t: Seq<char>| (found.len() as int, t),
        )
    }
}

/// The matched texts of `pattern` in each of `lines`, line after line, each with the
/// number of its line.
pub open spec fn pattern_hits(pattern: Seq<char>, lines: Seq<Seq<char>>) -> Seq<(int, Seq<char>)> {
    numbered(lines.map_values(|l: Seq<char>| text_regex_found(pattern, l)))
}

/// Numbers the texts found on each line by their line, counted from 1.
pub fn number_hits(found: &Vec<Vec<String>>) -> (res: Vec<LineHit>)
    ensures
        hits_view(res@) == numbered(found.deep_view()),
{
    let ghost fv = found.deep_view();
    let mut hits: Vec<LineHit> = Vec::new();
    let mut i: usize = 0;
    while i < found.len()
        invariant
            fv == found.deep_view(),
            i <= fv.len(),
            hits_view(hits@) == numbered(fv.take(i as int)),
        decreases found.len() - i,
    {
        let ghost before = hits_view(hits@);
        let count = i + 1;
        let line_found = &found[i];
        let ghost lv = line_found.deep_view();
        proof {
            assert(fv.take(i + 1).drop_last() =~= fv.take(i as int));
            assert(fv.take(i + 1).last() == lv);
        }
        let mut j: usize = 0;
        while j < line_found.len()
            invariant
                lv == line_found.deep_view(),
                j <= lv.len(),
                count == i + 1,
                hits_view(hits@) == before + lv.take(j as int).map_values(
                    |t: Seq<char>| (count as int, t),
                ),
            decreases line_found.len() - j,
        {
            let ghost prev = hits@;
            hits.push(LineHit { line: count, text: line_found[j].clone() });
            proof {
                assert(hits_view(hits@) =~= hits_view(prev).push((count as int, lv[j as int])));
                assert(lv.take(j + 1).map_values(|t: Seq<char>| (count as int, t)) =~= lv.take(
                    j as int,
                ).map_values(|t: Seq<char>| (count as int, t)).push((count as int, lv[j as int])));
            }
            j += 1;
        }
        proof {
            assert(lv.take(j as int) =~= lv);
        }
        i += 1;
    }
    proof {
        assert(fv.take(i as int) =~= fv);
    }
    hits
}

/// The lines among `lines` that contain `key`, each with its number.
pub open spec fn keyword_hits(key: Seq<char>, lines: Seq<Seq<char>>) -> Seq<(int, Seq<char>)>
    decreases lines.len(),
{
    if lines.len() == 0 {
        seq![]
    } else {
        keyword_hits(key, lines.drop_last()) + if contains_text(lines.last(), key) {
            seq![(lines.len() as int, lines.last())]
        } else {
            seq![]
        }
    }
}

/// Searches `contents` for the pattern `rm`: nothing when it matches nowhere, else
/// every match of each line, with the line's number.
pub fn reg_search(rm: &str, contents: &str) -> (res: Option<Vec<LineHit>>)
    requires
        text_regex_compiles(rm@),
    ensures
        res is Some <==> text_regex_is_match(rm@, contents@),
        res matches Some(hits) ==> hits_view(hits@) == pattern_hits(rm@, lines_of(contents@)),
{
    match text_regex_matches(rm, contents) {
        Some(true) => {},
        _ => {
            return None;
        },
    }
    let all_lines = lines(contents);
    let ghost ls = all_lines.deep_view();
    let mut found: Vec<Vec<String>> = Vec::new();
    let mut i: usize = 0;
    while i < all_lines.len()
        invariant
            ls == all_lines.deep_view(),
            ls == lines_of(contents@),
            text_regex_compiles(rm@),
            i <= ls.len(),
            found.deep_view() == ls.take(i as int).map_values(
                |l: Seq<char>| text_regex_found(rm@, l),
            ),
        decreases all_lines.len() - i,
    {
        let ghost before = found.deep_view();
        match text_regex_find_all(rm, all_lines[i].as_str()) {
            Some(on_line) => {
                let ghost found_here = on_line.deep_view();
                found.push(on_line);
                proof {
                    assert(found.deep_view() =~= before.push(found_here));
                    assert(ls[i as int] == all_lines@[i as int]@);
                    assert(found.deep_view() =~= ls.take(i + 1).map_values(
                        |l: Seq<char>| text_regex_found(rm@, l),
                    ));
                }
            },
            None => {},
        }
        i += 1;
    }
    proof {
        assert(ls.take(i as int) =~= ls);
    }
    Some(number_hits(&found))
}

/// Searches `contents` for the keyword `key`: nothing when it occurs nowhere, else
/// every line that contains it, with the line's number.
pub fn normal_search(key: &str, contents: &str) -> (res: Option<Vec<LineHit>>)
    ensures
        res is Some <==> contains_text(contents@, key@),
        res matches Some(hits) ==> hits_view(hits@) == keyword_hits(key@, lines_of(contents@)),
{
    if !str_contains(contents, key) {
        return None;
    }
    let all_lines = lines(contents);
    let ghost ls = all_lines.deep_view();
    let mut hits: Vec<LineHit> = Vec::new();
    let mut i: usize = 0;
    while i < all_lines.len()
        invariant
            ls == all_lines.deep_view(),
            ls == lines_of(contents@),
            i <= ls.len(),
            hits_view(hits@) == keyword_hits(key@, ls.take(i as int)),
        decreases all_lines.len() - i,
    {
        let count = i + 1;
        let ghost prev = hits@;
        proof {
            assert(ls.take(i + 1).drop_last() =~= ls.take(i as int));
            assert(ls.take(i + 1).last() == all_lines@[i as int]@);
        }
        if str_contains(all_lines[i].as_str(), key) {
            hits.push(LineHit { line: count, text: all_lines[i].clone() });
            proof {
                assert(hits_view(hits@) =~= hits_view(prev).push((count as int, ls[i as int])));
            }
        } else {
            proof {
                assert(hits_view(prev) + seq![] =~= hits_view(prev));
            }
        }
        i += 1;
    }
    proof {
        assert(ls.take(i as int) =~= ls);
    }
    Some(hits)
}

/// What the search for one key gave.
pub enum KeyOutcome {
    /// The key occurs nowhere in the file.
    NoMatch,
    /// The lines that hold the key.
    Found(Vec<LineHit>),
    /// The key is a pattern that does not compile; the search stops there.
    InvalidPattern,
}

/// `outcome` is what searching `contents` for `key` gives.
pub open spec fn is_outcome(outcome: KeyOutcome, key: Seq<char>, contents: Seq<char>, is_reg: bool) -> bool {
    if is_reg {
        if !text_regex_compiles(key) {
            outcome is InvalidPattern
        } else if !text_regex_is_match(key, contents) {
            outcome is NoMatch
        } else {
            outcome matches KeyOutcome::Found(hits) && hits_view(hits@) == pattern_hits(
                key,
                lines_of(contents),
            )
        }
    } else if !contains_text(contents, key) {
        outcome is NoMatch
    } else {
        outcome matches KeyOutcome::Found(hits) && hits_view(hits@) == keyword_hits(
            key,
            lines_of(contents),
        )
    }
}

/// Searches the contents of the matcher's file for each key in turn, stopping at the
/// first pattern that does not compile.
pub fn run(file_matcher: FileMatcher, contents: &str) -> (res: Vec<KeyOutcome>)
    ensures
        res@.len() <= file_matcher.keys@.len(),
        forall|i: int|
            0 <= i < res@.len() ==> is_outcome(
                #[trigger] res@[i],
                file_matcher.keys@[i]@,
                contents@,
                *file_matcher.is_reg_word,
            ),
        forall|i: int| 0 <= i < res@.len() - 1 ==> !(#[trigger] res@[i] is InvalidPattern),
        res@.len() < file_matcher.keys@.len() ==> res@.len() > 0 && res@.last() is InvalidPattern,
{
    let mut out: Vec<KeyOutcome> = Vec::new();
    let mut k: usize = 0;
    while k < file_matcher.keys.len()
        invariant
            k <= file_matcher.keys@.len(),
            out@.len() == k,
            forall|i: int|
                0 <= i < k ==> is_outcome(
                    #[trigger] out@[i],
                    file_matcher.keys@[i]@,
                    contents@,
                    *file_matcher.is_reg_word,
                ),
            forall|i: int| 0 <= i < k ==> !(#[trigger] out@[i] is InvalidPattern),
        decreases file_matcher.keys.len() - k,
    {
        let key = file_matcher.keys[k].as_str();
        if *file_matcher.is_reg_word {
            if !text_regex_is_valid(key) {
                out.push(KeyOutcome::InvalidPattern);
                return out;
            }
            match reg_search(key, contents) {
                Some(hits) => out.push(KeyOutcome::Found(hits)),
                None => out.push(KeyOutcome::NoMatch),
            }
        } else {
            match normal_search(key, contents) {
                Some(hits) => out.push(KeyOutcome::Found(hits)),
                None => out.push(KeyOutcome::NoMatch),
            }
        }
        k += 1;
    }
    out
}

} // verus!

verus! {

/// A line is reported by a keyword search exactly when it contains the key: `(n, l)`
/// is among the hits if and only if `l` is line `n` (counted from 1) and `key` occurs
/// in it; and the hits come in increasing line order, each line once.
pub proof fn law_keyword_hits_are_lines_with_key(key: Seq<char>, lines: Seq<Seq<char>>)
    ensures
        forall|n: int, l: Seq<char>|
            #[trigger] keyword_hits(key, lines).contains((n, l)) <==> (1 <= n <= lines.len()
                && l == lines[n - 1] && contains_text(l, key)),
        forall|a: int, b: int|
            0 <= a < b < keyword_hits(key, lines).len() ==> #[trigger] keyword_hits(key, lines)[a].0
                < #[trigger] keyword_hits(key, lines)[b].0,
        forall|a: int|
            0 <= a < keyword_hits(key, lines).len() ==> 1 <= #[trigger] keyword_hits(key, lines)[a].0
                <= lines.len(),
    decreases lines.len(),
{
    if lines.len() > 0 {
        let prev = lines.drop_last();
        law_keyword_hits_are_lines_with_key(key, prev);
        let before = keyword_hits(key, prev);
        let all = keyword_hits(key, lines);
        let last = (lines.len() as int, lines.last());
        if contains_text(lines.last(), key) {
            assert(all == before.push(last));
        } else {
            assert(all =~= before);
        }
        assert forall|n: int, l: Seq<char>| #[trigger] all.contains((n, l)) <==> (1 <= n
            <= lines.len() && l == lines[n - 1] && contains_text(l, key)) by {
            if all.contains((n, l)) {
                let i = choose|i: int| 0 <= i < all.len() && all[i] == (n, l);
                if i < before.len() {
                    assert(before[i] == (n, l));
                    assert(before.contains((n, l)));
                    assert(prev[n - 1] == lines[n - 1]);
                }
            }
            if 1 <= n <= lines.len() && l == lines[n - 1] && contains_text(l, key) {
                if n < lines.len() {
                    assert(prev[n - 1] == lines[n - 1]);
                    assert(before.contains((n, l)));
                    let i = choose|i: int| 0 <= i < before.len() && before[i] == (n, l);
                    assert(all[i] == (n, l));
                } else {
                    assert(all[all.len() - 1] == (n, l));
                }
            }
        }
        assert forall|a: int| 0 <= a < all.len() implies 1 <= #[trigger] all[a].0 <= lines.len() by {
            if a < before.len() {
                assert(all[a] == before[a]);
            }
        }
        assert forall|a: int, b: int| 0 <= a < b < all.len() implies #[trigger] all[a].0
            < #[trigger] all[b].0 by {
            assert(all[a] == before[a]);
            if b < before.len() {
                assert(all[b] == before[b]);
            }
        }
    }
}

} // verus!

verus! {

proof fn lemma_numbered_members(found: Seq<Seq<Seq<char>>>)
    ensures
        forall|n: int, t: Seq<char>|
            #[trigger] numbered(found).contains((n, t)) <==> (1 <= n <= found.len()
                && found[n - 1].contains(t)),
        forall|a: int, b: int|
            0 <= a < b < numbered(found).len() ==> #[trigger] numbered(found)[a].0
                <= #[trigger] numbered(found)[b].0,
        forall|a: int|
            0 <= a < numbered(found).len() ==> 1 <= #[trigger] numbered(found)[a].0 <= found.len(),
    decreases found.len(),
{
    if found.len() > 0 {
        let prev = found.drop_last();
        lemma_numbered_members(prev);
        let before = numbered(prev);
        let n0 = found.len() as int;
        let own = found.last().map_values(|t: Seq<char>| (n0, t));
        let all = numbered(found);
        assert(all == before + own);
        assert forall|n: int, t: Seq<char>| #[trigger] all.contains((n, t)) <==> (1 <= n
            <= found.len() && found[n - 1].contains(t)) by {
            if all.contains((n, t)) {
                let i = choose|i: int| 0 <= i < all.len() && all[i] == (n, t);
                if i < before.len() {
                    assert(before[i] == (n, t));
                    assert(before.contains((n, t)));
                    assert(prev[n - 1] == found[n - 1]);
                } else {
                    assert(own[i - before.len()] == (n, t));
                    assert(found.last()[i - before.len()] == t);
                    assert(found[n - 1] == found.last());
                }
            }
            if 1 <= n <= found.len() && found[n - 1].contains(t) {
                let k = choose|k: int| 0 <= k < found[n - 1].len() && #[trigger] found[n - 1][k] == t;
                if n < found.len() {
                    assert(prev[n - 1] == found[n - 1]);
                    assert(before.contains((n, t)));
                    let i = choose|i: int| 0 <= i < before.len() && before[i] == (n, t);
                    assert(all[i] == (n, t));
                } else {
                    assert(all[before.len() + k] == own[k]);
                    assert(all[before.len() + k] == (n, t));
                }
            }
        }
        assert forall|a: int| 0 <= a < all.len() implies 1 <= #[trigger] all[a].0 <= found.len() by {
            if a < before.len() {
                assert(all[a] == before[a]);
            } else {
                assert(all[a] == own[a - before.len()]);
            }
        }
        assert forall|a: int, b: int| 0 <= a < b < all.len() implies #[trigger] all[a].0
            <= #[trigger] all[b].0 by {
            if b < before.len() {
                assert(all[a] == before[a]);
                assert(all[b] == before[b]);
            } else {
                assert(all[b] == own[b - before.len()]);
                if a < before.len() {
                    assert(all[a] == before[a]);
                } else {
                    assert(all[a] == own[a - before.len()]);
                }
            }
        }
    }
}

/// A pattern search reports exactly the texts that the pattern finds on each line: `(n, t)`
/// is among the hits if and only if `t` is one of the pattern's matches on line `n`
/// (counted from 1); the hits come line after line.
pub proof fn law_pattern_hits_are_matches_by_line(pattern: Seq<char>, lines: Seq<Seq<char>>)
    ensures
        forall|n: int, t: Seq<char>|
            #[trigger] pattern_hits(pattern, lines).contains((n, t)) <==> (1 <= n <= lines.len()
                && text_regex_found(pattern, lines[n - 1]).contains(t)),
        forall|a: int, b: int|
            0 <= a < b < pattern_hits(pattern, lines).len() ==> #[trigger] pattern_hits(
                pattern,
                lines,
            )[a].0 <= #[trigger] pattern_hits(pattern, lines)[b].0,
{
    let found = lines.map_values(|l: Seq<char>| text_regex_found(pattern, l));
    lemma_numbered_members(found);
    assert forall|n: int| 1 <= n <= lines.len() implies found[n - 1] == text_regex_found(
        pattern,
        #[trigger] lines[n - 1],
    ) by {}
}

} // verus!
