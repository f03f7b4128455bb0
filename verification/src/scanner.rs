//! The search engine: which files take part, and every occurrence of a keyword or a
//! pattern in a file's content, with its line number, its context and its highlight.
use vstd::prelude::*;

use crate::pattern::{byte_regex_compiles, byte_regex_find_all, byte_regex_is_valid, byte_regex_spans};
use crate::search::{
    find_all, lemma_count_of_le_len, lemma_leftmost_from_bounds, lemma_occurrences_from_sound,
    leftmost_from, occurrences, occurs_at,
};
use crate::sensitive::{is_common_ignore_dir, COMMON_IGNORE_DIRS};
use crate::style::{paint_green, painted_green};
use crate::text::{contains_text, lossy_text, replace_all, replaced, split_on, str_contains, utf8_lossy_text};
use crate::utils::{
    context_end, context_start, count_lines, extract_context, law_context_stays_on_line,
    law_wide_context_is_whole_line, line_number, NEWLINE,
};

verus! {

/// A call made on a reporter.
pub enum ReportCall {
    /// `on_file_scanned` with a path.
    FileScanned(Seq<char>),
    /// `on_file_match_start` with a path.
    MatchStart(Seq<char>),
    /// `on_match` with a line number, a shown text and a highlighted text.
    Match(usize, Seq<char>, Seq<char>),
}

/// Receives the progress of a scan: each file looked at, the first match in a file,
/// and each match.
///
/// `calls` is the record of the calls a reporter has received, oldest first; each
/// method adds its own call to it. The reporters that receive a scan (the terminal one,
/// a test's collector) are written outside the verified code: that each of them keeps
/// to these contracts is trusted, not proved. The default body of `calls` is there so
/// that such implementations compile; verified code never learns it.
pub trait Reporter {
    /// The calls received so far, oldest first.
    closed spec fn calls(&self) -> Seq<ReportCall> {
        Seq::empty()
    }

    fn on_file_scanned(&mut self, path: &str)
        ensures
            final(self).calls() == old(self).calls().push(ReportCall::FileScanned(path@)),
    ;

    fn on_file_match_start(&mut self, path: &str)
        ensures
            final(self).calls() == old(self).calls().push(ReportCall::MatchStart(path@)),
    ;

    fn on_match(&mut self, line_num: usize, raw_line: &str, colored_line: &str)
        ensures
            final(self).calls() == old(self).calls().push(
                ReportCall::Match(line_num, raw_line@, colored_line@),
            ),
    ;
}

/// What to search for and where.
pub struct FileMatcher {
    /// A file takes part when its name contains one of these.
    pub prefixes: Vec<String>,
    /// Keywords, or patterns when `is_reg_word` holds.
    pub keys: Vec<String>,
    pub is_reg_word: bool,
    /// How many characters to show on each side of a match, when set.
    pub context: Option<usize>,
    /// The patterns among `keys` that compile, when searching by pattern.
    pub regex_keys: Option<Vec<String>>,
    /// Whether common uninteresting directories are skipped.
    pub ignore_dirs: bool,
}

/// The patterns of `keys` that compile, in order.
pub open spec fn compiled_patterns(keys: Seq<Seq<char>>) -> Seq<Seq<char>>
    decreases keys.len(),
{
    if keys.len() == 0 {
        seq![]
    } else {
        compiled_patterns(keys.drop_last()) + if byte_regex_compiles(keys.last()) {
            seq![keys.last()]
        } else {
            seq![]
        }
    }
}

impl FileMatcher {
    /// A matcher over the given settings; when searching by pattern it keeps the
    /// patterns that compile and drops the others.
    pub fn new(
        prefixes: Vec<String>,
        keys: Vec<String>,
        is_reg_word: bool,
        context: Option<usize>,
        ignore_dirs: bool,
    ) -> (res: Self)
        ensures
            res.prefixes@ == prefixes@,
            res.keys@ == keys@,
            res.is_reg_word == is_reg_word,
            res.context == context,
            res.ignore_dirs == ignore_dirs,
            is_reg_word ==> (res.regex_keys matches Some(r) && r.deep_view() == compiled_patterns(
                keys.deep_view(),
            )),
            !is_reg_word ==> res.regex_keys is None,
    {
        let regex_keys = if is_reg_word {
            let mut r_keys: Vec<String> = Vec::with_capacity(keys.len());
            let mut k: usize = 0;
            while k < keys.len()
                invariant
                    k <= keys@.len(),
                    r_keys.deep_view() == compiled_patterns(keys.deep_view().take(k as int)),
                decreases keys.len() - k,
            {
                let ghost before = r_keys.deep_view();
                proof {
                    assert(keys.deep_view().take(k + 1).drop_last() =~= keys.deep_view().take(
                        k as int,
                    ));
                }
                if byte_regex_is_valid(keys[k].as_str()) {
                    r_keys.push(keys[k].clone());
                    proof {
                        assert(r_keys.deep_view() =~= before.push(keys@[k as int]@));
                    }
                } else {
                    proof {
                        assert(before + seq![] =~= before);
                    }
                }
                k += 1;
            }
            proof {
                assert(keys.deep_view().take(k as int) =~= keys.deep_view());
            }
            Some(r_keys)
        } else {
            None
        };
        FileMatcher { prefixes, keys, is_reg_word, context, regex_keys, ignore_dirs }
    }
}

/// The spans `(start, end)` of the matches of one key in `content`: those of the pattern
/// when searching by pattern (none when it does not compile), else those of the
/// non-overlapping occurrences of the key's UTF-8 bytes.
pub open spec fn key_spans(content: Seq<u8>, key: Seq<char>, is_reg: bool) -> Seq<(int, int)> {
    if is_reg {
        if byte_regex_compiles(key) {
            byte_regex_spans(key, content).map_values(|s: (usize, usize)| (s.0 as int, s.1 as int))
        } else {
            seq![]
        }
    } else {
        let needle = vstd::utf8::encode_utf8(key);
        occurrences(content, needle).map_values(|i: int| (i, i + needle.len()))
    }
}

/// The spans of all keys, key after key.
pub open spec fn spans_for(content: Seq<u8>, keys: Seq<Seq<char>>, is_reg: bool) -> Seq<(int, int)>
    decreases keys.len(),
{
    if keys.len() == 0 {
        seq![]
    } else {
        spans_for(content, keys.drop_last(), is_reg) + key_spans(content, keys.last(), is_reg)
    }
}

/// The keys that a matcher searches for: its compiled patterns, or its keywords.
pub open spec fn searched_keys(engine: &FileMatcher) -> Seq<Seq<char>> {
    if engine.is_reg_word {
        match engine.regex_keys {
            Some(r) => r.deep_view(),
            None => seq![],
        }
    } else {
        engine.keys.deep_view()
    }
}

/// The spans of all the matches that `engine` finds in `content`, in report order.
pub open spec fn engine_spans(content: Seq<u8>, engine: &FileMatcher) -> Seq<(int, int)> {
    spans_for(content, searched_keys(engine), engine.is_reg_word)
}

/// One match as it is reported.
pub struct MatchRecord {
    /// The line of the match's start, counted from 1.
    pub line_num: usize,
    /// The match, or its context when one is asked for, as text.
    pub raw_line: String,
    /// `raw_line` with the matched text painted.
    pub colored_line: String,
}

/// The bytes shown for the match `content[start..end]`: its context when a context
/// width is set, else the match itself.
pub open spec fn display_bytes(content: Seq<u8>, start: int, end: int, context: Option<usize>) -> Seq<u8> {
    match context {
        Some(c) => content.subrange(
            context_start(content, start, c as nat),
            context_end(content, end, c as nat),
        ),
        None => content.subrange(start, end),
    }
}

/// A report with line number `line_num`, shown text `raw` and highlighted text `colored`
/// describes the match `span` of `content`: the line it starts on, the text shown, and
/// that text with every occurrence of the matched text painted green.
pub open spec fn shows_match(
    line_num: usize,
    raw: Seq<char>,
    colored: Seq<char>,
    content: Seq<u8>,
    span: (int, int),
    context: Option<usize>,
) -> bool {
    let matched = utf8_lossy_text(content.subrange(span.0, span.1));
    &&& line_num == line_number(content, span.0)
    &&& raw == utf8_lossy_text(display_bytes(content, span.0, span.1, context))
    &&& exists|painted: Seq<char>|
        #[trigger] painted_green(matched, painted) && colored == replaced(raw, matched, painted)
}

/// `r` reports the match `span` of `content`.
pub open spec fn describes(r: MatchRecord, content: Seq<u8>, span: (int, int), context: Option<usize>) -> bool {
    shows_match(r.line_num, r.raw_line@, r.colored_line@, content, span, context)
}

/// The limit that reporting a match must keep within: a line number that fits in a
/// `usize`, which holds of every buffer shorter than `usize::MAX` bytes.
pub open spec fn fits_limits(content: Seq<u8>) -> bool {
    content.len() < usize::MAX
}

/// The report of the match `content[start..end]`.
pub fn match_record(content: &[u8], start: usize, end: usize, context: Option<usize>) -> (res:
    MatchRecord)
    requires
        start <= end <= content@.len(),
        fits_limits(content@),
    ensures
        describes(res, content@, (start as int, end as int), context),
{
    proof {
        lemma_count_of_le_len(content@.take(start as int), NEWLINE);
    }
    let line_num = count_lines(content, start);
    let matched = &content[start..end];
    let display_bytes = match context {
        Some(ctx_len) => extract_context(content, start, end, ctx_len),
        None => matched,
    };
    let display_str = lossy_text(display_bytes);
    let match_str = lossy_text(matched);
    let painted = paint_green(match_str.as_str());
    let highlighted = replace_all(display_str.as_str(), match_str.as_str(), painted.as_str());
    let res = MatchRecord { line_num, raw_line: display_str, colored_line: highlighted };
    proof {
        assert(painted_green(match_str@, painted@));
    }
    res
}

/// The reports of the matches `spans` of `content`, in order.
pub fn records_for_spans(content: &[u8], spans: &[(usize, usize)], context: Option<usize>) -> (res: Vec<
    MatchRecord,
>)
    requires
        fits_limits(content@),
        forall|k: int| 0 <= k < spans@.len() ==> #[trigger] spans@[k].0 <= spans@[k].1 <= content@.len(),
    ensures
        res@.len() == spans@.len(),
        forall|i: int|
            0 <= i < res@.len() ==> describes(
                #[trigger] res@[i],
                content@,
                (spans@[i].0 as int, spans@[i].1 as int),
                context,
            ),
{
    let mut out: Vec<MatchRecord> = Vec::new();
    let mut j: usize = 0;
    while j < spans.len()
        invariant
            fits_limits(content@),
            forall|k: int| 0 <= k < spans@.len() ==> #[trigger] spans@[k].0 <= spans@[k].1 <= content@.len(),
            j <= spans@.len(),
            out@.len() == j,
            forall|i: int|
                0 <= i < j ==> describes(
                    #[trigger] out@[i],
                    content@,
                    (spans@[i].0 as int, spans@[i].1 as int),
                    context,
                ),
        decreases spans.len() - j,
    {
        let (start, end) = spans[j];
        proof {
            assert(spans@[j as int].0 <= spans@[j as int].1 <= content@.len());
        }
        let r = match_record(content, start, end, context);
        out.push(r);
        j += 1;
    }
    out
}

/// The reports of the matches of one key in `content`, in order.
fn records_for_key(content: &[u8], key: &str, is_reg: bool, context: Option<usize>) -> (res: Vec<
    MatchRecord,
>)
    requires
        fits_limits(content@),
    ensures
        res@.len() == key_spans(content@, key@, is_reg).len(),
        forall|i: int|
            0 <= i < res@.len() ==> describes(
                #[trigger] res@[i],
                content@,
                key_spans(content@, key@, is_reg)[i],
                context,
            ),
{
    let mut out: Vec<MatchRecord> = Vec::new();
    if is_reg {
        match byte_regex_find_all(key, content) {
            Some(spans) => {
                out = records_for_spans(content, spans.as_slice(), context);
                proof {
                    assert forall|i: int| 0 <= i < out@.len() implies describes(
                        #[trigger] out@[i],
                        content@,
                        key_spans(content@, key@, is_reg)[i],
                        context,
                    ) by {
                        assert(key_spans(content@, key@, is_reg)[i] == (
                            spans@[i].0 as int,
                            spans@[i].1 as int,
                        ));
                    }
                }
            },
            None => {},
        }
    } else {
        let key_bytes = key.as_bytes();
        let starts = find_all(content, key_bytes);
        proof {
            lemma_occurrences_from_sound(content@, key_bytes@, 0);
        }
        let mut j: usize = 0;
        while j < starts.len()
            invariant
                fits_limits(content@),
                key_bytes@ == vstd::utf8::encode_utf8(key@),
                starts@.len() == occurrences(content@, key_bytes@).len(),
                forall|k: int|
                    0 <= k < starts@.len() ==> starts@[k] as int == #[trigger] occurrences(
                        content@,
                        key_bytes@,
                    )[k],
                forall|k: int|
                    0 <= k < occurrences(content@, key_bytes@).len()
                        ==> crate::search::occurs_at(
                        content@,
                        key_bytes@,
                        #[trigger] occurrences(content@, key_bytes@)[k],
                    ),
                j <= starts@.len(),
                out@.len() == j,
                forall|i: int|
                    0 <= i < j ==> describes(
                        #[trigger] out@[i],
                        content@,
                        key_spans(content@, key@, is_reg)[i],
                        context,
                    ),
                !is_reg,
            decreases starts.len() - j,
        {
            let m_start = starts[j];
            proof {
                assert(crate::search::occurs_at(
                    content@,
                    key_bytes@,
                    occurrences(content@, key_bytes@)[j as int],
                ));
            }
            let m_end = m_start + key_bytes.len();
            let r = match_record(content, m_start, m_end, context);
            out.push(r);
            j += 1;
        }
    }
    out
}

/// Every match that `engine` finds in `content`, each with its line number, the text
/// shown for it and that text with the match painted: key after key, and for each key
/// in the order of the matches.
pub fn match_records(content: &[u8], engine: &FileMatcher) -> (res: Vec<MatchRecord>)
    requires
        fits_limits(content@),
    ensures
        res@.len() == engine_spans(content@, engine).len(),
        forall|i: int|
            0 <= i < res@.len() ==> describes(
                #[trigger] res@[i],
                content@,
                engine_spans(content@, engine)[i],
                engine.context,
            ),
{
    let keys: &Vec<String> = if engine.is_reg_word {
        match &engine.regex_keys {
            Some(regexes) => regexes,
            None => {
                return Vec::new();
            },
        }
    } else {
        &engine.keys
    };
    let ghost all = keys.deep_view();
    proof {
        assert(all == searched_keys(engine));
    }
    let mut out: Vec<MatchRecord> = Vec::new();
    let mut k: usize = 0;
    while k < keys.len()
        invariant
            fits_limits(content@),
            all == keys.deep_view(),
            k <= keys@.len(),
            out@.len() == spans_for(content@, all.take(k as int), engine.is_reg_word).len(),
            forall|i: int|
                0 <= i < out@.len() ==> describes(
                    #[trigger] out@[i],
                    content@,
                    spans_for(content@, all.take(k as int), engine.is_reg_word)[i],
                    engine.context,
                ),
        decreases keys.len() - k,
    {
        let mut recs = records_for_key(content, keys[k].as_str(), engine.is_reg_word, engine.context);
        let ghost before = out@;
        let ghost rs = recs@;
        out.append(&mut recs);
        proof {
            assert(all.take(k + 1).drop_last() =~= all.take(k as int));
            assert(all.take(k + 1).last() == keys@[k as int]@);
            let sp = spans_for(content@, all.take(k + 1), engine.is_reg_word);
            assert(out@ =~= before + rs);
            assert forall|i: int| 0 <= i < out@.len() implies describes(
                #[trigger] out@[i],
                content@,
                sp[i],
                engine.context,
            ) by {
                if i < before.len() {
                    assert(out@[i] == before[i]);
                } else {
                    assert(out@[i] == rs[i - before.len()]);
                }
            }
        }
        k += 1;
    }
    proof {
        assert(all.take(k as int) =~= all);
    }
    out
}

/// The call that reports the record `r`.
pub open spec fn match_call(r: MatchRecord) -> ReportCall {
    ReportCall::Match(r.line_num, r.raw_line@, r.colored_line@)
}

/// `call` is an `on_match` that reports the match `span` of `content`.
pub open spec fn reports_match(call: ReportCall, content: Seq<u8>, span: (int, int), context: Option<usize>) -> bool {
    match call {
        ReportCall::Match(line_num, raw, colored) => shows_match(line_num, raw, colored, content, span, context),
        _ => false,
    }
}

/// The calls that report the matches `spans` of `content` in the file at `path`: none
/// when there is no match, else the start of the file, then one `on_match` per match,
/// in order, each reporting that match.
pub open spec fn reports_file(
    calls: Seq<ReportCall>,
    path: Seq<char>,
    content: Seq<u8>,
    spans: Seq<(int, int)>,
    context: Option<usize>,
) -> bool {
    &&& spans.len() == 0 ==> calls.len() == 0
    &&& spans.len() > 0 ==> {
        &&& calls.len() == spans.len() + 1
        &&& calls[0] == ReportCall::MatchStart(path)
        &&& forall|i: int|
            #![trigger spans[i]]
            0 <= i < spans.len() ==> reports_match(calls[i + 1], content, spans[i], context)
    }
}

/// Reports the matches of `engine` in the content of the file at `path`: the file
/// first, when there is a match, then each match, as `match_records` gives them.
pub fn process_file<R: Reporter>(path: &str, content: &[u8], engine: &FileMatcher, reporter: &mut R)
    requires
        fits_limits(content@),
    ensures
        final(reporter).calls().take(old(reporter).calls().len() as int) == old(reporter).calls(),
        reports_file(
            final(reporter).calls().skip(old(reporter).calls().len() as int),
            path@,
            content@,
            engine_spans(content@, engine),
            engine.context,
        ),
{
    let ghost before = reporter.calls();
    let ghost spans = engine_spans(content@, engine);
    let records = match_records(content, engine);
    if records.len() > 0 {
        reporter.on_file_match_start(path);
    }
    let ghost start = reporter.calls();
    let mut k: usize = 0;
    while k < records.len()
        invariant
            k <= records@.len(),
            records@.len() == spans.len(),
            forall|i: int|
                0 <= i < records@.len() ==> describes(
                    #[trigger] records@[i],
                    content@,
                    spans[i],
                    engine.context,
                ),
            records@.len() == 0 ==> start == before,
            records@.len() > 0 ==> start == before.push(ReportCall::MatchStart(path@)),
            reporter.calls().len() == start.len() + k,
            reporter.calls().take(start.len() as int) == start,
            forall|i: int|
                0 <= i < k ==> reporter.calls()[start.len() + i] == match_call(
                    #[trigger] records@[i],
                ),
        decreases records.len() - k,
    {
        let ghost prev = reporter.calls();
        reporter.on_match(
            records[k].line_num,
            records[k].raw_line.as_str(),
            records[k].colored_line.as_str(),
        );
        proof {
            let now = reporter.calls();
            assert(now == prev.push(match_call(records@[k as int])));
            assert(now.take(start.len() as int) =~= prev.take(start.len() as int));
            assert forall|i: int| 0 <= i < k + 1 implies now[start.len() + i] == match_call(
                #[trigger] records@[i],
            ) by {
                if i < k {
                    assert(now[start.len() + i] == prev[start.len() + i]);
                }
            }
        }
        k += 1;
    }
    proof {
        let after = reporter.calls();
        let told = after.skip(before.len() as int);
        assert(after.take(before.len() as int) =~= before) by {
            assert(after.take(before.len() as int) =~= start.take(before.len() as int));
        }
        if records@.len() > 0 {
            assert(told[0] == after.take(start.len() as int)[before.len() as int]);
        }
        assert forall|i: int| #![trigger spans[i]] 0 <= i < spans.len() implies reports_match(
            told[i + 1],
            content@,
            spans[i],
            engine.context,
        ) by {
            assert(describes(records@[i], content@, spans[i], engine.context));
            assert(told[i + 1] == after[start.len() + i]);
        }
    }
}

/// `name` contains one of `prefixes`.
pub open spec fn has_prefix_in(name: Seq<char>, prefixes: Seq<Seq<char>>) -> bool {
    exists|i: int| 0 <= i < prefixes.len() && contains_text(name, #[trigger] prefixes[i])
}

/// Whether a file named `file_name` takes part in the search: its name contains one of
/// `prefixes`.
pub fn matches_prefix(file_name: &str, prefixes: &Vec<String>) -> (res: bool)
    ensures
        res == has_prefix_in(file_name@, prefixes.deep_view()),
{
    let mut k: usize = 0;
    while k < prefixes.len()
        invariant
            k <= prefixes@.len(),
            forall|i: int| 0 <= i < k ==> !contains_text(file_name@, #[trigger] prefixes.deep_view()[i]),
        decreases prefixes.len() - k,
    {
        if str_contains(file_name, prefixes[k].as_str()) {
            proof {
                assert(contains_text(file_name@, prefixes.deep_view()[k as int]));
            }
            return true;
        }
        k += 1;
    }
    false
}

/// `name` is one of the common uninteresting directories.
pub open spec fn is_ignored_dir_name(name: Seq<char>) -> bool {
    exists|i: int| 0 <= i < COMMON_IGNORE_DIRS@.len() && #[trigger] COMMON_IGNORE_DIRS@[i]@ == name
}

/// Whether the walk goes into an entry when uninteresting directories are skipped:
/// every file does, and a directory does unless it is a common uninteresting one.
pub fn keep_entry(is_dir: bool, name: &str) -> (res: bool)
    ensures
        res == (!is_dir || !is_ignored_dir_name(name@)),
{
    if is_dir {
        !is_common_ignore_dir(name)
    } else {
        true
    }
}

} // verus!

verus! {

/// Every span reported for a keyword holds exactly the keyword's bytes, and each starts
/// at least one keyword length after the previous one.
pub proof fn law_keyword_spans_hold_key(content: Seq<u8>, key: Seq<char>)
    ensures
        forall|i: int|
            0 <= i < key_spans(content, key, false).len() ==> content.subrange(
                #[trigger] key_spans(content, key, false)[i].0,
                key_spans(content, key, false)[i].1,
            ) == vstd::utf8::encode_utf8(key),
        forall|i: int|
            0 < i < key_spans(content, key, false).len() ==> key_spans(content, key, false)[i
                - 1].1 <= #[trigger] key_spans(content, key, false)[i].0,
{
    let needle = vstd::utf8::encode_utf8(key);
    lemma_occurrences_from_sound(content, needle, 0);
}

/// With the empty prefix list that an empty `-p` gives, every file takes part.
pub proof fn law_empty_prefix_admits_all(name: Seq<char>)
    ensures
        has_prefix_in(name, split_on(Seq::<char>::empty(), ',')),
{
    crate::cli::lemma_split_empty(Seq::<char>::empty(), ',');
    let prefixes = split_on(Seq::<char>::empty(), ',');
    assert(name.subrange(0, 0) =~= prefixes[0]);
    assert(crate::text::occurs_in_at(name, prefixes[0], 0));
}

} // verus!

verus! {

/// A pattern key is kept exactly when it compiles: every key that compiles is among the
/// kept ones, every kept one is a key that compiles, and the kept ones are the keys
/// that compile, in their order.
pub proof fn law_compiled_patterns_keep_what_compiles(keys: Seq<Seq<char>>)
    ensures
        compiled_patterns(keys) == keys.filter(|k: Seq<char>| byte_regex_compiles(k)),
        forall|i: int|
            0 <= i < keys.len() && byte_regex_compiles(keys[i]) ==> #[trigger] compiled_patterns(
                keys,
            ).contains(keys[i]),
        forall|j: int|
            0 <= j < compiled_patterns(keys).len() ==> byte_regex_compiles(
                #[trigger] compiled_patterns(keys)[j],
            ) && keys.contains(compiled_patterns(keys)[j]),
    decreases keys.len(),
{
    reveal(Seq::filter);
    if keys.len() > 0 {
        let prev = keys.drop_last();
        law_compiled_patterns_keep_what_compiles(prev);
        let before = compiled_patterns(prev);
        let all = compiled_patterns(keys);
        if byte_regex_compiles(keys.last()) {
            assert(all =~= before.push(keys.last()));
        } else {
            assert(all =~= before);
        }
        assert forall|i: int|
            0 <= i < keys.len() && byte_regex_compiles(keys[i]) implies #[trigger] all.contains(
                keys[i],
            ) by {
            if i < keys.len() - 1 {
                assert(prev[i] == keys[i]);
                assert(before.contains(prev[i]));
                let w = choose|w: int| 0 <= w < before.len() && before[w] == prev[i];
                assert(all[w] == keys[i]);
            } else {
                assert(all[all.len() - 1] == keys[i]);
            }
        }
        assert forall|j: int| 0 <= j < all.len() implies byte_regex_compiles(#[trigger] all[j])
            && keys.contains(all[j]) by {
            if j < before.len() {
                assert(all[j] == before[j]);
                assert(prev.contains(before[j]));
                let w = choose|w: int| 0 <= w < prev.len() && prev[w] == before[j];
                assert(keys[w] == all[j]);
            } else {
                assert(all[j] == keys[keys.len() - 1]);
            }
        }
    }
}

/// A file name is admitted exactly when one of the prefixes occurs somewhere in it, at
/// its start, its end or anywhere between.
pub proof fn law_prefix_anywhere_in_name(name: Seq<char>, prefixes: Seq<Seq<char>>)
    ensures
        has_prefix_in(name, prefixes) <==> exists|i: int, p: int|
            0 <= i < prefixes.len() && 0 <= p && p + prefixes[i].len() <= name.len()
                && #[trigger] name.subrange(p, p + prefixes[i].len()) == prefixes[i],
{
    if has_prefix_in(name, prefixes) {
        let i = choose|i: int| 0 <= i < prefixes.len() && contains_text(name, #[trigger] prefixes[i]);
        let p = choose|p: int| crate::text::occurs_in_at(name, prefixes[i], p);
        assert(name.subrange(p, p + prefixes[i].len()) == prefixes[i]);
    }
    if exists|i: int, p: int|
        0 <= i < prefixes.len() && 0 <= p && p + prefixes[i].len() <= name.len()
            && #[trigger] name.subrange(p, p + prefixes[i].len()) == prefixes[i] {
        let (i, p) = choose|i: int, p: int|
            0 <= i < prefixes.len() && 0 <= p && p + prefixes[i].len() <= name.len()
                && #[trigger] name.subrange(p, p + prefixes[i].len()) == prefixes[i];
        assert(crate::text::occurs_in_at(name, prefixes[i], p));
        assert(contains_text(name, prefixes[i]));
    }
}

} // verus!

verus! {

spec fn from_some_key(content: Seq<u8>, keys: Seq<Seq<char>>, is_reg: bool, span: (int, int)) -> bool {
    exists|j: int| 0 <= j < keys.len() && #[trigger] key_spans(content, keys[j], is_reg).contains(span)
}

proof fn lemma_spans_for_members(content: Seq<u8>, keys: Seq<Seq<char>>, is_reg: bool)
    ensures
        forall|j: int, m: int|
            0 <= j < keys.len() && 0 <= m < key_spans(content, keys[j], is_reg).len()
                ==> spans_for(content, keys, is_reg).contains(
                #[trigger] key_spans(content, keys[j], is_reg)[m],
            ),
        forall|t: int|
            0 <= t < spans_for(content, keys, is_reg).len() ==> from_some_key(
                content,
                keys,
                is_reg,
                #[trigger] spans_for(content, keys, is_reg)[t],
            ),
    decreases keys.len(),
{
    if keys.len() > 0 {
        let prev = keys.drop_last();
        lemma_spans_for_members(content, prev, is_reg);
        let before = spans_for(content, prev, is_reg);
        let own = key_spans(content, keys.last(), is_reg);
        let all = spans_for(content, keys, is_reg);
        assert(all == before + own);
        assert forall|j: int, m: int|
            0 <= j < keys.len() && 0 <= m < key_spans(content, keys[j], is_reg).len()
                implies all.contains(#[trigger] key_spans(content, keys[j], is_reg)[m]) by {
            if j < keys.len() - 1 {
                assert(prev[j] == keys[j]);
                assert(before.contains(key_spans(content, prev[j], is_reg)[m]));
                let w = choose|w: int| 0 <= w < before.len() && before[w] == key_spans(content, prev[j], is_reg)[m];
                assert(all[w] == before[w]);
            } else {
                assert(all[before.len() + m] == own[m]);
            }
        }
        assert forall|t: int| 0 <= t < all.len() implies from_some_key(content, keys, is_reg, #[trigger] all[t]) by {
            if t < before.len() {
                assert(all[t] == before[t]);
                assert(from_some_key(content, prev, is_reg, before[t]));
                let j = choose|j: int|
                    0 <= j < prev.len() && #[trigger] key_spans(content, prev[j], is_reg).contains(before[t]);
                assert(prev[j] == keys[j]);
                assert(key_spans(content, keys[j], is_reg).contains(all[t]));
            } else {
                assert(all[t] == own[t - before.len()]);
                assert(own.contains(own[t - before.len()]));
                assert(key_spans(content, keys[keys.len() - 1], is_reg).contains(all[t]));
            }
        }
    }
}

/// Searching by keyword searches every key, in order: the matches reported are those of
/// each keyword in turn; the first occurrence of any keyword is always reported; and
/// every reported span holds exactly the bytes of one of the keywords.
pub proof fn law_keyword_search_covers_every_key(content: Seq<u8>, engine: &FileMatcher)
    requires
        !engine.is_reg_word,
    ensures
        engine_spans(content, engine) == spans_for(content, engine.keys.deep_view(), false),
        forall|j: int, p: int|
            0 <= j < engine.keys@.len() && #[trigger] occurs_at(
                content,
                vstd::utf8::encode_utf8(engine.keys@[j]@),
                p,
            ) && (forall|q: int|
                0 <= q < p ==> !occurs_at(content, vstd::utf8::encode_utf8(engine.keys@[j]@), q))
                ==> engine_spans(content, engine).contains(
                (p, p + vstd::utf8::encode_utf8(engine.keys@[j]@).len()),
            ),
        forall|t: int|
            0 <= t < engine_spans(content, engine).len() ==> exists|j: int|
                0 <= j < engine.keys@.len() && content.subrange(
                    #[trigger] engine_spans(content, engine)[t].0,
                    engine_spans(content, engine)[t].1,
                ) == vstd::utf8::encode_utf8(engine.keys@[j]@),
{
    let keys = engine.keys.deep_view();
    let spans = engine_spans(content, engine);
    lemma_spans_for_members(content, keys, false);
    assert forall|j: int, p: int|
        0 <= j < engine.keys@.len() && #[trigger] occurs_at(
            content,
            vstd::utf8::encode_utf8(engine.keys@[j]@),
            p,
        ) && (forall|q: int|
            0 <= q < p ==> !occurs_at(content, vstd::utf8::encode_utf8(engine.keys@[j]@), q))
            implies spans.contains((p, p + vstd::utf8::encode_utf8(engine.keys@[j]@).len())) by {
        let needle = vstd::utf8::encode_utf8(engine.keys@[j]@);
        assert(keys[j] == engine.keys@[j]@);
        lemma_leftmost_from_bounds(content, needle, 0);
        match leftmost_from(content, needle, 0) {
            Some(i) => {
                if i < p {
                    assert(!occurs_at(content, needle, i));
                }
                if p < i {
                    assert(!occurs_at(content, needle, p));
                }
                assert(i == p);
                assert(occurrences(content, needle)[0] == p);
                assert(key_spans(content, keys[j], false)[0] == (p, p + needle.len()));
            },
            None => {
                assert(!occurs_at(content, needle, p));
            },
        }
    }
    assert forall|t: int| 0 <= t < spans.len() implies exists|j: int|
        0 <= j < engine.keys@.len() && content.subrange(#[trigger] spans[t].0, spans[t].1)
            == vstd::utf8::encode_utf8(engine.keys@[j]@) by {
        assert(from_some_key(content, keys, false, spans[t]));
        let j = choose|j: int|
            0 <= j < keys.len() && #[trigger] key_spans(content, keys[j], false).contains(spans[t]);
        let needle = vstd::utf8::encode_utf8(keys[j]);
        let ks = key_spans(content, keys[j], false);
        let m = choose|m: int| 0 <= m < ks.len() && ks[m] == spans[t];
        lemma_occurrences_from_sound(content, needle, 0);
        assert(occurs_at(content, needle, occurrences(content, needle)[m]));
        assert(keys[j] == engine.keys@[j]@);
    }
}

} // verus!

verus! {

/// The bytes shown for a match surround it on its own line: without a context width
/// they are the match itself; with one they reach from before the match to after it
/// without crossing a line feed; and with a width as large as the buffer they are the
/// match's whole line.
pub proof fn law_shown_bytes_surround_match(
    content: Seq<u8>,
    start: int,
    end: int,
    context: Option<usize>,
)
    requires
        0 <= start <= end <= content.len(),
    ensures
        exists|a: int, b: int|
            0 <= a <= start && end <= b <= content.len() && #[trigger] content.subrange(a, b)
                == display_bytes(content, start, end, context) && (forall|j: int|
                a <= j < start ==> content[j] != NEWLINE) && (forall|j: int|
                end <= j < b ==> content[j] != NEWLINE) && (context is None ==> a == start && b
                == end) && (context matches Some(c) && content.len() <= c ==> (a == 0 || content[a
                - 1] == NEWLINE) && (b == content.len() || content[b] == NEWLINE)),
{
    match context {
        Some(c) => {
            law_context_stays_on_line(content, start, end, c as nat);
            crate::utils::law_context_bounds_fall_on_characters(content, start, end, c as nat);
            if content.len() <= c {
                law_wide_context_is_whole_line(content, start, end, c as nat);
            }
            let a = context_start(content, start, c as nat);
            let b = context_end(content, end, c as nat);
            assert(content.subrange(a, b) == display_bytes(content, start, end, context));
        },
        None => {
            assert(content.subrange(start, end) == display_bytes(content, start, end, context));
        },
    }
}

} // verus!
