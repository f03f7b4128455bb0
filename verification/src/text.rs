//! Text primitives of the standard library that the rest of the crate builds on.
use vstd::prelude::*;

use crate::search::{count_of, first_index_of, lemma_first_index_of, lemma_first_index_of_is};
use vstd::std_specs::iter::IteratorSpec;

verus! {

/// The characters of `s`, in order, taken one by one from `str::chars`.
pub(crate) fn chars_of(s: &str) -> (res: Vec<char>)
    ensures
        res@ == s@,
{
    let mut it = s.chars();
    let mut out: Vec<char> = Vec::new();
    loop
        invariant
            out@ + IteratorSpec::remaining(&it) == s@,
            IteratorSpec::decrease(&it) is Some,
        ensures
            out@ == s@,
        decreases IteratorSpec::decrease(&it)->0,
    {
        let ghost before = IteratorSpec::remaining(&it);
        match it.next() {
            Some(c) => {
                out.push(c);
                proof {
                    assert(out@ + IteratorSpec::remaining(&it) =~= s@) by {
                        assert(before =~= seq![c] + IteratorSpec::remaining(&it));
                    }
                }
            },
            None => {
                proof {
                    assert(out@ + before =~= out@);
                }
                break;
            },
        }
    }
    out
}

/// Appends one character to `s`, through `String::push`.
/// Trusted to add exactly `c` at the end.
#[verifier::external_body]
pub(crate) fn push_char(s: &mut String, c: char)
    ensures
        final(s)@ == old(s)@.push(c),
{
    s.push(c)
}

/// Appends `t` to `s`, through `String::push_str`.
/// Trusted to add exactly the characters of `t` at the end.
#[verifier::external_body]
pub(crate) fn push_str(s: &mut String, t: &str)
    ensures
        final(s)@ == old(s)@ + t@,
{
    s.push_str(t)
}

} // verus!

verus! {

/// `needle` occurs in `hay` starting at character `i`.
pub open spec fn occurs_in_at(hay: Seq<char>, needle: Seq<char>, i: int) -> bool {
    &&& 0 <= i
    &&& i + needle.len() <= hay.len()
    &&& hay.subrange(i, i + needle.len()) == needle
}

/// `needle` occurs somewhere in `hay` (the empty text occurs in every text).
pub open spec fn contains_text(hay: Seq<char>, needle: Seq<char>) -> bool {
    exists|i: int| occurs_in_at(hay, needle, i)
}

/// Whether `needle` occurs in `hay` at character `i`.
fn occurs_at_index(hay: &Vec<char>, needle: &Vec<char>, i: usize) -> (res: bool)
    ensures
        res == occurs_in_at(hay@, needle@, i as int),
{
    if i > hay.len() || needle.len() > hay.len() - i {
        return false;
    }
    let mut k: usize = 0;
    while k < needle.len()
        invariant
            i + needle@.len() <= hay@.len(),
            hay@.len() == hay.len(),
            k <= needle@.len(),
            forall|j: int| 0 <= j < k ==> hay@[i + j] == needle@[j],
        decreases needle.len() - k,
    {
        if hay[i + k] != needle[k] {
            proof {
                assert(hay@.subrange(i as int, i + needle@.len())[k as int] != needle@[k as int]);
            }
            return false;
        }
        k += 1;
    }
    proof {
        assert(hay@.subrange(i as int, i + needle@.len()) =~= needle@);
    }
    true
}

/// Whether `needle` occurs anywhere in `hay`.
pub fn str_contains(hay: &str, needle: &str) -> (res: bool)
    ensures
        res == contains_text(hay@, needle@),
{
    let h = chars_of(hay);
    let n = chars_of(needle);
    let mut i: usize = 0;
    while i < h.len()
        invariant
            h@ == hay@,
            n@ == needle@,
            i <= h@.len(),
            forall|j: int| 0 <= j < i ==> !occurs_in_at(hay@, needle@, j),
        decreases h.len() - i,
    {
        if occurs_at_index(&h, &n, i) {
            return true;
        }
        i += 1;
    }
    if occurs_at_index(&h, &n, i) {
        return true;
    }
    proof {
        assert forall|j: int| !occurs_in_at(hay@, needle@, j) by {
            if 0 <= j && j < i {
            }
        }
    }
    false
}

/// Whether `a` and `b` hold the same characters.
pub fn str_equals(a: &str, b: &str) -> (res: bool)
    ensures
        res == (a@ == b@),
{
    let x = chars_of(a);
    let y = chars_of(b);
    if x.len() != y.len() {
        return false;
    }
    let mut k: usize = 0;
    while k < x.len()
        invariant
            x@ == a@,
            y@ == b@,
            x@.len() == y@.len(),
            k <= x@.len(),
            forall|j: int| 0 <= j < k ==> x@[j] == y@[j],
        decreases x.len() - k,
    {
        if x[k] != y[k] {
            return false;
        }
        k += 1;
    }
    proof {
        assert(x@ =~= y@);
    }
    true
}

/// The characters `cs[from..to]` as a text.
fn text_of_range(cs: &Vec<char>, from: usize, to: usize) -> (res: String)
    requires
        from <= to <= cs@.len(),
    ensures
        res@ == cs@.subrange(from as int, to as int),
{
    let mut out = String::new();
    let mut k: usize = from;
    while k < to
        invariant
            from <= k <= to <= cs@.len(),
            out@ == cs@.subrange(from as int, k as int),
        decreases to - k,
    {
        push_char(&mut out, cs[k]);
        k += 1;
        proof {
            assert(out@ =~= cs@.subrange(from as int, k as int));
        }
    }
    out
}

/// `hay` with every non-overlapping occurrence of a non-empty `from`, taken from left
/// to right, replaced by `to`.
pub open spec fn replaced_nonempty(hay: Seq<char>, from: Seq<char>, to: Seq<char>) -> Seq<char>
    decreases hay.len(),
{
    if hay.len() == 0 || from.len() == 0 {
        hay
    } else if from.len() <= hay.len() && hay.take(from.len() as int) == from {
        to + replaced_nonempty(hay.skip(from.len() as int), from, to)
    } else {
        seq![hay[0]] + replaced_nonempty(hay.drop_first(), from, to)
    }
}

/// `hay` with `to` put before every character and at the end: what replacing the
/// empty text gives, since it occurs at every position.
pub open spec fn replaced_empty(hay: Seq<char>, to: Seq<char>) -> Seq<char>
    decreases hay.len(),
{
    if hay.len() == 0 {
        to
    } else {
        to + seq![hay[0]] + replaced_empty(hay.drop_first(), to)
    }
}

/// `hay` with every non-overlapping occurrence of `from` replaced by `to`.
pub open spec fn replaced(hay: Seq<char>, from: Seq<char>, to: Seq<char>) -> Seq<char> {
    if from.len() == 0 {
        replaced_empty(hay, to)
    } else {
        replaced_nonempty(hay, from, to)
    }
}

/// Replaces every non-overlapping occurrence of `from` in `hay`, from left to right,
/// by `to`; an empty `from` occurs before every character and at the end.
pub fn replace_all(hay: &str, from: &str, to: &str) -> (res: String)
    ensures
        res@ == replaced(hay@, from@, to@),
{
    let h = chars_of(hay);
    let f = chars_of(from);
    let mut out = String::new();
    let mut i: usize = 0;
    proof {
        assert(h@.skip(0) == h@);
    }
    if f.len() == 0 {
        while i < h.len()
            invariant
                h@ == hay@,
                i <= h@.len(),
                out@ + replaced_empty(h@.skip(i as int), to@) == replaced_empty(hay@, to@),
            decreases h.len() - i,
        {
            proof {
                assert(h@.skip(i as int).drop_first() =~= h@.skip(i + 1));
                assert(out@ + (to@ + seq![h@[i as int]] + replaced_empty(h@.skip(i + 1), to@))
                    =~= (out@ + to@).push(h@[i as int]) + replaced_empty(h@.skip(i + 1), to@));
            }
            push_str(&mut out, to);
            push_char(&mut out, h[i]);
            i += 1;
        }
        proof {
            assert(h@.skip(i as int).len() == 0);
        }
        push_str(&mut out, to);
        return out;
    }
    while i < h.len()
        invariant
            h@ == hay@,
            f@ == from@,
            f@.len() > 0,
            i <= h@.len(),
            out@ + replaced_nonempty(h@.skip(i as int), f@, to@) == replaced_nonempty(
                hay@,
                from@,
                to@,
            ),
        decreases h.len() - i,
    {
        proof {
            assert(h@.skip(i as int).take(f@.len() as int) =~= h@.subrange(
                i as int,
                i + f@.len(),
            ) || i + f@.len() > h@.len());
        }
        if occurs_at_index(&h, &f, i) {
            proof {
                assert(h@.skip(i as int).skip(f@.len() as int) =~= h@.skip(i + f@.len()));
                assert(out@ + (to@ + replaced_nonempty(h@.skip(i + f@.len()), f@, to@)) =~= (
                out@ + to@) + replaced_nonempty(h@.skip(i + f@.len()), f@, to@));
            }
            push_str(&mut out, to);
            i += f.len();
        } else {
            proof {
                assert(h@.skip(i as int).drop_first() =~= h@.skip(i + 1));
                assert(out@ + (seq![h@[i as int]] + replaced_nonempty(h@.skip(i + 1), f@, to@))
                    =~= out@.push(h@[i as int]) + replaced_nonempty(h@.skip(i + 1), f@, to@));
            }
            push_char(&mut out, h[i]);
            i += 1;
        }
    }
    proof {
        assert(h@.skip(i as int).len() == 0);
        assert(out@ + seq![] =~= out@);
    }
    out
}

} // verus!

verus! {

/// The pieces of `s` between occurrences of `sep`: one more piece than there are
/// separators, empty pieces included.
pub open spec fn split_on(s: Seq<char>, sep: char) -> Seq<Seq<char>>
    decreases s.len(),
{
    match first_index_of(s, sep) {
        Some(p) => {
            proof {
                lemma_first_index_of(s, sep);
            }
            seq![s.take(p)] + split_on(s.skip(p + 1), sep)
        },
        None => seq![s],
    }
}

/// Splits `s` at every occurrence of `sep`.
pub fn split_on_char(s: &str, sep: char) -> (res: Vec<String>)
    ensures
        res.deep_view() == split_on(s@, sep),
{
    let cs = chars_of(s);
    let mut pieces: Vec<String> = Vec::new();
    let mut start: usize = 0;
    let mut i: usize = 0;
    proof {
        assert(cs@.skip(0) == cs@);
        assert(pieces.deep_view() + split_on(s@, sep) =~= split_on(s@, sep));
    }
    while i < cs.len()
        invariant
            cs@ == s@,
            start <= i <= cs@.len(),
            forall|j: int| start <= j < i ==> cs@[j] != sep,
            pieces.deep_view() + split_on(cs@.skip(start as int), sep) == split_on(s@, sep),
        decreases cs.len() - i,
    {
        if cs[i] == sep {
            let ghost rest = cs@.skip(start as int);
            proof {
                lemma_first_index_of_is(rest, sep, i - start);
                assert(rest.take(i - start) =~= cs@.subrange(start as int, i as int));
                assert(rest.skip(i - start + 1) =~= cs@.skip(i + 1));
            }
            let piece = text_of_range(&cs, start, i);
            let ghost before = pieces.deep_view();
            pieces.push(piece);
            proof {
                assert(pieces.deep_view() =~= before.push(piece@));
                assert(before + split_on(rest, sep) =~= pieces.deep_view() + split_on(
                    cs@.skip(i + 1),
                    sep,
                ));
            }
            start = i + 1;
        }
        i += 1;
    }
    let ghost rest = cs@.skip(start as int);
    proof {
        lemma_first_index_of_is(rest, sep, rest.len() as int);
        assert(rest =~= cs@.subrange(start as int, cs@.len() as int));
    }
    let piece = text_of_range(&cs, start, cs.len());
    let ghost before = pieces.deep_view();
    pieces.push(piece);
    proof {
        assert(pieces.deep_view() =~= before.push(piece@));
        assert(before + split_on(rest, sep) =~= pieces.deep_view());
    }
    pieces
}

/// The line feed character.
pub const LINE_FEED: char = '\n';

/// The carriage return character.
pub const CARRIAGE_RETURN: char = '\r';

/// A line with the carriage return that ends it, if any, taken away.
pub open spec fn without_cr(line: Seq<char>) -> Seq<char> {
    if line.len() > 0 && line.last() == CARRIAGE_RETURN {
        line.drop_last()
    } else {
        line
    }
}

/// The lines of `s`: the pieces between line feeds, each without a carriage
/// return before its line feed; a final line feed starts no further line.
pub open spec fn lines_of(s: Seq<char>) -> Seq<Seq<char>>
    decreases s.len(),
{
    if s.len() == 0 {
        seq![]
    } else {
        match first_index_of(s, LINE_FEED) {
            Some(p) => {
                proof {
                    lemma_first_index_of(s, LINE_FEED);
                }
                seq![without_cr(s.take(p))] + lines_of(s.skip(p + 1))
            },
            None => seq![s],
        }
    }
}

/// The lines of `s`, as `str::lines` gives them.
pub fn lines(s: &str) -> (res: Vec<String>)
    ensures
        res.deep_view() == lines_of(s@),
{
    let cs = chars_of(s);
    let mut out: Vec<String> = Vec::new();
    let mut start: usize = 0;
    let mut i: usize = 0;
    proof {
        assert(cs@.skip(0) == cs@);
        assert(out.deep_view() + lines_of(s@) =~= lines_of(s@));
    }
    while i < cs.len()
        invariant
            cs@ == s@,
            start <= i <= cs@.len(),
            forall|j: int| start <= j < i ==> cs@[j] != LINE_FEED,
            out.deep_view() + lines_of(cs@.skip(start as int)) == lines_of(s@),
        decreases cs.len() - i,
    {
        if cs[i] == LINE_FEED {
            let ghost rest = cs@.skip(start as int);
            proof {
                lemma_first_index_of_is(rest, LINE_FEED, i - start);
                assert(rest.take(i - start) =~= cs@.subrange(start as int, i as int));
                assert(rest.skip(i - start + 1) =~= cs@.skip(i + 1));
            }
            let end = if i > start && cs[i - 1] == CARRIAGE_RETURN {
                i - 1
            } else {
                i
            };
            let line = text_of_range(&cs, start, end);
            proof {
                assert(line@ =~= without_cr(cs@.subrange(start as int, i as int)));
            }
            let ghost before = out.deep_view();
            out.push(line);
            proof {
                assert(out.deep_view() =~= before.push(line@));
                assert(before + lines_of(rest) =~= out.deep_view() + lines_of(cs@.skip(i + 1)));
            }
            start = i + 1;
        }
        i += 1;
    }
    let ghost rest = cs@.skip(start as int);
    if start < cs.len() {
        proof {
            lemma_first_index_of_is(rest, LINE_FEED, rest.len() as int);
            assert(rest =~= cs@.subrange(start as int, cs@.len() as int));
        }
        let line = text_of_range(&cs, start, cs.len());
        let ghost before = out.deep_view();
        out.push(line);
        proof {
            assert(out.deep_view() =~= before.push(line@));
            assert(before + lines_of(rest) =~= out.deep_view());
        }
    } else {
        proof {
            assert(out.deep_view() + lines_of(rest) =~= out.deep_view());
        }
    }
    out
}

/// The texts of `parts` with `sep` between each two of them.
pub open spec fn joined(parts: Seq<Seq<char>>, sep: Seq<char>) -> Seq<char>
    decreases parts.len(),
{
    if parts.len() == 0 {
        seq![]
    } else if parts.len() == 1 {
        parts[0]
    } else {
        joined(parts.drop_last(), sep) + sep + parts.last()
    }
}

/// The texts of `parts` with `sep` between each two of them.
pub fn join(parts: &[&str], sep: &str) -> (res: String)
    ensures
        res@ == joined(parts@.map_values(|p: &str| p@), sep@),
{
    let ghost views = parts@.map_values(|p: &str| p@);
    let mut out = String::new();
    let mut k: usize = 0;
    while k < parts.len()
        invariant
            k <= parts@.len(),
            views == parts@.map_values(|p: &str| p@),
            out@ == joined(views.take(k as int), sep@),
        decreases parts.len() - k,
    {
        if k != 0 {
            push_str(&mut out, sep);
        }
        push_str(&mut out, parts[k]);
        proof {
            assert(views.take(k + 1).drop_last() =~= views.take(k as int));
            if k == 0 {
                assert(out@ =~= views.take(1)[0]);
            }
        }
        k += 1;
    }
    proof {
        assert(views.take(k as int) =~= views);
    }
    out
}

} // verus!

verus! {

/// The text that `String::from_utf8_lossy` makes of `bytes`.
pub uninterp spec fn utf8_lossy_text(bytes: Seq<u8>) -> Seq<char>;

/// `bytes` decoded as UTF-8, with each invalid sequence shown as U+FFFD, through
/// `String::from_utf8_lossy`. Trusted to give `utf8_lossy_text`, which for valid UTF-8
/// is the decoded text, as the documentation says.
#[verifier::external_body]
pub(crate) fn lossy_text(bytes: &[u8]) -> (res: String)
    ensures
        res@ == utf8_lossy_text(bytes@),
        vstd::utf8::valid_utf8(bytes@) ==> res@ == vstd::utf8::decode_utf8(bytes@),
{
    String::from_utf8_lossy(bytes).into_owned()
}

} // verus!

verus! {

/// Replacing a text by itself changes nothing.
pub proof fn law_replace_by_itself(hay: Seq<char>, from: Seq<char>)
    ensures
        replaced(hay, from, from) == hay,
    decreases hay.len(),
{
    if from.len() == 0 {
        lemma_replaced_empty_by_nothing(hay);
        assert(from =~= Seq::<char>::empty());
    } else if hay.len() == 0 {
    } else if from.len() <= hay.len() && hay.take(from.len() as int) == from {
        law_replace_by_itself(hay.skip(from.len() as int), from);
        assert(from + hay.skip(from.len() as int) =~= hay);
    } else {
        law_replace_by_itself(hay.drop_first(), from);
        assert(seq![hay[0]] + hay.drop_first() =~= hay);
    }
}

proof fn lemma_replaced_empty_by_nothing(hay: Seq<char>)
    ensures
        replaced_empty(hay, Seq::<char>::empty()) == hay,
    decreases hay.len(),
{
    if hay.len() > 0 {
        lemma_replaced_empty_by_nothing(hay.drop_first());
        assert(Seq::<char>::empty() + seq![hay[0]] + hay.drop_first() =~= hay);
    }
}

/// Putting a piece in front of a non-empty list puts it and a separator in front of
/// the joined text.
proof fn lemma_joined_prepend(first: Seq<char>, rest: Seq<Seq<char>>, sep: Seq<char>)
    requires
        rest.len() > 0,
    ensures
        joined(seq![first] + rest, sep) == first + sep + joined(rest, sep),
    decreases rest.len(),
{
    let all = seq![first] + rest;
    if rest.len() == 1 {
        assert(all.drop_last() =~= seq![first]);
        assert(joined(rest, sep) == rest[0]);
        assert(joined(seq![first], sep) == first);
        assert(all.last() == rest[0]);
        assert(joined(all, sep) == joined(all.drop_last(), sep) + sep + all.last());
    } else {
        assert(joined(all, sep) == joined(all.drop_last(), sep) + sep + all.last());
        assert(joined(rest, sep) == joined(rest.drop_last(), sep) + sep + rest.last());
        lemma_joined_prepend(first, rest.drop_last(), sep);
        assert(all.drop_last() =~= seq![first] + rest.drop_last());
        assert(all.last() == rest.last());
        assert(first + sep + joined(rest.drop_last(), sep) + sep + rest.last() =~= first + sep
            + (joined(rest.drop_last(), sep) + sep + rest.last()));
    }
}

/// Joining the pieces of a split by the separator gives back the text.
pub proof fn law_split_then_join(s: Seq<char>, sep: char)
    ensures
        joined(split_on(s, sep), seq![sep]) == s,
    decreases s.len(),
{
    lemma_first_index_of(s, sep);
    match first_index_of(s, sep) {
        Some(p) => {
            let rest = s.skip(p + 1);
            law_split_then_join(rest, sep);
            lemma_split_nonempty(rest, sep);
            lemma_joined_prepend(s.take(p), split_on(rest, sep), seq![sep]);
            assert(s.take(p) + seq![sep] + rest =~= s);
        },
        None => {},
    }
}

/// A split has at least one piece.
pub proof fn lemma_split_nonempty(s: Seq<char>, sep: char)
    ensures
        split_on(s, sep).len() > 0,
{
}

} // verus!

verus! {

proof fn lemma_count_of_concat(a: Seq<char>, b: Seq<char>, x: char)
    ensures
        count_of(a + b, x) == count_of(a, x) + count_of(b, x),
    decreases b.len(),
{
    if b.len() == 0 {
        assert(a + b =~= a);
    } else {
        lemma_count_of_concat(a, b.drop_last(), x);
        assert((a + b).drop_last() =~= a + b.drop_last());
    }
}

proof fn lemma_count_of_absent(s: Seq<char>, x: char)
    requires
        forall|j: int| 0 <= j < s.len() ==> s[j] != x,
    ensures
        count_of(s, x) == 0,
    decreases s.len(),
{
    if s.len() > 0 {
        lemma_count_of_absent(s.drop_last(), x);
    }
}

/// Splitting at `sep` gives one more piece than `s` holds separators, and no piece holds
/// the separator: together with `law_split_then_join`, the pieces are exactly the runs
/// of `s` between its separators.
pub proof fn law_split_pieces(s: Seq<char>, sep: char)
    ensures
        split_on(s, sep).len() == count_of(s, sep) + 1,
        forall|i: int, j: int|
            0 <= i < split_on(s, sep).len() && 0 <= j < split_on(s, sep)[i].len()
                ==> #[trigger] split_on(s, sep)[i][j] != sep,
    decreases s.len(),
{
    lemma_first_index_of(s, sep);
    match first_index_of(s, sep) {
        Some(p) => {
            let rest = s.skip(p + 1);
            law_split_pieces(rest, sep);
            let head = s.take(p);
            assert(s =~= head + (seq![sep] + rest));
            lemma_count_of_concat(head, seq![sep] + rest, sep);
            lemma_count_of_concat(seq![sep], rest, sep);
            assert(seq![sep].drop_last() =~= Seq::<char>::empty());
            assert(count_of(Seq::<char>::empty(), sep) == 0);
            lemma_count_of_absent(head, sep);
            let all = split_on(s, sep);
            assert(all == seq![head] + split_on(rest, sep));
            assert forall|i: int, j: int|
                0 <= i < all.len() && 0 <= j < all[i].len() implies #[trigger] all[i][j] != sep by {
                if i > 0 {
                    assert(all[i] == split_on(rest, sep)[i - 1]);
                    assert(split_on(rest, sep)[i - 1][j] != sep);
                }
            }
        },
        None => {
            lemma_count_of_absent(s, sep);
        },
    }
}


/// The lines of a text hold no line feed, and there is one line per line feed, plus
/// one for a last line that no line feed ends. A text without carriage returns is the
/// lines joined by line feeds, followed by a line feed when the text ends with one.
pub proof fn law_lines_split_at_line_feeds(s: Seq<char>)
    ensures
        forall|i: int, j: int|
            0 <= i < lines_of(s).len() && 0 <= j < lines_of(s)[i].len() ==> #[trigger] lines_of(
                s,
            )[i][j] != LINE_FEED,
        lines_of(s).len() == count_of(s, LINE_FEED) + if s.len() > 0 && s.last() != LINE_FEED {
            1nat
        } else {
            0nat
        },
        (forall|j: int| 0 <= j < s.len() ==> s[j] != CARRIAGE_RETURN) ==> joined(
            lines_of(s),
            seq![LINE_FEED],
        ) + (if s.len() > 0 && s.last() == LINE_FEED {
            seq![LINE_FEED]
        } else {
            Seq::<char>::empty()
        }) == s,
    decreases s.len(),
{
    if s.len() == 0 {
        assert(count_of(s, LINE_FEED) == 0);
        assert(joined(lines_of(s), seq![LINE_FEED]) + Seq::<char>::empty() =~= s);
    } else {
        lemma_first_index_of(s, LINE_FEED);
        match first_index_of(s, LINE_FEED) {
            Some(p) => {
                let rest = s.skip(p + 1);
                let head = s.take(p);
                law_lines_split_at_line_feeds(rest);
                assert(s =~= head + (seq![LINE_FEED] + rest));
                lemma_count_of_concat(head, seq![LINE_FEED] + rest, LINE_FEED);
                lemma_count_of_concat(seq![LINE_FEED], rest, LINE_FEED);
                assert(seq![LINE_FEED].drop_last() =~= Seq::<char>::empty());
                assert(count_of(Seq::<char>::empty(), LINE_FEED) == 0);
                lemma_count_of_absent(head, LINE_FEED);
                let first = without_cr(head);
                let all = lines_of(s);
                assert(all == seq![first] + lines_of(rest));
                assert forall|i: int, j: int|
                    0 <= i < all.len() && 0 <= j < all[i].len() implies #[trigger] all[i][j]
                        != LINE_FEED by {
                    if i > 0 {
                        assert(all[i] == lines_of(rest)[i - 1]);
                        assert(lines_of(rest)[i - 1][j] != LINE_FEED);
                    } else if first.len() < head.len() {
                        assert(first[j] == head[j]);
                    }
                }
                if rest.len() > 0 {
                    assert(rest.last() == s.last());
                } else {
                    assert(p == s.len() - 1);
                }
                if forall|j: int| 0 <= j < s.len() ==> s[j] != CARRIAGE_RETURN {
                    assert(forall|j: int| 0 <= j < rest.len() ==> rest[j] == s[p + 1 + j]);
                    if head.len() > 0 {
                        assert(head.last() == s[p - 1]);
                    }
                    assert(first == head);
                    if rest.len() == 0 {
                        assert(all =~= seq![head]);
                        assert(joined(all, seq![LINE_FEED]) == head);
                        assert(head + seq![LINE_FEED] =~= s);
                    } else {
                        lemma_joined_prepend(head, lines_of(rest), seq![LINE_FEED]);
                        let tail = if rest.last() == LINE_FEED {
                            seq![LINE_FEED]
                        } else {
                            Seq::<char>::empty()
                        };
                        assert(head + seq![LINE_FEED] + joined(lines_of(rest), seq![LINE_FEED])
                            + tail =~= head + (seq![LINE_FEED] + (joined(
                            lines_of(rest),
                            seq![LINE_FEED],
                        ) + tail)));
                    }
                }
            },
            None => {
                lemma_count_of_absent(s, LINE_FEED);
                assert(lines_of(s) == seq![s]);
                assert(joined(seq![s], seq![LINE_FEED]) == s);
                assert(s + Seq::<char>::empty() =~= s);
            },
        }
    }
}


proof fn lemma_replaced_char_gone(hay: Seq<char>, c: char, to: Seq<char>)
    requires
        !to.contains(c),
    ensures
        !replaced_nonempty(hay, seq![c], to).contains(c),
    decreases hay.len(),
{
    if hay.len() > 0 {
        let out = replaced_nonempty(hay, seq![c], to);
        if hay.take(1) == seq![c] {
            let rest = replaced_nonempty(hay.skip(1), seq![c], to);
            lemma_replaced_char_gone(hay.skip(1), c, to);
            assert(out == to + rest);
            if out.contains(c) {
                let i = choose|i: int| 0 <= i < out.len() && out[i] == c;
                if i < to.len() {
                    assert(to[i] == c);
                } else {
                    assert(rest[i - to.len()] == c);
                }
            }
        } else {
            let rest = replaced_nonempty(hay.drop_first(), seq![c], to);
            lemma_replaced_char_gone(hay.drop_first(), c, to);
            assert(out == seq![hay[0]] + rest);
            assert(hay[0] != c) by {
                if hay[0] == c {
                    assert(hay.take(1) =~= seq![c]);
                }
            }
            if out.contains(c) {
                let i = choose|i: int| 0 <= i < out.len() && out[i] == c;
                if i > 0 {
                    assert(rest[i - 1] == c);
                }
            }
        }
    }
}

proof fn lemma_replaced_absent(hay: Seq<char>, from: Seq<char>, to: Seq<char>)
    requires
        from.len() > 0,
        !contains_text(hay, from),
    ensures
        replaced_nonempty(hay, from, to) == hay,
    decreases hay.len(),
{
    if hay.len() > 0 {
        if from.len() <= hay.len() && hay.take(from.len() as int) == from {
            assert(occurs_in_at(hay, from, 0));
        }
        assert(!contains_text(hay.drop_first(), from)) by {
            if contains_text(hay.drop_first(), from) {
                let i = choose|i: int| occurs_in_at(hay.drop_first(), from, i);
                assert(hay.subrange(i + 1, i + 1 + from.len()) =~= hay.drop_first().subrange(
                    i,
                    i + from.len(),
                ));
                assert(occurs_in_at(hay, from, i + 1));
            }
        }
        lemma_replaced_absent(hay.drop_first(), from, to);
        assert(seq![hay[0]] + hay.drop_first() =~= hay);
    }
}

/// Replacing changes nothing in a text where the replaced text does not occur; and
/// replacing a character by a text without it leaves no such character behind: every
/// occurrence is replaced, not only the first.
pub proof fn law_replace_reaches_every_occurrence(hay: Seq<char>, from: Seq<char>, to: Seq<char>)
    ensures
        from.len() > 0 && !contains_text(hay, from) ==> replaced(hay, from, to) == hay,
        from.len() == 1 && !to.contains(from[0]) ==> !replaced(hay, from, to).contains(from[0]),
{
    if from.len() > 0 && !contains_text(hay, from) {
        lemma_replaced_absent(hay, from, to);
    }
    if from.len() == 1 && !to.contains(from[0]) {
        assert(from =~= seq![from[0]]);
        lemma_replaced_char_gone(hay, from[0], to);
    }
}

} // verus!
