//! Helpers on found matches: their surrounding context, their line number, and
//! the width-limited display of a line that may hold ANSI escape sequences.
use vstd::prelude::*;

use crate::search::{
    count_byte, count_of, find_byte, first_index_of, last_index_of, lemma_first_index_of,
    lemma_last_index_of, rfind_byte,
};

verus! {

/// The line feed byte, which separates lines.
pub const NEWLINE: u8 = 10u8;

/// A UTF-8 continuation byte: one that does not begin a character.
pub open spec fn is_continuation(b: u8) -> bool {
    0x80 <= b < 0xC0
}

/// Where the `n` characters before offset `pos` begin: stepping back byte by byte and
/// counting each byte that begins a character, until `n` are counted or the buffer's
/// start is reached.
pub open spec fn step_back(content: Seq<u8>, pos: int, n: nat) -> int
    decreases pos,
{
    if pos <= 0 || n == 0 {
        pos
    } else if is_continuation(content[pos - 1]) {
        step_back(content, pos - 1, n)
    } else {
        step_back(content, pos - 1, (n - 1) as nat)
    }
}

/// The first offset from `pos` on that holds no continuation byte (or the end).
pub open spec fn skip_continuations(content: Seq<u8>, pos: int) -> int
    decreases content.len() - pos,
{
    if 0 <= pos < content.len() && is_continuation(content[pos]) {
        skip_continuations(content, pos + 1)
    } else {
        pos
    }
}

/// Where the `n` characters from offset `pos` on end: each step passes one byte and the
/// continuation bytes after it, until `n` steps are made or the end is reached.
pub open spec fn step_forward(content: Seq<u8>, pos: int, n: nat) -> int
    decreases n,
{
    if pos >= content.len() || n == 0 {
        pos
    } else {
        step_forward(content, skip_continuations(content, pos + 1), (n - 1) as nat)
    }
}

/// Lowest offset that the context before a match may reach: `ctx` characters back,
/// or the start of the buffer.
pub open spec fn context_floor(content: Seq<u8>, match_start: int, ctx: nat) -> int {
    step_back(content, match_start, ctx)
}

/// Highest offset that the context after a match may reach: `ctx` characters on,
/// or the end of the buffer.
pub open spec fn context_ceiling(content: Seq<u8>, match_end: int, ctx: nat) -> int {
    step_forward(content, match_end, ctx)
}

/// Where the context of a match begins: just after the last line feed between
/// the floor and the match, or the floor when there is none.
pub open spec fn context_start(content: Seq<u8>, match_start: int, ctx: nat) -> int {
    let lo = context_floor(content, match_start, ctx);
    match last_index_of(content.subrange(lo, match_start), NEWLINE) {
        Some(p) => lo + p + 1,
        None => lo,
    }
}

/// Where the context of a match ends: at the first line feed between the match
/// and the ceiling, or at the ceiling when there is none.
pub open spec fn context_end(content: Seq<u8>, match_end: int, ctx: nat) -> int {
    let hi = context_ceiling(content, match_end, ctx);
    match first_index_of(content.subrange(match_end, hi), NEWLINE) {
        Some(p) => match_end + p,
        None => hi,
    }
}

/// Number of the line (counted from 1) on which offset `up_to` lies.
pub open spec fn line_number(content: Seq<u8>, up_to: int) -> int {
    count_of(content.take(up_to), NEWLINE) as int + 1
}

proof fn lemma_step_back_range(content: Seq<u8>, pos: int, n: nat)
    requires
        0 <= pos,
    ensures
        0 <= step_back(content, pos, n) <= pos,
        n > 0 && pos > 0 ==> step_back(content, pos, n) < pos,
        n > 0 && step_back(content, pos, n) < pos ==> step_back(content, pos, n) == 0
            || !is_continuation(content[step_back(content, pos, n)]),
    decreases pos,
{
    if pos > 0 && n > 0 {
        if is_continuation(content[pos - 1]) {
            lemma_step_back_range(content, pos - 1, n);
        } else {
            lemma_step_back_range(content, pos - 1, (n - 1) as nat);
        }
    }
}

proof fn lemma_skip_continuations_range(content: Seq<u8>, pos: int)
    requires
        0 <= pos <= content.len(),
    ensures
        pos <= skip_continuations(content, pos) <= content.len(),
        skip_continuations(content, pos) == content.len() || !is_continuation(
            content[skip_continuations(content, pos)],
        ),
    decreases content.len() - pos,
{
    if pos < content.len() && is_continuation(content[pos]) {
        lemma_skip_continuations_range(content, pos + 1);
    }
}

proof fn lemma_step_forward_range(content: Seq<u8>, pos: int, n: nat)
    requires
        0 <= pos <= content.len(),
    ensures
        pos <= step_forward(content, pos, n) <= content.len(),
        n > 0 && step_forward(content, pos, n) > pos ==> step_forward(content, pos, n)
            == content.len() || !is_continuation(content[step_forward(content, pos, n)]),
    decreases n,
{
    if pos < content.len() && n > 0 {
        let next = skip_continuations(content, pos + 1);
        lemma_skip_continuations_range(content, pos + 1);
        lemma_step_forward_range(content, next, (n - 1) as nat);
    }
}

proof fn lemma_step_back_reaches_start(content: Seq<u8>, pos: int, n: nat)
    requires
        0 <= pos <= n,
    ensures
        step_back(content, pos, n) == 0,
    decreases pos,
{
    if pos > 0 {
        if is_continuation(content[pos - 1]) {
            lemma_step_back_reaches_start(content, pos - 1, n);
        } else {
            lemma_step_back_reaches_start(content, pos - 1, (n - 1) as nat);
        }
    }
}

proof fn lemma_step_forward_reaches_end(content: Seq<u8>, pos: int, n: nat)
    requires
        0 <= pos <= content.len(),
        content.len() - pos <= n,
    ensures
        step_forward(content, pos, n) == content.len(),
    decreases n,
{
    if pos < content.len() {
        lemma_skip_continuations_range(content, pos + 1);
        lemma_step_forward_reaches_end(content, skip_continuations(content, pos + 1), (n - 1) as nat);
    }
}

/// The context of a match surrounds it and stays on its line: it begins at or before
/// the match, no earlier than the characters allowed, and ends at or after it, no later
/// than the characters allowed, with no line feed between it and the match.
pub proof fn law_context_stays_on_line(content: Seq<u8>, match_start: int, match_end: int, ctx: nat)
    requires
        0 <= match_start <= match_end <= content.len(),
    ensures
        ({
            let a = context_start(content, match_start, ctx);
            let b = context_end(content, match_end, ctx);
            &&& context_floor(content, match_start, ctx) <= a <= match_start
            &&& match_end <= b <= context_ceiling(content, match_end, ctx)
            &&& forall|j: int| a <= j < match_start ==> content[j] != NEWLINE
            &&& forall|j: int| match_end <= j < b ==> content[j] != NEWLINE
        }),
{
    law_context_bounds_fall_on_characters(content, match_start, match_end, ctx);
    let lo = context_floor(content, match_start, ctx);
    let hi = context_ceiling(content, match_end, ctx);
    let before = content.subrange(lo, match_start);
    let after = content.subrange(match_end, hi);
    lemma_last_index_of(before, NEWLINE);
    lemma_first_index_of(after, NEWLINE);
    let a = context_start(content, match_start, ctx);
    let b = context_end(content, match_end, ctx);
    assert forall|j: int| a <= j < match_start implies content[j] != NEWLINE by {
        assert(content[j] == before[j - lo]);
    }
    assert forall|j: int| match_end <= j < b implies content[j] != NEWLINE by {
        assert(content[j] == after[j - match_end]);
    }
}

/// With a context as wide as the buffer, the context of a match is its whole line: it
/// begins at the buffer's start or just after a line feed and ends at the buffer's end
/// or at a line feed, with no line feed between it and the match on either side.
pub proof fn law_wide_context_is_whole_line(
    content: Seq<u8>,
    match_start: int,
    match_end: int,
    ctx: nat,
)
    requires
        0 <= match_start <= match_end <= content.len(),
        content.len() <= ctx,
    ensures
        ({
            let a = context_start(content, match_start, ctx);
            let b = context_end(content, match_end, ctx);
            &&& 0 <= a <= match_start
            &&& match_end <= b <= content.len()
            &&& a == 0 || content[a - 1] == NEWLINE
            &&& b == content.len() || content[b] == NEWLINE
            &&& forall|j: int| a <= j < match_start ==> content[j] != NEWLINE
            &&& forall|j: int| match_end <= j < b ==> content[j] != NEWLINE
        }),
{
    lemma_step_back_reaches_start(content, match_start, ctx);
    lemma_step_forward_reaches_end(content, match_end, ctx);
    let before = content.subrange(0, match_start);
    let after = content.subrange(match_end, content.len() as int);
    lemma_last_index_of(before, NEWLINE);
    lemma_first_index_of(after, NEWLINE);
    let a = context_start(content, match_start, ctx);
    let b = context_end(content, match_end, ctx);
    assert forall|j: int| a <= j < match_start implies content[j] != NEWLINE by {
        assert(content[j] == before[j]);
    }
    assert forall|j: int| match_end <= j < b implies content[j] != NEWLINE by {
        assert(content[j] == after[j - match_end]);
    }
    if a > 0 {
        assert(content[a - 1] == before[a - 1]);
    }
    if b < content.len() {
        assert(content[b] == after[b - match_end]);
    }
}

/// The bounds of a context before the line feeds are taken into account fall on
/// character starts: `ctx` characters back from a match begin at the buffer's start
/// or at a byte that begins a character, and `ctx` characters on from it end at the
/// buffer's end or at a byte that begins a character.
pub proof fn law_context_bounds_fall_on_characters(
    content: Seq<u8>,
    match_start: int,
    match_end: int,
    ctx: nat,
)
    requires
        0 <= match_start <= match_end <= content.len(),
    ensures
        0 <= context_floor(content, match_start, ctx) <= match_start,
        match_end <= context_ceiling(content, match_end, ctx) <= content.len(),
        ({
            let lo = context_floor(content, match_start, ctx);
            lo == match_start || lo == 0 || !is_continuation(content[lo])
        }),
        ({
            let hi = context_ceiling(content, match_end, ctx);
            hi == match_end || hi == content.len() || !is_continuation(content[hi])
        }),
{
    lemma_step_back_range(content, match_start, ctx);
    lemma_step_forward_range(content, match_end, ctx);
}

/// How many bytes of `s` begin a character, that is how many characters `s` holds when
/// it is UTF-8.
pub open spec fn char_starts(s: Seq<u8>) -> nat
    decreases s.len(),
{
    if s.len() == 0 {
        0
    } else {
        char_starts(s.drop_last()) + if is_continuation(s.last()) {
            0nat
        } else {
            1nat
        }
    }
}

proof fn lemma_char_starts_concat(a: Seq<u8>, b: Seq<u8>)
    ensures
        char_starts(a + b) == char_starts(a) + char_starts(b),
    decreases b.len(),
{
    if b.len() == 0 {
        assert(a + b =~= a);
    } else {
        lemma_char_starts_concat(a, b.drop_last());
        assert((a + b).drop_last() =~= a + b.drop_last());
    }
}

proof fn lemma_char_starts_single(x: u8)
    ensures
        char_starts(seq![x]) == if is_continuation(x) {
            0nat
        } else {
            1nat
        },
{
    assert(seq![x].drop_last() =~= Seq::<u8>::empty());
    assert(char_starts(Seq::<u8>::empty()) == 0);
}

proof fn lemma_step_back_count(content: Seq<u8>, pos: int, n: nat)
    requires
        0 <= pos <= content.len(),
    ensures
        char_starts(content.subrange(step_back(content, pos, n), pos)) <= n,
        step_back(content, pos, n) > 0 ==> char_starts(
            content.subrange(step_back(content, pos, n), pos),
        ) == n,
    decreases pos,
{
    let lo = step_back(content, pos, n);
    if pos > 0 && n > 0 {
        if is_continuation(content[pos - 1]) {
            lemma_step_back_count(content, pos - 1, n);
            lemma_step_back_range(content, pos - 1, n);
        } else {
            lemma_step_back_count(content, pos - 1, (n - 1) as nat);
            lemma_step_back_range(content, pos - 1, (n - 1) as nat);
        }
        assert(content.subrange(lo, pos).drop_last() =~= content.subrange(lo, pos - 1));
    } else {
        assert(content.subrange(lo, pos) =~= Seq::<u8>::empty());
    }
}

proof fn lemma_skip_continuations_count(content: Seq<u8>, pos: int)
    requires
        0 <= pos <= content.len(),
    ensures
        char_starts(content.subrange(pos, skip_continuations(content, pos))) == 0,
    decreases content.len() - pos,
{
    let end = skip_continuations(content, pos);
    lemma_skip_continuations_range(content, pos);
    if pos < content.len() && is_continuation(content[pos]) {
        lemma_skip_continuations_count(content, pos + 1);
        lemma_skip_continuations_range(content, pos + 1);
        assert(content.subrange(pos, end) =~= seq![content[pos]] + content.subrange(pos + 1, end));
        lemma_char_starts_concat(seq![content[pos]], content.subrange(pos + 1, end));
        lemma_char_starts_single(content[pos]);
    } else {
        assert(content.subrange(pos, end) =~= Seq::<u8>::empty());
    }
}

proof fn lemma_step_forward_count(content: Seq<u8>, pos: int, n: nat)
    requires
        0 <= pos <= content.len(),
    ensures
        char_starts(content.subrange(pos, step_forward(content, pos, n))) <= n,
        step_forward(content, pos, n) < content.len() && (pos == content.len()
            || !is_continuation(content[pos])) ==> char_starts(
            content.subrange(pos, step_forward(content, pos, n)),
        ) == n,
    decreases n,
{
    let hi = step_forward(content, pos, n);
    if pos < content.len() && n > 0 {
        let next = skip_continuations(content, pos + 1);
        lemma_skip_continuations_range(content, pos + 1);
        lemma_skip_continuations_count(content, pos + 1);
        lemma_step_forward_count(content, next, (n - 1) as nat);
        lemma_step_forward_range(content, next, (n - 1) as nat);
        let first = seq![content[pos]];
        assert(content.subrange(pos, hi) =~= first + content.subrange(pos + 1, next)
            + content.subrange(next, hi));
        lemma_char_starts_concat(first, content.subrange(pos + 1, next));
        lemma_char_starts_concat(first + content.subrange(pos + 1, next), content.subrange(next, hi));
        lemma_char_starts_single(content[pos]);
    } else {
        assert(content.subrange(pos, hi) =~= Seq::<u8>::empty());
    }
}

/// The context before a match spans at most `ctx` characters, and exactly `ctx` unless
/// it reaches the buffer's start; the context after a match spans at most `ctx`
/// characters, and exactly `ctx` unless it reaches the buffer's end, when the match
/// ends where a character begins. (Line feeds may cut both shorter still.)
pub proof fn law_context_spans_characters(
    content: Seq<u8>,
    match_start: int,
    match_end: int,
    ctx: nat,
)
    requires
        0 <= match_start <= match_end <= content.len(),
    ensures
        ({
            let lo = context_floor(content, match_start, ctx);
            &&& char_starts(content.subrange(lo, match_start)) <= ctx
            &&& lo > 0 ==> char_starts(content.subrange(lo, match_start)) == ctx
        }),
        ({
            let hi = context_ceiling(content, match_end, ctx);
            &&& char_starts(content.subrange(match_end, hi)) <= ctx
            &&& hi < content.len() && !is_continuation(content[match_end]) ==> char_starts(
                content.subrange(match_end, hi),
            ) == ctx
        }),
{
    lemma_step_back_count(content, match_start, ctx);
    lemma_step_forward_count(content, match_end, ctx);
    lemma_step_forward_range(content, match_end, ctx);
}

/// The bytes around the match `content[match_start..match_end]`: at most `ctx_len`
/// characters on each side, and never past a line feed on either side.
pub fn extract_context<'a>(
    content: &'a [u8],
    match_start: usize,
    match_end: usize,
    ctx_len: usize,
) -> (res: &'a [u8])
    requires
        match_start <= match_end <= content@.len(),
    ensures
        res@ == content@.subrange(
            context_start(content@, match_start as int, ctx_len as nat),
            context_end(content@, match_end as int, ctx_len as nat),
        ),
        ({
            let lo = context_floor(content@, match_start as int, ctx_len as nat);
            let hi = context_ceiling(content@, match_end as int, ctx_len as nat);
            let start = context_start(content@, match_start as int, ctx_len as nat);
            let end = context_end(content@, match_end as int, ctx_len as nat);
            &&& lo <= start <= match_start
            &&& match_end <= end <= hi
            &&& forall|j: int| start <= j < match_start ==> content@[j] != NEWLINE
            &&& forall|j: int| match_end <= j < end ==> content@[j] != NEWLINE
            &&& start > lo ==> content@[start - 1] == NEWLINE
            &&& end < hi ==> content@[end] == NEWLINE
        }),
{
    let ghost n = ctx_len as nat;
    proof {
        law_context_bounds_fall_on_characters(content@, match_start as int, match_end as int, n);
    }
    // Back over `ctx_len` characters, or to the start.
    let mut lo = match_start;
    let mut k: usize = 0;
    while lo > 0 && k < ctx_len
        invariant
            lo <= match_start <= content@.len(),
            k <= ctx_len,
            step_back(content@, lo as int, (ctx_len - k) as nat) == step_back(
                content@,
                match_start as int,
                ctx_len as nat,
            ),
        decreases lo,
    {
        lo -= 1;
        if !(0x80 <= content[lo] && content[lo] < 0xC0) {
            k += 1;
        }
    }
    // On over `ctx_len` characters, or to the end.
    let mut hi = match_end;
    let mut k: usize = 0;
    while hi < content.len() && k < ctx_len
        invariant
            match_end <= hi <= content@.len(),
            k <= ctx_len,
            step_forward(content@, hi as int, (ctx_len - k) as nat) == step_forward(
                content@,
                match_end as int,
                ctx_len as nat,
            ),
        decreases ctx_len - k,
    {
        let ghost next = skip_continuations(content@, hi + 1);
        hi += 1;
        while hi < content.len() && 0x80 <= content[hi] && content[hi] < 0xC0
            invariant
                match_end < hi <= content@.len(),
                skip_continuations(content@, hi as int) == next,
            decreases content.len() - hi,
        {
            hi += 1;
        }
        k += 1;
    }
    let mut start = lo;
    let before = &content[lo..match_start];
    proof {
        lemma_last_index_of(before@, NEWLINE);
    }
    if let Some(newline_pos) = rfind_byte(NEWLINE, before) {
        start += newline_pos + 1;
    }
    let mut end = hi;
    let after = &content[match_end..hi];
    proof {
        lemma_first_index_of(after@, NEWLINE);
    }
    if let Some(newline_pos) = find_byte(NEWLINE, after) {
        end = match_end + newline_pos;
    }
    proof {
        assert forall|j: int| start <= j < match_start implies content@[j] != NEWLINE by {
            assert(content@[j] == before@[j - lo]);
        }
        assert forall|j: int| match_end <= j < end implies content@[j] != NEWLINE by {
            assert(content@[j] == after@[j - match_end]);
        }
    }
    &content[start..end]
}

/// The number of the line, counted from 1, on which offset `up_to` of `content` lies.
pub fn count_lines(content: &[u8], up_to: usize) -> (res: usize)
    requires
        up_to <= content@.len(),
        count_of(content@.take(up_to as int), NEWLINE) < usize::MAX,
    ensures
        res as int == line_number(content@, up_to as int),
{
    let before = &content[0..up_to];
    proof {
        assert(before@ == content@.take(up_to as int));
    }
    count_byte(NEWLINE, before) + 1
}

} // verus!

verus! {

/// The escape character that opens an ANSI control sequence.
pub const ESC: char = '\x1B';

/// What a cut line ends with: an ellipsis, then the sequence that resets all styles.
pub open spec fn cut_marker() -> Seq<char> {
    seq!['.', '.', '.', ESC, '[', '0', 'm']
}

/// The width-limited display of `cs`, given whether an escape sequence is open and how
/// many visible characters came before. Characters of escape sequences (from the escape
/// character to the next `m`) are kept and not counted; the first visible character
/// beyond `max` is replaced by the cut marker, and nothing after it is kept.
pub open spec fn truncate_from(cs: Seq<char>, in_ansi: bool, visible: int, max: int) -> Seq<
    char,
>
    decreases cs.len(),
{
    if cs.len() == 0 {
        seq![]
    } else {
        let c = cs[0];
        if in_ansi || c == ESC {
            seq![c] + truncate_from(cs.drop_first(), c != 'm', visible, max)
        } else if visible + 1 > max {
            cut_marker()
        } else {
            seq![c] + truncate_from(cs.drop_first(), false, visible + 1, max)
        }
    }
}

/// The display of `s` limited to `max` visible characters.
pub open spec fn truncated(s: Seq<char>, max: int) -> Seq<char> {
    truncate_from(s, false, 0, max)
}

/// Shortens `s` to at most `max_width` visible characters, keeping ANSI escape
/// sequences whole; a cut line ends with "..." and a style reset.
pub fn truncate_to_width(s: &str, max_width: usize) -> (res: String)
    ensures
        res@ == truncated(s@, max_width as int),
{
    let cs = crate::text::chars_of(s);
    let mut visible_len: usize = 0;
    let mut in_ansi = false;
    let mut result = String::new();
    let mut i: usize = 0;
    proof {
        assert(cs@.skip(0) == cs@);
        assert(result@ + truncated(s@, max_width as int) == truncated(s@, max_width as int));
    }
    while i < cs.len()
        invariant
            i <= cs@.len(),
            cs@ == s@,
            visible_len <= i,
            result@ + truncate_from(cs@.skip(i as int), in_ansi, visible_len as int, max_width as int)
                == truncated(s@, max_width as int),
        decreases cs.len() - i,
    {
        let c = cs[i];
        proof {
            assert(cs@.skip(i as int).drop_first() == cs@.skip(i + 1));
            assert(cs@.skip(i as int)[0] == c);
        }
        if c == ESC {
            in_ansi = true;
        }
        if in_ansi {
            crate::text::push_char(&mut result, c);
            if c == 'm' {
                in_ansi = false;
            }
            i += 1;
            continue;
        }
        visible_len += 1;
        if visible_len > max_width {
            crate::text::push_str(&mut result, "...");
            crate::text::push_str(&mut result, "\x1B[0m");
            proof {
                reveal_strlit("...");
                reveal_strlit("\x1B[0m");
                assert(result@ == (result@ + seq![]));
            }
            return result;
        }
        crate::text::push_char(&mut result, c);
        i += 1;
    }
    proof {
        assert(cs@.skip(i as int).len() == 0);
    }
    result
}

} // verus!

verus! {

/// How many characters of `cs` are visible, that is outside escape sequences, given
/// whether one is open at the start.
pub open spec fn visible_from(cs: Seq<char>, in_ansi: bool) -> nat
    decreases cs.len(),
{
    if cs.len() == 0 {
        0
    } else {
        let c = cs[0];
        if in_ansi || c == ESC {
            visible_from(cs.drop_first(), c != 'm')
        } else {
            1 + visible_from(cs.drop_first(), false)
        }
    }
}

/// How many characters of `s` are visible.
pub open spec fn visible_width(s: Seq<char>) -> nat {
    visible_from(s, false)
}

proof fn lemma_truncate_keeps(cs: Seq<char>, in_ansi: bool, visible: int, max: int)
    requires
        visible + visible_from(cs, in_ansi) <= max,
    ensures
        truncate_from(cs, in_ansi, visible, max) == cs,
    decreases cs.len(),
{
    if cs.len() > 0 {
        let c = cs[0];
        if in_ansi || c == ESC {
            lemma_truncate_keeps(cs.drop_first(), c != 'm', visible, max);
        } else {
            lemma_truncate_keeps(cs.drop_first(), false, visible + 1, max);
        }
        assert(seq![c] + cs.drop_first() =~= cs);
    }
}

/// A line whose visible characters fit in the width is shown unchanged.
pub proof fn law_truncate_keeps_fitting_text(s: Seq<char>, max: int)
    requires
        visible_width(s) <= max,
    ensures
        truncated(s, max) == s,
{
    lemma_truncate_keeps(s, false, 0, max);
}

proof fn lemma_cut_marker_width(visible: int, max: int)
    ensures
        truncate_from(cut_marker(), false, visible, max) == cut_marker() <== visible + 1 > max,
        visible_from(cut_marker(), false) == 3,
{
    reveal_with_fuel(visible_from, 8);
    assert(cut_marker().drop_first() =~= seq!['.', '.', ESC, '[', '0', 'm']);
    assert(cut_marker().drop_first().drop_first() =~= seq!['.', ESC, '[', '0', 'm']);
    assert(cut_marker().drop_first().drop_first().drop_first() =~= seq![ESC, '[', '0', 'm']);
    assert(seq![ESC, '[', '0', 'm'].drop_first() =~= seq!['[', '0', 'm']);
    assert(seq!['[', '0', 'm'].drop_first() =~= seq!['0', 'm']);
    assert(seq!['0', 'm'].drop_first() =~= seq!['m']);
    assert(seq!['m'].drop_first() =~= Seq::<char>::empty());
}

proof fn lemma_truncate_width(cs: Seq<char>, in_ansi: bool, visible: int, max: int)
    requires
        0 <= visible <= max,
    ensures
        visible + visible_from(truncate_from(cs, in_ansi, visible, max), in_ansi) == if visible
            + visible_from(cs, in_ansi) <= max {
            visible + visible_from(cs, in_ansi)
        } else {
            max + 3
        },
    decreases cs.len(),
{
    if cs.len() > 0 {
        let c = cs[0];
        let out = truncate_from(cs, in_ansi, visible, max);
        if in_ansi || c == ESC {
            lemma_truncate_width(cs.drop_first(), c != 'm', visible, max);
            assert(out.drop_first() =~= truncate_from(cs.drop_first(), c != 'm', visible, max));
        } else if visible + 1 > max {
            lemma_cut_marker_width(visible, max);
        } else {
            lemma_truncate_width(cs.drop_first(), false, visible + 1, max);
            assert(out.drop_first() =~= truncate_from(cs.drop_first(), false, visible + 1, max));
        }
    }
}

proof fn lemma_truncate_narrows(cs: Seq<char>, in_ansi: bool, visible: int, wide: int, narrow: int)
    requires
        0 <= visible <= narrow <= wide,
    ensures
        truncate_from(truncate_from(cs, in_ansi, visible, wide), in_ansi, visible, narrow)
            == truncate_from(cs, in_ansi, visible, narrow),
    decreases cs.len(),
{
    if cs.len() > 0 {
        let c = cs[0];
        let out = truncate_from(cs, in_ansi, visible, wide);
        if in_ansi || c == ESC {
            lemma_truncate_narrows(cs.drop_first(), c != 'm', visible, wide, narrow);
            assert(out[0] == c);
            assert(out.drop_first() =~= truncate_from(cs.drop_first(), c != 'm', visible, wide));
        } else if visible + 1 > wide {
            lemma_cut_marker_width(visible, narrow);
        } else {
            assert(out[0] == c);
            assert(out.drop_first() =~= truncate_from(cs.drop_first(), false, visible + 1, wide));
            if visible + 1 <= narrow {
                lemma_truncate_narrows(cs.drop_first(), false, visible + 1, wide, narrow);
            }
        }
    }
}

/// A shown line has exactly the visible width of the line when it fits, and else `max`
/// visible characters and the three of the ellipsis.
pub proof fn law_truncate_width(s: Seq<char>, max: int)
    requires
        0 <= max,
    ensures
        visible_width(truncated(s, max)) == if visible_width(s) <= max {
            visible_width(s) as int
        } else {
            max + 3
        },
{
    lemma_truncate_width(s, false, 0, max);
}

/// Shortening to a width and then to a smaller or equal one gives what shortening to the
/// smaller one at once gives; in particular shortening twice to one width changes nothing
/// the second time.
pub proof fn law_truncate_narrows(s: Seq<char>, wide: int, narrow: int)
    requires
        0 <= narrow <= wide,
    ensures
        truncated(truncated(s, wide), narrow) == truncated(s, narrow),
        truncated(truncated(s, wide), wide) == truncated(s, wide),
{
    lemma_truncate_narrows(s, false, 0, wide, narrow);
    lemma_truncate_narrows(s, false, 0, wide, wide);
}

/// A shown line has at most `max` visible characters, and three more for the ellipsis
/// when it is cut.
pub proof fn law_truncate_width_bound(s: Seq<char>, max: int)
    requires
        0 <= max,
    ensures
        visible_width(truncated(s, max)) <= max + 3,
{
    law_truncate_width(s, max);
}

} // verus!

verus! {

proof fn lemma_count_of_prefix<A>(s: Seq<A>, b: A, p: int, q: int)
    requires
        0 <= p <= q <= s.len(),
    ensures
        count_of(s.take(p), b) <= count_of(s.take(q), b),
    decreases q - p,
{
    if p < q {
        lemma_count_of_prefix(s, b, p, q - 1);
        assert(s.take(q).drop_last() =~= s.take(q - 1));
    }
}

/// The first byte lies on line 1, and each offset lies on the line of the offset before
/// it, or on the next line when the byte before it is a line feed.
pub proof fn law_line_numbers_count_line_feeds(content: Seq<u8>, p: int)
    requires
        0 <= p < content.len(),
    ensures
        line_number(content, 0) == 1,
        line_number(content, p + 1) == line_number(content, p) + if content[p] == NEWLINE {
            1int
        } else {
            0int
        },
{
    assert(content.take(0) =~= Seq::<u8>::empty());
    assert(content.take(p + 1).drop_last() =~= content.take(p));
}

/// Later offsets lie on the same line or on later lines.
pub proof fn law_line_numbers_follow_offsets(content: Seq<u8>, p: int, q: int)
    requires
        0 <= p <= q <= content.len(),
    ensures
        line_number(content, p) <= line_number(content, q),
{
    lemma_count_of_prefix(content, NEWLINE, p, q);
}

} // verus!
