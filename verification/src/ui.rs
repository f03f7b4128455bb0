//! The live view of a scan: how much room each part gets, how a long path is shortened,
//! and which recent matches stay on screen.
use vstd::prelude::*;

use std::collections::VecDeque;

use crate::style::{cyan_code, paint_cyan, paint_red, painted_with, red_code};
use crate::text::{push_char, push_str};
use vstd::string::StringSliceAdditionalSpecFns;

verus! {

/// How many recent matches stay on screen.
pub const RECENT_CAPACITY: usize = 5;

/// Least time between two redraws that are not forced, in milliseconds.
pub const REDRAW_INTERVAL_MS: u64 = 50;

/// Whether the view is drawn now: when forced, or when the last drawing is old enough.
pub fn should_redraw(force: bool, elapsed_ms: u64) -> (res: bool)
    ensures
        res == (force || elapsed_ms >= REDRAW_INTERVAL_MS),
{
    force || elapsed_ms >= REDRAW_INTERVAL_MS
}

/// Room for the current file's path: the terminal's width less 15, and at least 10.
pub open spec fn path_room(term_width: int) -> int {
    if term_width - 15 >= 10 {
        term_width - 15
    } else {
        10
    }
}

/// Room for the current file's path on a terminal `term_width` columns wide.
pub fn path_width(term_width: usize) -> (res: usize)
    ensures
        res == path_room(term_width as int),
{
    let room = term_width.saturating_sub(15);
    if room < 10 {
        10
    } else {
        room
    }
}

/// Width of the separator line: the terminal's width, at most 80.
pub fn separator_width(term_width: usize) -> (res: usize)
    ensures
        res == if term_width <= 80 {
            term_width
        } else {
            80
        },
{
    if term_width <= 80 {
        term_width
    } else {
        80
    }
}

/// Room for one match line: the terminal's width less 2, or nothing.
pub fn line_width(term_width: usize) -> (res: usize)
    ensures
        res == if term_width >= 2 {
            term_width - 2
        } else {
            0
        },
{
    term_width.saturating_sub(2)
}

/// Where a path longer than `room` bytes is cut: its end keeps `room - 3` bytes.
pub open spec fn path_cut(len: int, room: int) -> int {
    len - room + 3
}

/// The path shown for the file being scanned: the path itself when it fits in the room
/// that the terminal leaves, else "..." and the end of the path.
pub fn shorten_path(path: &str, term_width: usize) -> (res: String)
    requires
        path.spec_bytes().len() <= usize::MAX,
        path.spec_bytes().len() > path_room(term_width as int) ==> vstd::utf8::is_char_boundary(
            path.spec_bytes(),
            path_cut(path.spec_bytes().len() as int, path_room(term_width as int)),
        ),
    ensures
        path.spec_bytes().len() <= path_room(term_width as int) ==> res@ == path@,
        path.spec_bytes().len() > path_room(term_width as int) ==> res@ == seq!['.', '.', '.']
            + vstd::utf8::decode_utf8(
            path.spec_bytes().subrange(
                path_cut(path.spec_bytes().len() as int, path_room(term_width as int)),
                path.spec_bytes().len() as int,
            ),
        ),
{
    let max_file_len = path_width(term_width);
    if path.len() > max_file_len {
        let cut = path.len() - max_file_len + 3;
        let (_, tail) = path.split_at(cut);
        let mut shown = String::new();
        push_str(&mut shown, "...");
        push_str(&mut shown, tail);
        proof {
            reveal_strlit("...");
            vstd::utf8::encode_utf8_decode_utf8(tail@);
            vstd::utf8::encode_utf8_valid_utf8(tail@);
        }
        shown
    } else {
        path.to_owned()
    }
}

/// The character of the decimal digit `d`.
pub open spec fn digit_char(d: nat) -> char {
    (d + 48) as char
}

/// The decimal writing of `n`, without leading zeros.
pub open spec fn decimal(n: nat) -> Seq<char>
    decreases n,
{
    if n < 10 {
        seq![digit_char(n)]
    } else {
        decimal(n / 10).push(digit_char(n % 10))
    }
}

fn digit(d: usize) -> (c: char)
    requires
        d < 10,
    ensures
        c == digit_char(d as nat),
{
    match d {
        0 => '0',
        1 => '1',
        2 => '2',
        3 => '3',
        4 => '4',
        5 => '5',
        6 => '6',
        7 => '7',
        8 => '8',
        _ => '9',
    }
}

/// The decimal writing of `n`, as integers are displayed.
pub fn decimal_text(n: usize) -> (res: String)
    ensures
        res@ == decimal(n as nat),
    decreases n,
{
    if n < 10 {
        let mut s = String::new();
        push_char(&mut s, digit(n));
        s
    } else {
        let mut s = decimal_text(n / 10);
        push_char(&mut s, digit(n % 10));
        s
    }
}

/// The word that introduces a match's line number.
pub open spec fn line_word() -> Seq<char> {
    seq!['l', 'i', 'n', 'e']
}

/// The log's line for a match: a tab, `line`, the line number, a colon and the shown text.
pub fn log_line(line_num: usize, raw_line: &str) -> (res: String)
    ensures
        res@ == seq!['\t'] + line_word() + seq![' '] + decimal(line_num as nat) + seq![':', ' ']
            + raw_line@,
{
    let mut s = String::new();
    push_str(&mut s, "\tline ");
    let number = decimal_text(line_num);
    push_str(&mut s, number.as_str());
    push_str(&mut s, ": ");
    push_str(&mut s, raw_line);
    proof {
        reveal_strlit("\tline ");
        reveal_strlit(": ");
    }
    s
}

/// The screen's line for a match: as the log's, with the word `line` painted red, the
/// number painted cyan and the highlighted text in place of the shown one.
pub fn screen_line(line_num: usize, colored_line: &str) -> (res: String)
    ensures
        exists|word: Seq<char>, number: Seq<char>|
            #![trigger painted_with(red_code(), line_word(), word), painted_with(cyan_code(), decimal(line_num as nat), number)]
            painted_with(red_code(), line_word(), word) && painted_with(
                cyan_code(),
                decimal(line_num as nat),
                number,
            ) && res@ == seq!['\t'] + word + seq![' '] + number + seq![':', ' '] + colored_line@,
{
    let word = paint_red("line");
    let digits = decimal_text(line_num);
    let number = paint_cyan(digits.as_str());
    let mut s = String::new();
    push_str(&mut s, "\t");
    push_str(&mut s, word.as_str());
    push_str(&mut s, " ");
    push_str(&mut s, number.as_str());
    push_str(&mut s, ": ");
    push_str(&mut s, colored_line);
    proof {
        reveal_strlit("line");
        reveal_strlit("\t");
        reveal_strlit(" ");
        reveal_strlit(": ");
        assert("line"@ =~= line_word());
        assert(painted_with(red_code(), line_word(), word@));
        assert(painted_with(cyan_code(), decimal(line_num as nat), number@));
    }
    s
}

/// The most recent match lines, oldest first.
pub struct RecentMatches {
    lines: VecDeque<String>,
}

/// The last `n` items of `s`, or all of them when there are fewer.
pub open spec fn last_n<A>(s: Seq<A>, n: int) -> Seq<A> {
    if s.len() <= n {
        s
    } else {
        s.skip(s.len() - n)
    }
}

impl RecentMatches {
    /// The lines kept, oldest first.
    pub closed spec fn view_lines(&self) -> Seq<Seq<char>> {
        self.lines.deep_view()
    }

    /// At most `RECENT_CAPACITY` lines are kept.
    pub closed spec fn wf(&self) -> bool {
        self.lines@.len() <= RECENT_CAPACITY
    }

    /// No lines yet.
    pub fn new() -> (res: Self)
        ensures
            res.wf(),
            res.view_lines() == Seq::<Seq<char>>::empty(),
    {
        let res = RecentMatches { lines: VecDeque::with_capacity(RECENT_CAPACITY) };
        proof {
            assert(res.lines.deep_view() =~= Seq::<Seq<char>>::empty());
        }
        res
    }

    /// Adds the newest line, dropping the oldest when all places are taken.
    pub fn push(&mut self, line: String)
        requires
            old(self).wf(),
        ensures
            final(self).wf(),
            final(self).view_lines() == last_n(
                old(self).view_lines().push(line@),
                RECENT_CAPACITY as int,
            ),
    {
        let ghost before = self.lines.deep_view();
        if self.lines.len() == RECENT_CAPACITY {
            self.lines.pop_front();
        }
        let ghost mid = self.lines@;
        self.lines.push_back(line);
        proof {
            assert(self.lines@ == mid.push(line));
            assert(self.lines.deep_view() =~= last_n(before.push(line@), RECENT_CAPACITY as int));
        }
    }

    /// How many lines are kept.
    pub fn len(&self) -> (res: usize)
        ensures
            res == self.view_lines().len(),
    {
        self.lines.len()
    }

    /// The line at `i`, counted from the oldest, if there is one.
    pub fn get(&self, i: usize) -> (res: Option<&String>)
        ensures
            i < self.view_lines().len() ==> (res matches Some(s) && s@ == self.view_lines()[i as int]),
            i >= self.view_lines().len() ==> res is None,
    {
        if i < self.lines.len() {
            Some(&self.lines[i])
        } else {
            None
        }
    }
}

} // verus!

verus! {

/// Keeping the last `n` lines after each push keeps the last `n` of all lines pushed.
pub proof fn law_recent_window<A>(s: Seq<A>, x: A, n: int)
    requires
        n >= 0,
    ensures
        last_n(last_n(s, n).push(x), n) == last_n(s.push(x), n),
{
    if s.len() <= n {
    } else {
        let kept = s.skip(s.len() - n);
        if kept.push(x).len() <= n {
        } else {
            assert(kept.push(x).skip(kept.push(x).len() - n) =~= s.push(x).skip(s.push(x).len() - n));
        }
    }
}


/// The number that the decimal digits `s` stand for.
pub open spec fn digits_value(s: Seq<char>) -> int
    decreases s.len(),
{
    if s.len() == 0 {
        0
    } else {
        digits_value(s.drop_last()) * 10 + (s.last() as int - '0' as int)
    }
}

/// The decimal writing of `n` is made of digits, stands for `n`, and starts with a zero
/// only when it is the single digit of zero.
pub proof fn law_decimal_writes_the_number(n: nat)
    ensures
        forall|j: int| 0 <= j < decimal(n).len() ==> '0' <= #[trigger] decimal(n)[j] <= '9',
        digits_value(decimal(n)) == n,
        decimal(n).len() > 0,
        decimal(n)[0] == '0' ==> n == 0 && decimal(n).len() == 1,
    decreases n,
{
    assert(digits_value(Seq::<char>::empty()) == 0);
    if n < 10 {
        assert(decimal(n).drop_last() =~= Seq::<char>::empty());
        assert(digit_char(n) as int == n + 48);
    }
    if n >= 10 {
        law_decimal_writes_the_number(n / 10);
        let d = decimal(n);
        assert(digit_char(n % 10) as int == n % 10 + 48);
        assert(d.last() == digit_char(n % 10));
        assert(d.drop_last() == decimal(n / 10));
        assert(d[0] == decimal(n / 10)[0]);
        assert(n == (n / 10) * 10 + n % 10);
        assert forall|j: int| 0 <= j < d.len() implies '0' <= #[trigger] d[j] <= '9' by {
            if j < d.len() - 1 {
                assert(d[j] == decimal(n / 10)[j]);
            }
        }
    }
}

/// The room for a path is at least 10 columns, and a path cut to fit shows "..." and
/// then exactly enough of its end to fill the room.
pub proof fn law_cut_path_fills_room(len: int, term_width: int)
    ensures
        path_room(term_width) >= 10,
        term_width >= 25 ==> path_room(term_width) == term_width - 15,
        len > path_room(term_width) ==> 0 < path_cut(len, path_room(term_width)) < len && 3 + (len
            - path_cut(len, path_room(term_width))) == path_room(term_width),
{
}


/// The window keeps the newest items: the last `n` of them (all when there are fewer),
/// in their order, and the item just added is always the last one kept.
pub proof fn law_window_keeps_newest<A>(s: Seq<A>, x: A, n: int)
    requires
        n > 0,
    ensures
        last_n(s, n).len() == if s.len() <= n {
            s.len() as int
        } else {
            n
        },
        last_n(s, n) == s.subrange(s.len() - last_n(s, n).len(), s.len() as int),
        last_n(s.push(x), n).last() == x,
{
    if s.len() <= n {
        assert(s.subrange(0, s.len() as int) =~= s);
    } else {
        assert(s.skip(s.len() - n) =~= s.subrange(s.len() - n, s.len() as int));
    }
}

} // verus!
