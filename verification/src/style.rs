//! Terminal colours, through the `colored` crate.
use vstd::prelude::*;

use colored::Colorize;

use crate::text::contains_text;
use crate::utils::ESC;

verus! {

/// The sequence that switches the foreground to green.
pub open spec fn green_code() -> Seq<char> {
    seq![ESC, '[', '3', '2', 'm']
}

/// The sequence that switches the foreground to red.
pub open spec fn red_code() -> Seq<char> {
    seq![ESC, '[', '3', '1', 'm']
}

/// The sequence that switches the foreground to cyan.
pub open spec fn cyan_code() -> Seq<char> {
    seq![ESC, '[', '3', '6', 'm']
}

/// The sequence that resets all styles.
pub open spec fn reset_code() -> Seq<char> {
    seq![ESC, '[', '0', 'm']
}

/// What painting `text` with the colour sequence `code` may give: the text unchanged
/// when colours are off, or the text framed by `code` and the reset sequence. A reset
/// sequence inside the text gets `code` again after it, which this leaves unsaid.
pub open spec fn painted_with(code: Seq<char>, text: Seq<char>, out: Seq<char>) -> bool {
    ||| out == text
    ||| {
        &&& out.len() >= code.len() + reset_code().len()
        &&& out.take(code.len() as int) == code
        &&& out.skip(out.len() - reset_code().len()) == reset_code()
        &&& !contains_text(text, reset_code()) ==> out == code + text + reset_code()
    }
}

/// What painting `text` green may give.
pub open spec fn painted_green(text: Seq<char>, out: Seq<char>) -> bool {
    painted_with(green_code(), text, out)
}

/// `text` painted green, through `colored::Colorize::green` and its `Display`.
/// Whether colours are on is decided by the `colored` crate from the environment and
/// the terminal, so only what holds either way is stated.
#[verifier::external_body]
pub(crate) fn paint_green(text: &str) -> (res: String)
    ensures
        painted_green(text@, res@),
{
    text.green().to_string()
}

/// `text` painted red, through `colored::Colorize::red` and its `Display`; as for
/// green, only what holds whether colours are on or off is stated.
#[verifier::external_body]
pub(crate) fn paint_red(text: &str) -> (res: String)
    ensures
        painted_with(red_code(), text@, res@),
{
    text.red().to_string()
}

/// `text` painted cyan, through `colored::Colorize::cyan` and its `Display`; as for
/// green, only what holds whether colours are on or off is stated.
#[verifier::external_body]
pub(crate) fn paint_cyan(text: &str) -> (res: String)
    ensures
        painted_with(cyan_code(), text@, res@),
{
    text.cyan().to_string()
}

} // verus!
