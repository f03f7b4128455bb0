//! Turning the command line's values into the prefixes, keys and context width of a
//! search.
use vstd::prelude::*;

use crate::search::lemma_first_index_of_is;
use crate::text::{split_on, split_on_char};

verus! {

/// The context width used when `-c` is given without a usable number.
pub const DEFAULT_CONTEXT: usize = 10;

/// The file-name prefixes given as `pre_str`: its comma-separated pieces, or a single
/// empty prefix, which every name contains, when it is empty.
pub fn prefixes_from_arg(pre_str: &str) -> (res: Vec<String>)
    ensures
        res.deep_view() == split_on(pre_str@, ','),
        pre_str@.len() == 0 ==> res.deep_view() == seq![Seq::<char>::empty()],
{
    proof {
        lemma_split_empty(pre_str@, ',');
    }
    if pre_str.is_empty() {
        let res = vec![String::new()];
        proof {
            assert(res.deep_view() =~= seq![Seq::<char>::empty()]);
            assert(pre_str@ =~= Seq::<char>::empty());
        }
        res
    } else {
        split_on_char(pre_str, ',')
    }
}

/// The keys given as `keys_str`: the whole text as one pattern when searching by
/// pattern, else its comma-separated keywords.
pub fn keys_from_arg(keys_str: &str, is_reg: bool) -> (res: Vec<String>)
    ensures
        res.deep_view() == if is_reg {
            seq![keys_str@]
        } else {
            split_on(keys_str@, ',')
        },
{
    if is_reg {
        let res = vec![keys_str.to_owned()];
        proof {
            assert(res.deep_view() =~= seq![keys_str@]);
        }
        res
    } else {
        split_on_char(keys_str, ',')
    }
}

/// The context width: none without `-c`; with it, the number that follows when one
/// could be read, else `DEFAULT_CONTEXT`.
pub fn context_width(flag_given: bool, value: Option<Option<usize>>) -> (res: Option<usize>)
    ensures
        res == if !flag_given {
            None
        } else {
            match value {
                Some(Some(n)) => Some(n),
                _ => Some(DEFAULT_CONTEXT),
            }
        },
{
    if flag_given {
        let n = match value {
            Some(Some(n)) => n,
            _ => DEFAULT_CONTEXT,
        };
        Some(n)
    } else {
        None
    }
}

/// Splitting the empty text gives one empty piece.
pub proof fn lemma_split_empty(s: Seq<char>, sep: char)
    ensures
        s.len() == 0 ==> split_on(s, sep) == seq![s],
{
    if s.len() == 0 {
        lemma_first_index_of_is(s, sep, 0);
    }
}

} // verus!
