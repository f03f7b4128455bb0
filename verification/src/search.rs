//! Byte search over buffers, backed by the `memchr` crate.
use vstd::prelude::*;

verus! {

/// Index of the first element of `s` that equals `b`.
pub open spec fn first_index_of<A>(s: Seq<A>, b: A) -> Option<int>
    decreases s.len(),
{
    if s.len() == 0 {
        None
    } else if s[0] == b {
        Some(0)
    } else {
        match first_index_of(s.drop_first(), b) {
            Some(i) => Some(i + 1),
            None => None,
        }
    }
}

/// Index of the last element of `s` that equals `b`.
pub open spec fn last_index_of<A>(s: Seq<A>, b: A) -> Option<int>
    decreases s.len(),
{
    if s.len() == 0 {
        None
    } else if s.last() == b {
        Some(s.len() - 1)
    } else {
        last_index_of(s.drop_last(), b)
    }
}

/// Number of elements of `s` that equal `b`.
pub open spec fn count_of<A>(s: Seq<A>, b: A) -> nat
    decreases s.len(),
{
    if s.len() == 0 {
        0
    } else {
        count_of(s.drop_last(), b) + if s.last() == b {
            1nat
        } else {
            0nat
        }
    }
}

/// `needle` occurs in `hay` starting at index `i`.
pub open spec fn occurs_at(hay: Seq<u8>, needle: Seq<u8>, i: int) -> bool {
    &&& 0 <= i
    &&& i + needle.len() <= hay.len()
    &&& hay.subrange(i, i + needle.len()) == needle
}

/// The leftmost occurrence of `needle` in `hay` that starts at `pos` or later.
pub open spec fn leftmost_from(hay: Seq<u8>, needle: Seq<u8>, pos: int) -> Option<int>
    decreases hay.len() + 1 - pos,
{
    if pos < 0 || pos > hay.len() {
        None
    } else if occurs_at(hay, needle, pos) {
        Some(pos)
    } else {
        leftmost_from(hay, needle, pos + 1)
    }
}

/// The step taken after an occurrence: the needle's length, and at least one.
pub open spec fn step_after(needle: Seq<u8>) -> int {
    if needle.len() == 0 {
        1
    } else {
        needle.len() as int
    }
}

/// Successive non-overlapping occurrences of `needle` in `hay`, from `pos` on:
/// the leftmost one, then those that start at least one step after it.
pub open spec fn occurrences_from(hay: Seq<u8>, needle: Seq<u8>, pos: int) -> Seq<int>
    decreases hay.len() + 1 - pos,
{
    if pos < 0 || pos > hay.len() {
        seq![]
    } else {
        match leftmost_from(hay, needle, pos) {
            Some(i) => {
                proof {
                    lemma_leftmost_from_bounds(hay, needle, pos);
                }
                seq![i] + occurrences_from(hay, needle, i + step_after(needle))
            },
            None => seq![],
        }
    }
}

/// All non-overlapping occurrences of `needle` in `hay`, left to right.
pub open spec fn occurrences(hay: Seq<u8>, needle: Seq<u8>) -> Seq<int> {
    occurrences_from(hay, needle, 0)
}

pub proof fn lemma_leftmost_from_bounds(hay: Seq<u8>, needle: Seq<u8>, pos: int)
    ensures
        leftmost_from(hay, needle, pos) matches Some(i) ==> {
            &&& pos <= i <= hay.len()
            &&& occurs_at(hay, needle, i)
            &&& forall|j: int| pos <= j < i ==> !occurs_at(hay, needle, j)
        },
        leftmost_from(hay, needle, pos) is None && 0 <= pos ==> forall|j: int|
            pos <= j ==> !occurs_at(hay, needle, j),
    decreases hay.len() + 1 - pos,
{
    if pos < 0 || pos > hay.len() {
    } else if occurs_at(hay, needle, pos) {
    } else {
        lemma_leftmost_from_bounds(hay, needle, pos + 1);
    }
}

/// Every reported occurrence is a real one, they are strictly increasing, and
/// each starts at least one step after the previous one.
pub proof fn lemma_occurrences_from_sound(hay: Seq<u8>, needle: Seq<u8>, pos: int)
    ensures
        forall|k: int|
            0 <= k < occurrences_from(hay, needle, pos).len() ==> {
                &&& pos <= #[trigger] occurrences_from(hay, needle, pos)[k]
                &&& occurs_at(hay, needle, occurrences_from(hay, needle, pos)[k])
            },
        forall|k: int|
            0 < k < occurrences_from(hay, needle, pos).len() ==> occurrences_from(
                hay,
                needle,
                pos,
            )[k - 1] + step_after(needle) <= #[trigger] occurrences_from(hay, needle, pos)[k],
    decreases hay.len() + 1 - pos,
{
    if pos < 0 || pos > hay.len() {
    } else {
        lemma_leftmost_from_bounds(hay, needle, pos);
        match leftmost_from(hay, needle, pos) {
            Some(i) => {
                let rest = occurrences_from(hay, needle, i + step_after(needle));
                lemma_occurrences_from_sound(hay, needle, i + step_after(needle));
                let all = occurrences_from(hay, needle, pos);
                assert(all == seq![i] + rest);
                assert forall|k: int| 0 < k < all.len() implies all[k - 1] + step_after(needle)
                    <= #[trigger] all[k] by {
                    assert(all[k] == rest[k - 1]);
                    if k > 1 {
                        assert(all[k - 1] == rest[k - 2]);
                    }
                }
            },
            None => {},
        }
    }
}

/// Where the search for the `k`-th occurrence of a list found from `pos` began: at
/// `pos` for the first, else one step after the previous occurrence.
pub open spec fn search_start(occ: Seq<int>, k: int, pos: int, needle: Seq<u8>) -> int {
    if k == 0 {
        pos
    } else {
        occ[k - 1] + step_after(needle)
    }
}

proof fn lemma_occurrences_from_greedy(hay: Seq<u8>, needle: Seq<u8>, pos: int)
    requires
        0 <= pos,
    ensures
        forall|k: int, q: int|
            #![trigger occurrences_from(hay, needle, pos)[k], occurs_at(hay, needle, q)]
            0 <= k < occurrences_from(hay, needle, pos).len() && search_start(
                occurrences_from(hay, needle, pos),
                k,
                pos,
                needle,
            ) <= q < occurrences_from(hay, needle, pos)[k] ==> !occurs_at(hay, needle, q),
        forall|q: int|
            search_start(
                occurrences_from(hay, needle, pos),
                occurrences_from(hay, needle, pos).len() as int,
                pos,
                needle,
            ) <= q ==> !#[trigger] occurs_at(hay, needle, q),
    decreases hay.len() + 1 - pos,
{
    let all = occurrences_from(hay, needle, pos);
    if pos > hay.len() {
    } else {
        lemma_leftmost_from_bounds(hay, needle, pos);
        match leftmost_from(hay, needle, pos) {
            Some(i) => {
                let next = i + step_after(needle);
                lemma_occurrences_from_greedy(hay, needle, next);
                let rest = occurrences_from(hay, needle, next);
                assert(all == seq![i] + rest);
                assert forall|k: int, q: int|
                    #![trigger all[k], occurs_at(hay, needle, q)]
                    0 <= k < all.len() && search_start(all, k, pos, needle) <= q < all[k]
                        implies !occurs_at(hay, needle, q) by {
                    if k > 0 {
                        assert(all[k] == rest[k - 1]);
                        if k > 1 {
                            assert(all[k - 1] == rest[k - 2]);
                        }
                        assert(search_start(all, k, pos, needle) == search_start(rest, k - 1, next, needle));
                    }
                }
                if rest.len() > 0 {
                    assert(all[all.len() - 1] == rest[rest.len() - 1]);
                }
                assert(search_start(all, all.len() as int, pos, needle) == search_start(
                    rest,
                    rest.len() as int,
                    next,
                    needle,
                ));
            },
            None => {},
        }
    }
}

/// The occurrences found are the greedy ones: no occurrence starts before the first
/// found one, none starts between one found occurrence's end (one step on, for an
/// empty needle) and the next found one, and none starts after the last found one's
/// end. So every occurrence that does not overlap an earlier found one is found.
pub proof fn law_occurrences_are_greedy(hay: Seq<u8>, needle: Seq<u8>)
    ensures
        forall|k: int, q: int|
            #![trigger occurrences(hay, needle)[k], occurs_at(hay, needle, q)]
            0 <= k < occurrences(hay, needle).len() && search_start(
                occurrences(hay, needle),
                k,
                0,
                needle,
            ) <= q < occurrences(hay, needle)[k] ==> !occurs_at(hay, needle, q),
        forall|q: int|
            search_start(
                occurrences(hay, needle),
                occurrences(hay, needle).len() as int,
                0,
                needle,
            ) <= q ==> !#[trigger] occurs_at(hay, needle, q),
{
    lemma_occurrences_from_greedy(hay, needle, 0);
}

pub proof fn lemma_first_index_of<A>(s: Seq<A>, b: A)
    ensures
        first_index_of(s, b) matches Some(i) ==> {
            &&& 0 <= i < s.len()
            &&& s[i] == b
            &&& forall|j: int| 0 <= j < i ==> s[j] != b
        },
        first_index_of(s, b) is None ==> forall|j: int| 0 <= j < s.len() ==> s[j] != b,
    decreases s.len(),
{
    if s.len() > 0 && s[0] != b {
        lemma_first_index_of(s.drop_first(), b);
        assert forall|j: int| 1 <= j < s.len() implies s[j] == s.drop_first()[j - 1] by {}
    }
}

/// The first index is determined by the elements before it.
pub proof fn lemma_first_index_of_is<A>(s: Seq<A>, b: A, p: int)
    requires
        0 <= p <= s.len(),
        forall|j: int| 0 <= j < p ==> s[j] != b,
        p < s.len() ==> s[p] == b,
    ensures
        first_index_of(s, b) == if p < s.len() {
            Some(p)
        } else {
            None::<int>
        },
    decreases s.len(),
{
    if s.len() > 0 && s[0] != b {
        assert forall|j: int| 0 <= j < p - 1 implies s.drop_first()[j] != b by {
            assert(s.drop_first()[j] == s[j + 1]);
        }
        lemma_first_index_of_is(s.drop_first(), b, p - 1);
    }
}

pub proof fn lemma_last_index_of<A>(s: Seq<A>, b: A)
    ensures
        last_index_of(s, b) matches Some(i) ==> {
            &&& 0 <= i < s.len()
            &&& s[i] == b
            &&& forall|j: int| i < j < s.len() ==> s[j] != b
        },
        last_index_of(s, b) is None ==> forall|j: int| 0 <= j < s.len() ==> s[j] != b,
    decreases s.len(),
{
    if s.len() > 0 && s.last() != b {
        lemma_last_index_of(s.drop_last(), b);
        assert forall|j: int| 0 <= j < s.len() - 1 implies s[j] == s.drop_last()[j] by {}
    }
}

pub proof fn lemma_count_of_le_len<A>(s: Seq<A>, b: A)
    ensures
        count_of(s, b) <= s.len(),
    decreases s.len(),
{
    if s.len() > 0 {
        lemma_count_of_le_len(s.drop_last(), b);
    }
}

/// Finds the first occurrence of `needle` in `haystack`, through `memchr::memchr`.
/// Trusted to give the index of the first equal byte, or `None` when there is none,
/// as the crate documents.
#[verifier::external_body]
pub(crate) fn find_byte(needle: u8, haystack: &[u8]) -> (res: Option<usize>)
    ensures
        res matches Some(i) ==> first_index_of(haystack@, needle) == Some(i as int),
        res is None ==> first_index_of(haystack@, needle) is None,
{
    memchr::memchr(needle, haystack)
}

/// Finds the last occurrence of `needle` in `haystack`, through `memchr::memrchr`.
/// Trusted to give the index of the last equal byte, or `None` when there is none.
#[verifier::external_body]
pub(crate) fn rfind_byte(needle: u8, haystack: &[u8]) -> (res: Option<usize>)
    ensures
        res matches Some(i) ==> last_index_of(haystack@, needle) == Some(i as int),
        res is None ==> last_index_of(haystack@, needle) is None,
{
    memchr::memrchr(needle, haystack)
}

/// Counts the bytes of `haystack` equal to `needle`, through `memchr::memchr_iter` and
/// the `count` of the iterator it returns. Trusted to give that number.
#[verifier::external_body]
pub(crate) fn count_byte(needle: u8, haystack: &[u8]) -> (res: usize)
    ensures
        res as nat == count_of(haystack@, needle),
{
    memchr::memchr_iter(needle, haystack).count()
}

/// Start offsets of the non-overlapping occurrences of `needle` in `haystack`, in order,
/// through `memchr::memmem::find_iter`. Trusted to match `occurrences`: after each
/// occurrence the search resumes one needle length further (one byte for an empty needle,
/// which occurs at every offset up to the haystack's length).
#[verifier::external_body]
pub(crate) fn find_all(haystack: &[u8], needle: &[u8]) -> (res: Vec<usize>)
    ensures
        res@.len() == occurrences(haystack@, needle@).len(),
        forall|k: int|
            0 <= k < res@.len() ==> res@[k] as int == #[trigger] occurrences(haystack@, needle@)[k],
{
    memchr::memmem::find_iter(haystack, needle).collect()
}

} // verus!
