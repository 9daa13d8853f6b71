//! Extraction of a fragment's array interior by byte-level scanning.
//!
//! A fragment is the raw byte content of one `compile_commands.json` file.
//! Its *interior* is what stands between the first `[` and the last `]`:
//! everything up to and including the first `[` is discarded, and the tail is
//! trimmed back to (and including) the last `]`. A fragment with no `[`, or
//! with no `]` after its first `[`, has an empty interior.

use vstd::prelude::*;

use crate::{CLOSE_BRACKET, OPEN_BRACKET};

verus! {

/// What remains of `s` after the first `OPEN_BRACKET` byte, that byte
/// included in the discarded part; empty if `s` holds no such byte.
pub open spec fn after_open(s: Seq<u8>) -> Seq<u8>
    decreases s.len(),
{
    if s.len() == 0 {
        s
    } else if s.first() == OPEN_BRACKET {
        s.drop_first()
    } else {
        after_open(s.drop_first())
    }
}

/// `s` trimmed from the end back to the last `CLOSE_BRACKET` byte, that byte
/// removed as well; empty if `s` holds no such byte.
pub open spec fn trim_tail(s: Seq<u8>) -> Seq<u8>
    decreases s.len(),
{
    if s.len() == 0 {
        s
    } else if s.last() == CLOSE_BRACKET {
        s.drop_last()
    } else {
        trim_tail(s.drop_last())
    }
}

/// The interior of a fragment: the bytes between the first `[` and the last
/// `]`, both brackets stripped, trailing bytes after the last `]` dropped.
pub open spec fn interior(s: Seq<u8>) -> Seq<u8> {
    trim_tail(after_open(s))
}

/// If no byte of `s` is `OPEN_BRACKET`, nothing remains after it.
proof fn lemma_after_open_none(s: Seq<u8>)
    requires
        forall|k: int| 0 <= k < s.len() ==> s[k] != OPEN_BRACKET,
    ensures
        after_open(s) == Seq::<u8>::empty(),
    decreases s.len(),
{
    if s.len() == 0 {
        assert(s =~= Seq::<u8>::empty());
    } else {
        lemma_after_open_none(s.drop_first());
    }
}

/// If the first `OPEN_BRACKET` of `s` stands at index `i`, what remains after
/// it is exactly the suffix past `i`.
proof fn lemma_after_open_at(s: Seq<u8>, i: int)
    requires
        0 <= i < s.len(),
        s[i] == OPEN_BRACKET,
        forall|k: int| 0 <= k < i ==> s[k] != OPEN_BRACKET,
    ensures
        after_open(s) == s.subrange(i + 1, s.len() as int),
    decreases i,
{
    if i == 0 {
        assert(s.drop_first() =~= s.subrange(1, s.len() as int));
    } else {
        lemma_after_open_at(s.drop_first(), i - 1);
        assert(s.drop_first().subrange(i, s.len() as int - 1) =~= s.subrange(
            i + 1,
            s.len() as int,
        ));
    }
}

/// If no byte of `s` is `CLOSE_BRACKET`, trimming consumes all of `s`.
proof fn lemma_trim_tail_none(s: Seq<u8>)
    requires
        forall|k: int| 0 <= k < s.len() ==> s[k] != CLOSE_BRACKET,
    ensures
        trim_tail(s) == Seq::<u8>::empty(),
    decreases s.len(),
{
    if s.len() == 0 {
        assert(s =~= Seq::<u8>::empty());
    } else {
        lemma_trim_tail_none(s.drop_last());
    }
}

/// If the last `CLOSE_BRACKET` of `s` stands at index `j`, trimming yields
/// exactly the prefix before `j`.
proof fn lemma_trim_tail_at(s: Seq<u8>, j: int)
    requires
        0 <= j < s.len(),
        s[j] == CLOSE_BRACKET,
        forall|k: int| j < k < s.len() ==> s[k] != CLOSE_BRACKET,
    ensures
        trim_tail(s) == s.subrange(0, j),
    decreases s.len(),
{
    if j == s.len() - 1 {
        assert(s.drop_last() =~= s.subrange(0, j));
    } else {
        lemma_trim_tail_at(s.drop_last(), j);
        assert(s.drop_last().subrange(0, j) =~= s.subrange(0, j));
    }
}

/// Computes [`interior`] of the given fragment bytes: scan forward to the
/// first `[`, scan backward to the last `]`, and copy what stands strictly
/// between the two.
pub fn extract_interior(data: &Vec<u8>) -> (r: Vec<u8>)
    ensures
        r@ == interior(data@),
{
    let n = data.len();
    let mut i: usize = 0;
    while i < n && data[i] != OPEN_BRACKET
        invariant
            n == data@.len(),
            0 <= i <= n,
            forall|k: int| 0 <= k < i ==> data@[k] != OPEN_BRACKET,
        decreases n - i,
    {
        i = i + 1;
    }
    if i == n {
        proof {
            lemma_after_open_none(data@);
        }
        return Vec::new();
    }
    let mut j: usize = n;
    while j > i + 1 && data[j - 1] != CLOSE_BRACKET
        invariant
            n == data@.len(),
            0 <= i < n,
            i + 1 <= j <= n,
            forall|k: int| j <= k < n ==> data@[k] != CLOSE_BRACKET,
        decreases j,
    {
        j = j - 1;
    }
    proof {
        lemma_after_open_at(data@, i as int);
    }
    if j == i + 1 {
        proof {
            lemma_trim_tail_none(data@.subrange(i + 1, n as int));
        }
        return Vec::new();
    }
    let mut r: Vec<u8> = Vec::new();
    let mut k: usize = i + 1;
    while k < j - 1
        invariant
            n == data@.len(),
            0 <= i < n,
            i + 1 < j <= n,
            i + 1 <= k <= j - 1,
            r@ == data@.subrange(i + 1, k as int),
        decreases j - 1 - k,
    {
        r.push(data[k]);
        k = k + 1;
    }
    proof {
        lemma_trim_tail_at(data@.subrange(i + 1, n as int), j - 1 - (i + 1));
        assert(data@.subrange(i + 1, n as int).subrange(0, j - 1 - (i + 1)) =~= data@.subrange(
            i + 1,
            j as int - 1,
        ));
    }
    r
}

} // verus!
