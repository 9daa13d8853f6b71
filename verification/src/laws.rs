//! Order-independence and round-trip laws.
//!
//! Discovery delivers fragments in a non-deterministic order, so the byte
//! output varies from run to run. These laws pin down what does not vary:
//! which interiors the output holds (as a multiset), which paths discovery
//! yields (as a multiset), and that every non-empty interior stands
//! contiguously in the output.

use vstd::multiset::Multiset;
use vstd::prelude::*;
use vstd::seq_lib::group_to_multiset_ensures;
use vstd::seq_lib::lemma_multiset_commutative;

use crate::interior::interior;
use crate::merge::{interiors, join_comma, merged_body, merged_output};
use crate::walk::{matching_paths, matching_paths_in, FsNode};

verus! {

/// The contributions of the elements of `s` under `f`, all added into one
/// multiset.
pub open spec fn contribution_sum<T, U>(f: spec_fn(T) -> Multiset<U>, s: Seq<T>) -> Multiset<U>
    decreases s.len(),
{
    if s.len() == 0 {
        Multiset::empty()
    } else {
        contribution_sum(f, s.drop_last()).add(f(s.last()))
    }
}

/// Removing one element removes exactly its contribution.
proof fn lemma_contribution_sum_remove<T, U>(f: spec_fn(T) -> Multiset<U>, s: Seq<T>, i: int)
    requires
        0 <= i < s.len(),
    ensures
        contribution_sum(f, s) == contribution_sum(f, s.remove(i)).add(f(s[i])),
    decreases s.len(),
{
    if i == s.len() - 1 {
        assert(s.remove(i) =~= s.drop_last());
    } else {
        assert(s.remove(i).drop_last() =~= s.drop_last().remove(i));
        assert(s.remove(i).last() == s.last());
        lemma_contribution_sum_remove(f, s.drop_last(), i);
        assert(contribution_sum(f, s.drop_last().remove(i)).add(f(s.drop_last()[i])).add(
            f(s.last()),
        ) =~= contribution_sum(f, s.drop_last().remove(i)).add(f(s.last())).add(f(s[i])));
    }
}

/// The combined contribution depends only on the multiset of elements, not
/// on their order.
pub proof fn lemma_contribution_sum_permutation<T, U>(
    f: spec_fn(T) -> Multiset<U>,
    a: Seq<T>,
    b: Seq<T>,
)
    requires
        a.to_multiset() == b.to_multiset(),
    ensures
        contribution_sum(f, a) == contribution_sum(f, b),
    decreases a.len(),
{
    broadcast use group_to_multiset_ensures;

    if a.len() == 0 {
        assert(a.to_multiset().len() == a.len());
        assert(b.to_multiset().len() == b.len());
        assert(b.len() == 0);
    } else {
        let x = a.last();
        assert(a.contains(x));
        assert(b.to_multiset().count(x) > 0);
        assert(b.contains(x));
        let i = choose|i: int| 0 <= i < b.len() && b[i] == x;
        assert(a.drop_last() =~= a.remove(a.len() - 1));
        assert(a.remove(a.len() - 1).to_multiset() == a.to_multiset().remove(x));
        assert(b.remove(i).to_multiset() == b.to_multiset().remove(x));
        lemma_contribution_sum_permutation(f, a.drop_last(), b.remove(i));
        lemma_contribution_sum_remove(f, b, i);
    }
}

/// What one fragment contributes to the merged body: its interior, or
/// nothing when that interior is empty.
pub open spec fn interior_contribution(frag: Seq<u8>) -> Multiset<Seq<u8>> {
    if interior(frag).len() == 0 {
        Multiset::empty()
    } else {
        Multiset::empty().insert(interior(frag))
    }
}

/// Each fragment contributes its interior to the merged body exactly once
/// (and nothing, when that interior is empty): the multiset of parts in the
/// body is the sum of the fragments' individual contributions.
pub proof fn lemma_interiors_to_contribution(frags: Seq<Seq<u8>>)
    ensures
        interiors(frags).to_multiset() == contribution_sum(
            |f: Seq<u8>| interior_contribution(f),
            frags,
        ),
    decreases frags.len(),
{
    broadcast use group_to_multiset_ensures;

    if frags.len() == 0 {
        assert(interiors(frags).to_multiset() =~= Multiset::<Seq<u8>>::empty());
    } else {
        lemma_interiors_to_contribution(frags.drop_last());
        let rest = interiors(frags.drop_last());
        if interior(frags.last()).len() == 0 {
            assert(rest.to_multiset().add(Multiset::<Seq<u8>>::empty()) =~= rest.to_multiset());
        } else {
            assert(rest.push(interior(frags.last())).to_multiset() =~= rest.to_multiset().add(
                Multiset::empty().insert(interior(frags.last())),
            ));
        }
    }
}

/// Re-running the merge on the same fragments, in whatever order discovery
/// happens to deliver them, yields an output holding exactly the same
/// interiors: the multiset of non-empty interiors depends only on the
/// multiset of fragments.
pub proof fn lemma_merge_order_irrelevant(a: Seq<Seq<u8>>, b: Seq<Seq<u8>>)
    requires
        a.to_multiset() == b.to_multiset(),
    ensures
        interiors(a).to_multiset() == interiors(b).to_multiset(),
{
    lemma_interiors_to_contribution(a);
    lemma_interiors_to_contribution(b);
    lemma_contribution_sum_permutation(|f: Seq<u8>| interior_contribution(f), a, b);
}

/// The multiset of paths found among sibling entries is the sum of each
/// entry's own matching paths.
proof fn lemma_paths_to_contribution(s: Seq<FsNode>, prefix: Seq<u8>)
    ensures
        matching_paths_in(s, prefix).to_multiset() == contribution_sum(
            |n: FsNode| matching_paths(n, prefix).to_multiset(),
            s,
        ),
    decreases s.len(),
{
    broadcast use group_to_multiset_ensures;

    if s.len() == 0 {
        assert(matching_paths_in(s, prefix).to_multiset() =~= Multiset::<Seq<u8>>::empty());
    } else {
        lemma_paths_to_contribution(s.drop_last(), prefix);
        lemma_multiset_commutative(
            matching_paths_in(s.drop_last(), prefix),
            matching_paths(s.last(), prefix),
        );
    }
}

/// Discovery is order-independent: sibling directory entries visited in any
/// order yield exactly the same multiset of fragment paths, so every
/// fragment file is found exactly once whatever the traversal order.
pub proof fn lemma_discovery_order_irrelevant(a: Seq<FsNode>, b: Seq<FsNode>, prefix: Seq<u8>)
    requires
        a.to_multiset() == b.to_multiset(),
    ensures
        matching_paths_in(a, prefix).to_multiset() == matching_paths_in(b, prefix).to_multiset(),
{
    lemma_paths_to_contribution(a, prefix);
    lemma_paths_to_contribution(b, prefix);
    lemma_contribution_sum_permutation(|n: FsNode| matching_paths(n, prefix).to_multiset(), a, b);
}

/// `part` stands contiguously in `hay`, starting at offset `k`.
pub open spec fn appears_at(hay: Seq<u8>, part: Seq<u8>, k: int) -> bool {
    0 <= k && k + part.len() <= hay.len() && hay.subrange(k, k + part.len() as int) == part
}

/// Each part of a comma-join stands contiguously in the joined bytes.
proof fn lemma_part_in_join(parts: Seq<Seq<u8>>, i: int)
    requires
        0 <= i < parts.len(),
    ensures
        exists|k: int| #[trigger] appears_at(join_comma(parts), parts[i], k),
    decreases parts.len(),
{
    let part = parts[i];
    if parts.len() == 1 {
        assert(join_comma(parts).subrange(0, part.len() as int) =~= part);
        assert(appears_at(join_comma(parts), part, 0));
    } else if i == parts.len() - 1 {
        let j = join_comma(parts);
        let k: int = j.len() - part.len();
        assert(j.subrange(k, k + part.len() as int) =~= part);
        assert(appears_at(j, part, k));
    } else {
        lemma_part_in_join(parts.drop_last(), i);
        assert(parts.drop_last()[i] == part);
        let prev = join_comma(parts.drop_last());
        let k = choose|k: int| #[trigger] appears_at(prev, part, k);
        assert(join_comma(parts).subrange(k, k + part.len() as int) =~= prev.subrange(
            k,
            k + part.len() as int,
        ));
        assert(appears_at(join_comma(parts), part, k));
    }
}

/// Round trip, containment direction: every non-empty interior of a source
/// fragment stands, byte for byte and contiguously, in the merged output.
pub proof fn lemma_interior_appears_in_output(frags: Seq<Seq<u8>>, i: int)
    requires
        0 <= i < interiors(frags).len(),
    ensures
        exists|k: int| #[trigger] appears_at(merged_output(frags), interiors(frags)[i], k),
{
    let part = interiors(frags)[i];
    lemma_part_in_join(interiors(frags), i);
    let k = choose|k: int| #[trigger] appears_at(merged_body(frags), part, k);
    assert(merged_output(frags).subrange(k + 1, k + 1 + part.len() as int) =~= merged_body(
        frags,
    ).subrange(k, k + part.len() as int));
    assert(appears_at(merged_output(frags), part, k + 1));
}

/// A fragment with a non-empty interior has that interior among the parts
/// of the merged body.
proof fn lemma_interiors_contains(frags: Seq<Seq<u8>>, i: int)
    requires
        0 <= i < frags.len(),
        interior(frags[i]).len() > 0,
    ensures
        exists|j: int|
            0 <= j < interiors(frags).len() && #[trigger] interiors(frags)[j] == interior(
                frags[i],
            ),
    decreases frags.len(),
{
    if i == frags.len() - 1 {
        let parts = interiors(frags);
        assert(frags.last() == frags[i]);
        assert(parts[parts.len() - 1] == interior(frags[i]));
    } else {
        lemma_interiors_contains(frags.drop_last(), i);
        let rest = interiors(frags.drop_last());
        let j = choose|j: int|
            0 <= j < rest.len() && #[trigger] rest[j] == interior(frags.drop_last()[i]);
        assert(frags.drop_last()[i] == frags[i]);
        assert(interiors(frags)[j] == rest[j]);
    }
}

/// Round trip: every source fragment with a non-empty interior has that
/// interior standing, byte for byte and contiguously, in the merged output.
pub proof fn lemma_fragment_appears_in_output(frags: Seq<Seq<u8>>, i: int)
    requires
        0 <= i < frags.len(),
        interior(frags[i]).len() > 0,
    ensures
        exists|k: int| #[trigger] appears_at(merged_output(frags), interior(frags[i]), k),
{
    lemma_interiors_contains(frags, i);
    let j = choose|j: int|
        0 <= j < interiors(frags).len() && #[trigger] interiors(frags)[j] == interior(frags[i]);
    lemma_interior_appears_in_output(frags, j);
    let k = choose|k: int| #[trigger] appears_at(merged_output(frags), interiors(frags)[j], k);
    assert(appears_at(merged_output(frags), interior(frags[i]), k));
}

} // verus!
