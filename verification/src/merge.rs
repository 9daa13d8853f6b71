//! The streaming merge of fragment interiors into one combined JSON array.
//!
//! Fragments arrive one at a time, in whatever order discovery delivers them.
//! The merged output is a literal `[`, then the non-empty interiors of the
//! fragments in arrival order joined by single commas, then a literal `]`.
//! [`Merger`] produces that output incrementally: each call hands back the
//! bytes to append to the output, and ghost state pins down exactly which
//! bytes those are.

use vstd::prelude::*;

use crate::interior::{extract_interior, interior};
use crate::{CLOSE_BRACKET, COMMA, OPEN_BRACKET};

verus! {

/// The non-empty interiors of `frags`, in order. A fragment whose interior is
/// empty contributes nothing.
pub open spec fn interiors(frags: Seq<Seq<u8>>) -> Seq<Seq<u8>>
    decreases frags.len(),
{
    if frags.len() == 0 {
        Seq::empty()
    } else {
        let rest = interiors(frags.drop_last());
        if interior(frags.last()).len() == 0 {
            rest
        } else {
            rest.push(interior(frags.last()))
        }
    }
}

/// `parts` joined by single `COMMA` bytes, with no comma before the first
/// part or after the last.
pub open spec fn join_comma(parts: Seq<Seq<u8>>) -> Seq<u8>
    decreases parts.len(),
{
    if parts.len() == 0 {
        Seq::empty()
    } else if parts.len() == 1 {
        parts[0]
    } else {
        join_comma(parts.drop_last()) + seq![COMMA] + parts.last()
    }
}

/// The bytes between the output's enclosing brackets: the non-empty interiors
/// of `frags`, in arrival order, joined by commas.
pub open spec fn merged_body(frags: Seq<Seq<u8>>) -> Seq<u8> {
    join_comma(interiors(frags))
}

/// The complete merged output for the fragment sequence `frags`.
pub open spec fn merged_output(frags: Seq<Seq<u8>>) -> Seq<u8> {
    seq![OPEN_BRACKET] + merged_body(frags) + seq![CLOSE_BRACKET]
}

/// Appending a fragment extends `interiors` by that fragment's interior when
/// it is non-empty, and leaves it unchanged otherwise.
proof fn lemma_interiors_push(frags: Seq<Seq<u8>>, f: Seq<u8>)
    ensures
        interior(f).len() == 0 ==> interiors(frags.push(f)) == interiors(frags),
        interior(f).len() > 0 ==> interiors(frags.push(f)) == interiors(frags).push(interior(f)),
{
    assert(frags.push(f).drop_last() =~= frags);
    assert(frags.push(f).last() == f);
}

/// The streaming merge state.
///
/// `history` records every fragment handed in so far; `emitted` records every
/// output byte handed back so far. Well-formedness ties `emitted` to the
/// opening bracket followed by the merged body of `history`, so the contract
/// of each method pins the returned bytes exactly.
pub struct Merger {
    /// Whether some fragment has already contributed bytes to the body.
    pub has_written: bool,
    /// The fragments added so far, in arrival order.
    pub history: Ghost<Seq<Seq<u8>>>,
    /// The output bytes handed back so far.
    pub emitted: Ghost<Seq<u8>>,
}

impl Merger {
    /// The state is consistent: the emitted bytes are the opening bracket
    /// followed by the merged body of the history, and the element flag is
    /// set exactly when some fragment has contributed.
    pub open spec fn wf(self) -> bool {
        &&& self.emitted@ == seq![OPEN_BRACKET] + merged_body(self.history@)
        &&& self.has_written <==> interiors(self.history@).len() > 0
    }

    /// Starts a merge. The returned chunk is the opening bracket, the first
    /// bytes of the output.
    pub fn new() -> (r: (Merger, Vec<u8>))
        ensures
            r.0.wf(),
            r.0.history@ == Seq::<Seq<u8>>::empty(),
            r.1@ == r.0.emitted@,
            r.1@ == seq![OPEN_BRACKET],
    {
        let mut chunk: Vec<u8> = Vec::new();
        chunk.push(OPEN_BRACKET);
        let ghost start: Seq<u8> = seq![OPEN_BRACKET];
        let m = Merger { has_written: false, history: Ghost(Seq::empty()), emitted: Ghost(start) };
        proof {
            assert(chunk@ =~= seq![OPEN_BRACKET]);
            assert(m.emitted@ =~= seq![OPEN_BRACKET] + merged_body(m.history@));
        }
        (m, chunk)
    }

    /// Consumes one fragment's bytes and returns the bytes to append to the
    /// output for it: nothing if the fragment's interior is empty, else the
    /// interior itself, preceded by a comma when an earlier fragment has
    /// already contributed.
    pub fn add_fragment(&mut self, data: &Vec<u8>) -> (chunk: Vec<u8>)
        requires
            old(self).wf(),
        ensures
            final(self).wf(),
            final(self).history@ == old(self).history@.push(data@),
            final(self).emitted@ == old(self).emitted@ + chunk@,
    {
        let mut inner = extract_interior(data);
        let mut chunk: Vec<u8> = Vec::new();
        if inner.len() > 0 {
            if self.has_written {
                chunk.push(COMMA);
            } else {
                self.has_written = true;
            }
            chunk.append(&mut inner);
        }
        proof {
            self.history@ = self.history@.push(data@);
            self.emitted@ = self.emitted@ + chunk@;
            lemma_interiors_push(old(self).history@, data@);
            if interior(data@).len() > 0 {
                let parts = interiors(old(self).history@);
                assert(parts.push(interior(data@)).drop_last() =~= parts);
                if parts.len() == 0 {
                    assert(join_comma(parts.push(interior(data@))) =~= interior(data@));
                    assert(chunk@ =~= interior(data@));
                } else {
                    assert(join_comma(parts.push(interior(data@))) =~= join_comma(parts)
                        + seq![COMMA] + interior(data@));
                    assert(chunk@ =~= seq![COMMA] + interior(data@));
                }
            }
            assert(self.emitted@ =~= seq![OPEN_BRACKET] + merged_body(self.history@));
        }
        chunk
    }

    /// Ends the merge. The returned chunk is the closing bracket; together
    /// with everything emitted before, the output is exactly
    /// [`merged_output`] of the fragments that were added.
    pub fn finish(self) -> (chunk: Vec<u8>)
        requires
            self.wf(),
        ensures
            chunk@ == seq![CLOSE_BRACKET],
            self.emitted@ + chunk@ == merged_output(self.history@),
    {
        let mut chunk: Vec<u8> = Vec::new();
        chunk.push(CLOSE_BRACKET);
        proof {
            assert(chunk@ =~= seq![CLOSE_BRACKET]);
            assert(self.emitted@ + chunk@ =~= merged_output(self.history@));
        }
        chunk
    }
}

/// Merges a whole sequence of fragments at once and returns the complete
/// output: `[`, the non-empty interiors joined by commas in the given order,
/// `]`.
pub fn merge_all(frags: &Vec<Vec<u8>>) -> (r: Vec<u8>)
    ensures
        r@ == merged_output(frags.deep_view()),
{
    let (mut m, mut out) = Merger::new();
    proof {
        assert(frags.deep_view().subrange(0, 0) =~= Seq::<Seq<u8>>::empty());
    }
    let mut idx: usize = 0;
    while idx < frags.len()
        invariant
            m.wf(),
            0 <= idx <= frags.len(),
            frags.deep_view().len() == frags.len(),
            m.history@ == frags.deep_view().subrange(0, idx as int),
            out@ == m.emitted@,
        decreases frags.len() - idx,
    {
        let mut chunk = m.add_fragment(&frags[idx]);
        out.append(&mut chunk);
        proof {
            assert(frags@[idx as int].deep_view() =~= frags@[idx as int]@);
            assert(frags.deep_view()[idx as int] == frags@[idx as int]@);
            assert(frags.deep_view().subrange(0, idx + 1) =~= frags.deep_view().subrange(
                0,
                idx as int,
            ).push(frags@[idx as int]@));
        }
        idx = idx + 1;
    }
    let mut tail = m.finish();
    out.append(&mut tail);
    proof {
        assert(frags.deep_view().subrange(0, frags@.len() as int) =~= frags.deep_view());
    }
    out
}

} // verus!
