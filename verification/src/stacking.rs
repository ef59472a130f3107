//! Stacking contexts: the stacked boxes of a real stacking context in paint order.
use vstd::prelude::*;

use crate::layout_order::{lemma_filter_none_matching, lemma_filter_split};

verus! {

/// A stacked box recorded in the entry list of its nearest enclosing real stacking
/// context.
#[derive(Debug, Clone, Copy, PartialEq, Eq, Structural)]
pub struct StackingEntry {
    pub node_id: usize,
    /// The used z-index: the integer value when z-index applies to the box, otherwise 0.
    pub z_index: i32,
}

/// The stacked boxes of a real stacking context, sorted by z-index (equal z-indexes keep
/// tree order), with the number of those whose z-index is negative.
#[derive(Debug)]
pub struct StackingContext {
    pub entries: Vec<StackingEntry>,
    /// The number of entries with a negative z-index.
    pub negative_z_count: usize,
}

/// Whether `s` is ordered by z-index.
pub open spec fn sorted_by_z(s: Seq<StackingEntry>) -> bool {
    forall|i: int, j: int| 0 <= i < j < s.len() ==> s[i].z_index <= s[j].z_index
}

/// The entries with z-index `z`.
pub open spec fn at_z(z: i32) -> spec_fn(StackingEntry) -> bool {
    |e: StackingEntry| e.z_index == z
}

impl StackingContext {
    /// Whether the negative entries are exactly the first `negative_z_count`.
    pub open spec fn wf(&self) -> bool {
        &&& self.negative_z_count <= self.entries@.len()
        &&& forall|i: int| 0 <= i < self.negative_z_count ==> (#[trigger] self.entries@[i]).z_index < 0
        &&& forall|i: int| self.negative_z_count <= i < self.entries@.len() ==> (#[trigger] self.entries@[i]).z_index >= 0
    }

    /// The stacking context of `entries`: sorted by z-index, keeping the given (tree) order
    /// among equal z-indexes, with its negative entries counted.
    pub fn finish(entries: Vec<StackingEntry>) -> (r: Self)
        ensures
            r.wf(),
            sorted_by_z(r.entries@),
            r.entries@.len() == entries@.len(),
            forall|z: i32| #[trigger] r.entries@.filter(at_z(z)) == entries@.filter(at_z(z)),
    {
        let ghost input = entries@;
        let n = entries.len();
        let mut out: Vec<StackingEntry> = Vec::new();
        let mut i: usize = 0;
        while i < n
            invariant
                n == entries@.len(),
                entries@ == input,
                i <= n,
                out@.len() == i,
                sorted_by_z(out@),
                forall|z: i32| #[trigger] out@.filter(at_z(z)) == input.take(i as int).filter(at_z(z)),
            decreases n - i,
        {
            let x = entries[i];
            let mut pos: usize = 0;
            while pos < out.len() && out[pos].z_index <= x.z_index
                invariant
                    pos <= out@.len(),
                    forall|j: int| 0 <= j < pos ==> (#[trigger] out@[j]).z_index <= x.z_index,
                decreases out@.len() - pos,
            {
                pos = pos + 1;
            }
            let ghost before = out@;
            out.insert(pos, x);
            proof {
                assert(input.take(i + 1) =~= input.take(i as int).push(x));
                assert(before.insert(pos as int, x) == out@);
                assert forall|a: int, b: int| 0 <= a < b < out@.len() implies out@[a].z_index <= out@[b].z_index by {
                    if b < pos {
                    } else if b == pos {
                    } else if a < pos {
                        assert(out@[b] == before[b - 1]);
                        if pos < before.len() {
                            assert(before[pos as int].z_index <= before[b - 1].z_index);
                        }
                    } else if a == pos {
                        assert(out@[b] == before[b - 1]);
                        assert(before[pos as int].z_index <= before[b - 1].z_index);
                    } else {
                        assert(out@[a] == before[a - 1]);
                        assert(out@[b] == before[b - 1]);
                    }
                }
                assert forall|z: i32| #[trigger] out@.filter(at_z(z)) == input.take(i + 1).filter(at_z(z)) by {
                    let p = at_z(z);
                    assert(before.filter(p) == input.take(i as int).filter(p));
                    assert(input.take(i + 1).drop_last() =~= input.take(i as int));
                    assert(input.take(i + 1).last() == x);
                    lemma_filter_split(before, p, pos as int, x);
                    reveal(Seq::filter);
                    assert(seq![x].drop_last() =~= Seq::<StackingEntry>::empty());
                    assert(Seq::<StackingEntry>::empty().filter(p) =~= Seq::<StackingEntry>::empty());
                    if z == x.z_index {
                        assert forall|j: int| 0 <= j < before.skip(pos as int).len() implies !p(
                            #[trigger] before.skip(pos as int)[j],
                        ) by {
                            assert(before.skip(pos as int)[j] == before[pos + j]);
                            assert(before[pos as int].z_index <= before[pos + j].z_index);
                        }
                        lemma_filter_none_matching(before.skip(pos as int), p);
                        assert(seq![x].filter(p) =~= seq![x]);
                        assert(input.take(i + 1).filter(p) == input.take(i as int).filter(p).push(x));
                        assert(before.filter(p) =~= before.take(pos as int).filter(p));
                        assert(out@.filter(p) =~= before.take(pos as int).filter(p).push(x));
                    } else {
                        assert(seq![x].filter(p) =~= Seq::<StackingEntry>::empty());
                        assert(input.take(i + 1).filter(p) == input.take(i as int).filter(p));
                        assert(out@.filter(p) =~= before.filter(p));
                    }
                }
            }
            i = i + 1;
        }
        proof {
            assert(input.take(n as int) =~= input);
        }
        // The negative entries form a prefix of the sorted entries.
        let mut neg: usize = 0;
        while neg < out.len() && out[neg].z_index < 0
            invariant
                neg <= out@.len(),
                forall|j: int| 0 <= j < neg ==> (#[trigger] out@[j]).z_index < 0,
            decreases out@.len() - neg,
        {
            neg = neg + 1;
        }
        proof {
            if neg < out@.len() {
                assert forall|j: int| neg <= j < out@.len() implies (#[trigger] out@[j]).z_index >= 0 by {
                    assert(out@[neg as int].z_index <= out@[j].z_index);
                }
            }
        }
        StackingContext { entries: out, negative_z_count: neg }
    }

    /// The entries with a negative z-index, in paint order.
    pub fn negative_entries(&self) -> (r: &[StackingEntry])
        requires
            self.wf(),
        ensures
            r@ == self.entries@.take(self.negative_z_count as int),
    {
        vstd::slice::slice_subrange(self.entries.as_slice(), 0, self.negative_z_count)
    }

    /// The entries with a zero (or `auto`) or positive z-index, in paint order.
    pub fn non_negative_entries(&self) -> (r: &[StackingEntry])
        requires
            self.wf(),
        ensures
            r@ == self.entries@.skip(self.negative_z_count as int),
    {
        vstd::slice::slice_subrange(self.entries.as_slice(), self.negative_z_count, self.entries.len())
    }
}

} // verus!
