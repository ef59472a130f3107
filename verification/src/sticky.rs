//! `position: sticky`: the registry of sticky boxes.
//!
//! The list of sticky boxes is kept sorted by depth, so an outer sticky box is always
//! resolved before a nested one, and each node's `IS_STICKY` flag mirrors whether it is
//! registered. The geometry (insets, scrollports, clamps) is computed elsewhere from this
//! list.
use vstd::prelude::*;

use crate::document::{in_document, node_wf, same_registries, BaseDocument};
use crate::flags::{is_flag_bit, IS_STICKY};
use crate::node::{element_of, Node};

use crate::tree_links::{lemma_links_frame, links_agree, same_links};
verus! {

/// The writing mode of a containing block.
#[derive(Clone, Copy, Debug, PartialEq, Eq, Structural)]
pub enum WritingMode {
    HorizontalTb,
    VerticalRl,
    VerticalLr,
}

/// The inline direction of a containing block.
#[derive(Clone, Copy, Debug, PartialEq, Eq, Structural)]
pub enum Direction {
    Ltr,
    Rtl,
}

/// Which inset wins when both insets of an axis are given and cannot both be honoured:
/// the block-start and the inline-start one. The pair tells whether `left` wins on the x
/// axis and whether `top` wins on the y axis.
pub open spec fn winners(writing_mode: WritingMode, direction: Direction) -> (bool, bool) {
    let ltr = direction is Ltr;
    match writing_mode {
        WritingMode::HorizontalTb => (ltr, true),
        WritingMode::VerticalRl => (false, ltr),
        WritingMode::VerticalLr => (true, ltr),
    }
}

/// Which inset wins on each axis when both are given (see `winners`): in horizontal
/// writing, `top`, and `left` for left-to-right text; in vertical writing, the block-start
/// side (`right` for `vertical-rl`, `left` for `vertical-lr`), and `top` for left-to-right
/// text.
pub fn overconstraint_winners(writing_mode: WritingMode, direction: Direction) -> (r: (bool, bool))
    ensures
        r == winners(writing_mode, direction),
{
    let ltr = match direction {
        Direction::Ltr => true,
        Direction::Rtl => false,
    };
    match writing_mode {
        WritingMode::HorizontalTb => (ltr, true),
        WritingMode::VerticalRl => (false, ltr),
        WritingMode::VerticalLr => (true, ltr),
    }
}

/// Registry entry: depth keeps outer boxes before nested ones.
#[derive(Clone, Copy, Debug, PartialEq, Eq, Structural)]
pub struct StickyEntry {
    pub node: usize,
    pub depth: u32,
}

/// Whether the registry `entries` is ordered by depth, outer boxes first.
pub open spec fn sorted_by_depth(entries: Seq<StickyEntry>) -> bool {
    forall|i: int, j: int| 0 <= i < j < entries.len() ==> entries[i].depth <= entries[j].depth
}

/// Whether no node is registered twice.
pub open spec fn nodes_distinct(entries: Seq<StickyEntry>) -> bool {
    forall|i: int, j: int| 0 <= i < j < entries.len() ==> entries[i].node != entries[j].node
}

/// Whether node `n` is registered.
pub open spec fn registered(entries: Seq<StickyEntry>, n: usize) -> bool {
    exists|k: int| 0 <= k < entries.len() && (#[trigger] entries[k]).node == n
}

/// The registry's invariant: ordered by depth, no node twice, and each node's sticky flag
/// set exactly when it is registered.
pub open spec fn sticky_registry_ok(nodes: Seq<Node>, entries: Seq<StickyEntry>) -> bool {
    &&& sorted_by_depth(entries)
    &&& nodes_distinct(entries)
    &&& forall|n: int| 0 <= n < nodes.len() ==> #[trigger] nodes[n].flags.has(IS_STICKY) == registered(entries, n as usize)
}

/// The number of ancestors above a node whose parent is `cur`, counting at most `fuel`.
pub open spec fn ancestor_count(nodes: Seq<Node>, cur: Option<usize>, fuel: nat) -> nat
    decreases fuel,
{
    match cur {
        None => 0,
        Some(p) => if fuel == 0 || p >= nodes.len() {
            0
        } else {
            1 + ancestor_count(nodes, nodes[p as int].parent, (fuel - 1) as nat)
        },
    }
}

/// The index of the first entry of `entries` for node `n`, if any.
pub open spec fn entry_index(entries: Seq<StickyEntry>, n: usize, from: int) -> Option<int>
    decreases entries.len() - from,
{
    if from < 0 || from >= entries.len() {
        None
    } else if entries[from].node == n {
        Some(from)
    } else {
        entry_index(entries, n, from + 1)
    }
}

/// The index of the first entry of `entries` deeper than `depth`, or the length.
pub open spec fn insert_point(entries: Seq<StickyEntry>, depth: u32, from: int) -> int
    decreases entries.len() - from,
{
    if from < 0 || from >= entries.len() {
        entries.len() as int
    } else if entries[from].depth > depth {
        from
    } else {
        insert_point(entries, depth, from + 1)
    }
}

/// Whether a registered node keeps its entry: it is an element of the document with
/// computed styles.
pub open spec fn keeps_entry(nodes: Seq<Node>, e: StickyEntry) -> bool {
    &&& e.node < nodes.len()
    &&& in_document(nodes[e.node as int])
    &&& element_of(nodes[e.node as int].data) matches Some(d) && d.style.is_some()
}

proof fn lemma_entry_index(entries: Seq<StickyEntry>, n: usize, from: int)
    requires
        0 <= from <= entries.len(),
    ensures
        entry_index(entries, n, from) matches Some(k) ==> from <= k < entries.len() && entries[k].node == n,
        entry_index(entries, n, from) is None ==> forall|k: int| from <= k < entries.len() ==> #[trigger] entries[k].node != n,
    decreases entries.len() - from,
{
    if from < entries.len() && entries[from].node != n {
        lemma_entry_index(entries, n, from + 1);
    }
}

proof fn lemma_insert_point(entries: Seq<StickyEntry>, depth: u32, from: int)
    requires
        0 <= from <= entries.len(),
    ensures
        from <= insert_point(entries, depth, from) <= entries.len(),
        forall|k: int| from <= k < insert_point(entries, depth, from) ==> #[trigger] entries[k].depth <= depth,
        insert_point(entries, depth, from) < entries.len() ==> entries[insert_point(entries, depth, from)].depth > depth,
    decreases entries.len() - from,
{
    if from < entries.len() && entries[from].depth <= depth {
        lemma_insert_point(entries, depth, from + 1);
    }
}

proof fn lemma_filter_entries(l: Seq<StickyEntry>, p: spec_fn(StickyEntry) -> bool)
    requires
        sorted_by_depth(l),
        nodes_distinct(l),
    ensures
        sorted_by_depth(l.filter(p)),
        nodes_distinct(l.filter(p)),
        forall|x: StickyEntry| #[trigger] l.filter(p).contains(x) <==> (l.contains(x) && p(x)),
    decreases l.len(),
{
    reveal(Seq::filter);
    if l.len() > 0 {
        let t = l.drop_last();
        assert(sorted_by_depth(t));
        assert(nodes_distinct(t));
        lemma_filter_entries(t, p);
        let ft = t.filter(p);
        assert forall|x: StickyEntry| #[trigger] l.contains(x) <==> (t.contains(x) || x == l.last()) by {
            if l.contains(x) {
                let k = choose|k: int| 0 <= k < l.len() && l[k] == x;
                if k < l.len() - 1 {
                    assert(t[k] == x);
                }
            }
            if t.contains(x) {
                let k = choose|k: int| 0 <= k < t.len() && t[k] == x;
                assert(l[k] == x);
            }
            if x == l.last() {
                assert(l[l.len() - 1] == x);
            }
        }
        if p(l.last()) {
            let r = ft.push(l.last());
            assert(l.filter(p) == r);
            assert forall|i: int| 0 <= i < ft.len() implies (#[trigger] ft[i]).depth <= l.last().depth
                && ft[i].node != l.last().node by {
                assert(ft.contains(ft[i]));
                let k = choose|k: int| 0 <= k < t.len() && t[k] == ft[i];
                assert(l[k] == t[k]);
            }
            assert forall|x: StickyEntry| #[trigger] r.contains(x) <==> (ft.contains(x) || x == l.last()) by {
                if r.contains(x) {
                    let k = choose|k: int| 0 <= k < r.len() && r[k] == x;
                    if k < ft.len() {
                        assert(ft[k] == x);
                    }
                }
                if ft.contains(x) {
                    let k = choose|k: int| 0 <= k < ft.len() && ft[k] == x;
                    assert(r[k] == x);
                }
                if x == l.last() {
                    assert(r[r.len() - 1] == x);
                }
            }
        } else {
            assert(l.filter(p) == ft);
        }
    }
}

impl BaseDocument {
    /// The number of ancestors of node `id`.
    fn depth_of(&self, id: usize) -> (r: u32)
        requires
            self.wf(),
            id < self@.len(),
            self@.len() <= u32::MAX,
        ensures
            r == ancestor_count(self@, self@[id as int].parent, self@.len() as nat),
    {
        proof {
            assert(node_wf(self@[id as int], id as int, self@.len() as int));
        }
        let len = self.nodes.len();
        let mut depth: u32 = 0;
        let mut cur = self.nodes[id].parent;
        let mut fuel = len;
        while fuel > 0
            invariant
                self.wf(),
                len == self@.len(),
                len <= u32::MAX,
                fuel <= len,
                depth + fuel <= len,
                crate::document::opt_valid(cur, len as int),
                ancestor_count(self@, self@[id as int].parent, len as nat) == depth + ancestor_count(
                    self@,
                    cur,
                    fuel as nat,
                ),
            decreases fuel,
        {
            match cur {
                Some(p) => {
                    proof {
                        assert(node_wf(self@[p as int], p as int, len as int));
                    }
                    depth = depth + 1;
                    cur = self.nodes[p].parent;
                    fuel = fuel - 1;
                },
                None => {
                    fuel = 0;
                },
            }
        }
        depth
    }

    /// Registers node `id` as `position: sticky`, or unregisters it: called wherever the
    /// node's styles are flushed to layout. The node's sticky flag is set to `is_sticky`;
    /// a newly registered node is inserted after every entry no deeper than it, so outer
    /// boxes stay first. When the flag already says `is_sticky`, nothing changes.
    pub fn note_sticky(&mut self, id: usize, is_sticky: bool)
        requires
            old(self).wf(),
            id < old(self)@.len(),
            old(self)@.len() <= u32::MAX,
        ensures
            final(self).wf(),
            final(self).shadow_hosts == old(self).shadow_hosts,
            final(self).dropped@ == old(self).dropped@,
            final(self).pending_scroll == old(self).pending_scroll,
            final(self).mutations_occurred == old(self).mutations_occurred,
            final(self)@.len() == old(self)@.len(),
            sticky_registry_ok(old(self)@, old(self).sticky_nodes@) ==> sticky_registry_ok(
                final(self)@,
                final(self).sticky_nodes@,
            ),
            old(self)@[id as int].flags.has(IS_STICKY) == is_sticky ==> final(self)@ == old(self)@
                && final(self).sticky_nodes@ == old(self).sticky_nodes@,
            old(self)@[id as int].flags.has(IS_STICKY) != is_sticky ==> {
                &&& forall|i: int| 0 <= i < old(self)@.len() && i != id ==> #[trigger] final(self)@[i] == old(self)@[i]
                &&& final(self)@[id as int] == (Node { flags: final(self)@[id as int].flags, ..old(self)@[id as int] })
                &&& forall|f: u32| is_flag_bit(f) ==> #[trigger] final(self)@[id as int].flags.has(f) == if f == IS_STICKY {
                    is_sticky
                } else {
                    old(self)@[id as int].flags.has(f)
                }
                &&& final(self).sticky_nodes@ == match (entry_index(old(self).sticky_nodes@, id, 0), is_sticky) {
                    (Some(i), false) => old(self).sticky_nodes@.remove(i),
                    (None, true) => {
                        let depth = ancestor_count(old(self)@, old(self)@[id as int].parent, old(self)@.len() as nat) as u32;
                        old(self).sticky_nodes@.insert(
                            insert_point(old(self).sticky_nodes@, depth, 0),
                            StickyEntry { node: id, depth },
                        )
                    },
                    _ => old(self).sticky_nodes@,
                }
            },
            links_agree(old(self)@) ==> links_agree(final(self)@),
    {
        self.note_sticky_steps(id, is_sticky);
        proof {
            if links_agree(old(self)@) {
                assert forall|i: int| 0 <= i < old(self)@.len() implies same_links(#[trigger] old(self)@[i], self@[i]) by {
                    assert(crate::flags::is_flag_bit(crate::flags::IS_SHADOW_ROOT));
                }
                lemma_links_frame(old(self)@, self@);
            }
        }
    }

    /// The steps of `note_sticky`.
    fn note_sticky_steps(&mut self, id: usize, is_sticky: bool)
        requires
            old(self).wf(),
            id < old(self)@.len(),
            old(self)@.len() <= u32::MAX,
        ensures
            final(self).wf(),
            final(self).shadow_hosts == old(self).shadow_hosts,
            final(self).dropped@ == old(self).dropped@,
            final(self).pending_scroll == old(self).pending_scroll,
            final(self).mutations_occurred == old(self).mutations_occurred,
            final(self)@.len() == old(self)@.len(),
            sticky_registry_ok(old(self)@, old(self).sticky_nodes@) ==> sticky_registry_ok(
                final(self)@,
                final(self).sticky_nodes@,
            ),
            old(self)@[id as int].flags.has(IS_STICKY) == is_sticky ==> final(self)@ == old(self)@
                && final(self).sticky_nodes@ == old(self).sticky_nodes@,
            old(self)@[id as int].flags.has(IS_STICKY) != is_sticky ==> {
                &&& forall|i: int| 0 <= i < old(self)@.len() && i != id ==> #[trigger] final(self)@[i] == old(self)@[i]
                &&& final(self)@[id as int] == (Node { flags: final(self)@[id as int].flags, ..old(self)@[id as int] })
                &&& forall|f: u32| is_flag_bit(f) ==> #[trigger] final(self)@[id as int].flags.has(f) == if f == IS_STICKY {
                    is_sticky
                } else {
                    old(self)@[id as int].flags.has(f)
                }
                &&& final(self).sticky_nodes@ == match (entry_index(old(self).sticky_nodes@, id, 0), is_sticky) {
                    (Some(i), false) => old(self).sticky_nodes@.remove(i),
                    (None, true) => {
                        let depth = ancestor_count(old(self)@, old(self)@[id as int].parent, old(self)@.len() as nat) as u32;
                        old(self).sticky_nodes@.insert(
                            insert_point(old(self).sticky_nodes@, depth, 0),
                            StickyEntry { node: id, depth },
                        )
                    },
                    _ => old(self).sticky_nodes@,
                }
            },
    {
        let was = self.nodes[id].flags.contains(IS_STICKY);
        if was == is_sticky {
            return;
        }
        let n = self.sticky_nodes.len();
        let mut index: usize = 0;
        while index < n && self.sticky_nodes[index].node != id
            invariant
                n == self.sticky_nodes@.len(),
                index <= n,
                entry_index(self.sticky_nodes@, id, 0) == entry_index(self.sticky_nodes@, id, index as int),
            decreases n - index,
        {
            index = index + 1;
        }
        let depth = if index == n && is_sticky {
            self.depth_of(id)
        } else {
            0
        };
        let ghost start = self@;
        self.nodes[id].flags.set(IS_STICKY, is_sticky);
        proof {
            let len = self@.len() as int;
            assert forall|i: int| 0 <= i < len implies node_wf(#[trigger] self@[i], i, len) by {
                assert(node_wf(start[i], i, len));
            }
        }
        if index < n {
            if !is_sticky {
                self.sticky_nodes.remove(index);
            }
        } else if is_sticky {
            let mut at: usize = 0;
            while at < n && self.sticky_nodes[at].depth <= depth
                invariant
                    n == self.sticky_nodes@.len(),
                    at <= n,
                    insert_point(self.sticky_nodes@, depth, 0) == insert_point(self.sticky_nodes@, depth, at as int),
                decreases n - at,
            {
                at = at + 1;
            }
            self.sticky_nodes.insert(at, StickyEntry { node: id, depth });
        }
        proof {
            let len = self@.len() as int;
            assert forall|k: int| 0 <= k < self.sticky_nodes@.len() implies (#[trigger] self.sticky_nodes@[k]).node < len by {
                if k < old(self).sticky_nodes@.len() {
                }
            }
            if sticky_registry_ok(old(self)@, old(self).sticky_nodes@) {
                lemma_note_sticky_registry(*old(self), *self, id, is_sticky);
            }
        }
    }

    /// The part of the sticky update that does not depend on layout: drops the entries of
    /// nodes that left the document, are not elements or have no computed styles, clearing
    /// their sticky flag so that a node moved back in registers again.
    pub fn update_sticky_offsets(&mut self)
        requires
            old(self).wf(),
        ensures
            final(self).wf(),
            final(self).shadow_hosts == old(self).shadow_hosts,
            final(self).dropped@ == old(self).dropped@,
            final(self).pending_scroll == old(self).pending_scroll,
            final(self).mutations_occurred == old(self).mutations_occurred,
            final(self)@.len() == old(self)@.len(),
            final(self).sticky_nodes@ == old(self).sticky_nodes@.filter(|e: StickyEntry| keeps_entry(old(self)@, e)),
            sticky_registry_ok(old(self)@, old(self).sticky_nodes@) ==> sticky_registry_ok(
                final(self)@,
                final(self).sticky_nodes@,
            ),
            forall|i: int|
                0 <= i < old(self)@.len() ==> #[trigger] final(self)@[i] == (Node {
                    flags: final(self)@[i].flags,
                    ..old(self)@[i]
                }),
            forall|i: int, f: u32|
                0 <= i < old(self)@.len() && is_flag_bit(f) ==> #[trigger] final(self)@[i].flags.has(f) == if f
                    == IS_STICKY && exists|k: int|
                    0 <= k < old(self).sticky_nodes@.len() && (#[trigger] old(self).sticky_nodes@[k]).node == i
                        && !keeps_entry(old(self)@, old(self).sticky_nodes@[k]) {
                    false
                } else {
                    old(self)@[i].flags.has(f)
                },            forall|i: int|
                0 <= i < old(self)@.len() ==> #[trigger] final(self)@[i].flags.bits == if exists|k: int|
                    0 <= k < old(self).sticky_nodes@.len() && (#[trigger] old(self).sticky_nodes@[k]).node == i
                        && !keeps_entry(old(self)@, old(self).sticky_nodes@[k]) {
                    old(self)@[i].flags.bits & !IS_STICKY
                } else {
                    old(self)@[i].flags.bits
                },
            links_agree(old(self)@) ==> links_agree(final(self)@),
    {
        self.update_sticky_offsets_steps();
        proof {
            if links_agree(old(self)@) {
                assert forall|i: int| 0 <= i < old(self)@.len() implies same_links(#[trigger] old(self)@[i], self@[i]) by {
                    assert(crate::flags::is_flag_bit(crate::flags::IS_SHADOW_ROOT));
                }
                lemma_links_frame(old(self)@, self@);
            }
        }
    }

    /// The steps of `update_sticky_offsets`.
    fn update_sticky_offsets_steps(&mut self)
        requires
            old(self).wf(),
        ensures
            final(self).wf(),
            final(self).shadow_hosts == old(self).shadow_hosts,
            final(self).dropped@ == old(self).dropped@,
            final(self).pending_scroll == old(self).pending_scroll,
            final(self).mutations_occurred == old(self).mutations_occurred,
            final(self)@.len() == old(self)@.len(),
            final(self).sticky_nodes@ == old(self).sticky_nodes@.filter(|e: StickyEntry| keeps_entry(old(self)@, e)),
            sticky_registry_ok(old(self)@, old(self).sticky_nodes@) ==> sticky_registry_ok(
                final(self)@,
                final(self).sticky_nodes@,
            ),
            forall|i: int|
                0 <= i < old(self)@.len() ==> #[trigger] final(self)@[i] == (Node {
                    flags: final(self)@[i].flags,
                    ..old(self)@[i]
                }),
            forall|i: int, f: u32|
                0 <= i < old(self)@.len() && is_flag_bit(f) ==> #[trigger] final(self)@[i].flags.has(f) == if f
                    == IS_STICKY && exists|k: int|
                    0 <= k < old(self).sticky_nodes@.len() && (#[trigger] old(self).sticky_nodes@[k]).node == i
                        && !keeps_entry(old(self)@, old(self).sticky_nodes@[k]) {
                    false
                } else {
                    old(self)@[i].flags.has(f)
                },            forall|i: int|
                0 <= i < old(self)@.len() ==> #[trigger] final(self)@[i].flags.bits == if exists|k: int|
                    0 <= k < old(self).sticky_nodes@.len() && (#[trigger] old(self).sticky_nodes@[k]).node == i
                        && !keeps_entry(old(self)@, old(self).sticky_nodes@[k]) {
                    old(self)@[i].flags.bits & !IS_STICKY
                } else {
                    old(self)@[i].flags.bits
                },
    {
        let ghost start = self@;
        let ghost entries = self.sticky_nodes@;
        let ghost keep = |e: StickyEntry| keeps_entry(start, e);
        let n = self.sticky_nodes.len();
        let len = self.nodes.len();
        let mut kept: Vec<StickyEntry> = Vec::new();
        let mut k: usize = 0;
        while k < n
            invariant
                self.wf(),
                self.shadow_hosts == old(self).shadow_hosts,
                self.pending_scroll == old(self).pending_scroll,
                self.mutations_occurred == old(self).mutations_occurred,
                self.dropped@ == old(self).dropped@,
                self.sticky_nodes@ == entries,
                entries == old(self).sticky_nodes@,
                start == old(self)@,
                keep == (|e: StickyEntry| keeps_entry(start, e)),
                n == entries.len(),
                len == start.len(),
                self@.len() == len,
                k <= n,
                kept@ == entries.take(k as int).filter(keep),
                forall|i: int|
                    0 <= i < len ==> #[trigger] self@[i] == (Node { flags: self@[i].flags, ..start[i] }),
                forall|i: int, f: u32|
                    0 <= i < len && is_flag_bit(f) ==> #[trigger] self@[i].flags.has(f) == if f == IS_STICKY
                        && exists|j: int|
                        0 <= j < k && (#[trigger] entries[j]).node == i && !keeps_entry(start, entries[j]) {
                        false
                    } else {
                        start[i].flags.has(f)
                    },
                forall|i: int|
                    0 <= i < len ==> #[trigger] self@[i].flags.bits == if exists|j: int|
                        0 <= j < k && (#[trigger] entries[j]).node == i && !keeps_entry(start, entries[j]) {
                        start[i].flags.bits & !IS_STICKY
                    } else {
                        start[i].flags.bits
                    },
            decreases n - k,
        {
            let e = self.sticky_nodes[k];
            proof {
                reveal(Seq::filter);
                assert(entries.take(k + 1).drop_last() =~= entries.take(k as int));
                assert(entries.take(k + 1).last() == e);
            }
            let keeps = e.node < len && self.nodes[e.node].flags.is_in_document() && match self.nodes[e.node].data.downcast_element() {
                Some(d) => d.style.is_some(),
                None => false,
            };
            proof {
                if e.node < len {
                    assert(self@[e.node as int].data == start[e.node as int].data);
                    assert(in_document(self@[e.node as int]) == in_document(start[e.node as int]));
                }
                assert(keeps == keep(e));
            }
            if keeps {
                kept.push(e);
            } else if e.node < len {
                let ghost before = self@;
                self.nodes[e.node].flags.set(IS_STICKY, false);
                proof {
                    assert forall|i: int| 0 <= i < len implies node_wf(#[trigger] self@[i], i, len as int) by {
                        assert(node_wf(before[i], i, len as int));
                    }
                }
            }
            proof {
                assert forall|i: int, f: u32| 0 <= i < len && is_flag_bit(f) implies #[trigger] self@[i].flags.has(f) == if f
                    == IS_STICKY && exists|j: int|
                    0 <= j < k + 1 && (#[trigger] entries[j]).node == i && !keeps_entry(start, entries[j]) {
                    false
                } else {
                    start[i].flags.has(f)
                } by {
                    if f == IS_STICKY && i == e.node && !keeps {
                        assert(entries[k as int].node == i);
                    }
                }
                assert forall|i: int| 0 <= i < len implies #[trigger] self@[i].flags.bits == if exists|j: int|
                    0 <= j < k + 1 && (#[trigger] entries[j]).node == i && !keeps_entry(start, entries[j]) {
                    start[i].flags.bits & !IS_STICKY
                } else {
                    start[i].flags.bits
                } by {
                    let b = start[i].flags.bits;
                    assert((b & !8u32) & !8u32 == b & !8u32) by (bit_vector);
                    if i == e.node && !keeps {
                        assert(entries[k as int].node == i);
                    }
                }
            }
            k = k + 1;
        }
        proof {
            assert(entries.take(n as int) =~= entries);
        }
        self.sticky_nodes = kept;
        proof {
            if sticky_registry_ok(start, entries) {
                lemma_filter_entries(entries, keep);
                let ks = self.sticky_nodes@;
                assert forall|m: int| 0 <= m < len implies #[trigger] self@[m].flags.has(IS_STICKY)
                    == registered(ks, m as usize) by {
                    assert(start[m].flags.has(IS_STICKY) == registered(entries, m as usize));
                    if registered(ks, m as usize) {
                        let k = choose|k: int| 0 <= k < ks.len() && (#[trigger] ks[k]).node == m as usize;
                        assert(ks.contains(ks[k]));
                        assert(entries.contains(ks[k]) && keep(ks[k]));
                        let j = choose|j: int| 0 <= j < entries.len() && entries[j] == ks[k];
                        assert(entries[j].node == m);
                        if exists|j2: int|
                            0 <= j2 < n && (#[trigger] entries[j2]).node == m && !keeps_entry(start, entries[j2]) {
                            let j2 = choose|j2: int|
                                0 <= j2 < n && (#[trigger] entries[j2]).node == m && !keeps_entry(start, entries[j2]);
                            assert(keeps_entry(start, entries[j2]) == keeps_entry(start, entries[j]));
                        }
                    }
                    if self@[m].flags.has(IS_STICKY) {
                        assert(registered(entries, m as usize));
                        let j = choose|j: int| 0 <= j < entries.len() && (#[trigger] entries[j]).node == m as usize;
                        assert(keeps_entry(start, entries[j]));
                        assert(entries.contains(entries[j]));
                        assert(ks.contains(entries[j]));
                        let k = choose|k: int| 0 <= k < ks.len() && ks[k] == entries[j];
                        assert(ks[k].node == m);
                    }
                }
            }
        }
    }
}

proof fn lemma_insert_entry(es: Seq<StickyEntry>, id: usize, depth: u32)
    requires
        sorted_by_depth(es),
        nodes_distinct(es),
        !registered(es, id),
    ensures
        ({
            let ne = es.insert(insert_point(es, depth, 0), StickyEntry { node: id, depth });
            &&& sorted_by_depth(ne)
            &&& nodes_distinct(ne)
            &&& forall|n: usize| #[trigger] registered(ne, n) == (registered(es, n) || n == id)
        }),
{
    let at = insert_point(es, depth, 0);
    lemma_insert_point(es, depth, 0);
    let ne = es.insert(at, StickyEntry { node: id, depth });
    assert forall|i: int, j: int| 0 <= i < j < ne.len() implies ne[i].depth <= ne[j].depth by {
        if j < at {
        } else if j == at {
        } else if i < at {
            assert(es[i].depth <= depth);
            assert(es[at].depth <= es[j - 1].depth);
        } else if i == at {
            assert(es[at].depth <= es[j - 1].depth);
        } else {
        }
    }
    assert forall|i: int, j: int| 0 <= i < j < ne.len() implies ne[i].node != ne[j].node by {
        if i == at {
            assert(es[j - 1].node != id);
        } else if j == at {
            assert(es[i].node != id);
        }
    }
    assert forall|n: usize| #[trigger] registered(ne, n) == (registered(es, n) || n == id) by {
        if n == id {
            assert(ne[at].node == id);
        }
        if registered(es, n) {
            let k = choose|k: int| 0 <= k < es.len() && (#[trigger] es[k]).node == n;
            if k < at {
                assert(ne[k].node == n);
            } else {
                assert(ne[k + 1].node == n);
            }
        }
        if registered(ne, n) && n != id {
            let k = choose|k: int| 0 <= k < ne.len() && (#[trigger] ne[k]).node == n;
            if k < at {
                assert(es[k].node == n);
            } else if k > at {
                assert(es[k - 1].node == n);
            }
        }
    }
}

proof fn lemma_remove_entry(es: Seq<StickyEntry>, at: int)
    requires
        sorted_by_depth(es),
        nodes_distinct(es),
        0 <= at < es.len(),
    ensures
        sorted_by_depth(es.remove(at)),
        nodes_distinct(es.remove(at)),
        forall|n: usize| #[trigger] registered(es.remove(at), n) == (registered(es, n) && n != es[at].node),
{
    let ne = es.remove(at);
    assert forall|i: int, j: int| 0 <= i < j < ne.len() implies ne[i].depth <= ne[j].depth by {
        let i2 = if i < at { i } else { i + 1 };
        let j2 = if j < at { j } else { j + 1 };
        assert(ne[i] == es[i2] && ne[j] == es[j2]);
    }
    assert forall|i: int, j: int| 0 <= i < j < ne.len() implies ne[i].node != ne[j].node by {
        let i2 = if i < at { i } else { i + 1 };
        let j2 = if j < at { j } else { j + 1 };
        assert(ne[i] == es[i2] && ne[j] == es[j2]);
    }
    assert forall|n: usize| #[trigger] registered(ne, n) == (registered(es, n) && n != es[at].node) by {
        if registered(es, n) && n != es[at].node {
            let k = choose|k: int| 0 <= k < es.len() && (#[trigger] es[k]).node == n;
            if k < at {
                assert(ne[k].node == n);
            } else {
                assert(ne[k - 1].node == n);
            }
        }
        if registered(ne, n) {
            let k = choose|k: int| 0 <= k < ne.len() && (#[trigger] ne[k]).node == n;
            if k < at {
                assert(es[k].node == n);
            } else {
                assert(es[k + 1].node == n);
            }
        }
    }
}

proof fn lemma_note_sticky_registry(before: BaseDocument, after: BaseDocument, id: usize, is_sticky: bool)
    requires
        id < before@.len(),
        before@.len() <= usize::MAX,
        sticky_registry_ok(before@, before.sticky_nodes@),
        after@.len() == before@.len(),
        forall|i: int| 0 <= i < before@.len() && i != id ==> #[trigger] after@[i] == before@[i],
        after@[id as int].flags.has(IS_STICKY) == is_sticky,
        before@[id as int].flags.has(IS_STICKY) != is_sticky,
        after.sticky_nodes@ == match (entry_index(before.sticky_nodes@, id, 0), is_sticky) {
            (Some(i), false) => before.sticky_nodes@.remove(i),
            (None, true) => {
                let depth = ancestor_count(before@, before@[id as int].parent, before@.len() as nat) as u32;
                before.sticky_nodes@.insert(
                    insert_point(before.sticky_nodes@, depth, 0),
                    StickyEntry { node: id, depth },
                )
            },
            _ => before.sticky_nodes@,
        },
    ensures
        sticky_registry_ok(after@, after.sticky_nodes@),
{
    let es = before.sticky_nodes@;
    lemma_entry_index(es, id, 0);
    if is_sticky {
        assert(!registered(es, id));
        assert(entry_index(es, id, 0) is None) by {
            if entry_index(es, id, 0) is Some {
                let k = entry_index(es, id, 0)->0;
                assert(es[k].node == id);
            }
        }
        let depth = ancestor_count(before@, before@[id as int].parent, before@.len() as nat) as u32;
        lemma_insert_entry(es, id, depth);
        assert forall|n: int| 0 <= n < after@.len() implies #[trigger] after@[n].flags.has(IS_STICKY)
            == registered(after.sticky_nodes@, n as usize) by {
            assert((n as usize) as int == n);
            if n != id {
                assert(before@[n].flags.has(IS_STICKY) == registered(es, n as usize));
            }
        }
    } else {
        assert(registered(es, id));
        let k0 = choose|k: int| 0 <= k < es.len() && (#[trigger] es[k]).node == id;
        assert(entry_index(es, id, 0) is Some) by {
            if entry_index(es, id, 0) is None {
                assert(es[k0].node != id);
            }
        }
        let at = entry_index(es, id, 0)->0;
        lemma_remove_entry(es, at);
        assert forall|n: int| 0 <= n < after@.len() implies #[trigger] after@[n].flags.has(IS_STICKY)
            == registered(after.sticky_nodes@, n as usize) by {
            assert((n as usize) as int == n);
            if n != id {
                assert(before@[n].flags.has(IS_STICKY) == registered(es, n as usize));
            }
        }
    }
}

} // verus!
