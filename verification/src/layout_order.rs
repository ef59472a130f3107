//! The order in which layout children are laid out and painted: the flex/grid `order`
//! property, and paint levels for positioned and floated boxes.
use vstd::prelude::*;

use crate::document::{ids_valid, BaseDocument};
use crate::node::{element_of, Float, Node, Position};

verus! {

/// The `order` of node `n`: its computed `order`, or 0 without computed styles.
pub open spec fn order_of(n: Node) -> i32 {
    match element_of(n.data) {
        Some(e) => match e.style {
            Some(s) => s.order,
            None => 0,
        },
        None => 0,
    }
}

impl Node {
    /// The node's `order` (0 without computed styles).
    pub fn order(&self) -> (r: i32)
        ensures
            r == order_of(*self),
    {
        match self.element_data() {
            Some(e) => match &e.style {
                Some(s) => s.order,
                None => 0,
            },
            None => 0,
        }
    }
}

/// The paint level of a box with `position: pos` (before floats are counted).
pub open spec fn position_level(pos: Position) -> i32 {
    match pos {
        Position::Static => 0,
        _ => 2,
    }
}

/// The paint level a float adds.
pub open spec fn float_level(f: Float) -> i32 {
    match f {
        Float::NoFloat => 0,
        _ => 1,
    }
}

/// The paint level of a box with `position: pos`: positioned boxes with `z-index: auto`
/// share one level above in-flow content.
pub fn position_to_order(pos: Position) -> (r: i32)
    ensures
        r == position_level(pos),
{
    match pos {
        Position::Static => 0,
        Position::Relative | Position::Sticky | Position::Absolute | Position::Fixed => 2,
    }
}

/// The paint level a float adds: 1 for floats, 0 otherwise.
pub fn float_to_order(f: Float) -> (r: i32)
    ensures
        r == float_level(f),
{
    match f {
        Float::NoFloat => 0,
        _ => 1,
    }
}

/// The paint sort key of `n`: (paint level, order-modified position).
pub open spec fn paint_key(n: Node, is_flex_or_grid: bool) -> (i32, i32) {
    match element_of(n.data) {
        Some(e) => match e.style {
            Some(s) => if is_flex_or_grid {
                match s.position {
                    Position::Static => (0, s.order),
                    Position::Relative | Position::Sticky => (2, s.order),
                    Position::Absolute | Position::Fixed => (2, 0),
                }
            } else {
                ((position_level(s.position) + float_level(s.float)) as i32, 0)
            },
            None => (0, 0),
        },
        None => (0, 0),
    }
}

/// The paint sort key of a child: positioned descendants paint above in-flow content and
/// floats; in flex and grid containers the `order` of in-flow and relatively positioned
/// items applies within a level, while out-of-flow children keep tree order.
pub fn node_to_paint_order(node: &Node, is_flex_or_grid: bool) -> (r: (i32, i32))
    ensures
        r == paint_key(*node, is_flex_or_grid),
{
    let s = match node.element_data() {
        Some(e) => match &e.style {
            Some(s) => s,
            None => {
                return (0, 0);
            },
        },
        None => {
            return (0, 0);
        },
    };
    if is_flex_or_grid {
        match s.position {
            Position::Static => (0, s.order),
            Position::Relative | Position::Sticky => (2, s.order),
            Position::Absolute | Position::Fixed => (2, 0),
        }
    } else {
        (position_to_order(s.position) + float_to_order(s.float), 0)
    }
}

/// The paint sort key of an in-flow child: floats above other in-flow content; within a
/// level, flex and grid items by `order`.
pub open spec fn in_flow_key(n: Node, is_flex_or_grid: bool) -> (i32, i32) {
    match element_of(n.data) {
        Some(e) => match e.style {
            Some(s) => if is_flex_or_grid {
                (0, s.order)
            } else {
                (float_level(s.float), 0)
            },
            None => (0, 0),
        },
        None => (0, 0),
    }
}

/// The paint sort key of an in-flow child (see `in_flow_key`).
pub fn in_flow_paint_order(node: &Node, is_flex_or_grid: bool) -> (r: (i32, i32))
    ensures
        r == in_flow_key(*node, is_flex_or_grid),
{
    match node.element_data() {
        Some(e) => match &e.style {
            Some(s) => if is_flex_or_grid {
                (0, s.order)
            } else {
                (float_to_order(s.float), 0)
            },
            None => (0, 0),
        },
        None => (0, 0),
    }
}

/// Whether `s` is ordered by the `order` of its nodes.
pub open spec fn sorted_by_order(nodes: Seq<Node>, s: Seq<usize>) -> bool {
    forall|i: int, j: int| 0 <= i < j < s.len() ==> order_of(nodes[s[i] as int]) <= order_of(nodes[s[j] as int])
}

/// The nodes of `s` whose `order` is `k`, in order.
pub open spec fn with_order(nodes: Seq<Node>, s: Seq<usize>, k: i32) -> Seq<usize> {
    s.filter(has_order(nodes, k))
}

/// Whether a node id names a node whose `order` is `k`.
pub open spec fn has_order(nodes: Seq<Node>, k: i32) -> spec_fn(usize) -> bool {
    |x: usize| order_of(nodes[x as int]) == k
}

/// The sort keys children are ordered by.
#[derive(Debug, Clone, Copy, PartialEq, Eq)]
pub enum SortKey {
    /// Layout order: by `order` alone.
    Order,
    /// Paint order of all children (see `paint_key`).
    Paint { is_flex_or_grid: bool },
    /// Paint order of in-flow children (see `in_flow_key`).
    InFlow { is_flex_or_grid: bool },
}

/// The key of node `n` under `kind`.
pub open spec fn key_for(n: Node, kind: SortKey) -> (i32, i32) {
    match kind {
        SortKey::Order => (0, order_of(n)),
        SortKey::Paint { is_flex_or_grid } => paint_key(n, is_flex_or_grid),
        SortKey::InFlow { is_flex_or_grid } => in_flow_key(n, is_flex_or_grid),
    }
}

/// The lexicographic order of keys.
pub open spec fn key_le(a: (i32, i32), b: (i32, i32)) -> bool {
    a.0 < b.0 || (a.0 == b.0 && a.1 <= b.1)
}

/// Whether `s` is ordered by the keys of its nodes under `kind`.
pub open spec fn sorted_by_key(nodes: Seq<Node>, s: Seq<usize>, kind: SortKey) -> bool {
    forall|i: int, j: int|
        0 <= i < j < s.len() ==> key_le(key_for(nodes[s[i] as int], kind), key_for(nodes[s[j] as int], kind))
}

/// Whether a node id names a node whose key under `kind` is `k`.
pub open spec fn has_key(nodes: Seq<Node>, kind: SortKey, k: (i32, i32)) -> spec_fn(usize) -> bool {
    |x: usize| key_for(nodes[x as int], kind) == k
}

/// The nodes of `s` whose key under `kind` is `k`, in order.
pub open spec fn with_key(nodes: Seq<Node>, s: Seq<usize>, kind: SortKey, k: (i32, i32)) -> Seq<usize> {
    s.filter(has_key(nodes, kind, k))
}

/// Whether `a` comes before or with `b` in the lexicographic order of keys.
fn key_le_exec(a: (i32, i32), b: (i32, i32)) -> (r: bool)
    ensures
        r == key_le(a, b),
{
    a.0 < b.0 || (a.0 == b.0 && a.1 <= b.1)
}

/// Filtering a sequence with `x` inserted at `pos` filters the two sides and `x` apart.
pub proof fn lemma_filter_split<A>(s: Seq<A>, p: spec_fn(A) -> bool, pos: int, x: A)
    requires
        0 <= pos <= s.len(),
    ensures
        s.insert(pos, x).filter(p) == s.take(pos).filter(p) + seq![x].filter(p) + s.skip(pos).filter(p),
        s.filter(p) == s.take(pos).filter(p) + s.skip(pos).filter(p),
{
    broadcast use vstd::seq_lib::group_filter_ensures;
    assert(s.insert(pos, x) =~= s.take(pos) + seq![x] + s.skip(pos));
    assert(s =~= s.take(pos) + s.skip(pos));
    Seq::filter_distributes_over_add(s.take(pos) + seq![x], s.skip(pos), p);
    Seq::filter_distributes_over_add(s.take(pos), seq![x], p);
    Seq::filter_distributes_over_add(s.take(pos), s.skip(pos), p);
}

/// Filtering a sequence none of whose elements passes gives the empty sequence.
pub proof fn lemma_filter_none_matching<A>(s: Seq<A>, p: spec_fn(A) -> bool)
    requires
        forall|i: int| 0 <= i < s.len() ==> !p(#[trigger] s[i]),
    ensures
        s.filter(p) == Seq::<A>::empty(),
    decreases s.len(),
{
    reveal(Seq::filter);
    if s.len() > 0 {
        assert forall|i: int| 0 <= i < s.drop_last().len() implies !p(#[trigger] s.drop_last()[i]) by {
            assert(s.drop_last()[i] == s[i]);
        }
        lemma_filter_none_matching(s.drop_last(), p);
        assert(!p(s[s.len() - 1]));
    }
    assert(s.filter(p) =~= Seq::<A>::empty());
}

impl BaseDocument {
    /// The key of node `id` under `kind`.
    fn key_of(&self, id: usize, kind: SortKey) -> (r: (i32, i32))
        requires
            id < self@.len(),
        ensures
            r == key_for(self@[id as int], kind),
    {
        match kind {
            SortKey::Order => (0, self.nodes[id].order()),
            SortKey::Paint { is_flex_or_grid } => node_to_paint_order(&self.nodes[id], is_flex_or_grid),
            SortKey::InFlow { is_flex_or_grid } => in_flow_paint_order(&self.nodes[id], is_flex_or_grid),
        }
    }

    /// Sorts `ids` by the keys of their nodes under `kind`, keeping the given order among
    /// equal keys (a stable sort).
    pub fn sort_children_by_key(&self, ids: &mut Vec<usize>, kind: SortKey)
        requires
            ids_valid(old(ids)@, self@.len() as int),
        ensures
            sorted_by_key(self@, final(ids)@, kind),
            forall|k: (i32, i32)| #[trigger] with_key(self@, final(ids)@, kind, k) == with_key(
                self@,
                old(ids)@,
                kind,
                k,
            ),
            final(ids)@.len() == old(ids)@.len(),
            ids_valid(final(ids)@, self@.len() as int),
    {
        let ghost input = ids@;
        let n = ids.len();
        let mut out: Vec<usize> = Vec::new();
        let mut i: usize = 0;
        while i < n
            invariant
                n == ids@.len(),
                ids@ == input,
                ids_valid(input, self@.len() as int),
                i <= n,
                out@.len() == i,
                ids_valid(out@, self@.len() as int),
                sorted_by_key(self@, out@, kind),
                forall|kk: (i32, i32)| #[trigger] with_key(self@, out@, kind, kk) == with_key(
                    self@,
                    input.take(i as int),
                    kind,
                    kk,
                ),
            decreases n - i,
        {
            let x = ids[i];
            let kx = self.key_of(x, kind);
            let mut pos: usize = 0;
            while pos < out.len() && key_le_exec(self.key_of(out[pos], kind), kx)
                invariant
                    pos <= out@.len(),
                    ids_valid(out@, self@.len() as int),
                    forall|j: int| 0 <= j < pos ==> key_le(key_for(self@[#[trigger] out@[j] as int], kind), kx),
                decreases out@.len() - pos,
            {
                pos = pos + 1;
            }
            let ghost before = out@;
            proof {
                if pos < before.len() {
                    assert(!key_le(key_for(self@[before[pos as int] as int], kind), kx));
                }
            }
            out.insert(pos, x);
            proof {
                assert(input.take(i + 1) =~= input.take(i as int).push(x));
                assert(before.insert(pos as int, x) == out@);
                assert forall|a: int, b: int| 0 <= a < b < out@.len() implies key_le(
                    key_for(self@[out@[a] as int], kind),
                    key_for(self@[out@[b] as int], kind),
                ) by {
                    if b < pos {
                    } else if b == pos {
                    } else if a < pos {
                        assert(out@[b] == before[b - 1]);
                        if pos < before.len() {
                            assert(key_le(
                                key_for(self@[before[pos as int] as int], kind),
                                key_for(self@[before[b - 1] as int], kind),
                            ));
                        }
                    } else if a == pos {
                        assert(out@[b] == before[b - 1]);
                        assert(key_le(
                            key_for(self@[before[pos as int] as int], kind),
                            key_for(self@[before[b - 1] as int], kind),
                        ));
                    } else {
                        assert(out@[a] == before[a - 1]);
                        assert(out@[b] == before[b - 1]);
                    }
                }
                assert forall|kk: (i32, i32)| #[trigger] with_key(self@, out@, kind, kk) == with_key(
                    self@,
                    input.take(i + 1),
                    kind,
                    kk,
                ) by {
                    let p = has_key(self@, kind, kk);
                    assert(with_key(self@, before, kind, kk) == with_key(self@, input.take(i as int), kind, kk));
                    assert(input.take(i + 1).drop_last() =~= input.take(i as int));
                    assert(input.take(i + 1).last() == x);
                    lemma_filter_split(before, p, pos as int, x);
                    reveal(Seq::filter);
                    assert(seq![x].drop_last() =~= Seq::<usize>::empty());
                    assert(Seq::<usize>::empty().filter(p) =~= Seq::<usize>::empty());
                    if kk == kx {
                        assert forall|j: int| 0 <= j < before.skip(pos as int).len() implies !p(
                            #[trigger] before.skip(pos as int)[j],
                        ) by {
                            assert(before.skip(pos as int)[j] == before[pos + j]);
                            assert(key_le(
                                key_for(self@[before[pos as int] as int], kind),
                                key_for(self@[before[pos + j] as int], kind),
                            ));
                        }
                        lemma_filter_none_matching(before.skip(pos as int), p);
                        assert(seq![x].filter(p) =~= seq![x]);
                        assert(input.take(i + 1).filter(p) == input.take(i as int).filter(p).push(x));
                        assert(before.filter(p) =~= before.take(pos as int).filter(p));
                        assert(out@.filter(p) =~= before.take(pos as int).filter(p).push(x));
                        assert(with_key(self@, out@, kind, kk) =~= with_key(self@, input.take(i + 1), kind, kk));
                    } else {
                        assert(seq![x].filter(p) =~= Seq::<usize>::empty());
                        assert(input.take(i + 1).filter(p) == input.take(i as int).filter(p));
                        assert(out@.filter(p) =~= before.filter(p));
                        assert(with_key(self@, out@, kind, kk) =~= with_key(self@, input.take(i + 1), kind, kk));
                    }
                }
                assert forall|j: int| 0 <= j < out@.len() implies #[trigger] out@[j] < self@.len() by {
                    if j < pos {
                        assert(out@[j] == before[j]);
                    } else if j > pos {
                        assert(out@[j] == before[j - 1]);
                    }
                }
            }
            i = i + 1;
        }
        proof {
            assert(input.take(n as int) =~= input);
        }
        *ids = out;
    }

    /// Sorts layout children by their `order`, keeping tree order among equal orders (a
    /// stable sort).
    pub fn sort_layout_children_by_order(&self, layout_children: &mut Vec<usize>)
        requires
            ids_valid(old(layout_children)@, self@.len() as int),
        ensures
            sorted_by_order(self@, final(layout_children)@),
            forall|k: i32| #[trigger] with_order(self@, final(layout_children)@, k) == with_order(
                self@,
                old(layout_children)@,
                k,
            ),
            final(layout_children)@.len() == old(layout_children)@.len(),
    {
        let ghost input = layout_children@;
        self.sort_children_by_key(layout_children, SortKey::Order);
        proof {
            let out = layout_children@;
            assert forall|i: int, j: int| 0 <= i < j < out.len() implies order_of(self@[out[i] as int]) <= order_of(
                self@[out[j] as int],
            ) by {
                assert(key_le(key_for(self@[out[i] as int], SortKey::Order), key_for(self@[out[j] as int], SortKey::Order)));
            }
            assert forall|k: i32| #[trigger] with_order(self@, layout_children@, k) == with_order(self@, input, k) by {
                assert(has_order(self@, k) =~= has_key(self@, SortKey::Order, (0i32, k)));
                assert(with_key(self@, layout_children@, SortKey::Order, (0i32, k)) == with_key(
                    self@,
                    input,
                    SortKey::Order,
                    (0i32, k),
                ));
            }
        }
    }
}

} // verus!
