//! Numbering the items of a list: each `display: list-item` descendant reached through
//! list items gets its marker, counted in document order (or in reverse).
use vstd::prelude::*;

use crate::document::{node_wf, same_registries, BaseDocument};
use crate::list_marker::{
    is_named, lemma_same_list_style_markers, marker_content, marker_for_style, CounterStyle,
    ListItemLayout, ListItemLayoutPosition, ListStylePosition,
};
use crate::node::{
    attr_value, element_of, parse_bool, parse_usize, parsed_bool, parsed_usize, ElementData, ElementStyle, Node,
    NodeData,
};
use crate::shadow::{last_index, lemma_last_index_range};
use crate::utf8_text::same_text;

use crate::tree_links::{lemma_links_frame, links_agree, same_links};
verus! {

/// The list style of `n` when it is a list item that gets a marker: an element with
/// `display: list-item` that is not itself a list (`ol`, `ul`), whose style draws one.
pub open spec fn li_style(n: Node) -> Option<ElementStyle> {
    match element_of(n.data) {
        Some(e) => match e.style {
            Some(s) => if s.display_list_item && !(e.name.local@ == "ol"@ || e.name.local@ == "ul"@)
                && !(s.list_style_type.0 is NoneKeyword) {
                Some(s)
            } else {
                None
            },
            None => None,
        },
        None => None,
    }
}

/// Whether `n` is a list item that gets a marker.
pub open spec fn is_li(n: Node) -> bool {
    li_style(n).is_some()
}

/// Where the marker of a list item with `list-style-position: p` goes.
pub open spec fn layout_position(p: ListStylePosition) -> ListItemLayoutPosition {
    match p {
        ListStylePosition::Inside => ListItemLayoutPosition::Inside,
        ListStylePosition::Outside => ListItemLayoutPosition::Outside,
    }
}

/// Whether `l` is the marker layout of list item `n` numbered `index`.
pub open spec fn marker_ok(l: ListItemLayout, n: Node, index: int) -> bool {
    match li_style(n) {
        Some(s) => Some(l.marker.content()) == marker_content(s.list_style_type, index as nat)
            && l.position == layout_position(s.list_style_position),
        None => false,
    }
}

/// The marker of a list item goes where its `list-style-position` says: a marker layout
/// for a list item with `list-style-position: outside` is placed outside its content, and
/// one for `inside` inside.
pub proof fn law_marker_position_follows_style(l: ListItemLayout, n: Node, index: int)
    requires
        marker_ok(l, n, index),
    ensures
        li_style(n) is Some,
        li_style(n)->0.list_style_position == ListStylePosition::Outside ==> l.position
            == ListItemLayoutPosition::Outside,
        li_style(n)->0.list_style_position == ListStylePosition::Inside ==> l.position
            == ListItemLayoutPosition::Inside,
{
}

/// The number of list items among the nodes of `s`.
pub open spec fn li_count(nodes: Seq<Node>, s: Seq<usize>) -> nat
    decreases s.len(),
{
    if s.len() == 0 {
        0
    } else {
        li_count(nodes, s.drop_last()) + if 0 <= s.last() < nodes.len() && is_li(nodes[s.last() as int]) {
            1nat
        } else {
            0nat
        }
    }
}

/// `kids` in the order the walk takes them.
pub open spec fn ordered(kids: Seq<usize>, reversed: bool) -> Seq<usize> {
    if reversed {
        kids.reverse()
    } else {
        kids
    }
}

/// The nodes the numbering walk visits for the children `kids` of a node, in order (looking
/// at most `fuel` levels down).
pub open spec fn list_walk(nodes: Seq<Node>, kids: Seq<usize>, reversed: bool, fuel: nat) -> Seq<usize>
    decreases fuel, kids.len() + 1,
{
    if kids.len() == 0 {
        Seq::empty()
    } else {
        list_walk(nodes, kids.drop_last(), reversed, fuel) + child_walk(nodes, kids.last(), reversed, fuel)
    }
}

/// The nodes the numbering walk visits for child `c`: `c`, followed, when it is a list item,
/// by the walk of its own children.
pub open spec fn child_walk(nodes: Seq<Node>, c: usize, reversed: bool, fuel: nat) -> Seq<usize>
    decreases fuel, 0nat,
{
    seq![c] + if is_li(nodes[c as int]) && fuel > 0 && (c as int) < nodes.len() {
        list_walk(nodes, ordered(nodes[c as int].children@, reversed), reversed, (fuel - 1) as nat)
    } else {
        Seq::empty()
    }
}

/// Whether `b` holds the same node data as `a` but for the list item data of an element.
pub open spec fn same_but_list_item(a: NodeData, b: NodeData) -> bool {
    match (a, b) {
        (NodeData::Element(x), NodeData::Element(y)) => y == (crate::node::ElementData {
            list_item_data: y.list_item_data,
            ..x
        }),
        (NodeData::AnonymousBlock(x), NodeData::AnonymousBlock(y)) => y == (crate::node::ElementData {
            list_item_data: y.list_item_data,
            ..x
        }),
        _ => a == b,
    }
}

/// Whether `after` is node `before` once visited by the numbering walk as item `number`:
/// a list item holds its marker, another element holds none.
pub open spec fn li_outcome(before: Node, after: Node, number: int) -> bool {
    &&& after == (Node { data: after.data, ..before })
    &&& same_but_list_item(before.data, after.data)
    &&& match element_of(after.data) {
        Some(e) => if is_li(before) {
            e.list_item_data matches Some(l) && marker_ok(l, before, number)
        } else {
            e.list_item_data.is_none()
        },
        None => true,
    }
}

/// Whether `after` is `before` once the walk `walk` has numbered its list items from
/// `index0`: each visited node as its last visit left it, the others untouched.
pub open spec fn numbered(before: Seq<Node>, after: Seq<Node>, walk: Seq<usize>, index0: int) -> bool {
    &&& after.len() == before.len()
    &&& forall|m: int|
        0 <= m < before.len() ==> match last_index(walk, m as usize) {
            Some(p) => li_outcome(before[m], #[trigger] after[m], index0 + li_count(before, walk.take(p))),
            None => after[m] == before[m],
        }
}

/// Whether `a` and `b` have the same children and list items.
pub open spec fn same_list_base(a: Seq<Node>, b: Seq<Node>) -> bool {
    &&& a.len() == b.len()
    &&& forall|i: int|
        0 <= i < a.len() ==> (#[trigger] a[i]).children == b[i].children && li_style(a[i]) == li_style(b[i])
}

proof fn lemma_li_outcome_base(before: Node, after: Node, number: int)
    requires
        li_outcome(before, after, number),
    ensures
        after.children == before.children,
        li_style(after) == li_style(before),
{
}

proof fn lemma_li_outcome_chain(a: Node, b: Node, c: Node, n1: int, n2: int)
    requires
        b == a || li_outcome(a, b, n1),
        li_outcome(b, c, n2),
    ensures
        li_outcome(a, c, n2),
{
}

proof fn lemma_li_count_concat(nodes: Seq<Node>, a: Seq<usize>, b: Seq<usize>)
    ensures
        li_count(nodes, a + b) == li_count(nodes, a) + li_count(nodes, b),
    decreases b.len(),
{
    if b.len() > 0 {
        lemma_li_count_concat(nodes, a, b.drop_last());
        assert((a + b).drop_last() =~= a + b.drop_last());
    } else {
        assert(a + b =~= a);
    }
}

proof fn lemma_li_count_same_base(a: Seq<Node>, b: Seq<Node>, s: Seq<usize>)
    requires
        same_list_base(a, b),
    ensures
        li_count(a, s) == li_count(b, s),
    decreases s.len(),
{
    if s.len() > 0 {
        lemma_li_count_same_base(a, b, s.drop_last());
        if 0 <= s.last() < a.len() {
            assert(li_style(a[s.last() as int]) == li_style(b[s.last() as int]));
        }
    }
}

proof fn lemma_walk_same_base(a: Seq<Node>, b: Seq<Node>, kids: Seq<usize>, reversed: bool, fuel: nat)
    requires
        same_list_base(a, b),
    ensures
        list_walk(a, kids, reversed, fuel) == list_walk(b, kids, reversed, fuel),
    decreases fuel, kids.len() + 1,
{
    if kids.len() > 0 {
        lemma_walk_same_base(a, b, kids.drop_last(), reversed, fuel);
        lemma_child_walk_same_base(a, b, kids.last(), reversed, fuel);
    }
}

proof fn lemma_child_walk_same_base(a: Seq<Node>, b: Seq<Node>, c: usize, reversed: bool, fuel: nat)
    requires
        same_list_base(a, b),
    ensures
        child_walk(a, c, reversed, fuel) == child_walk(b, c, reversed, fuel),
    decreases fuel, 0nat,
{
    if (c as int) < a.len() {
        assert(li_style(a[c as int]) == li_style(b[c as int]));
        assert(a[c as int].children == b[c as int].children);
        if fuel > 0 {
            lemma_walk_same_base(a, b, ordered(a[c as int].children@, reversed), reversed, (fuel - 1) as nat);
        }
    }
}

proof fn lemma_last_index_concat(a: Seq<usize>, b: Seq<usize>, n: usize)
    ensures
        last_index(a + b, n) == match last_index(b, n) {
            Some(p) => Some(a.len() + p),
            None => last_index(a, n),
        },
    decreases b.len(),
{
    if b.len() > 0 {
        assert((a + b).drop_last() =~= a + b.drop_last());
        if b.last() != n {
            lemma_last_index_concat(a, b.drop_last(), n);
        }
    } else {
        assert(a + b =~= a);
    }
}

proof fn lemma_walk_prefix_count(nodes: Seq<Node>, kids: Seq<usize>, m: int, reversed: bool, fuel: nat)
    requires
        0 <= m <= kids.len(),
    ensures
        li_count(nodes, list_walk(nodes, kids.take(m), reversed, fuel)) <= li_count(
            nodes,
            list_walk(nodes, kids, reversed, fuel),
        ),
    decreases kids.len() - m,
{
    if m < kids.len() {
        lemma_walk_prefix_count(nodes, kids, m + 1, reversed, fuel);
        let t = kids.take(m + 1);
        assert(t.drop_last() =~= kids.take(m));
        lemma_li_count_concat(nodes, list_walk(nodes, kids.take(m), reversed, fuel), child_walk(nodes, t.last(), reversed, fuel));
    } else {
        assert(kids.take(m) =~= kids);
    }
}

proof fn lemma_numbered_base(before: Seq<Node>, after: Seq<Node>, walk: Seq<usize>, index0: int)
    requires
        numbered(before, after, walk, index0),
    ensures
        same_list_base(after, before),
{
    assert forall|m: int| 0 <= m < after.len() implies (#[trigger] after[m]).children == before[m].children
        && li_style(after[m]) == li_style(before[m]) by {
        match last_index(walk, m as usize) {
            Some(p) => lemma_li_outcome_base(before[m], after[m], index0 + li_count(before, walk.take(p))),
            None => {},
        }
    }
}

proof fn lemma_numbered_compose(
    s0: Seq<Node>,
    s1: Seq<Node>,
    s2: Seq<Node>,
    w1: Seq<usize>,
    w2: Seq<usize>,
    index0: int,
)
    requires
        numbered(s0, s1, w1, index0),
        numbered(s1, s2, w2, index0 + li_count(s0, w1)),
        s0.len() <= usize::MAX,
    ensures
        numbered(s0, s2, w1 + w2, index0),
{
    lemma_numbered_base(s0, s1, w1, index0);
    assert forall|m: int| 0 <= m < s0.len() implies match last_index(w1 + w2, m as usize) {
        Some(p) => li_outcome(s0[m], #[trigger] s2[m], index0 + li_count(s0, (w1 + w2).take(p))),
        None => s2[m] == s0[m],
    } by {
        lemma_last_index_concat(w1, w2, m as usize);
        match last_index(w2, m as usize) {
            Some(q) => {
                lemma_last_index_range(w2, m as usize);
                assert((w1 + w2).take(w1.len() + q) =~= w1 + w2.take(q));
                lemma_li_count_concat(s0, w1, w2.take(q));
                lemma_li_count_same_base(s1, s0, w2.take(q));
                let n2 = index0 + li_count(s0, (w1 + w2).take(w1.len() + q));
                match last_index(w1, m as usize) {
                    Some(p) => lemma_li_outcome_chain(s0[m], s1[m], s2[m], index0 + li_count(s0, w1.take(p)), n2),
                    None => lemma_li_outcome_chain(s0[m], s1[m], s2[m], 0, n2),
                }
            },
            None => {
                match last_index(w1, m as usize) {
                    Some(p) => {
                        lemma_last_index_range(w1, m as usize);
                        assert((w1 + w2).take(p) =~= w1.take(p));
                    },
                    None => {},
                }
            },
        }
    }
}

fn reversed_copy(v: &Vec<usize>) -> (r: Vec<usize>)
    ensures
        r@ == v@.reverse(),
{
    let n = v.len();
    let mut r: Vec<usize> = Vec::new();
    let mut k: usize = 0;
    while k < n
        invariant
            n == v@.len(),
            k <= n,
            r@.len() == k,
            forall|i: int| 0 <= i < k ==> r@[i] == v@[n - 1 - i],
        decreases n - k,
    {
        r.push(v[n - 1 - k]);
        k = k + 1;
    }
    assert(r@ =~= v@.reverse());
    r
}

/// The first index and direction of the numbering of list `e`: an `ol` counts from its
/// `start` attribute (one less, as the index is 0-based; 0 without one) and runs backwards
/// when its `reversed` attribute is `true`; any other list counts from 1, forwards.
pub open spec fn numbering_of(e: ElementData) -> (usize, bool) {
    if e.name.local@ == "ol"@ {
        let start = match attr_value(e.attrs.items(), "start"@) {
            Some(v) => match parsed_usize(v) {
                Some(n) => (n - 1) as usize,
                None => 0,
            },
            None => 0,
        };
        let reversed = match attr_value(e.attrs.items(), "reversed"@) {
            Some(v) => parsed_bool(v) == Some(true),
            None => false,
        };
        (start, reversed)
    } else {
        (1, false)
    }
}

/// The first index and direction of the numbering of list `e` (see `numbering_of`).
pub fn list_numbering(e: &ElementData) -> (r: (usize, bool))
    requires
        numbering_defined(*e),
    ensures
        r == numbering_of(*e),
{
    if same_text(e.name.local.as_str(), "ol") {
        let start = match e.attr("start") {
            Some(v) => match parse_usize(v.as_str()) {
                Some(n) => n - 1,
                None => 0,
            },
            None => 0,
        };
        let reversed = match e.attr("reversed") {
            Some(v) => match parse_bool(v.as_str()) {
                Some(b) => b,
                None => false,
            },
            None => false,
        };
        (start, reversed)
    } else {
        (1, false)
    }
}

/// Whether `start="0"` on an `ol`, which has no 0-based index before it, is ruled out.
pub open spec fn numbering_defined(e: ElementData) -> bool {
    e.name.local@ == "ol"@ ==> match attr_value(e.attrs.items(), "start"@) {
        Some(v) => parsed_usize(v) != Some(0usize),
        None => true,
    }
}

/// The numbering of list `e`, or `None` for an `ol` whose `start` is 0.
pub fn try_list_numbering(e: &ElementData) -> (r: Option<(usize, bool)>)
    ensures
        numbering_defined(*e) ==> r == Some(numbering_of(*e)),
        !numbering_defined(*e) ==> r.is_none(),
{
    if same_text(e.name.local.as_str(), "ol") {
        match e.attr("start") {
            Some(v) => {
                match parse_usize(v.as_str()) {
                    Some(n) => {
                        if n == 0 {
                            return None;
                        }
                    },
                    None => {},
                }
            },
            None => {},
        }
    }
    Some(list_numbering(e))
}

impl BaseDocument {
    /// The marker layout of node `child_id` as list item number `index`, when it is a list
    /// item that gets a marker.
    pub fn node_list_item_child(&self, child_id: usize, index: usize) -> (r: Option<ListItemLayout>)
        requires
            child_id < self@.len(),
            li_style(self@[child_id as int]) matches Some(s) && is_named(s.list_style_type, "decimal"@)
                ==> index < usize::MAX,
        ensures
            match li_style(self@[child_id as int]) {
                Some(_) => r matches Some(l) && marker_ok(l, self@[child_id as int], index as int),
                None => r.is_none(),
            },
    {
        let e = match self.nodes[child_id].data.downcast_element() {
            Some(e) => e,
            None => {
                return None;
            },
        };
        let s = match &e.style {
            Some(s) => s,
            None => {
                return None;
            },
        };
        if !s.display_list_item {
            return None;
        }
        let local = e.name.local.as_str();
        if same_text(local, "ol") || same_text(local, "ul") {
            return None;
        }
        let style = s.list_style_type.duplicate();
        proof {
            lemma_same_list_style_markers(style, s.list_style_type, index as nat);
        }
        let marker = match marker_for_style(style, index) {
            Some(m) => m,
            None => {
                return None;
            },
        };
        let position = match s.list_style_position {
            ListStylePosition::Inside => ListItemLayoutPosition::Inside,
            ListStylePosition::Outside => ListItemLayoutPosition::Outside,
        };
        Some(ListItemLayout { marker, position })
    }

    fn set_list_item(&mut self, id: usize, v: Option<ListItemLayout>)
        requires
            old(self).wf(),
            id < old(self)@.len(),
        ensures
            final(self).wf(),
            same_registries(*old(self), *final(self)),
            final(self)@.len() == old(self)@.len(),
            forall|i: int| 0 <= i < old(self)@.len() && i != id ==> #[trigger] final(self)@[i] == old(self)@[i],
            final(self)@[id as int] == (Node { data: final(self)@[id as int].data, ..old(self)@[id as int] }),
            same_but_list_item(old(self)@[id as int].data, final(self)@[id as int].data),
            match element_of(final(self)@[id as int].data) {
                Some(e) => e.list_item_data == v,
                None => true,
            },
    {
        let ghost start = self@;
        let mut d = NodeData::Document;
        std::mem::swap(&mut self.nodes[id].data, &mut d);
        match &mut d {
            NodeData::Element(e) => {
                e.list_item_data = v;
            },
            NodeData::AnonymousBlock(e) => {
                e.list_item_data = v;
            },
            _ => {},
        }
        std::mem::swap(&mut self.nodes[id].data, &mut d);
        proof {
            let len = self@.len() as int;
            assert forall|i: int| 0 <= i < len implies node_wf(#[trigger] self@[i], i, len) by {
                assert(node_wf(start[i], i, len));
            }
        }
    }

    fn visit_list_child(&mut self, index: &mut usize, reversed: bool, c: usize, fuel: usize)
        requires
            old(self).wf(),
            c < old(self)@.len(),
            *old(index) + li_count(old(self)@, child_walk(old(self)@, c, reversed, fuel as nat)) <= usize::MAX,
        ensures
            final(self).wf(),
            same_registries(*old(self), *final(self)),
            *final(index) == *old(index) + li_count(old(self)@, child_walk(old(self)@, c, reversed, fuel as nat)),
            numbered(old(self)@, final(self)@, child_walk(old(self)@, c, reversed, fuel as nat), *old(index) as int),
        decreases fuel, 0nat,
    {
        let ghost s0 = self@;
        let ghost number = *index as int;
        let len = self.nodes.len();
        let ghost sub = if is_li(s0[c as int]) && fuel > 0 {
            list_walk(s0, ordered(s0[c as int].children@, reversed), reversed, (fuel - 1) as nat)
        } else {
            Seq::empty()
        };
        proof {
            assert(child_walk(s0, c, reversed, fuel as nat) == seq![c] + sub);
            lemma_li_count_concat(s0, seq![c], sub);
            assert(seq![c].drop_last() =~= Seq::<usize>::empty());
            assert(li_count(s0, Seq::<usize>::empty()) == 0);
            assert(li_count(s0, seq![c]) == if is_li(s0[c as int]) { 1nat } else { 0nat });
        }
        let layout = self.node_list_item_child(c, *index);
        let found = layout.is_some();
        self.set_list_item(c, layout);
        if found {
            *index = *index + 1;
        }
        let ghost s1 = self@;
        proof {
            assert(li_outcome(s0[c as int], s1[c as int], number));
            assert forall|m: int| 0 <= m < len implies match last_index(seq![c], m as usize) {
                Some(p) => li_outcome(s0[m], #[trigger] s1[m], number + li_count(s0, seq![c].take(p))),
                None => s1[m] == s0[m],
            } by {
                assert(last_index(Seq::<usize>::empty(), m as usize) is None);
                assert((m as usize) as int == m);
                if m == c {
                    assert(seq![c].take(0) =~= Seq::<usize>::empty());
                }
            }
            assert(numbered(s0, s1, seq![c], number));
        }
        if found && fuel > 0 {
            proof {
                lemma_numbered_base(s0, s1, seq![c], number);
                lemma_walk_same_base(s1, s0, ordered(s0[c as int].children@, reversed), reversed, (fuel - 1) as nat);
                lemma_li_count_same_base(s1, s0, sub);
                assert(s1[c as int].children == s0[c as int].children);
            }
            self.collect_list_items(index, reversed, c, fuel - 1);
            proof {
                lemma_numbered_compose(s0, s1, self@, seq![c], sub, number);
            }
        } else {
            proof {
                assert(sub =~= Seq::<usize>::empty());
                assert(seq![c] + sub =~= seq![c]);
            }
        }
    }

    fn collect_list_items(&mut self, index: &mut usize, reversed: bool, node_id: usize, fuel: usize)
        requires
            old(self).wf(),
            node_id < old(self)@.len(),
            *old(index) + li_count(
                old(self)@,
                list_walk(old(self)@, ordered(old(self)@[node_id as int].children@, reversed), reversed, fuel as nat),
            ) <= usize::MAX,
        ensures
            final(self).wf(),
            same_registries(*old(self), *final(self)),
            *final(index) == *old(index) + li_count(
                old(self)@,
                list_walk(old(self)@, ordered(old(self)@[node_id as int].children@, reversed), reversed, fuel as nat),
            ),
            numbered(
                old(self)@,
                final(self)@,
                list_walk(old(self)@, ordered(old(self)@[node_id as int].children@, reversed), reversed, fuel as nat),
                *old(index) as int,
            ),
        decreases fuel, 1nat,
    {
        let ghost start = self@;
        let ghost index0 = *index as int;
        let len = self.nodes.len();
        proof {
            assert(node_wf(start[node_id as int], node_id as int, len as int));
        }
        let children = self.child_ids(node_id);
        let kids = if reversed {
            reversed_copy(&children)
        } else {
            children
        };
        let ghost total = list_walk(start, kids@, reversed, fuel as nat);
        let n = kids.len();
        let mut k: usize = 0;
        proof {
            assert(kids@.take(0) =~= Seq::<usize>::empty());
            assert(kids@ == ordered(start[node_id as int].children@, reversed));
            assert forall|x: int| 0 <= x < kids@.len() implies #[trigger] kids@[x] < len by {
                let ch = start[node_id as int].children@;
                if reversed {
                    assert(kids@[x] == ch[ch.len() - 1 - x]);
                }
            }
            assert forall|m: int| 0 <= m < len implies match last_index(Seq::<usize>::empty(), m as usize) {
                Some(p) => li_outcome(start[m], #[trigger] self@[m], index0 + li_count(start, Seq::<usize>::empty().take(p))),
                None => self@[m] == start[m],
            } by {
            }
        }
        while k < n
            invariant
                self.wf(),
                same_registries(*old(self), *self),
                start == old(self)@,
                self@.len() == len,
                len == start.len(),
                n == kids@.len(),
                k <= n,
                forall|x: int| 0 <= x < kids@.len() ==> #[trigger] kids@[x] < len,
                total == list_walk(start, kids@, reversed, fuel as nat),
                index0 + li_count(start, total) <= usize::MAX,
                *index == index0 + li_count(start, list_walk(start, kids@.take(k as int), reversed, fuel as nat)),
                numbered(start, self@, list_walk(start, kids@.take(k as int), reversed, fuel as nat), index0),
            decreases n - k,
        {
            let c = kids[k];
            let ghost walked = list_walk(start, kids@.take(k as int), reversed, fuel as nat);
            let ghost s0 = self@;
            proof {
                assert(kids@.take(k + 1).drop_last() =~= kids@.take(k as int));
                assert(kids@.take(k + 1).last() == c);
                lemma_walk_prefix_count(start, kids@, k + 1, reversed, fuel as nat);
                lemma_li_count_concat(start, walked, child_walk(start, c, reversed, fuel as nat));
                lemma_numbered_base(start, s0, walked, index0);
                lemma_child_walk_same_base(s0, start, c, reversed, fuel as nat);
                lemma_li_count_same_base(s0, start, child_walk(start, c, reversed, fuel as nat));
                assert(kids@[k as int] == c);
            }
            self.visit_list_child(index, reversed, c, fuel);
            proof {
                lemma_numbered_compose(start, s0, self@, walked, child_walk(start, c, reversed, fuel as nat), index0);
            }
            k = k + 1;
        }
        proof {
            assert(kids@.take(n as int) =~= kids@);
        }
    }

    /// Numbers the list items among the children of `node_id` (and, through list items,
    /// their descendants) starting at `index`, in order or in reverse: each gets the marker
    /// for its number, other elements lose theirs, and `index` ends past the last number.
    /// Looks at most as many levels down as there are nodes.
    pub fn collect_list_item_children(&mut self, index: &mut usize, reversed: bool, node_id: usize)
        requires
            old(self).wf(),
            node_id < old(self)@.len(),
            *old(index) + li_count(
                old(self)@,
                list_walk(
                    old(self)@,
                    ordered(old(self)@[node_id as int].children@, reversed),
                    reversed,
                    old(self)@.len() as nat,
                ),
            ) <= usize::MAX,
        ensures
            final(self).wf(),
            same_registries(*old(self), *final(self)),
            *final(index) == *old(index) + li_count(
                old(self)@,
                list_walk(
                    old(self)@,
                    ordered(old(self)@[node_id as int].children@, reversed),
                    reversed,
                    old(self)@.len() as nat,
                ),
            ),
            numbered(
                old(self)@,
                final(self)@,
                list_walk(
                    old(self)@,
                    ordered(old(self)@[node_id as int].children@, reversed),
                    reversed,
                    old(self)@.len() as nat,
                ),
                *old(index) as int,
            ),
            links_agree(old(self)@) ==> links_agree(final(self)@),
    {
        self.collect_list_item_children_steps(index, reversed, node_id);
        proof {
            if links_agree(old(self)@) {
                assert forall|i: int| 0 <= i < old(self)@.len() implies same_links(#[trigger] old(self)@[i], self@[i]) by {
                    assert(crate::flags::is_flag_bit(crate::flags::IS_SHADOW_ROOT));
                }
                lemma_links_frame(old(self)@, self@);
            }
        }
    }

    /// The steps of `collect_list_item_children`.
    fn collect_list_item_children_steps(&mut self, index: &mut usize, reversed: bool, node_id: usize)
        requires
            old(self).wf(),
            node_id < old(self)@.len(),
            *old(index) + li_count(
                old(self)@,
                list_walk(
                    old(self)@,
                    ordered(old(self)@[node_id as int].children@, reversed),
                    reversed,
                    old(self)@.len() as nat,
                ),
            ) <= usize::MAX,
        ensures
            final(self).wf(),
            same_registries(*old(self), *final(self)),
            *final(index) == *old(index) + li_count(
                old(self)@,
                list_walk(
                    old(self)@,
                    ordered(old(self)@[node_id as int].children@, reversed),
                    reversed,
                    old(self)@.len() as nat,
                ),
            ),
            numbered(
                old(self)@,
                final(self)@,
                list_walk(
                    old(self)@,
                    ordered(old(self)@[node_id as int].children@, reversed),
                    reversed,
                    old(self)@.len() as nat,
                ),
                *old(index) as int,
            ),
    {
        let len = self.nodes.len();
        self.collect_list_items(index, reversed, node_id, len);
    }
}

} // verus!
