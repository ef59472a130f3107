//! Walks up the layout tree: to the root of the inline formatting context a node lies in,
//! and to a node's offset parent; and down the DOM tree, to tell whether a node is or holds
//! a block-level box in flow.
use vstd::prelude::*;

use crate::document::{node_wf, BaseDocument};
use crate::flags::IS_INLINE_ROOT;
use crate::node::{element_of, DisplayInside, DisplayOutside, ElementStyle, Float, Node, Position};

verus! {

/// The first node satisfying `pred` on the layout-parent chain from `cur` (itself
/// included): `Some(Some(x))` when `x` is found, `Some(None)` when the chain ends first,
/// and `None` when `fuel` steps do not settle it (a chain that loops).
pub open spec fn first_up(nodes: Seq<Node>, cur: Option<usize>, pred: spec_fn(Node) -> bool, fuel: nat) -> Option<Option<usize>>
    decreases fuel,
{
    match cur {
        None => Some(None),
        Some(i) => if i >= nodes.len() {
            Some(None)
        } else if fuel == 0 {
            None
        } else if pred(nodes[i as int]) {
            Some(Some(i))
        } else {
            first_up(nodes, nodes[i as int].layout_parent, pred, (fuel - 1) as nat)
        },
    }
}

/// Whether `n` roots an inline formatting context.
pub open spec fn is_inline_root_node(n: Node) -> bool {
    n.flags.has(IS_INLINE_ROOT)
}

/// Whether `n` is an offset parent: a styled element that is positioned, or a `body`,
/// `td` or `th` element.
pub open spec fn is_offset_parent_node(n: Node) -> bool {
    match element_of(n.data) {
        Some(e) => match e.style {
            Some(s) => !(s.position is Static) || e.name.local@ == "body"@ || e.name.local@ == "td"@
                || e.name.local@ == "th"@,
            None => false,
        },
        None => false,
    }
}

/// The nodes that root an inline formatting context.
pub open spec fn inline_roots() -> spec_fn(Node) -> bool {
    |n: Node| is_inline_root_node(n)
}

/// The offset parents.
pub open spec fn offset_parents() -> spec_fn(Node) -> bool {
    |n: Node| is_offset_parent_node(n)
}

/// The computed style of node `n`, where it has one.
pub open spec fn style_of(n: Node) -> Option<ElementStyle> {
    match element_of(n.data) {
        Some(e) => e.style,
        None => None,
    }
}

/// Whether a node with style `s` is laid out in flow: positioned statically, relatively
/// or sticky (an unstyled node counts as relatively positioned), and not floated.
pub open spec fn in_flow_style(s: Option<ElementStyle>) -> bool {
    match s {
        Some(st) => (st.position is Static || st.position is Relative || st.position is Sticky)
            && st.float is NoFloat,
        None => true,
    }
}

/// The outer display type for style `s` (an unstyled node is inline).
pub open spec fn outside_of(s: Option<ElementStyle>) -> DisplayOutside {
    match s {
        Some(st) => st.display_outside,
        None => DisplayOutside::Inline,
    }
}

/// The inner display type for style `s` (an unstyled node is laid out as flow).
pub open spec fn inside_of(s: Option<ElementStyle>) -> DisplayInside {
    match s {
        Some(st) => st.display_inside,
        None => DisplayInside::Flow,
    }
}

/// Whether node `id` is a block-level box in flow, or an inline flow box in flow that
/// holds one among its children (looking at most `fuel` levels down). Out-of-flow and
/// floated boxes, and boxes with `display: none`, never count.
pub open spec fn or_contains_block(nodes: Seq<Node>, id: int, fuel: nat) -> bool
    decreases fuel, 0nat,
{
    if !(0 <= id < nodes.len()) {
        false
    } else {
        let s = style_of(nodes[id]);
        if !in_flow_style(s) {
            false
        } else {
            match outside_of(s) {
                DisplayOutside::NoBox => false,
                DisplayOutside::Block => true,
                _ => inside_of(s) is Flow && fuel > 0 && any_contains_block(
                    nodes,
                    nodes[id].children@,
                    (fuel - 1) as nat,
                ),
            }
        }
    }
}

/// Whether `or_contains_block` holds of one of `roots`.
pub open spec fn any_contains_block(nodes: Seq<Node>, roots: Seq<usize>, fuel: nat) -> bool
    decreases fuel, roots.len() + 1,
{
    if roots.len() == 0 {
        false
    } else {
        any_contains_block(nodes, roots.drop_last(), fuel) || or_contains_block(nodes, roots.last() as int, fuel)
    }
}

/// A block found among the first subtrees of a list is found in a longer list.
proof fn lemma_any_prefix(nodes: Seq<Node>, roots: Seq<usize>, fuel: nat, k: int, j: int)
    requires
        0 <= k <= j <= roots.len(),
        any_contains_block(nodes, roots.take(k), fuel),
    ensures
        any_contains_block(nodes, roots.take(j), fuel),
    decreases j - k,
{
    if j > k {
        lemma_any_prefix(nodes, roots, fuel, k, j - 1);
        assert(roots.take(j).drop_last() =~= roots.take(j - 1));
    }
}

/// What a walk up the layout tree looks for.
enum UpTarget {
    InlineRoot,
    OffsetParent,
}

/// The predicate for `target`.
spec fn target_pred(target: UpTarget) -> spec_fn(Node) -> bool {
    match target {
        UpTarget::InlineRoot => inline_roots(),
        UpTarget::OffsetParent => offset_parents(),
    }
}

/// Whether `n` is a `body` element that is not positioned.
pub open spec fn is_static_body_node(n: Node) -> bool {
    element_of(n.data) matches Some(e) && e.name.local@ == "body"@ && (e.style matches Some(s) && s.position is Static)
}

impl Node {
    /// Whether this node is an offset parent (see `is_offset_parent_node`).
    pub fn is_offset_parent(&self) -> (r: bool)
        ensures
            r == is_offset_parent_node(*self),
    {
        match self.element_data() {
            Some(e) => match &e.style {
                Some(s) => {
                    let positioned = match s.position {
                        Position::Static => false,
                        _ => true,
                    };
                    positioned || self.data.is_element_with_tag_name("body") || self.data.is_element_with_tag_name("td")
                        || self.data.is_element_with_tag_name("th")
                },
                None => false,
            },
            None => false,
        }
    }

    /// Whether this node is a `body` element that is not positioned: offsets measured
    /// against it are taken from the initial containing block instead.
    pub fn is_static_body(&self) -> (r: bool)
        ensures
            r == is_static_body_node(*self),
    {
        self.data.is_element_with_tag_name("body") && match self.element_data() {
            Some(e) => match &e.style {
                Some(s) => match s.position {
                    Position::Static => true,
                    _ => false,
                },
                None => false,
            },
            None => false,
        }
    }
}

impl BaseDocument {
    /// The computed style of node `id`, where it has one.
    fn node_style(&self, id: usize) -> (r: Option<&ElementStyle>)
        requires
            id < self@.len(),
        ensures
            match style_of(self@[id as int]) {
                Some(st) => r == Some(&st),
                None => r.is_none(),
            },
    {
        match self.nodes[id].element_data() {
            Some(e) => match &e.style {
                Some(st) => Some(st),
                None => None,
            },
            None => None,
        }
    }

    /// Whether node `id` is a block-level box in flow or an inline flow box in flow that
    /// holds one (see `or_contains_block`), looking at most `fuel` levels down.
    fn contains_block_within(&self, id: usize, fuel: usize) -> (r: bool)
        requires
            self.wf(),
            id < self@.len(),
        ensures
            r == or_contains_block(self@, id as int, fuel as nat),
        decreases fuel,
    {
        let s = self.node_style(id);
        let (in_flow, outside, inside) = match s {
            Some(st) => {
                let positioned_in_flow = match st.position {
                    Position::Static | Position::Relative | Position::Sticky => true,
                    _ => false,
                };
                let floating = match st.float {
                    Float::NoFloat => false,
                    _ => true,
                };
                (positioned_in_flow && !floating, st.display_outside, st.display_inside)
            },
            None => (true, DisplayOutside::Inline, DisplayInside::Flow),
        };
        if !in_flow {
            return false;
        }
        match outside {
            DisplayOutside::NoBox => false,
            DisplayOutside::Block => true,
            _ => {
                let is_flow = match inside {
                    DisplayInside::Flow => true,
                    _ => false,
                };
                if !is_flow || fuel == 0 {
                    return false;
                }
                proof {
                    assert(node_wf(self@[id as int], id as int, self@.len() as int));
                }
                let n = self.nodes[id].children.len();
                let ghost kids = self@[id as int].children@;
                let ghost f = (fuel - 1) as nat;
                let mut k: usize = 0;
                while k < n
                    invariant
                        self.wf(),
                        id < self@.len(),
                        fuel > 0,
                        f == fuel - 1,
                        kids == self@[id as int].children@,
                        n == kids.len(),
                        k <= n,
                        !any_contains_block(self@, kids.take(k as int), f),
                        in_flow_style(style_of(self@[id as int])),
                        inside_of(style_of(self@[id as int])) is Flow,
                        !(outside_of(style_of(self@[id as int])) is NoBox),
                        !(outside_of(style_of(self@[id as int])) is Block),
                    decreases n - k,
                {
                    let c = self.nodes[id].children[k];
                    proof {
                        assert(node_wf(self@[id as int], id as int, self@.len() as int));
                        assert(kids.take(k + 1).drop_last() =~= kids.take(k as int));
                        assert(kids.take(k + 1).last() == c);
                    }
                    if self.contains_block_within(c, fuel - 1) {
                        proof {
                            assert(any_contains_block(self@, kids.take(k + 1), f));
                            lemma_any_prefix(self@, kids, f, k + 1, n as int);
                            assert(kids.take(n as int) =~= kids);
                            assert(any_contains_block(self@, kids, f));
                        }
                        return true;
                    }
                    k = k + 1;
                }
                proof {
                    assert(kids.take(n as int) =~= kids);
                }
                false
            },
        }
    }

    /// Whether node `id` is a block-level box in flow, or an inline flow box in flow that
    /// holds one among its descendants (see `or_contains_block`): such a node breaks the
    /// inline content around it into anonymous blocks.
    pub fn is_or_contains_block(&self, id: usize) -> (r: bool)
        requires
            self.wf(),
            id < self@.len(),
        ensures
            r == or_contains_block(self@, id as int, self@.len() as nat),
    {
        self.contains_block_within(id, self.nodes.len())
    }

    /// The first node on the layout-parent chain from `cur` (itself included) that is what
    /// `target` looks for (see `first_up`).
    fn first_up_exec(&self, cur: Option<usize>, target: UpTarget, fuel: usize) -> (r: Option<Option<usize>>)
        requires
            self.wf(),
        ensures
            r == first_up(self@, cur, target_pred(target), fuel as nat),
        decreases fuel,
    {
        let ghost pred = target_pred(target);
        match cur {
            None => Some(None),
            Some(i) => {
                if i >= self.nodes.len() {
                    return Some(None);
                }
                if fuel == 0 {
                    return None;
                }
                let node = &self.nodes[i];
                let hit = match target {
                    UpTarget::InlineRoot => node.flags.is_inline_root(),
                    UpTarget::OffsetParent => node.is_offset_parent(),
                };
                proof {
                    assert(hit == pred(self@[i as int]));
                }
                if hit {
                    Some(Some(i))
                } else {
                    self.first_up_exec(node.layout_parent, target, fuel - 1)
                }
            },
        }
    }

    /// The root of the inline formatting context node `id` lies in: the first node from
    /// `id` up its layout parents that is an inline root. The chain must not loop without
    /// reaching one.
    pub fn inline_root_ancestor(&self, id: usize) -> (r: Option<usize>)
        requires
            self.wf(),
            id < self@.len(),
            first_up(self@, Some(id), inline_roots(), self@.len() as nat) is Some,
        ensures
            r == first_up(self@, Some(id), inline_roots(), self@.len() as nat)->0,
    {
        match self.first_up_exec(Some(id), UpTarget::InlineRoot, self.nodes.len()) {
            Some(r) => r,
            None => None,
        }
    }

    /// The offset parent of node `id`: the nearest layout ancestor that is an offset parent
    /// (see `is_offset_parent_node`). The chain must not loop without reaching one.
    pub fn offset_parent(&self, id: usize) -> (r: Option<usize>)
        requires
            self.wf(),
            id < self@.len(),
            first_up(self@, self@[id as int].layout_parent, offset_parents(), self@.len() as nat) is Some,
        ensures
            r == first_up(self@, self@[id as int].layout_parent, offset_parents(), self@.len() as nat)->0,
    {
        match self.first_up_exec(self.nodes[id].layout_parent, UpTarget::OffsetParent, self.nodes.len()) {
            Some(r) => r,
            None => None,
        }
    }
}

} // verus!
