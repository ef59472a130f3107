//! The content of an inline formatting context, in document order: the boxes embedded in
//! it (laid out as boxes of their own), and the commands that build its text layout.
use vstd::prelude::*;

use crate::document::{node_wf, same_registries, BaseDocument};
use crate::layout_tree::{inside_of, outside_of, style_of};
use crate::list_marker::ListItemLayoutPosition;
use crate::node::{
    attr_value, element_of, DisplayInside, DisplayOutside, ElementData, ElementStyle, Float, Node,
    NodeData, Position, WhiteSpaceCollapse,
};
use crate::utf8_text::same_text;

use crate::tree_links::{lemma_links_frame, links_agree, same_links};
verus! {

/// How an inline box takes part in the flow of the text around it.
#[derive(Clone, Copy, Debug, PartialEq, Eq, Structural)]
pub enum InlineBoxKind {
    /// Laid out in the line, like a character.
    InFlow,
    /// Absolutely positioned: out of the flow.
    OutOfFlow,
    /// Floated: out of the flow, placed by the inline layout itself.
    CustomOutOfFlow,
}

/// A step in building the text layout of an inline formatting context.
#[derive(Clone, Copy, Debug, PartialEq, Eq, Structural)]
pub enum InlineCommand {
    /// Sets how white space in the text that follows is collapsed.
    SetWhiteSpace(WhiteSpaceCollapse),
    /// Adds the list marker of the root (a list item with its marker inside).
    PushMarker,
    /// Adds the text of the text node with this id.
    PushText(usize),
    /// Adds an inline box for the node with this id.
    PushInlineBox { id: usize, kind: InlineBoxKind },
    /// Opens a span styled as the node with this id.
    PushStyleSpan(usize),
    /// Opens a span with no style changes.
    PushEmptySpan,
    /// Adds a line feed.
    PushNewline,
    /// Closes the latest open span.
    PopStyleSpan,
}

/// The id held by `o`, as a sequence of at most one id.
pub open spec fn opt_seq(o: Option<usize>) -> Seq<usize> {
    match o {
        Some(x) => seq![x],
        None => Seq::empty(),
    }
}

/// The nodes laid out inside `n`, in order: its `::before` pseudo-element, its children,
/// and its `::after` pseudo-element.
pub open spec fn layout_items(n: Node) -> Seq<usize> {
    opt_seq(n.before) + n.children@ + opt_seq(n.after)
}

/// Whether `e` is an `<input type=hidden>`, which takes no part in layout.
pub open spec fn is_hidden_input(e: ElementData) -> bool {
    e.name.local@ == "input"@ && attr_value(e.attrs.items(), "type"@) == Some("hidden"@)
}

/// Whether an inline element with local name `tag` is laid out as one box in the line.
pub open spec fn atomic_inline_tag(tag: Seq<char>) -> bool {
    tag == "img"@ || tag == "svg"@ || tag == "input"@ || tag == "textarea"@ || tag == "button"@
}

/// The kind of inline box for an element with style `s`: out of flow when absolutely
/// positioned, custom out of flow when floated, else in flow.
pub open spec fn box_kind_of(s: Option<ElementStyle>) -> InlineBoxKind {
    match s {
        Some(st) => if st.position is Absolute || st.position is Fixed {
            InlineBoxKind::OutOfFlow
        } else if !(st.float is NoFloat) {
            InlineBoxKind::CustomOutOfFlow
        } else {
            InlineBoxKind::InFlow
        },
        None => InlineBoxKind::InFlow,
    }
}

/// The boxes embedded in the inline content of node `id`, in order, looking at most `fuel`
/// levels down: an element shown as `display: contents` gives those of its children; an
/// inline flow element gives itself when it is one box in the line (`img`, `svg`, `input`,
/// `textarea`, `button`), nothing when it is a `br`, and otherwise those of its
/// pseudo-elements and children; any other displayed element is a box. Text, comments,
/// hidden inputs and `display: none` give nothing.
pub open spec fn node_boxes(nodes: Seq<Node>, id: int, fuel: nat) -> Seq<usize>
    decreases fuel, 0nat,
{
    if !(0 <= id < nodes.len()) {
        Seq::empty()
    } else {
        let n = nodes[id];
        match element_of(n.data) {
            None => Seq::empty(),
            Some(e) => if is_hidden_input(e) {
                Seq::empty()
            } else {
                let s = style_of(n);
                match (outside_of(s), inside_of(s)) {
                    (DisplayOutside::NoBox, DisplayInside::NoBox) => Seq::empty(),
                    (DisplayOutside::NoBox, DisplayInside::Contents) => if fuel == 0 {
                        Seq::empty()
                    } else {
                        list_boxes(nodes, n.children@, (fuel - 1) as nat)
                    },
                    (DisplayOutside::Inline, DisplayInside::Flow) => if atomic_inline_tag(e.name.local@) {
                        seq![id as usize]
                    } else if e.name.local@ == "br"@ || fuel == 0 {
                        Seq::empty()
                    } else {
                        list_boxes(nodes, layout_items(n), (fuel - 1) as nat)
                    },
                    _ => seq![id as usize],
                }
            },
        }
    }
}

/// The boxes of `node_boxes` for each of `ids`, in order.
pub open spec fn list_boxes(nodes: Seq<Node>, ids: Seq<usize>, fuel: nat) -> Seq<usize>
    decreases fuel, ids.len() + 1,
{
    if ids.len() == 0 {
        Seq::empty()
    } else {
        list_boxes(nodes, ids.drop_last(), fuel) + node_boxes(nodes, ids.last() as int, fuel)
    }
}

/// The boxes embedded in the inline formatting context rooted at `root`: those of its
/// pseudo-elements and children.
pub open spec fn embedded_boxes(nodes: Seq<Node>, root: int) -> Seq<usize> {
    list_boxes(nodes, layout_items(nodes[root]), nodes.len() as nat)
}

/// The commands for node `id` of an inline formatting context whose enclosing white-space
/// mode is `mode`, looking at most `fuel` levels down. Each node first sets its own
/// white-space mode (its style's, or `mode` when unstyled). Then: a text node adds its
/// text; a hidden input or `display: none` adds nothing; `display: contents` adds its
/// children; an inline flow element adds an inline box when it is one box in the line, a
/// line feed in an empty span with white space kept when it is a `br`, and otherwise its
/// pseudo-elements and children inside a span of its style; any other displayed element
/// adds an inline box of the kind its position and float give.
pub open spec fn node_commands(nodes: Seq<Node>, id: int, mode: WhiteSpaceCollapse, fuel: nat) -> Seq<
    InlineCommand,
>
    decreases fuel, 0nat,
{
    if !(0 <= id < nodes.len()) {
        Seq::empty()
    } else {
        let n = nodes[id];
        let s = style_of(n);
        let m = match s {
            Some(st) => st.white_space_collapse,
            None => mode,
        };
        seq![InlineCommand::SetWhiteSpace(m)] + match n.data {
            NodeData::Text(_) => seq![InlineCommand::PushText(id as usize)],
            NodeData::Element(e) | NodeData::AnonymousBlock(e) => if is_hidden_input(e) {
                Seq::empty()
            } else {
                let inline_box = seq![InlineCommand::PushInlineBox { id: id as usize, kind: box_kind_of(s) }];
                match (outside_of(s), inside_of(s)) {
                    (DisplayOutside::NoBox, DisplayInside::NoBox) => Seq::empty(),
                    (DisplayOutside::NoBox, DisplayInside::Contents) => if fuel == 0 {
                        Seq::empty()
                    } else {
                        list_commands(nodes, n.children@, m, (fuel - 1) as nat)
                    },
                    (DisplayOutside::Inline, DisplayInside::Flow) => if atomic_inline_tag(e.name.local@) {
                        inline_box
                    } else if e.name.local@ == "br"@ {
                        seq![
                            InlineCommand::PushEmptySpan,
                            InlineCommand::SetWhiteSpace(WhiteSpaceCollapse::Preserve),
                            InlineCommand::PushNewline,
                            InlineCommand::PopStyleSpan,
                            InlineCommand::SetWhiteSpace(m),
                        ]
                    } else {
                        seq![InlineCommand::PushStyleSpan(id as usize)] + (if fuel == 0 {
                            Seq::empty()
                        } else {
                            list_commands(nodes, layout_items(n), m, (fuel - 1) as nat)
                        }) + seq![InlineCommand::PopStyleSpan]
                    },
                    _ => inline_box,
                }
            },
            _ => Seq::empty(),
        }
    }
}

/// The commands of `node_commands` for each of `ids`, in order.
pub open spec fn list_commands(nodes: Seq<Node>, ids: Seq<usize>, mode: WhiteSpaceCollapse, fuel: nat) -> Seq<
    InlineCommand,
>
    decreases fuel, ids.len() + 1,
{
    if ids.len() == 0 {
        Seq::empty()
    } else {
        list_commands(nodes, ids.drop_last(), mode, fuel) + node_commands(nodes, ids.last() as int, mode, fuel)
    }
}

/// The style the inline formatting context rooted at `root` takes its text settings from:
/// the root's own, or else its parent's.
pub open spec fn root_text_style(nodes: Seq<Node>, root: int) -> Option<ElementStyle> {
    match style_of(nodes[root]) {
        Some(s) => Some(s),
        None => match nodes[root].parent {
            Some(p) => if p < nodes.len() {
                style_of(nodes[p as int])
            } else {
                None
            },
            None => None,
        },
    }
}

/// Whether node `n` is a list item whose marker is laid out inside its content.
pub open spec fn has_inside_marker(n: Node) -> bool {
    element_of(n.data) matches Some(e) && e.list_item_data matches Some(l) && l.position is Inside
}

/// The commands that build the text layout of the inline formatting context rooted at
/// `root`: the white-space mode of its text style (collapsing when it has none), its list
/// marker when that is inside, then the commands of its pseudo-elements and children.
pub open spec fn inline_commands(nodes: Seq<Node>, root: int) -> Seq<InlineCommand> {
    let mode = match root_text_style(nodes, root) {
        Some(s) => s.white_space_collapse,
        None => WhiteSpaceCollapse::Collapse,
    };
    seq![InlineCommand::SetWhiteSpace(mode)] + (if has_inside_marker(nodes[root]) {
        seq![InlineCommand::PushMarker]
    } else {
        Seq::empty()
    }) + list_commands(nodes, layout_items(nodes[root]), mode, nodes.len() as nat)
}

/// The nodes that a walk of the inline content of node `id` visits, each with the layout
/// parent it is given, in order, looking at most `fuel` levels down: `id` itself, under
/// `parent`; then, for `display: contents`, its children under the same `parent`; for an
/// inline flow element that is neither one box in the line nor a `br`, its pseudo-elements
/// and children under `id`. Hidden inputs and other boxes are visited but not entered.
pub open spec fn node_visits(nodes: Seq<Node>, parent: usize, id: int, fuel: nat) -> Seq<(usize, usize)>
    decreases fuel, 0nat,
{
    if !(0 <= id < nodes.len()) {
        Seq::empty()
    } else {
        let n = nodes[id];
        seq![(id as usize, parent)] + match element_of(n.data) {
            None => Seq::empty(),
            Some(e) => if is_hidden_input(e) || fuel == 0 {
                Seq::empty()
            } else {
                let s = style_of(n);
                match (outside_of(s), inside_of(s)) {
                    (DisplayOutside::NoBox, DisplayInside::Contents) => list_visits(
                        nodes,
                        parent,
                        n.children@,
                        (fuel - 1) as nat,
                    ),
                    (DisplayOutside::Inline, DisplayInside::Flow) => if atomic_inline_tag(e.name.local@)
                        || e.name.local@ == "br"@ {
                        Seq::empty()
                    } else {
                        list_visits(nodes, id as usize, layout_items(n), (fuel - 1) as nat)
                    },
                    _ => Seq::empty(),
                }
            },
        }
    }
}

/// The visits of `node_visits` for each of `ids`, in order, all under `parent`.
pub open spec fn list_visits(nodes: Seq<Node>, parent: usize, ids: Seq<usize>, fuel: nat) -> Seq<(usize, usize)>
    decreases fuel, ids.len() + 1,
{
    if ids.len() == 0 {
        Seq::empty()
    } else {
        list_visits(nodes, parent, ids.drop_last(), fuel) + node_visits(nodes, parent, ids.last() as int, fuel)
    }
}

/// The nodes of the inline formatting context rooted at `root`, each with the layout
/// parent that laying it out gives it.
pub open spec fn inline_visits(nodes: Seq<Node>, root: int) -> Seq<(usize, usize)> {
    list_visits(nodes, root as usize, layout_items(nodes[root]), nodes.len() as nat)
}

/// `nodes` with the layout parent of each visited node set as `visits` says, in order (a
/// later visit of a node wins).
pub open spec fn with_layout_parents(nodes: Seq<Node>, visits: Seq<(usize, usize)>) -> Seq<Node>
    decreases visits.len(),
{
    if visits.len() == 0 {
        nodes
    } else {
        let before = with_layout_parents(nodes, visits.drop_last());
        let (c, p) = visits.last();
        if c < before.len() {
            before.update(c as int, Node { layout_parent: Some(p), ..before[c as int] })
        } else {
            before
        }
    }
}

/// Setting layout parents changes nothing but layout parents.
pub proof fn lemma_layout_parents_only(nodes: Seq<Node>, visits: Seq<(usize, usize)>)
    ensures
        with_layout_parents(nodes, visits).len() == nodes.len(),
        forall|i: int|
            0 <= i < nodes.len() ==> #[trigger] with_layout_parents(nodes, visits)[i] == (Node {
                layout_parent: with_layout_parents(nodes, visits)[i].layout_parent,
                ..nodes[i]
            }),
    decreases visits.len(),
{
    if visits.len() > 0 {
        lemma_layout_parents_only(nodes, visits.drop_last());
    }
}

/// Setting layout parents keeps the number of nodes.
proof fn lemma_layout_parents_len(nodes: Seq<Node>, visits: Seq<(usize, usize)>)
    ensures
        with_layout_parents(nodes, visits).len() == nodes.len(),
    decreases visits.len(),
{
    if visits.len() > 0 {
        lemma_layout_parents_len(nodes, visits.drop_last());
    }
}

impl BaseDocument {
    /// Whether element `e` is an `<input type=hidden>`.
    fn hidden_input(e: &ElementData) -> (r: bool)
        ensures
            r == is_hidden_input(*e),
    {
        same_text(e.name.local.as_str(), "input") && match e.attr("type") {
            Some(t) => same_text(t.as_str(), "hidden"),
            None => false,
        }
    }

    /// The computed style of node `id`, where it has one.
    fn style_ref(&self, id: usize) -> (r: Option<&ElementStyle>)
        requires
            id < self@.len(),
        ensures
            match style_of(self@[id as int]) {
                Some(st) => r == Some(&st),
                None => r.is_none(),
            },
    {
        match self.nodes[id].element_data() {
            Some(e) => match &e.style {
                Some(st) => Some(st),
                None => None,
            },
            None => None,
        }
    }

    /// The outer and inner display types of node `id` (inline flow when unstyled).
    fn display_of(&self, id: usize) -> (r: (DisplayOutside, DisplayInside))
        requires
            id < self@.len(),
        ensures
            r == (outside_of(style_of(self@[id as int])), inside_of(style_of(self@[id as int]))),
    {
        match self.style_ref(id) {
            Some(st) => (st.display_outside, st.display_inside),
            None => (DisplayOutside::Inline, DisplayInside::Flow),
        }
    }

    /// The nodes laid out inside node `id` (see `layout_items`).
    fn layout_items_of(&self, id: usize) -> (r: Vec<usize>)
        requires
            id < self@.len(),
        ensures
            r@ == layout_items(self@[id as int]),
    {
        let node = &self.nodes[id];
        let mut r: Vec<usize> = Vec::new();
        match node.before {
            Some(b) => r.push(b),
            None => {},
        }
        let n = node.children.len();
        let mut k: usize = 0;
        while k < n
            invariant
                node == &self@[id as int],
                n == node.children@.len(),
                k <= n,
                r@ == opt_seq(node.before) + node.children@.take(k as int),
            decreases n - k,
        {
            r.push(node.children[k]);
            proof {
                assert(node.children@.take(k + 1) =~= node.children@.take(k as int).push(node.children@[k as int]));
            }
            k = k + 1;
        }
        proof {
            assert(node.children@.take(n as int) =~= node.children@);
        }
        match node.after {
            Some(a) => r.push(a),
            None => {},
        }
        proof {
            assert(r@ =~= layout_items(self@[id as int]));
        }
        r
    }

    /// Appends the boxes of `node_boxes` for node `id`.
    fn push_node_boxes(&self, id: usize, fuel: usize, out: &mut Vec<usize>)
        ensures
            final(out)@ == old(out)@ + node_boxes(self@, id as int, fuel as nat),
        decreases fuel, 0nat,
    {
        if id >= self.nodes.len() {
            assert(old(out)@ + Seq::<usize>::empty() =~= old(out)@);
            return;
        }
        let e = match self.nodes[id].element_data() {
            Some(e) => e,
            None => {
                assert(old(out)@ + Seq::<usize>::empty() =~= old(out)@);
                return;
            },
        };
        if Self::hidden_input(e) {
            assert(old(out)@ + Seq::<usize>::empty() =~= old(out)@);
            return;
        }
        let tag = e.name.local.as_str();
        match self.display_of(id) {
            (DisplayOutside::NoBox, DisplayInside::NoBox) => {
                assert(old(out)@ + Seq::<usize>::empty() =~= old(out)@);
            },
            (DisplayOutside::NoBox, DisplayInside::Contents) => {
                if fuel == 0 {
                    assert(old(out)@ + Seq::<usize>::empty() =~= old(out)@);
                } else {
                    self.push_list_boxes(&self.nodes[id].children, fuel - 1, out);
                }
            },
            (DisplayOutside::Inline, DisplayInside::Flow) => {
                if same_text(tag, "img") || same_text(tag, "svg") || same_text(tag, "input") || same_text(
                    tag,
                    "textarea",
                ) || same_text(tag, "button") {
                    out.push(id);
                } else if same_text(tag, "br") || fuel == 0 {
                    assert(old(out)@ + Seq::<usize>::empty() =~= old(out)@);
                } else {
                    let items = self.layout_items_of(id);
                    self.push_list_boxes(&items, fuel - 1, out);
                }
            },
            _ => {
                out.push(id);
            },
        }
    }

    /// Appends the boxes of `list_boxes` for `ids`.
    fn push_list_boxes(&self, ids: &Vec<usize>, fuel: usize, out: &mut Vec<usize>)
        ensures
            final(out)@ == old(out)@ + list_boxes(self@, ids@, fuel as nat),
        decreases fuel, 1nat,
    {
        let n = ids.len();
        let mut k: usize = 0;
        proof {
            assert(ids@.take(0) =~= Seq::<usize>::empty());
            assert(old(out)@ + Seq::<usize>::empty() =~= old(out)@);
        }
        while k < n
            invariant
                n == ids@.len(),
                k <= n,
                out@ == old(out)@ + list_boxes(self@, ids@.take(k as int), fuel as nat),
            decreases n - k,
        {
            let ghost before = out@;
            self.push_node_boxes(ids[k], fuel, out);
            proof {
                assert(ids@.take(k + 1).drop_last() =~= ids@.take(k as int));
                assert(ids@.take(k + 1).last() == ids@[k as int]);
                assert(out@ =~= old(out)@ + list_boxes(self@, ids@.take(k + 1), fuel as nat));
            }
            k = k + 1;
        }
        proof {
            assert(ids@.take(n as int) =~= ids@);
        }
    }

    /// The kind of inline box for node `id` (see `box_kind_of`).
    fn box_kind(&self, id: usize) -> (r: InlineBoxKind)
        requires
            id < self@.len(),
        ensures
            r == box_kind_of(style_of(self@[id as int])),
    {
        match self.style_ref(id) {
            Some(st) => match st.position {
                Position::Absolute | Position::Fixed => InlineBoxKind::OutOfFlow,
                _ => match st.float {
                    Float::NoFloat => InlineBoxKind::InFlow,
                    _ => InlineBoxKind::CustomOutOfFlow,
                },
            },
            None => InlineBoxKind::InFlow,
        }
    }

    /// Appends the commands of `node_commands` for node `id`.
    #[verifier::spinoff_prover]
    #[verifier::rlimit(60)]
    fn push_node_commands(&self, id: usize, mode: WhiteSpaceCollapse, fuel: usize, out: &mut Vec<InlineCommand>)
        ensures
            final(out)@ == old(out)@ + node_commands(self@, id as int, mode, fuel as nat),
        decreases fuel, 0nat,
    {
        if id >= self.nodes.len() {
            assert(old(out)@ + Seq::<InlineCommand>::empty() =~= old(out)@);
            return;
        }
        let m = match self.style_ref(id) {
            Some(st) => st.white_space_collapse,
            None => mode,
        };
        out.push(InlineCommand::SetWhiteSpace(m));
        let ghost start = out@;
        let ghost n = self@[id as int];
        let ghost head = seq![InlineCommand::SetWhiteSpace(m)];
        assert(start == old(out)@ + head);
        match &self.nodes[id].data {
            NodeData::Text(_) => {
                out.push(InlineCommand::PushText(id));
                assert(out@ =~= old(out)@ + (head + seq![InlineCommand::PushText(id)]));
            },
            NodeData::Element(e) | NodeData::AnonymousBlock(e) => {
                if Self::hidden_input(e) {
                    assert(out@ =~= old(out)@ + (head + Seq::<InlineCommand>::empty()));
                    return;
                }
                let kind = self.box_kind(id);
                let tag = e.name.local.as_str();
                match self.display_of(id) {
                    (DisplayOutside::NoBox, DisplayInside::NoBox) => {
                        assert(out@ =~= old(out)@ + (head + Seq::<InlineCommand>::empty()));
                    },
                    (DisplayOutside::NoBox, DisplayInside::Contents) => {
                        if fuel == 0 {
                            assert(out@ =~= old(out)@ + (head + Seq::<InlineCommand>::empty()));
                        } else {
                            self.push_list_commands(&self.nodes[id].children, m, fuel - 1, out);
                            assert(out@ =~= old(out)@ + (head + list_commands(
                                self@,
                                n.children@,
                                m,
                                (fuel - 1) as nat,
                            )));
                        }
                    },
                    (DisplayOutside::Inline, DisplayInside::Flow) => {
                        if same_text(tag, "img") || same_text(tag, "svg") || same_text(tag, "input")
                            || same_text(tag, "textarea") || same_text(tag, "button") {
                            out.push(InlineCommand::PushInlineBox { id, kind });
                            assert(out@ =~= old(out)@ + (head + seq![InlineCommand::PushInlineBox { id, kind }]));
                        } else if same_text(tag, "br") {
                            out.push(InlineCommand::PushEmptySpan);
                            out.push(InlineCommand::SetWhiteSpace(WhiteSpaceCollapse::Preserve));
                            out.push(InlineCommand::PushNewline);
                            out.push(InlineCommand::PopStyleSpan);
                            out.push(InlineCommand::SetWhiteSpace(m));
                            assert(out@ =~= old(out)@ + (head + seq![
                                InlineCommand::PushEmptySpan,
                                InlineCommand::SetWhiteSpace(WhiteSpaceCollapse::Preserve),
                                InlineCommand::PushNewline,
                                InlineCommand::PopStyleSpan,
                                InlineCommand::SetWhiteSpace(m),
                            ]));
                        } else {
                            out.push(InlineCommand::PushStyleSpan(id));
                            let ghost opened = out@;
                            if fuel > 0 {
                                let items = self.layout_items_of(id);
                                self.push_list_commands(&items, m, fuel - 1, out);
                            }
                            let ghost inner = if fuel == 0 {
                                Seq::<InlineCommand>::empty()
                            } else {
                                list_commands(self@, layout_items(n), m, (fuel - 1) as nat)
                            };
                            assert(out@ =~= opened + inner);
                            out.push(InlineCommand::PopStyleSpan);
                            assert(out@ =~= old(out)@ + (head + (seq![InlineCommand::PushStyleSpan(id)] + inner
                                + seq![InlineCommand::PopStyleSpan])));
                        }
                    },
                    _ => {
                        out.push(InlineCommand::PushInlineBox { id, kind });
                        assert(out@ =~= old(out)@ + (head + seq![InlineCommand::PushInlineBox { id, kind }]));
                    },
                }
            },
            _ => {
                assert(out@ =~= old(out)@ + (head + Seq::<InlineCommand>::empty()));
            },
        }
    }

    /// Appends the commands of `list_commands` for `ids`.
    fn push_list_commands(&self, ids: &Vec<usize>, mode: WhiteSpaceCollapse, fuel: usize, out: &mut Vec<InlineCommand>)
        ensures
            final(out)@ == old(out)@ + list_commands(self@, ids@, mode, fuel as nat),
        decreases fuel, 1nat,
    {
        let n = ids.len();
        let mut k: usize = 0;
        proof {
            assert(ids@.take(0) =~= Seq::<usize>::empty());
            assert(old(out)@ + Seq::<InlineCommand>::empty() =~= old(out)@);
        }
        while k < n
            invariant
                n == ids@.len(),
                k <= n,
                out@ == old(out)@ + list_commands(self@, ids@.take(k as int), mode, fuel as nat),
            decreases n - k,
        {
            self.push_node_commands(ids[k], mode, fuel, out);
            proof {
                assert(ids@.take(k + 1).drop_last() =~= ids@.take(k as int));
                assert(ids@.take(k + 1).last() == ids@[k as int]);
                assert(out@ =~= old(out)@ + list_commands(self@, ids@.take(k + 1), mode, fuel as nat));
            }
            k = k + 1;
        }
        proof {
            assert(ids@.take(n as int) =~= ids@);
        }
    }

    /// The commands that build the text layout of the inline formatting context rooted at
    /// `root`, in document order (see `inline_commands`). Text shaping and line heights
    /// are left to whoever runs them.
    pub fn inline_layout_commands(&self, root: usize) -> (r: Vec<InlineCommand>)
        requires
            root < self@.len(),
        ensures
            r@ == inline_commands(self@, root as int),
    {
        let root_style = match self.style_ref(root) {
            Some(st) => Some(st),
            None => match self.nodes[root].parent {
                Some(p) => if p < self.nodes.len() {
                    self.style_ref(p)
                } else {
                    None
                },
                None => None,
            },
        };
        let mode = match root_style {
            Some(st) => st.white_space_collapse,
            None => WhiteSpaceCollapse::Collapse,
        };
        let mut r: Vec<InlineCommand> = Vec::new();
        r.push(InlineCommand::SetWhiteSpace(mode));
        let inside_marker = match self.nodes[root].element_data() {
            Some(e) => match &e.list_item_data {
                Some(l) => match l.position {
                    ListItemLayoutPosition::Inside => true,
                    _ => false,
                },
                None => false,
            },
            None => false,
        };
        if inside_marker {
            r.push(InlineCommand::PushMarker);
        }
        let ghost prefix = r@;
        let items = self.layout_items_of(root);
        self.push_list_commands(&items, mode, self.nodes.len(), &mut r);
        assert(r@ =~= inline_commands(self@, root as int));
        r
    }

    /// Appends the visits of `node_visits` for node `id`.
    fn push_node_visits(&self, parent: usize, id: usize, fuel: usize, out: &mut Vec<(usize, usize)>)
        requires
            parent < self@.len(),
            forall|k: int| 0 <= k < old(out)@.len() ==> (#[trigger] old(out)@[k]).0 < self@.len() && old(out)@[k].1 < self@.len(),
        ensures
            final(out)@ == old(out)@ + node_visits(self@, parent, id as int, fuel as nat),
            forall|k: int| 0 <= k < final(out)@.len() ==> (#[trigger] final(out)@[k]).0 < self@.len() && final(out)@[k].1 < self@.len(),
        decreases fuel, 0nat,
    {
        if id >= self.nodes.len() {
            assert(old(out)@ + Seq::<(usize, usize)>::empty() =~= old(out)@);
            return;
        }
        out.push((id, parent));
        let ghost head = seq![(id, parent)];
        let ghost n = self@[id as int];
        assert(out@ == old(out)@ + head);
        let e = match self.nodes[id].element_data() {
            Some(e) => e,
            None => {
                assert(out@ =~= old(out)@ + (head + Seq::<(usize, usize)>::empty()));
                return;
            },
        };
        if Self::hidden_input(e) || fuel == 0 {
            assert(out@ =~= old(out)@ + (head + Seq::<(usize, usize)>::empty()));
            return;
        }
        let tag = e.name.local.as_str();
        match self.display_of(id) {
            (DisplayOutside::NoBox, DisplayInside::Contents) => {
                let ghost mid = out@;
                self.push_list_visits(parent, &self.nodes[id].children, fuel - 1, out);
                assert(out@ =~= old(out)@ + (head + list_visits(self@, parent, n.children@, (fuel - 1) as nat)));
            },
            (DisplayOutside::Inline, DisplayInside::Flow) => {
                if same_text(tag, "img") || same_text(tag, "svg") || same_text(tag, "input") || same_text(
                    tag,
                    "textarea",
                ) || same_text(tag, "button") || same_text(tag, "br") {
                    assert(out@ =~= old(out)@ + (head + Seq::<(usize, usize)>::empty()));
                } else {
                    let items = self.layout_items_of(id);
                    self.push_list_visits(id, &items, fuel - 1, out);
                    assert(out@ =~= old(out)@ + (head + list_visits(self@, id, layout_items(n), (fuel - 1) as nat)));
                }
            },
            _ => {
                assert(out@ =~= old(out)@ + (head + Seq::<(usize, usize)>::empty()));
            },
        }
    }

    /// Appends the visits of `list_visits` for `ids`.
    fn push_list_visits(&self, parent: usize, ids: &Vec<usize>, fuel: usize, out: &mut Vec<(usize, usize)>)
        requires
            parent < self@.len(),
            forall|k: int| 0 <= k < old(out)@.len() ==> (#[trigger] old(out)@[k]).0 < self@.len() && old(out)@[k].1 < self@.len(),
        ensures
            final(out)@ == old(out)@ + list_visits(self@, parent, ids@, fuel as nat),
            forall|k: int| 0 <= k < final(out)@.len() ==> (#[trigger] final(out)@[k]).0 < self@.len() && final(out)@[k].1 < self@.len(),
        decreases fuel, 1nat,
    {
        let n = ids.len();
        let mut k: usize = 0;
        proof {
            assert(ids@.take(0) =~= Seq::<usize>::empty());
            assert(old(out)@ + Seq::<(usize, usize)>::empty() =~= old(out)@);
        }
        while k < n
            invariant
                parent < self@.len(),
                n == ids@.len(),
                k <= n,
                out@ == old(out)@ + list_visits(self@, parent, ids@.take(k as int), fuel as nat),
                forall|j: int| 0 <= j < out@.len() ==> (#[trigger] out@[j]).0 < self@.len() && out@[j].1 < self@.len(),
            decreases n - k,
        {
            self.push_node_visits(parent, ids[k], fuel, out);
            proof {
                assert(ids@.take(k + 1).drop_last() =~= ids@.take(k as int));
                assert(ids@.take(k + 1).last() == ids@[k as int]);
                assert(out@ =~= old(out)@ + list_visits(self@, parent, ids@.take(k + 1), fuel as nat));
            }
            k = k + 1;
        }
        proof {
            assert(ids@.take(n as int) =~= ids@);
        }
    }

    /// Gives each node of the inline formatting context rooted at `root` the layout parent
    /// that laying it out gives it (see `inline_visits`): the root for its own items, an
    /// inline element for the items inside it.
    pub fn assign_inline_layout_parents(&mut self, root: usize)
        requires
            old(self).wf(),
            root < old(self)@.len(),
        ensures
            final(self).wf(),
            same_registries(*old(self), *final(self)),
            final(self)@ == with_layout_parents(old(self)@, inline_visits(old(self)@, root as int)),
            links_agree(old(self)@) ==> links_agree(final(self)@),
    {
        self.assign_inline_layout_parents_steps(root);
        proof {
            if links_agree(old(self)@) {
                lemma_layout_parents_only(old(self)@, inline_visits(old(self)@, root as int));
                assert forall|i: int| 0 <= i < old(self)@.len() implies same_links(#[trigger] old(self)@[i], self@[i]) by {
                    assert(crate::flags::is_flag_bit(crate::flags::IS_SHADOW_ROOT));
                }
                lemma_links_frame(old(self)@, self@);
            }
        }
    }

    /// The steps of `assign_inline_layout_parents`.
    fn assign_inline_layout_parents_steps(&mut self, root: usize)
        requires
            old(self).wf(),
            root < old(self)@.len(),
        ensures
            final(self).wf(),
            same_registries(*old(self), *final(self)),
            final(self)@ == with_layout_parents(old(self)@, inline_visits(old(self)@, root as int)),
    {
        let items = self.layout_items_of(root);
        let mut visits: Vec<(usize, usize)> = Vec::new();
        self.push_list_visits(root, &items, self.nodes.len(), &mut visits);
        assert(visits@ =~= inline_visits(self@, root as int));
        let ghost start = self@;
        let len = self.nodes.len();
        let n = visits.len();
        let mut k: usize = 0;
        while k < n
            invariant
                self.wf(),
                same_registries(*old(self), *self),
                start == old(self)@,
                len == start.len(),
                self@.len() == len,
                n == visits@.len(),
                k <= n,
                forall|j: int| 0 <= j < visits@.len() ==> (#[trigger] visits@[j]).0 < len && visits@[j].1 < len,
                self@ == with_layout_parents(start, visits@.take(k as int)),
            decreases n - k,
        {
            let (c, p) = visits[k];
            let ghost before = self@;
            assert(visits@[k as int] == (c, p));
            self.nodes[c].layout_parent = Some(p);
            proof {
                assert(visits@[k as int].0 < len);
                assert(visits@.take(k + 1).drop_last() =~= visits@.take(k as int));
                assert(visits@.take(k + 1).last() == (c, p));
                lemma_layout_parents_len(start, visits@.take(k as int));
                assert(self@ =~= with_layout_parents(start, visits@.take(k + 1)));
                assert forall|i: int| 0 <= i < len implies node_wf(#[trigger] self@[i], i, len as int) by {
                    assert(node_wf(before[i], i, len as int));
                }
            }
            k = k + 1;
        }
        proof {
            assert(visits@.take(n as int) =~= visits@);
        }
    }

    /// The boxes embedded in the inline formatting context rooted at `root`, in document
    /// order (see `embedded_boxes`): the boxes that inline layout sizes and places as
    /// boxes of their own, without building the text layout itself.
    pub fn find_inline_layout_embedded_boxes(&self, root: usize) -> (r: Vec<usize>)
        requires
            root < self@.len(),
        ensures
            r@ == embedded_boxes(self@, root as int),
    {
        let items = self.layout_items_of(root);
        let mut r: Vec<usize> = Vec::new();
        self.push_list_boxes(&items, self.nodes.len(), &mut r);
        assert(Seq::<usize>::empty() + list_boxes(self@, items@, self@.len() as nat) =~= list_boxes(
            self@,
            items@,
            self@.len() as nat,
        ));
        r
    }
}

} // verus!
