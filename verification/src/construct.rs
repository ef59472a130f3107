//! Box construction: how the children of a container are laid out. A container may be a
//! form widget or an image of its own, hold nothing, pass its children up
//! (`display: contents`), lay its children out as they are, be the root of an inline
//! formatting context, or need anonymous boxes around some children.
use vstd::prelude::*;

use crate::document::{ids_valid, node_wf, same_registries, BaseDocument};
use crate::flags::{NodeFlags, IS_INLINE_ROOT, IS_TABLE_ROOT};
use crate::inline_layout::{embedded_boxes, inline_visits, lemma_layout_parents_only, with_layout_parents};
use crate::layout_tree::{any_contains_block, in_flow_style, inside_of, or_contains_block, outside_of, style_of};
use crate::node::{
    all_ascii_white_space, attr_value, element_of, DisplayInside, DisplayOutside, Node, NodeData,
};
use crate::mutation_records::with_special_data;
use crate::node::SpecialElementType;
use crate::utf8_text::same_text;

use crate::tree_links::{lemma_links_frame, links_agree, same_links};
verus! {

/// How the children of a container are laid out.
#[derive(Clone, Copy, Debug, PartialEq, Eq, Structural)]
pub enum LayoutChildrenPlan {
    /// The container is a text input (`multiline` for a `textarea`): it gets a text editor
    /// and no layout children.
    TextEditor { multiline: bool },
    /// The container is a checkbox or radio input: it gets a checked state and no layout
    /// children.
    CheckboxInput,
    /// The container is an `svg` element: it is drawn as an image of its own.
    Svg,
    /// The container has no children and no pseudo-elements.
    NoChildren,
    /// The container generates no boxes for its children.
    NoBoxes,
    /// `display: contents`: each child is collected in the container's place.
    Contents,
    /// The children that are not white-space text, between the pseudo-elements.
    NonWhitespaceChildren,
    /// The container is the root of an inline formatting context: its layout children are
    /// the boxes embedded in its text.
    InlineRoot,
    /// Some children need anonymous boxes around them (`flex_or_grid`: text children of a
    /// flex or grid container; otherwise inline content among blocks).
    Complex { flex_or_grid: bool },
    /// The container is a table.
    Table,
}

/// Whether node `n` is a text node holding only ASCII white space.
pub open spec fn whitespace_node(n: Node) -> bool {
    n.data matches NodeData::Text(t) && all_ascii_white_space(t.content@)
}

/// Whether node `n` is shown as `display: contents`.
pub open spec fn is_contents_node(n: Node) -> bool {
    inside_of(style_of(n)) is Contents
}

/// Whether child `c` takes no part in the choice for a flow container: it is not
/// `display: contents`, and it is white-space text or out of flow.
pub open spec fn flow_child_skipped(nodes: Seq<Node>, c: int) -> bool {
    !is_contents_node(nodes[c]) && (whitespace_node(nodes[c]) || !in_flow_style(style_of(nodes[c])))
}

/// Whether child `c` keeps a flow container from being an inline formatting context: it
/// is a block-level box in flow, or an inline box in flow that holds one.
pub open spec fn flow_child_blocks_inline(nodes: Seq<Node>, c: int) -> bool {
    !is_contents_node(nodes[c]) && !flow_child_skipped(nodes, c) && match outside_of(style_of(nodes[c])) {
        DisplayOutside::NoBox => false,
        DisplayOutside::Inline => or_contains_block(nodes, c, nodes.len() as nat),
        _ => true,
    }
}

/// Whether child `c` keeps a flow container from holding only blocks: it is an inline box
/// in flow.
pub open spec fn flow_child_is_inline(nodes: Seq<Node>, c: int) -> bool {
    !is_contents_node(nodes[c]) && !flow_child_skipped(nodes, c) && outside_of(style_of(nodes[c])) is Inline
}

/// The plan for a flow container with children `kids`: every child skipped gives the
/// children as they are; no child that blocks inline content makes an inline formatting
/// context; only blocks (and no `display: contents`) gives the children as they are;
/// anything else needs anonymous blocks around the inline content.
pub open spec fn flow_plan(nodes: Seq<Node>, kids: Seq<usize>) -> LayoutChildrenPlan {
    let has_contents = exists|k: int| 0 <= k < kids.len() && is_contents_node(nodes[#[trigger] kids[k] as int]);
    let all_skipped = forall|k: int| 0 <= k < kids.len() ==> flow_child_skipped(nodes, #[trigger] kids[k] as int);
    let all_inline = forall|k: int| 0 <= k < kids.len() ==> !flow_child_blocks_inline(nodes, #[trigger] kids[k] as int);
    let all_block = forall|k: int| 0 <= k < kids.len() ==> !flow_child_is_inline(nodes, #[trigger] kids[k] as int);
    if all_skipped {
        LayoutChildrenPlan::NonWhitespaceChildren
    } else if all_inline {
        LayoutChildrenPlan::InlineRoot
    } else if all_block && !has_contents {
        LayoutChildrenPlan::NonWhitespaceChildren
    } else {
        LayoutChildrenPlan::Complex { flex_or_grid: false }
    }
}

/// The plan for a flex or grid container with children `kids`: text or `display:
/// contents` children need anonymous boxes; otherwise the children are laid out as they
/// are.
pub open spec fn flex_or_grid_plan(nodes: Seq<Node>, kids: Seq<usize>) -> LayoutChildrenPlan {
    if exists|k: int|
        0 <= k < kids.len() && (is_contents_node(nodes[#[trigger] kids[k] as int]) || nodes[kids[k] as int].data is Text) {
        LayoutChildrenPlan::Complex { flex_or_grid: true }
    } else {
        LayoutChildrenPlan::NonWhitespaceChildren
    }
}

/// Whether an `input` with `type` attribute `t` is edited as text: no type, or `text`,
/// `password`, `email`, `number`, `search`, `tel` or `url`.
pub open spec fn text_input_type(t: Option<Seq<char>>) -> bool {
    match t {
        None => true,
        Some(v) => v == "text"@ || v == "password"@ || v == "email"@ || v == "number"@ || v == "search"@
            || v == "tel"@ || v == "url"@,
    }
}

/// The plan for the children of node `id`: a `textarea`, a text `input`, a checkbox or
/// radio `input` and an `svg` are widgets or images of their own; a node with no children
/// and no pseudo-elements has nothing to lay out; otherwise the inner display decides
/// (flow when unstyled): `none` lays out nothing, `contents` passes the children up, flow
/// containers and table cells choose by their children (see `flow_plan`), flex and grid
/// containers too (see `flex_or_grid_plan`), tables build a table, and the rest lay their
/// children out as they are.
pub open spec fn layout_children_plan(nodes: Seq<Node>, id: int) -> LayoutChildrenPlan {
    let n = nodes[id];
    let widget = match element_of(n.data) {
        Some(e) => {
            let tag = e.name.local@;
            let t = attr_value(e.attrs.items(), "type"@);
            if tag == "textarea"@ {
                Some(LayoutChildrenPlan::TextEditor { multiline: true })
            } else if tag == "input"@ && text_input_type(t) {
                Some(LayoutChildrenPlan::TextEditor { multiline: false })
            } else if tag == "input"@ && (t == Some("checkbox"@) || t == Some("radio"@)) {
                Some(LayoutChildrenPlan::CheckboxInput)
            } else if tag == "svg"@ {
                Some(LayoutChildrenPlan::Svg)
            } else {
                None
            }
        },
        None => None,
    };
    match widget {
        Some(p) => p,
        None => if n.children@.len() == 0 && n.before is None && n.after is None {
            LayoutChildrenPlan::NoChildren
        } else {
            match inside_of(style_of(n)) {
                DisplayInside::NoBox => LayoutChildrenPlan::NoBoxes,
                DisplayInside::Contents => LayoutChildrenPlan::Contents,
                DisplayInside::Flow | DisplayInside::FlowRoot | DisplayInside::TableCell => flow_plan(
                    nodes,
                    n.children@,
                ),
                DisplayInside::Flex | DisplayInside::Grid => flex_or_grid_plan(nodes, n.children@),
                DisplayInside::Table => LayoutChildrenPlan::Table,
                _ => LayoutChildrenPlan::NonWhitespaceChildren,
            }
        },
    }
}

/// The layout children of `n` as they are: its `::before` pseudo-element, its children and
/// its `::after` pseudo-element.
pub open spec fn children_and_pseudos(n: Node) -> Seq<usize> {
    (match n.before {
        Some(b) => seq![b],
        None => Seq::empty(),
    }) + n.children@ + (match n.after {
        Some(a) => seq![a],
        None => Seq::empty(),
    })
}

/// The layout children of node `id` without its white-space text children: its `::before`
/// pseudo-element, its other children and its `::after` pseudo-element.
pub open spec fn non_whitespace_children_and_pseudos(nodes: Seq<Node>, id: int) -> Seq<usize> {
    let n = nodes[id];
    (match n.before {
        Some(b) => seq![b],
        None => Seq::empty(),
    }) + n.children@.filter(|c: usize| !whitespace_node(nodes[c as int])) + (match n.after {
        Some(a) => seq![a],
        None => Seq::empty(),
    })
}


/// Where a child of a container that needs anonymous boxes goes.
#[derive(Clone, Copy, Debug, PartialEq, Eq, Structural)]
pub enum ComplexItem {
    /// A `display: contents` child: its own children are collected in its place.
    Contents(usize),
    /// A child that goes into the current anonymous block (opened when there is none).
    Wrap(usize),
    /// A child laid out as a box of its own, closing the current anonymous block.
    Own(usize),
}

/// Where child `c` of a container that needs anonymous boxes goes (`None`: skipped).
/// Comments are skipped, and so is white-space text in a flex or grid container. A
/// `display: contents` child passes its children up. Text needs wrapping, and so, in a
/// flow container, does an inline box that holds no block; other children are boxes of
/// their own.
pub open spec fn complex_item(nodes: Seq<Node>, c: int, flex_or_grid: bool) -> Option<ComplexItem> {
    let n = nodes[c];
    let outside = if or_contains_block(nodes, c, nodes.len() as nat) {
        DisplayOutside::Block
    } else {
        outside_of(style_of(n))
    };
    if n.data is Comment || (flex_or_grid && whitespace_node(n)) {
        None
    } else if is_contents_node(n) {
        Some(ComplexItem::Contents(c as usize))
    } else if n.data is Text || (!flex_or_grid && outside is Inline) {
        Some(ComplexItem::Wrap(c as usize))
    } else {
        Some(ComplexItem::Own(c as usize))
    }
}

/// The items of `complex_item` for each of `ids`, in order, skipped ones left out.
pub open spec fn complex_items(nodes: Seq<Node>, ids: Seq<usize>, flex_or_grid: bool) -> Seq<ComplexItem>
    decreases ids.len(),
{
    if ids.len() == 0 {
        Seq::empty()
    } else {
        complex_items(nodes, ids.drop_last(), flex_or_grid) + match complex_item(nodes, ids.last() as int, flex_or_grid) {
            Some(item) => seq![item],
            None => Seq::empty(),
        }
    }
}

/// Node `n` once it is set up as a checkbox: an element that has no checkbox state yet
/// takes one, checked when it has a `checked` attribute; otherwise `n` as it is.
pub open spec fn checkbox_created(n: Node) -> Node {
    match element_of(n.data) {
        Some(e) => if e.special_data is CheckboxInput {
            n
        } else {
            with_special_data(n, SpecialElementType::CheckboxInput(attr_value(e.attrs.items(), "checked"@).is_some()))
        },
        None => n,
    }
}

/// `nodes` with the flag bits of node `id` replaced by `bits`.
pub open spec fn with_flag_bits(nodes: Seq<Node>, id: int, bits: u32) -> Seq<Node> {
    nodes.update(id, Node { flags: NodeFlags { bits }, ..nodes[id] })
}

/// What collecting the layout children of `container` does to the nodes: its
/// construction flags are reset; when it becomes an inline root it is flagged so and the
/// nodes of its inline content get their layout parents; a checkbox or radio input gets
/// its checked state.
pub open spec fn collected_nodes(nodes: Seq<Node>, container: int) -> Seq<Node> {
    let reset = nodes[container].flags.bits & !(IS_INLINE_ROOT | IS_TABLE_ROOT);
    if layout_children_plan(nodes, container) is InlineRoot {
        with_flag_bits(
            with_layout_parents(nodes, inline_visits(nodes, container)),
            container,
            reset | IS_INLINE_ROOT,
        )
    } else if layout_children_plan(nodes, container) is CheckboxInput {
        with_flag_bits(nodes.update(container, checkbox_created(nodes[container])), container, reset)
    } else {
        with_flag_bits(nodes, container, reset)
    }
}

/// The layout children that collecting the children of `container` gives: the children
/// that are not white-space text for `NonWhitespaceChildren`, the embedded boxes for an
/// inline root, and none for the plans its caller carries out.
pub open spec fn collected_children(nodes: Seq<Node>, container: int) -> Seq<usize> {
    match layout_children_plan(nodes, container) {
        LayoutChildrenPlan::NonWhitespaceChildren => non_whitespace_children_and_pseudos(nodes, container),
        LayoutChildrenPlan::InlineRoot => embedded_boxes(nodes, container),
        _ => Seq::empty(),
    }
}

/// Collecting the layout children of `container` keeps the tree links.
pub proof fn lemma_links_collected(nodes: Seq<Node>, container: int)
    requires
        links_agree(nodes),
        0 <= container < nodes.len(),
    ensures
        links_agree(collected_nodes(nodes, container)),
{
    let b0 = nodes[container].flags.bits;
    let reset = b0 & !(IS_INLINE_ROOT | IS_TABLE_ROOT);
    assert((b0 & !(1u32 | 2u32)) & 16u32 != 0 <==> b0 & 16u32 != 0) by (bit_vector);
    assert(((b0 & !(1u32 | 2u32)) | 1u32) & 16u32 != 0 <==> b0 & 16u32 != 0) by (bit_vector);
    let mid = if layout_children_plan(nodes, container) is InlineRoot {
        with_layout_parents(nodes, inline_visits(nodes, container))
    } else if layout_children_plan(nodes, container) is CheckboxInput {
        nodes.update(container, checkbox_created(nodes[container]))
    } else {
        nodes
    };
    lemma_layout_parents_only(nodes, inline_visits(nodes, container));
    let after = collected_nodes(nodes, container);
    assert forall|i: int| 0 <= i < nodes.len() implies same_links(#[trigger] nodes[i], after[i]) by {
        if i == container {
            assert(mid[i].flags == nodes[i].flags);
        }
    }
    lemma_links_frame(nodes, after);
}

/// Form controls are planned as their widgets: every `input` whose `type` is absent or one
/// of `text`, `password`, `email`, `number`, `search`, `tel` and `url` is a single-line text
/// editor, a `textarea` a multi-line one, and an `input` of type `checkbox` or `radio` a
/// checkbox, whatever its children and style.
pub proof fn law_form_controls_get_their_widgets(nodes: Seq<Node>, id: int)
    requires
        0 <= id < nodes.len(),
    ensures
        element_of(nodes[id].data) matches Some(e) && e.name.local@ == "input"@ && ({
            let t = attr_value(e.attrs.items(), "type"@);
            t is None || t == Some("text"@) || t == Some("password"@) || t == Some("email"@) || t == Some(
                "number"@,
            ) || t == Some("search"@) || t == Some("tel"@) || t == Some("url"@)
        }) ==> layout_children_plan(nodes, id) == (LayoutChildrenPlan::TextEditor { multiline: false }),
        element_of(nodes[id].data) matches Some(e) && e.name.local@ == "textarea"@ ==> layout_children_plan(nodes, id)
            == (LayoutChildrenPlan::TextEditor { multiline: true }),
        element_of(nodes[id].data) matches Some(e) && e.name.local@ == "input"@ && ({
            let t = attr_value(e.attrs.items(), "type"@);
            t == Some("checkbox"@) || t == Some("radio"@)
        }) ==> layout_children_plan(nodes, id) == LayoutChildrenPlan::CheckboxInput,
{
    reveal_strlit("input");
    assert("input"@.len() == 5 && "input"@[0] == 'i' && "input"@[1] == 'n');
    reveal_strlit("textarea");
    assert("textarea"@.len() == 8 && "textarea"@[0] == 't' && "textarea"@[1] == 'e');
    reveal_strlit("checkbox");
    assert("checkbox"@.len() == 8 && "checkbox"@[0] == 'c' && "checkbox"@[1] == 'h');
    reveal_strlit("radio");
    assert("radio"@.len() == 5 && "radio"@[0] == 'r' && "radio"@[1] == 'a');
    reveal_strlit("text");
    assert("text"@.len() == 4 && "text"@[0] == 't' && "text"@[1] == 'e');
    reveal_strlit("password");
    assert("password"@.len() == 8 && "password"@[0] == 'p' && "password"@[1] == 'a');
    reveal_strlit("email");
    assert("email"@.len() == 5 && "email"@[0] == 'e' && "email"@[1] == 'm');
    reveal_strlit("number");
    assert("number"@.len() == 6 && "number"@[0] == 'n' && "number"@[1] == 'u');
    reveal_strlit("search");
    assert("search"@.len() == 6 && "search"@[0] == 's' && "search"@[1] == 'e');
    reveal_strlit("tel");
    assert("tel"@.len() == 3 && "tel"@[0] == 't' && "tel"@[1] == 'e');
    reveal_strlit("url");
    assert("url"@.len() == 3 && "url"@[0] == 'u' && "url"@[1] == 'r');
    reveal_strlit("svg");
    assert("svg"@.len() == 3 && "svg"@[0] == 's' && "svg"@[1] == 'v');
}

/// A flow container that holds only text is the root of an inline formatting context:
/// when an element that is no form widget or `svg`, laid out as flow, has children that
/// are all text nodes without children of their own, at least one of them not only white
/// space, its children are laid out as inline content.
pub proof fn law_text_only_flow_is_inline_root(nodes: Seq<Node>, id: int)
    requires
        0 <= id < nodes.len(),
        element_of(nodes[id].data) matches Some(e) && e.name.local@ != "textarea"@ && e.name.local@ != "input"@
            && e.name.local@ != "svg"@,
        inside_of(style_of(nodes[id])) is Flow,
        forall|k: int|
            0 <= k < nodes[id].children@.len() ==> {
                let c = #[trigger] nodes[id].children@[k];
                &&& c < nodes.len()
                &&& nodes[c as int].data is Text
                &&& nodes[c as int].children@.len() == 0
            },
        exists|k: int|
            0 <= k < nodes[id].children@.len() && !whitespace_node(nodes[#[trigger] nodes[id].children@[k] as int]),
    ensures
        layout_children_plan(nodes, id) == LayoutChildrenPlan::InlineRoot,
{
    let kids = nodes[id].children@;
    let k0 = choose|k: int| 0 <= k < kids.len() && !whitespace_node(nodes[#[trigger] kids[k] as int]);
    assert forall|k: int| 0 <= k < kids.len() implies !flow_child_blocks_inline(nodes, #[trigger] kids[k] as int) by {
        let c = kids[k] as int;
        assert(style_of(nodes[c]) is None);
        assert(any_contains_block(nodes, nodes[c].children@, (nodes.len() - 1) as nat) == false);
    }
    assert(!flow_child_skipped(nodes, kids[k0] as int));
}

impl BaseDocument {
    /// Whether node `id` is shown as `display: contents`.
    fn contents_node(&self, id: usize) -> (r: bool)
        requires
            id < self@.len(),
        ensures
            r == is_contents_node(self@[id as int]),
    {
        match self.nodes[id].element_data() {
            Some(e) => match &e.style {
                Some(s) => match s.display_inside {
                    DisplayInside::Contents => true,
                    _ => false,
                },
                None => false,
            },
            None => false,
        }
    }

    /// Whether node `id` is in flow (see `in_flow_style`).
    fn in_flow(&self, id: usize) -> (r: bool)
        requires
            id < self@.len(),
        ensures
            r == in_flow_style(style_of(self@[id as int])),
    {
        match self.nodes[id].element_data() {
            Some(e) => match &e.style {
                Some(s) => {
                    let positioned = match s.position {
                        crate::node::Position::Static | crate::node::Position::Relative
                        | crate::node::Position::Sticky => true,
                        _ => false,
                    };
                    let floating = match s.float {
                        crate::node::Float::NoFloat => false,
                        _ => true,
                    };
                    positioned && !floating
                },
                None => true,
            },
            None => true,
        }
    }

    /// The outer display type of node `id` (inline when unstyled).
    fn outside(&self, id: usize) -> (r: DisplayOutside)
        requires
            id < self@.len(),
        ensures
            r == outside_of(style_of(self@[id as int])),
    {
        match self.nodes[id].element_data() {
            Some(e) => match &e.style {
                Some(s) => s.display_outside,
                None => DisplayOutside::Inline,
            },
            None => DisplayOutside::Inline,
        }
    }

    /// The plan for a flow container with children `kids` (see `flow_plan`).
    fn plan_flow(&self, kids: &Vec<usize>) -> (r: LayoutChildrenPlan)
        requires
            self.wf(),
            forall|k: int| 0 <= k < kids@.len() ==> #[trigger] kids@[k] < self@.len(),
        ensures
            r == flow_plan(self@, kids@),
    {
        let ghost nodes = self@;
        let n = kids.len();
        let mut has_contents = false;
        let mut all_skipped = true;
        let mut all_inline = true;
        let mut all_block = true;
        let mut i: usize = 0;
        while i < n
            invariant
                self.wf(),
                nodes == self@,
                n == kids@.len(),
                i <= n,
                forall|k: int| 0 <= k < kids@.len() ==> #[trigger] kids@[k] < self@.len(),
                has_contents == exists|k: int| 0 <= k < i && is_contents_node(nodes[#[trigger] kids@[k] as int]),
                all_skipped == forall|k: int| 0 <= k < i ==> flow_child_skipped(nodes, #[trigger] kids@[k] as int),
                all_inline == forall|k: int| 0 <= k < i ==> !flow_child_blocks_inline(nodes, #[trigger] kids@[k] as int),
                all_block == forall|k: int| 0 <= k < i ==> !flow_child_is_inline(nodes, #[trigger] kids@[k] as int),
            decreases n - i,
        {
            let c = kids[i];
            let contents = self.contents_node(c);
            let mut skipped = false;
            let mut blocks = false;
            let mut inline = false;
            if contents {
                has_contents = true;
            } else {
                skipped = self.nodes[c].is_whitespace_node() || !self.in_flow(c);
                if !skipped {
                    match self.outside(c) {
                        DisplayOutside::NoBox => {},
                        DisplayOutside::Inline => {
                            inline = true;
                            blocks = self.is_or_contains_block(c);
                        },
                        _ => {
                            blocks = true;
                        },
                    }
                }
            }
            proof {
                assert(kids@[i as int] == c);
                assert(skipped == flow_child_skipped(nodes, c as int));
                assert(blocks == flow_child_blocks_inline(nodes, c as int));
                assert(inline == flow_child_is_inline(nodes, c as int));
            }
            all_skipped = all_skipped && skipped;
            all_inline = all_inline && !blocks;
            all_block = all_block && !inline;
            proof {
                assert forall|k: int| 0 <= k < i + 1 implies (flow_child_skipped(nodes, #[trigger] kids@[k] as int)
                    <== all_skipped) by {
                    if k == i {
                    }
                }
                assert forall|k: int| 0 <= k < i + 1 implies (!flow_child_blocks_inline(nodes, #[trigger] kids@[k] as int)
                    <== all_inline) by {
                    if k == i {
                    }
                }
                assert forall|k: int| 0 <= k < i + 1 implies (!flow_child_is_inline(nodes, #[trigger] kids@[k] as int)
                    <== all_block) by {
                    if k == i {
                    }
                }
                if contents {
                    assert(is_contents_node(nodes[kids@[i as int] as int]));
                }
            }
            i = i + 1;
        }
        if all_skipped {
            LayoutChildrenPlan::NonWhitespaceChildren
        } else if all_inline {
            LayoutChildrenPlan::InlineRoot
        } else if all_block && !has_contents {
            LayoutChildrenPlan::NonWhitespaceChildren
        } else {
            LayoutChildrenPlan::Complex { flex_or_grid: false }
        }
    }

    /// The plan for a flex or grid container with children `kids` (see
    /// `flex_or_grid_plan`).
    fn plan_flex_or_grid(&self, kids: &Vec<usize>) -> (r: LayoutChildrenPlan)
        requires
            forall|k: int| 0 <= k < kids@.len() ==> #[trigger] kids@[k] < self@.len(),
        ensures
            r == flex_or_grid_plan(self@, kids@),
    {
        let n = kids.len();
        let mut i: usize = 0;
        while i < n
            invariant
                n == kids@.len(),
                i <= n,
                forall|k: int| 0 <= k < kids@.len() ==> #[trigger] kids@[k] < self@.len(),
                forall|k: int|
                    0 <= k < i ==> !(is_contents_node(self@[#[trigger] kids@[k] as int]) || self@[kids@[k] as int].data is Text),
            decreases n - i,
        {
            let c = kids[i];
            let is_text = match &self.nodes[c].data {
                NodeData::Text(_) => true,
                _ => false,
            };
            if self.contents_node(c) || is_text {
                assert(kids@[i as int] == c);
                return LayoutChildrenPlan::Complex { flex_or_grid: true };
            }
            i = i + 1;
        }
        LayoutChildrenPlan::NonWhitespaceChildren
    }

    /// How the children of node `id` are laid out (see `layout_children_plan`).
    pub fn plan_layout_children(&self, id: usize) -> (r: LayoutChildrenPlan)
        requires
            self.wf(),
            id < self@.len(),
        ensures
            r == layout_children_plan(self@, id as int),
    {
        let node = &self.nodes[id];
        match node.element_data() {
            Some(e) => {
                let tag = e.name.local.as_str();
                let t = e.attr("type");
                let text_type = match t {
                    None => true,
                    Some(v) => {
                        let v = v.as_str();
                        same_text(v, "text") || same_text(v, "password") || same_text(v, "email")
                            || same_text(v, "number") || same_text(v, "search") || same_text(v, "tel")
                            || same_text(v, "url")
                    },
                };
                let check_type = match t {
                    None => false,
                    Some(v) => same_text(v.as_str(), "checkbox") || same_text(v.as_str(), "radio"),
                };
                proof {
                    reveal_strlit("checkbox");
                    reveal_strlit("radio");
                }
                if same_text(tag, "textarea") {
                    return LayoutChildrenPlan::TextEditor { multiline: true };
                } else if same_text(tag, "input") && text_type {
                    return LayoutChildrenPlan::TextEditor { multiline: false };
                } else if same_text(tag, "input") && check_type {
                    return LayoutChildrenPlan::CheckboxInput;
                } else if same_text(tag, "svg") {
                    return LayoutChildrenPlan::Svg;
                }
            },
            None => {},
        }
        if node.children.len() == 0 && node.before.is_none() && node.after.is_none() {
            return LayoutChildrenPlan::NoChildren;
        }
        proof {
            assert(node_wf(self@[id as int], id as int, self@.len() as int));
        }
        let inside = match node.element_data() {
            Some(e) => match &e.style {
                Some(s) => s.display_inside,
                None => DisplayInside::Flow,
            },
            None => DisplayInside::Flow,
        };
        match inside {
            DisplayInside::NoBox => LayoutChildrenPlan::NoBoxes,
            DisplayInside::Contents => LayoutChildrenPlan::Contents,
            DisplayInside::Flow | DisplayInside::FlowRoot | DisplayInside::TableCell => self.plan_flow(&node.children),
            DisplayInside::Flex | DisplayInside::Grid => self.plan_flex_or_grid(&node.children),
            DisplayInside::Table => LayoutChildrenPlan::Table,
            _ => LayoutChildrenPlan::NonWhitespaceChildren,
        }
    }

    /// Where each child and pseudo-element of `container` goes when the container needs
    /// anonymous boxes (see `complex_item`), in order: the runs of items to wrap become
    /// anonymous blocks, which the caller creates with their styles.
    pub fn complex_layout_items(&self, container: usize, flex_or_grid: bool) -> (r: Vec<ComplexItem>)
        requires
            self.wf(),
            container < self@.len(),
            ids_valid(children_and_pseudos(self@[container as int]), self@.len() as int),
        ensures
            r@ == complex_items(self@, children_and_pseudos(self@[container as int]), flex_or_grid),
    {
        let mut ids: Vec<usize> = Vec::new();
        self.push_children_and_pseudos(&mut ids, container);
        assert(ids@ =~= children_and_pseudos(self@[container as int]));
        let n = ids.len();
        let mut r: Vec<ComplexItem> = Vec::new();
        let mut k: usize = 0;
        proof {
            assert(ids@.take(0) =~= Seq::<usize>::empty());
        }
        while k < n
            invariant
                self.wf(),
                n == ids@.len(),
                ids_valid(ids@, self@.len() as int),
                k <= n,
                r@ == complex_items(self@, ids@.take(k as int), flex_or_grid),
            decreases n - k,
        {
            let c = ids[k];
            proof {
                assert(ids@.take(k + 1).drop_last() =~= ids@.take(k as int));
                assert(ids@.take(k + 1).last() == c);
            }
            let blocky = self.is_or_contains_block(c);
            let outside = if blocky {
                DisplayOutside::Block
            } else {
                self.outside(c)
            };
            let is_text = match &self.nodes[c].data {
                NodeData::Text(_) => true,
                _ => false,
            };
            let is_comment = match &self.nodes[c].data {
                NodeData::Comment { .. } => true,
                _ => false,
            };
            let is_inline = match outside {
                DisplayOutside::Inline => true,
                _ => false,
            };
            if is_comment || (flex_or_grid && self.nodes[c].is_whitespace_node()) {
                assert(r@ =~= complex_items(self@, ids@.take(k + 1), flex_or_grid));
            } else if self.contents_node(c) {
                r.push(ComplexItem::Contents(c));
                assert(r@ =~= complex_items(self@, ids@.take(k + 1), flex_or_grid));
            } else if is_text || (!flex_or_grid && is_inline) {
                r.push(ComplexItem::Wrap(c));
                assert(r@ =~= complex_items(self@, ids@.take(k + 1), flex_or_grid));
            } else {
                r.push(ComplexItem::Own(c));
                assert(r@ =~= complex_items(self@, ids@.take(k + 1), flex_or_grid));
            }
            k = k + 1;
        }
        proof {
            assert(ids@.take(n as int) =~= ids@);
        }
        r
    }

    /// Sets up element `id` as a checkbox (see `checkbox_created`).
    pub fn create_checkbox_input(&mut self, id: usize)
        requires
            old(self).wf(),
            id < old(self)@.len(),
            element_of(old(self)@[id as int].data) is Some,
        ensures
            final(self).wf(),
            same_registries(*old(self), *final(self)),
            final(self)@ == old(self)@.update(id as int, checkbox_created(old(self)@[id as int])),
            links_agree(old(self)@) ==> links_agree(final(self)@),
    {
        self.create_checkbox_input_steps(id);
        proof {
            if links_agree(old(self)@) {
                assert forall|i: int| 0 <= i < old(self)@.len() implies same_links(#[trigger] old(self)@[i], self@[i]) by {
                    assert(crate::flags::is_flag_bit(crate::flags::IS_SHADOW_ROOT));
                }
                lemma_links_frame(old(self)@, self@);
            }
        }
    }

    /// The steps of `create_checkbox_input`.
    fn create_checkbox_input_steps(&mut self, id: usize)
        requires
            old(self).wf(),
            id < old(self)@.len(),
            element_of(old(self)@[id as int].data) is Some,
        ensures
            final(self).wf(),
            same_registries(*old(self), *final(self)),
            final(self)@ == old(self)@.update(id as int, checkbox_created(old(self)@[id as int])),
    {
        let ghost before = self@;
        let checked = match self.nodes[id].element_data() {
            Some(e) => match e.special_data {
                SpecialElementType::CheckboxInput(_) => {
                    assert(self@ =~= before.update(id as int, checkbox_created(before[id as int])));
                    return;
                },
                _ => e.has_attr("checked"),
            },
            None => {
                return;
            },
        };
        let mut d = NodeData::Document;
        std::mem::swap(&mut self.nodes[id].data, &mut d);
        match &mut d {
            NodeData::Element(e) => e.special_data = SpecialElementType::CheckboxInput(checked),
            NodeData::AnonymousBlock(e) => e.special_data = SpecialElementType::CheckboxInput(checked),
            _ => {},
        }
        std::mem::swap(&mut self.nodes[id].data, &mut d);
        proof {
            assert(self@ =~= before.update(id as int, checkbox_created(before[id as int])));
            let len = self@.len() as int;
            assert forall|i: int| 0 <= i < len implies node_wf(#[trigger] self@[i], i, len) by {
                assert(node_wf(before[i], i, len));
            }
        }
    }

    /// Collects the layout children of `container`: resets its construction flags and
    /// decides how its children are laid out (see `layout_children_plan`). Children laid
    /// out as they are go to `out`; an inline root is flagged, queued in `tasks` for its
    /// text layout, gives its embedded boxes to `out` and its inline content its layout
    /// parents; a checkbox or radio input gets its checked state. The other plans are
    /// returned for the caller to carry out: a text editor or image of its own, each
    /// child of a `display: contents` container collected in its place, anonymous boxes,
    /// or a table.
    pub fn collect_layout_children(&mut self, container: usize, out: &mut Vec<usize>, tasks: &mut Vec<usize>) -> (r:
        LayoutChildrenPlan)
        requires
            old(self).wf(),
            container < old(self)@.len(),
        ensures
            final(self).wf(),
            same_registries(*old(self), *final(self)),
            r == layout_children_plan(old(self)@, container as int),
            final(self)@ == collected_nodes(old(self)@, container as int),
            final(out)@ == old(out)@ + collected_children(old(self)@, container as int),
            final(tasks)@ == if r is InlineRoot {
                old(tasks)@.push(container)
            } else {
                old(tasks)@
            },
            links_agree(old(self)@) ==> links_agree(final(self)@),
    {
        let r = self.collect_layout_children_steps(container, out, tasks);
        proof {
            if links_agree(old(self)@) {
                lemma_links_collected(old(self)@, container as int);
            }
        }
        r
    }

    /// The steps of `collect_layout_children`.
    fn collect_layout_children_steps(&mut self, container: usize, out: &mut Vec<usize>, tasks: &mut Vec<usize>) -> (r:
        LayoutChildrenPlan)
        requires
            old(self).wf(),
            container < old(self)@.len(),
        ensures
            final(self).wf(),
            same_registries(*old(self), *final(self)),
            r == layout_children_plan(old(self)@, container as int),
            final(self)@ == collected_nodes(old(self)@, container as int),
            final(out)@ == old(out)@ + collected_children(old(self)@, container as int),
            final(tasks)@ == if r is InlineRoot {
                old(tasks)@.push(container)
            } else {
                old(tasks)@
            },
    {
        let ghost start = self@;
        let plan = self.plan_layout_children(container);
        match plan {
            LayoutChildrenPlan::NonWhitespaceChildren => {
                self.push_non_whitespace_children_and_pseudos(out, container);
            },
            LayoutChildrenPlan::InlineRoot => {
                let boxes = self.find_inline_layout_embedded_boxes(container);
                let mut k: usize = 0;
                let ghost before = out@;
                while k < boxes.len()
                    invariant
                        k <= boxes@.len(),
                        out@ == before + boxes@.take(k as int),
                    decreases boxes@.len() - k,
                {
                    out.push(boxes[k]);
                    proof {
                        assert(boxes@.take(k + 1) =~= boxes@.take(k as int).push(boxes@[k as int]));
                    }
                    k = k + 1;
                }
                proof {
                    assert(boxes@.take(boxes@.len() as int) =~= boxes@);
                }
                tasks.push(container);
                self.assign_inline_layout_parents(container);
            },
            LayoutChildrenPlan::CheckboxInput => {
                self.create_checkbox_input(container);
                assert(old(out)@ + Seq::<usize>::empty() =~= old(out)@);
            },
            _ => {
                assert(old(out)@ + Seq::<usize>::empty() =~= old(out)@);
            },
        }
        let ghost mid = self@;
        proof {
            lemma_layout_parents_only(start, inline_visits(start, container as int));
            assert(mid[container as int].flags == start[container as int].flags);
            assert(checkbox_created(start[container as int]).flags == start[container as int].flags);
        }
        self.nodes[container].flags.reset_construction_flags();
        match plan {
            LayoutChildrenPlan::InlineRoot => {
                self.nodes[container].flags.insert(IS_INLINE_ROOT);
            },
            _ => {},
        }
        proof {
            let len = self@.len() as int;
            assert(self@ =~= with_flag_bits(mid, container as int, self@[container as int].flags.bits));
            assert(self@ =~= collected_nodes(start, container as int));
            assert forall|i: int| 0 <= i < len implies node_wf(#[trigger] self@[i], i, len) by {
                assert(node_wf(mid[i], i, len));
            }
        }
        plan
    }

    /// The layout children of node `id` as they are (see `children_and_pseudos`).
    pub fn push_children_and_pseudos(&self, out: &mut Vec<usize>, id: usize)
        requires
            id < self@.len(),
        ensures
            final(out)@ == old(out)@ + children_and_pseudos(self@[id as int]),
    {
        let node = &self.nodes[id];
        let ghost start = out@;
        match node.before {
            Some(b) => out.push(b),
            None => {},
        }
        let ghost mid = out@;
        let n = node.children.len();
        let mut k: usize = 0;
        while k < n
            invariant
                node == &self@[id as int],
                n == node.children@.len(),
                k <= n,
                out@ == mid + node.children@.take(k as int),
            decreases n - k,
        {
            out.push(node.children[k]);
            proof {
                assert(node.children@.take(k + 1) =~= node.children@.take(k as int).push(node.children@[k as int]));
            }
            k = k + 1;
        }
        proof {
            assert(node.children@.take(n as int) =~= node.children@);
        }
        match node.after {
            Some(a) => out.push(a),
            None => {},
        }
        assert(out@ =~= start + children_and_pseudos(self@[id as int]));
    }

    /// The layout children of node `id` without its white-space text children (see
    /// `non_whitespace_children_and_pseudos`).
    pub fn push_non_whitespace_children_and_pseudos(&self, out: &mut Vec<usize>, id: usize)
        requires
            self.wf(),
            id < self@.len(),
        ensures
            final(out)@ == old(out)@ + non_whitespace_children_and_pseudos(self@, id as int),
    {
        let ghost nodes = self@;
        let ghost keep = |c: usize| !whitespace_node(nodes[c as int]);
        let node = &self.nodes[id];
        proof {
            assert(node_wf(self@[id as int], id as int, self@.len() as int));
        }
        let ghost start = out@;
        match node.before {
            Some(b) => out.push(b),
            None => {},
        }
        let ghost mid = out@;
        let n = node.children.len();
        let mut k: usize = 0;
        while k < n
            invariant
                self.wf(),
                nodes == self@,
                node == &self@[id as int],
                keep == (|c: usize| !whitespace_node(nodes[c as int])),
                n == node.children@.len(),
                forall|j: int| 0 <= j < n ==> #[trigger] node.children@[j] < self@.len(),
                k <= n,
                out@ == mid + node.children@.take(k as int).filter(keep),
            decreases n - k,
        {
            let c = node.children[k];
            proof {
                reveal(Seq::filter);
                assert(node.children@.take(k + 1).drop_last() =~= node.children@.take(k as int));
                assert(node.children@.take(k + 1).last() == c);
            }
            if !self.nodes[c].is_whitespace_node() {
                out.push(c);
            }
            k = k + 1;
        }
        proof {
            assert(node.children@.take(n as int) =~= node.children@);
        }
        match node.after {
            Some(a) => out.push(a),
            None => {},
        }
        assert(out@ =~= start + non_whitespace_children_and_pseudos(self@, id as int));
    }
}

} // verus!
