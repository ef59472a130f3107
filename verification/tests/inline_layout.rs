use blitz_dom::document::BaseDocument;
use blitz_dom::inline_layout::{InlineBoxKind, InlineCommand};
use blitz_dom::list_marker::{ListItemLayout, ListItemLayoutPosition, ListStylePosition, ListStyleType, Marker};
use blitz_dom::node::{
    Attribute, DisplayInside, DisplayOutside, ElementStyle, Float, NodeData, Position, QualName,
    WhiteSpaceCollapse,
};

const HTML: &str = "http://www.w3.org/1999/xhtml";

fn plain(doc: &mut BaseDocument, tag: &str) -> usize {
    doc.create_element(QualName::new(HTML, tag), vec![])
}

fn styled(
    doc: &mut BaseDocument,
    tag: &str,
    display: (DisplayOutside, DisplayInside),
    position: Position,
    float: Float,
    white_space_collapse: WhiteSpaceCollapse,
) -> usize {
    let id = plain(doc, tag);
    if let NodeData::Element(e) = &mut doc.nodes[id].data {
        e.style = Some(ElementStyle {
            display_list_item: false,
            list_style_type: ListStyleType::disc(),
            list_style_position: ListStylePosition::Outside,
            position,
            float,
            display_outside: display.0,
            display_inside: display.1,
            white_space_collapse,
            order: 0,
        });
    }
    id
}

const BLOCK: (DisplayOutside, DisplayInside) = (DisplayOutside::Block, DisplayInside::Flow);

struct Sample {
    doc: BaseDocument,
    root: usize,
    t1: usize,
    span: usize,
    t2: usize,
    img: usize,
    br: usize,
    abs: usize,
    contents: usize,
    button: usize,
}

fn sample() -> Sample {
    let mut doc = BaseDocument::new();
    let c = WhiteSpaceCollapse::Collapse;
    let root = styled(&mut doc, "div", BLOCK, Position::Static, Float::NoFloat, c);
    let t1 = doc.create_text_node("Hello ");
    let span = plain(&mut doc, "span");
    let t2 = doc.create_text_node("world");
    let img = plain(&mut doc, "img");
    let br = plain(&mut doc, "br");
    let abs = styled(&mut doc, "div", BLOCK, Position::Absolute, Float::NoFloat, c);
    let hidden = doc.create_element(QualName::new(HTML, "input"), vec![Attribute::new("type", "hidden")]);
    let none = styled(&mut doc, "div", (DisplayOutside::NoBox, DisplayInside::NoBox), Position::Static, Float::NoFloat, c);
    let contents =
        styled(&mut doc, "div", (DisplayOutside::NoBox, DisplayInside::Contents), Position::Static, Float::NoFloat, c);
    let button = plain(&mut doc, "button");
    doc.append_children(span, &[t2, img]);
    doc.append_children(contents, &[button]);
    doc.append_children(root, &[t1, span, br, abs, hidden, none, contents]);
    Sample { doc, root, t1, span, t2, img, br, abs, contents, button }
}

#[test]
fn embedded_boxes_are_the_atomic_and_non_inline_boxes_in_document_order() {
    let s = sample();
    assert_eq!(s.doc.find_inline_layout_embedded_boxes(s.root), vec![s.img, s.abs, s.button]);
    // A `br` and plain text hold no boxes.
    assert!(s.doc.find_inline_layout_embedded_boxes(s.br).is_empty());
    assert!(s.doc.find_inline_layout_embedded_boxes(s.t1).is_empty());
}

#[test]
fn inline_commands_follow_the_content_in_document_order() {
    let s = sample();
    let c = WhiteSpaceCollapse::Collapse;
    let expected = vec![
        InlineCommand::SetWhiteSpace(c),
        InlineCommand::SetWhiteSpace(c),
        InlineCommand::PushText(s.t1),
        InlineCommand::SetWhiteSpace(c),
        InlineCommand::PushStyleSpan(s.span),
        InlineCommand::SetWhiteSpace(c),
        InlineCommand::PushText(s.t2),
        InlineCommand::SetWhiteSpace(c),
        InlineCommand::PushInlineBox { id: s.img, kind: InlineBoxKind::InFlow },
        InlineCommand::PopStyleSpan,
        InlineCommand::SetWhiteSpace(c),
        InlineCommand::PushEmptySpan,
        InlineCommand::SetWhiteSpace(WhiteSpaceCollapse::Preserve),
        InlineCommand::PushNewline,
        InlineCommand::PopStyleSpan,
        InlineCommand::SetWhiteSpace(c),
        InlineCommand::SetWhiteSpace(c),
        InlineCommand::PushInlineBox { id: s.abs, kind: InlineBoxKind::OutOfFlow },
        InlineCommand::SetWhiteSpace(c),
        InlineCommand::SetWhiteSpace(c),
        InlineCommand::SetWhiteSpace(c),
        InlineCommand::SetWhiteSpace(c),
        InlineCommand::PushInlineBox { id: s.button, kind: InlineBoxKind::InFlow },
    ];
    assert_eq!(s.doc.inline_layout_commands(s.root), expected);
    let _ = s.contents;
}

#[test]
fn pseudo_elements_markers_floats_and_preserved_white_space() {
    let mut doc = BaseDocument::new();
    let p = WhiteSpaceCollapse::Preserve;
    let root = styled(&mut doc, "li", BLOCK, Position::Static, Float::NoFloat, p);
    let before = doc.create_text_node("> ");
    let floated = styled(&mut doc, "span", BLOCK, Position::Static, Float::Left, WhiteSpaceCollapse::Collapse);
    let after = plain(&mut doc, "img");
    doc.append_children(root, &[floated]);
    doc.nodes[root].before = Some(before);
    doc.nodes[root].after = Some(after);
    if let NodeData::Element(e) = &mut doc.nodes[root].data {
        e.list_item_data = Some(ListItemLayout { marker: Marker::Char('•'), position: ListItemLayoutPosition::Inside });
    }
    assert_eq!(
        doc.inline_layout_commands(root),
        vec![
            InlineCommand::SetWhiteSpace(p),
            InlineCommand::PushMarker,
            InlineCommand::SetWhiteSpace(p),
            InlineCommand::PushText(before),
            InlineCommand::SetWhiteSpace(WhiteSpaceCollapse::Collapse),
            InlineCommand::PushInlineBox { id: floated, kind: InlineBoxKind::CustomOutOfFlow },
            InlineCommand::SetWhiteSpace(p),
            InlineCommand::PushInlineBox { id: after, kind: InlineBoxKind::InFlow },
        ]
    );
    assert_eq!(doc.find_inline_layout_embedded_boxes(root), vec![floated, after]);
}

#[test]
fn inline_content_takes_its_layout_parents_from_the_walk() {
    let mut s = sample();
    s.doc.assign_inline_layout_parents(s.root);
    let lp = |id: usize| s.doc.nodes[id].layout_parent;
    assert_eq!(lp(s.t1), Some(s.root));
    assert_eq!(lp(s.span), Some(s.root));
    assert_eq!(lp(s.t2), Some(s.span), "content of an inline element is laid out under it");
    assert_eq!(lp(s.img), Some(s.span));
    assert_eq!(lp(s.contents), Some(s.root));
    assert_eq!(lp(s.button), Some(s.root), "display: contents hands its children to its own parent");
    assert_eq!(lp(s.abs), Some(s.root));
    assert_eq!(lp(s.root), None);
}
