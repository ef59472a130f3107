use blitz_dom::document::BaseDocument;
use blitz_dom::flags::IS_INLINE_ROOT;
use blitz_dom::list_marker::{ListStylePosition, ListStyleType};
use blitz_dom::node::{DisplayInside, DisplayOuter, DisplayOutside, ElementStyle, Float, NodeData, Position, QualName, WhiteSpaceCollapse};

const HTML: &str = "http://www.w3.org/1999/xhtml";

fn styled(doc: &mut BaseDocument, tag: &str, position: Position) -> usize {
    let id = doc.create_element(QualName::new(HTML, tag), vec![]);
    if let NodeData::Element(e) = &mut doc.nodes[id].data {
        e.style = Some(ElementStyle {
            display_list_item: false,
            list_style_type: ListStyleType::disc(),
            list_style_position: ListStylePosition::Outside,
            position,
            float: Float::NoFloat,
            display_outside: DisplayOutside::Block,
            display_inside: DisplayInside::Flow,
            white_space_collapse: WhiteSpaceCollapse::Collapse,
            order: 0,
        });
    }
    id
}

#[test]
fn the_inline_root_is_the_nearest_flagged_layout_ancestor() {
    let mut doc = BaseDocument::new();
    let block = styled(&mut doc, "div", Position::Static);
    let para = styled(&mut doc, "p", Position::Static);
    let span = styled(&mut doc, "span", Position::Static);
    doc.nodes[para].layout_parent = Some(block);
    doc.nodes[span].layout_parent = Some(para);
    assert_eq!(doc.inline_root_ancestor(span), None);
    doc.nodes[block].flags.insert(IS_INLINE_ROOT);
    assert_eq!(doc.inline_root_ancestor(span), Some(block));
    doc.nodes[para].flags.insert(IS_INLINE_ROOT);
    assert_eq!(doc.inline_root_ancestor(span), Some(para));
    assert_eq!(doc.inline_root_ancestor(para), Some(para), "a node can be its own inline root");
}

#[test]
fn offset_parents_are_positioned_or_table_cells_or_body() {
    let mut doc = BaseDocument::new();
    let body = styled(&mut doc, "body", Position::Static);
    let relative = styled(&mut doc, "section", Position::Relative);
    let cell = styled(&mut doc, "td", Position::Static);
    let plain = styled(&mut doc, "div", Position::Static);
    let leaf = styled(&mut doc, "span", Position::Static);
    doc.nodes[relative].layout_parent = Some(body);
    doc.nodes[cell].layout_parent = Some(relative);
    doc.nodes[plain].layout_parent = Some(cell);
    doc.nodes[leaf].layout_parent = Some(plain);
    assert_eq!(doc.offset_parent(leaf), Some(cell));
    assert_eq!(doc.offset_parent(cell), Some(relative));
    assert_eq!(doc.offset_parent(relative), Some(body));
    assert_eq!(doc.offset_parent(body), None);

    assert!(doc.node(body).is_offset_parent());
    assert!(doc.node(body).is_static_body());
    assert!(!doc.node(relative).is_static_body());
    assert!(!doc.node(plain).is_offset_parent());
    let text = doc.create_text_node("t");
    assert!(!doc.node(text).is_offset_parent());
}

fn displayed(doc: &mut BaseDocument, outside: DisplayOutside, inside: DisplayInside, position: Position, float: Float) -> usize {
    let id = doc.create_element(QualName::new(HTML, "div"), vec![]);
    if let NodeData::Element(e) = &mut doc.nodes[id].data {
        e.style = Some(ElementStyle {
            display_list_item: false,
            list_style_type: ListStyleType::disc(),
            list_style_position: ListStylePosition::Outside,
            position,
            float,
            display_outside: outside,
            display_inside: inside,
            white_space_collapse: WhiteSpaceCollapse::Collapse,
            order: 0,
        });
    }
    id
}

#[test]
fn blocks_in_flow_break_up_their_inline_ancestors() {
    let mut doc = BaseDocument::new();
    let block = displayed(&mut doc, DisplayOutside::Block, DisplayInside::Flow, Position::Static, Float::NoFloat);
    let span = displayed(&mut doc, DisplayOutside::Inline, DisplayInside::Flow, Position::Static, Float::NoFloat);
    let outer = displayed(&mut doc, DisplayOutside::Inline, DisplayInside::Flow, Position::Relative, Float::NoFloat);
    let text = doc.create_text_node("words");
    assert!(doc.is_or_contains_block(block));
    assert!(!doc.is_or_contains_block(span));
    assert!(!doc.is_or_contains_block(text), "an unstyled text node is inline");
    doc.append_children(span, &[text]);
    assert!(!doc.is_or_contains_block(span));
    doc.append_children(span, &[block]);
    assert!(doc.is_or_contains_block(span));
    doc.append_children(outer, &[span]);
    assert!(doc.is_or_contains_block(outer), "blocks are found at any depth");
}

#[test]
fn out_of_flow_hidden_and_non_flow_boxes_hold_no_block() {
    let mut doc = BaseDocument::new();
    let floated = displayed(&mut doc, DisplayOutside::Block, DisplayInside::Flow, Position::Static, Float::Left);
    let absolute = displayed(&mut doc, DisplayOutside::Block, DisplayInside::Flow, Position::Absolute, Float::NoFloat);
    let hidden = displayed(&mut doc, DisplayOutside::NoBox, DisplayInside::NoBox, Position::Static, Float::NoFloat);
    let sticky = displayed(&mut doc, DisplayOutside::Block, DisplayInside::Flow, Position::Sticky, Float::NoFloat);
    let caption = displayed(&mut doc, DisplayOutside::TableCaption, DisplayInside::Flow, Position::Static, Float::NoFloat);
    let flex = displayed(&mut doc, DisplayOutside::Inline, DisplayInside::Flex, Position::Static, Float::NoFloat);
    let block = displayed(&mut doc, DisplayOutside::Block, DisplayInside::Flow, Position::Static, Float::NoFloat);
    assert!(!doc.is_or_contains_block(floated));
    assert!(!doc.is_or_contains_block(absolute));
    assert!(!doc.is_or_contains_block(hidden));
    assert!(doc.is_or_contains_block(sticky));
    doc.append_children(flex, &[block]);
    assert!(!doc.is_or_contains_block(flex), "only inline flow boxes are looked into");
    doc.append_children(caption, &[floated]);
    assert!(!doc.is_or_contains_block(caption));
    assert_eq!(DisplayOutside::TableCaption.outer(), DisplayOuter::Block);
    assert_eq!(DisplayOutside::InternalTable.outer(), DisplayOuter::Block);
    assert_eq!(DisplayOutside::NoBox.outer(), DisplayOuter::NoBox);
    assert_eq!(DisplayOutside::Inline.outer(), DisplayOuter::Inline);
}
