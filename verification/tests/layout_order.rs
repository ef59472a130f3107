use blitz_dom::document::BaseDocument;
use blitz_dom::layout_order::{
    float_to_order, in_flow_paint_order, node_to_paint_order, position_to_order, SortKey,
};
use blitz_dom::list_marker::{ListStylePosition, ListStyleType};
use blitz_dom::node::{DisplayInside, DisplayOutside, ElementStyle, Float, NodeData, Position, QualName, WhiteSpaceCollapse};

const HTML: &str = "http://www.w3.org/1999/xhtml";

fn styled(doc: &mut BaseDocument, position: Position, float: Float, order: i32) -> usize {
    let id = doc.create_element(QualName::new(HTML, "div"), vec![]);
    if let NodeData::Element(e) = &mut doc.nodes[id].data {
        e.style = Some(ElementStyle {
            display_list_item: false,
            list_style_type: ListStyleType::disc(),
            list_style_position: ListStylePosition::Outside,
            position,
            float,
            display_outside: DisplayOutside::Block,
            display_inside: DisplayInside::Flow,
            white_space_collapse: WhiteSpaceCollapse::Collapse,
            order,
        });
    }
    id
}

#[test]
fn paint_levels_of_positions_and_floats() {
    assert_eq!(position_to_order(Position::Static), 0);
    assert_eq!(position_to_order(Position::Relative), 2);
    assert_eq!(position_to_order(Position::Sticky), 2);
    assert_eq!(position_to_order(Position::Absolute), 2);
    assert_eq!(position_to_order(Position::Fixed), 2);
    assert_eq!(float_to_order(Float::NoFloat), 0);
    assert_eq!(float_to_order(Float::Left), 1);
    assert_eq!(float_to_order(Float::Right), 1);
}

#[test]
fn paint_keys_of_styled_and_unstyled_nodes() {
    let mut doc = BaseDocument::new();
    let floated_relative = styled(&mut doc, Position::Relative, Float::Left, 5);
    let absolute = styled(&mut doc, Position::Absolute, Float::NoFloat, 7);
    let plain = styled(&mut doc, Position::Static, Float::NoFloat, -3);
    let text = doc.create_text_node("t");

    assert_eq!(node_to_paint_order(doc.node(floated_relative), false), (3, 0));
    assert_eq!(node_to_paint_order(doc.node(floated_relative), true), (2, 5));
    assert_eq!(node_to_paint_order(doc.node(absolute), true), (2, 0), "order does not apply out of flow");
    assert_eq!(node_to_paint_order(doc.node(plain), true), (0, -3));
    assert_eq!(node_to_paint_order(doc.node(text), true), (0, 0));

    assert_eq!(in_flow_paint_order(doc.node(floated_relative), false), (1, 0));
    assert_eq!(in_flow_paint_order(doc.node(plain), true), (0, -3));
    assert_eq!(in_flow_paint_order(doc.node(text), false), (0, 0));
    assert_eq!(doc.node(plain).order(), -3);
    assert_eq!(doc.node(text).order(), 0);
}

#[test]
fn layout_children_sort_by_order_and_keep_tree_order_among_equals() {
    let mut doc = BaseDocument::new();
    let a = styled(&mut doc, Position::Static, Float::NoFloat, 2);
    let b = styled(&mut doc, Position::Static, Float::NoFloat, 0);
    let c = styled(&mut doc, Position::Static, Float::NoFloat, 2);
    let d = styled(&mut doc, Position::Static, Float::NoFloat, -1);
    let e = doc.create_text_node("e");
    let mut children = vec![a, b, c, d, e];
    doc.sort_layout_children_by_order(&mut children);
    assert_eq!(children, vec![d, b, e, a, c]);

    // Sorting a sorted list changes nothing.
    let again = children.clone();
    doc.sort_layout_children_by_order(&mut children);
    assert_eq!(children, again);
}

#[test]
fn paint_children_put_positioned_boxes_last_in_tree_order() {
    let mut doc = BaseDocument::new();
    let positioned = styled(&mut doc, Position::Relative, Float::NoFloat, 0);
    let floated = styled(&mut doc, Position::Static, Float::Right, 0);
    let plain = styled(&mut doc, Position::Static, Float::NoFloat, 0);
    let absolute = styled(&mut doc, Position::Absolute, Float::NoFloat, 0);
    let mut children = vec![positioned, floated, plain, absolute];
    doc.sort_children_by_key(&mut children, SortKey::Paint { is_flex_or_grid: false });
    assert_eq!(children, vec![plain, floated, positioned, absolute]);

    let mut in_flow = vec![floated, plain];
    doc.sort_children_by_key(&mut in_flow, SortKey::InFlow { is_flex_or_grid: false });
    assert_eq!(in_flow, vec![plain, floated]);
}

#[test]
fn flex_items_paint_by_order_within_a_level() {
    let mut doc = BaseDocument::new();
    let late = styled(&mut doc, Position::Static, Float::NoFloat, 3);
    let early = styled(&mut doc, Position::Static, Float::Left, 1);
    let relative = styled(&mut doc, Position::Relative, Float::NoFloat, -5);
    let fixed = styled(&mut doc, Position::Fixed, Float::NoFloat, -9);
    let mut children = vec![late, early, relative, fixed];
    doc.sort_children_by_key(&mut children, SortKey::Paint { is_flex_or_grid: true });
    assert_eq!(children, vec![early, late, relative, fixed]);
    let mut in_flow = vec![late, early];
    doc.sort_children_by_key(&mut in_flow, SortKey::InFlow { is_flex_or_grid: true });
    assert_eq!(in_flow, vec![early, late]);
}
