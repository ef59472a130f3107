use blitz_dom::document::BaseDocument;
use blitz_dom::flags::IS_STICKY;
use blitz_dom::list_marker::{ListStylePosition, ListStyleType};
use blitz_dom::node::{DisplayInside, DisplayOutside, ElementStyle, Float, NodeData, Position, QualName, WhiteSpaceCollapse};
use blitz_dom::sticky::{overconstraint_winners, Direction, StickyEntry, WritingMode};

const HTML: &str = "http://www.w3.org/1999/xhtml";

fn styled(doc: &mut BaseDocument, parent: usize) -> usize {
    let id = doc.create_element(QualName::new(HTML, "div"), vec![]);
    if let NodeData::Element(e) = &mut doc.nodes[id].data {
        e.style = Some(ElementStyle {
            display_list_item: false,
            list_style_type: ListStyleType::disc(),
            list_style_position: ListStylePosition::Outside,
            position: Position::Sticky,
            float: Float::NoFloat,
            display_outside: DisplayOutside::Block,
            display_inside: DisplayInside::Flow,
            white_space_collapse: WhiteSpaceCollapse::Collapse,
            order: 0,
        });
    }
    doc.append_children(parent, &[id]);
    id
}

#[test]
fn registry_is_ordered_by_depth_and_mirrors_the_flag() {
    let mut doc = BaseDocument::new();
    let root = doc.root_node_id();
    let a = styled(&mut doc, root);
    let b = styled(&mut doc, a);
    let c = styled(&mut doc, root);
    doc.note_sticky(b, true);
    doc.note_sticky(a, true);
    doc.note_sticky(c, true);
    assert_eq!(
        doc.sticky_nodes,
        vec![
            StickyEntry { node: a, depth: 1 },
            StickyEntry { node: c, depth: 1 },
            StickyEntry { node: b, depth: 2 },
        ]
    );
    assert!(doc.node(b).flags.contains(IS_STICKY));
    // Registering again changes nothing.
    doc.note_sticky(b, true);
    assert_eq!(doc.sticky_nodes.len(), 3);
    doc.note_sticky(a, false);
    assert!(!doc.node(a).flags.contains(IS_STICKY));
    assert_eq!(doc.sticky_nodes, vec![StickyEntry { node: c, depth: 1 }, StickyEntry { node: b, depth: 2 }]);
}

#[test]
fn update_drops_nodes_that_left_the_document() {
    let mut doc = BaseDocument::new();
    let root = doc.root_node_id();
    let a = styled(&mut doc, root);
    let b = styled(&mut doc, root);
    doc.note_sticky(a, true);
    doc.note_sticky(b, true);
    doc.remove_node(a);
    doc.update_sticky_offsets();
    assert_eq!(doc.sticky_nodes, vec![StickyEntry { node: b, depth: 1 }]);
    assert!(!doc.node(a).flags.contains(IS_STICKY), "a dropped node registers again when it comes back");
    assert!(doc.node(b).flags.contains(IS_STICKY));
}

#[test]
fn writing_mode_and_direction_pick_the_winner() {
    assert_eq!(overconstraint_winners(WritingMode::HorizontalTb, Direction::Ltr), (true, true));
    assert_eq!(overconstraint_winners(WritingMode::HorizontalTb, Direction::Rtl), (false, true));
    assert_eq!(overconstraint_winners(WritingMode::VerticalRl, Direction::Ltr), (false, true));
    assert_eq!(overconstraint_winners(WritingMode::VerticalLr, Direction::Rtl), (true, false));
}
