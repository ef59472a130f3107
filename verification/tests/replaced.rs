use blitz_dom::list_marker::{ListStylePosition, ListStyleType};
use blitz_dom::node::{DisplayInside, DisplayOutside, ElementStyle, Float, Position, WhiteSpaceCollapse};
use blitz_dom::replaced::{is_block_container, is_replaced_element};

#[test]
fn replaced_elements_are_the_embedded_content_tags() {
    for tag in ["img", "svg", "canvas", "video", "embed", "iframe"] {
        assert!(is_replaced_element(tag), "{tag}");
    }
    for tag in ["object", "div", "picture", "IMG", "", "iframes"] {
        assert!(!is_replaced_element(tag), "{tag}");
    }
}

fn with_inside(inside: DisplayInside) -> ElementStyle {
    ElementStyle {
        display_list_item: false,
        list_style_type: ListStyleType::disc(),
        list_style_position: ListStylePosition::Outside,
        position: Position::Static,
        float: Float::NoFloat,
        display_outside: DisplayOutside::Block,
        display_inside: inside,
        white_space_collapse: WhiteSpaceCollapse::Collapse,
        order: 0,
    }
}

#[test]
fn block_containers_lay_out_their_children_as_flow() {
    assert!(is_block_container(&with_inside(DisplayInside::Flow)));
    assert!(is_block_container(&with_inside(DisplayInside::FlowRoot)));
    assert!(!is_block_container(&with_inside(DisplayInside::Flex)));
    assert!(!is_block_container(&with_inside(DisplayInside::Grid)));
    assert!(!is_block_container(&with_inside(DisplayInside::Table)));
}
