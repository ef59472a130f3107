use blitz_dom::document::BaseDocument;
use blitz_dom::list_marker::{CounterStyle, ListItemLayoutPosition, ListStylePosition, ListStyleType, Marker};
use blitz_dom::list_items::{list_numbering, try_list_numbering};
use blitz_dom::node::{Attribute, DisplayInside, DisplayOutside, ElementData, ElementStyle, Float, NodeData, Position, QualName, WhiteSpaceCollapse};

const HTML: &str = "http://www.w3.org/1999/xhtml";

fn item(doc: &mut BaseDocument, tag: &str, style: &str, list_item: bool) -> usize {
    let id = doc.create_element(QualName::new(HTML, tag), vec![]);
    if let NodeData::Element(e) = &mut doc.nodes[id].data {
        e.style = Some(ElementStyle {
            display_list_item: list_item,
            list_style_type: ListStyleType(CounterStyle::Name(style.to_string())),
            list_style_position: ListStylePosition::Inside,
            position: Position::Static,
            float: Float::NoFloat,
            display_outside: DisplayOutside::Block,
            display_inside: DisplayInside::Flow,
            white_space_collapse: WhiteSpaceCollapse::Collapse,
            order: 0,
        });
    }
    id
}

fn marker(doc: &BaseDocument, id: usize) -> Option<Marker> {
    doc.node(id).element_data().unwrap().list_item_data.as_ref().map(|l| l.marker.clone())
}

#[test]
fn items_are_numbered_in_order_and_through_nested_items() {
    let mut doc = BaseDocument::new();
    let ol = item(&mut doc, "ol", "decimal", false);
    let first = item(&mut doc, "li", "decimal", true);
    let nested = item(&mut doc, "li", "decimal", true);
    let not_item = item(&mut doc, "p", "decimal", false);
    let second = item(&mut doc, "li", "decimal", true);
    doc.append_children(first, &[nested]);
    doc.append_children(ol, &[first, not_item, second]);
    let mut index = 0;
    doc.collect_list_item_children(&mut index, false, ol);
    assert_eq!(index, 3);
    assert_eq!(marker(&doc, first), Some(Marker::String("1. ".to_string())));
    assert_eq!(marker(&doc, nested), Some(Marker::String("2. ".to_string())));
    assert_eq!(marker(&doc, second), Some(Marker::String("3. ".to_string())));
    assert_eq!(marker(&doc, not_item), None);
    assert_eq!(
        doc.node(first).element_data().unwrap().list_item_data.as_ref().unwrap().position,
        ListItemLayoutPosition::Inside
    );
}

#[test]
fn reversed_lists_number_from_the_end() {
    let mut doc = BaseDocument::new();
    let ol = item(&mut doc, "ol", "lower-alpha", false);
    let a = item(&mut doc, "li", "lower-alpha", true);
    let b = item(&mut doc, "li", "lower-alpha", true);
    doc.append_children(ol, &[a, b]);
    let mut index = 0;
    doc.collect_list_item_children(&mut index, true, ol);
    assert_eq!(marker(&doc, b), Some(Marker::String("a. ".to_string())));
    assert_eq!(marker(&doc, a), Some(Marker::String("b. ".to_string())));
}

#[test]
fn nested_lists_are_not_items_of_the_outer_list() {
    let mut doc = BaseDocument::new();
    let ul = item(&mut doc, "ul", "disc", false);
    let inner = item(&mut doc, "ul", "disc", true);
    let li = item(&mut doc, "li", "disc", true);
    doc.append_children(ul, &[inner, li]);
    assert!(doc.node_list_item_child(inner, 0).is_none());
    let mut index = 1;
    doc.collect_list_item_children(&mut index, false, ul);
    assert_eq!(index, 2);
    assert_eq!(marker(&doc, li), Some(Marker::Char('•')));
    assert_eq!(marker(&doc, inner), None);
}

fn list(tag: &str, attrs: Vec<Attribute>) -> ElementData {
    ElementData::new(QualName::new(HTML, tag), attrs)
}

#[test]
fn ordered_lists_count_from_their_start_attribute() {
    assert_eq!(list_numbering(&list("ol", vec![])), (0, false));
    assert_eq!(list_numbering(&list("ol", vec![Attribute::new("start", "5")])), (4, false));
    assert_eq!(list_numbering(&list("ol", vec![Attribute::new("start", "x")])), (0, false));
    assert_eq!(
        list_numbering(&list("ol", vec![Attribute::new("start", "3"), Attribute::new("reversed", "true")])),
        (2, true)
    );
    assert_eq!(list_numbering(&list("ol", vec![Attribute::new("reversed", "")])), (0, false));
    assert_eq!(list_numbering(&list("ul", vec![Attribute::new("start", "9")])), (1, false));
}

#[test]
fn a_start_of_zero_has_no_numbering() {
    assert_eq!(try_list_numbering(&list("ol", vec![Attribute::new("start", "0")])), None);
    assert_eq!(try_list_numbering(&list("ol", vec![Attribute::new("start", "1")])), Some((0, false)));
    assert_eq!(try_list_numbering(&list("ul", vec![Attribute::new("start", "0")])), Some((1, false)));
}

#[test]
fn start_attributes_are_read_as_unsigned_decimal_numbers() {
    let start = |v: &str| list_numbering(&list("ol", vec![Attribute::new("start", v)]));
    assert_eq!(start("+7"), (6, false));
    assert_eq!(start("007"), (6, false));
    assert_eq!(start("-3"), (0, false));
    assert_eq!(start(" 3"), (0, false));
    assert_eq!(start("3 "), (0, false));
    assert_eq!(start("+"), (0, false));
    assert_eq!(start(""), (0, false));
    assert_eq!(start("18446744073709551615"), (18446744073709551614, false));
    assert_eq!(start("18446744073709551616"), (0, false));
    assert_eq!(start("99999999999999999999"), (0, false));
    let reversed = |v: &str| list_numbering(&list("ol", vec![Attribute::new("reversed", v)]));
    assert_eq!(reversed("true"), (0, true));
    assert_eq!(reversed("false"), (0, false));
    assert_eq!(reversed("True"), (0, false));
}
