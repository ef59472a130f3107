use blitz_dom::document::BaseDocument;
use blitz_dom::node::{Attribute, QualName};

const HTML: &str = "http://www.w3.org/1999/xhtml";

fn with_id(doc: &mut BaseDocument, tag: &str, id: &str) -> usize {
    doc.create_element(QualName::new(HTML, tag), vec![Attribute::new("id", id)])
}

#[test]
fn the_only_element_with_an_id_is_found() {
    let mut doc = BaseDocument::new();
    let root = doc.root_node_id();
    let main = with_id(&mut doc, "main", "content");
    doc.append_children(root, &[main]);
    assert_eq!(doc.get_element_by_id("content"), Some(main));
    assert_eq!(doc.get_element_by_id("other"), None);
    assert_eq!(doc.get_element_by_id(""), None);
}

#[test]
fn shared_ids_resolve_to_the_first_in_tree_order() {
    let mut doc = BaseDocument::new();
    let root = doc.root_node_id();
    let later = with_id(&mut doc, "p", "dup");
    let outer = doc.create_element(QualName::new(HTML, "div"), vec![]);
    let earlier = with_id(&mut doc, "span", "dup");
    doc.append_children(root, &[outer, later]);
    doc.append_children(outer, &[earlier]);
    // `later` was created first, but `earlier` comes first in the tree.
    assert_eq!(doc.get_element_by_id("dup"), Some(earlier));
    doc.remove_node(outer);
    assert_eq!(doc.get_element_by_id("dup"), Some(later));
    assert_eq!(doc.get_fragment_target("dup"), Some(later));
}

#[test]
fn detached_elements_are_not_found_by_id() {
    let mut doc = BaseDocument::new();
    let detached = with_id(&mut doc, "div", "gone");
    assert_eq!(doc.get_element_by_id("gone"), None);
    let root = doc.root_node_id();
    doc.append_children(root, &[detached]);
    assert_eq!(doc.get_element_by_id("gone"), Some(detached));
    doc.set_attribute(detached, QualName::new("", "id"), "renamed");
    assert_eq!(doc.get_element_by_id("gone"), None);
    assert_eq!(doc.get_element_by_id("renamed"), Some(detached));
}

#[test]
fn an_empty_id_names_no_element() {
    let mut doc = BaseDocument::new();
    let root = doc.root_node_id();
    let blank = with_id(&mut doc, "div", "");
    doc.append_children(root, &[blank]);
    assert_eq!(doc.get_element_by_id(""), None);
}
