use blitz_dom::document::BaseDocument;
use blitz_dom::mutator::AppendTextErr;
use blitz_dom::node::{Attribute, ElementData, NodeData, QualName, SpecialElementType};

const HTML: &str = "http://www.w3.org/1999/xhtml";

fn element(local: &str, attrs: Vec<Attribute>) -> NodeData {
    NodeData::Element(ElementData::new(QualName::new(HTML, local), attrs))
}

fn attr_name(local: &str) -> QualName {
    QualName::new("", local)
}

#[test]
fn mutator_remove_disabled() {
    let mut document = BaseDocument::new();
    let id = document.create_node(element("button", vec![Attribute::new("disabled", "")]));

    let node = document.get_node(id).unwrap();
    assert!(node.element_state().disabled, "form node is disabled");
    assert!(!node.element_state().enabled, "form node is not enabled yet");

    document.clear_attribute(id, attr_name("disabled"));
    document.flush_mutations();

    let node = document.get_node(id).unwrap();
    assert!(!node.element_state().disabled, "form node is no longer disabled");
    assert!(node.element_state().enabled, "form node is enabled");
}

#[test]
fn mutator_set_disabled() {
    let mut document = BaseDocument::new();
    let id = document.create_node(element("button", vec![]));

    let node = document.get_node(id).unwrap();
    assert!(!node.element_state().disabled, "form node is not disabled");
    assert!(node.element_state().enabled, "form node is enabled");

    document.set_attribute(id, attr_name("disabled"), "");
    document.flush_mutations();

    let node = document.get_node(id).unwrap();
    assert!(node.element_state().disabled, "form node is disabled");
    assert!(!node.element_state().enabled, "form node is no longer enabled enabled");
}

#[test]
fn mutator_set_disabled_invalid_node() {
    let mut document = BaseDocument::new();
    let id = document.create_node(element("a", vec![]));

    let node = document.get_node(id).unwrap();
    assert!(!node.element_state().disabled, "form node is not disabled");
    assert!(!node.element_state().enabled, "form node is enabled");

    document.set_attribute(id, attr_name("disabled"), "");
    document.flush_mutations();

    let node = document.get_node(id).unwrap();
    assert!(!node.element_state().disabled, "form node is not disabled");
    assert!(!node.element_state().enabled, "form node is enabled");
}

#[test]
fn moving_subtree_out_of_document_clears_in_document_flag() {
    let mut document = BaseDocument::new();
    let mut redraw_requests = 0;
    let root_id = document.root_node_id();
    let in_document_parent_id = document.create_element(QualName::new(HTML, "div"), vec![]);
    let child_id = document.create_element(QualName::new(HTML, "div"), vec![]);
    let grandchild_id = document.create_element(QualName::new(HTML, "span"), vec![]);
    let detached_parent_id = document.create_element(QualName::new(HTML, "section"), vec![]);
    document.append_children(root_id, &[in_document_parent_id]);
    document.append_children(in_document_parent_id, &[child_id]);
    document.append_children(child_id, &[grandchild_id]);
    if document.flush_mutations() {
        redraw_requests += 1;
    }
    assert_eq!(redraw_requests, 1);
    assert!(document.get_node(child_id).unwrap().flags.is_in_document());
    assert!(document.get_node(grandchild_id).unwrap().flags.is_in_document());

    document.append_children(detached_parent_id, &[child_id]);
    if document.flush_mutations() {
        redraw_requests += 1;
    }
    assert_eq!(redraw_requests, 2);
    assert!(!document.get_node(child_id).unwrap().flags.is_in_document());
    assert!(!document.get_node(grandchild_id).unwrap().flags.is_in_document());

    document.set_attribute(child_id, attr_name("id"), "detached");
    if document.flush_mutations() {
        redraw_requests += 1;
    }
    assert_eq!(redraw_requests, 2);

    document.append_children(root_id, &[child_id]);
    if document.flush_mutations() {
        redraw_requests += 1;
    }
    assert_eq!(redraw_requests, 3);
    assert!(document.get_node(child_id).unwrap().flags.is_in_document());
    assert!(document.get_node(grandchild_id).unwrap().flags.is_in_document());
}

#[test]
fn set_attribute_reads_back_and_updates_the_cached_id() {
    let mut document = BaseDocument::new();
    let id = document.create_element(QualName::new(HTML, "div"), vec![Attribute::new("class", "a")]);
    document.set_attribute(id, attr_name("class"), "b");
    document.set_attribute(id, attr_name("id"), "main");
    let node = document.get_node(id).unwrap();
    assert_eq!(node.attr("class").map(|s| s.as_str()), Some("b"));
    assert_eq!(node.attr("id").map(|s| s.as_str()), Some("main"));
    assert_eq!(node.element_data().unwrap().id.as_deref(), Some("main"));
    assert_eq!(node.element_data().unwrap().attrs.len(), 2);

    document.clear_attribute(id, attr_name("id"));
    let node = document.get_node(id).unwrap();
    assert_eq!(node.attr("id"), None);
    assert_eq!(node.element_data().unwrap().id, None);
}

#[test]
fn tabindex_makes_an_element_focussable() {
    let mut document = BaseDocument::new();
    let id = document.create_element(QualName::new(HTML, "div"), vec![]);
    assert!(!document.get_node(id).unwrap().is_focussable());
    document.set_attribute(id, attr_name("tabindex"), "0");
    assert!(document.get_node(id).unwrap().is_focussable());
    document.clear_attribute(id, attr_name("tabindex"));
    assert!(!document.get_node(id).unwrap().is_focussable());
}

#[test]
fn node_text_is_replaced_and_appended() {
    let mut document = BaseDocument::new();
    let root = document.root_node_id();
    let text = document.create_text_node("hello");
    let div = document.create_element(QualName::new(HTML, "div"), vec![]);
    document.append_children(root, &[div]);
    document.append_children(div, &[text]);
    document.flush_mutations();
    document.nodes[root].dirty_descendants = false;
    document.nodes[div].dirty_descendants = false;

    document.set_node_text(text, "hello");
    assert!(!document.flush_mutations(), "unchanged text is no mutation");
    document.set_node_text(text, "bye");
    assert!(document.flush_mutations());
    assert_eq!(document.node(text).text_data().unwrap().content, "bye");
    assert!(document.node(div).dirty_descendants);
    assert!(document.node(root).dirty_descendants);

    assert_eq!(document.append_text_to_node(text, "!"), Ok(()));
    assert_eq!(document.node(text).text_data().unwrap().content, "bye!");
    assert_eq!(document.append_text_to_node(div, "x"), Err(AppendTextErr::NotTextNode));
}

#[test]
fn tree_queries() {
    let mut document = BaseDocument::new();
    let root = document.root_node_id();
    let a = document.create_element(QualName::new(HTML, "a"), vec![]);
    let b = document.create_element(QualName::new(HTML, "b"), vec![]);
    let c = document.create_element(QualName::new(HTML, "i"), vec![]);
    document.append_children(root, &[a, b, c]);
    assert_eq!(document.child_ids(root), vec![a, b, c]);
    assert_eq!(document.parent_id(b), Some(root));
    assert!(document.node_has_parent(b));
    assert!(!document.node_has_parent(root));
    assert_eq!(document.last_child_id(root), Some(c));
    assert_eq!(document.last_child_id(a), None);
    assert_eq!(document.child_index(b), Some(1));
    assert_eq!(document.next_sibling_id(b), Some(c));
    assert_eq!(document.previous_sibling_id(b), Some(a));
    assert_eq!(document.previous_sibling_id(a), None);
    assert_eq!(document.next_sibling_id(c), None);
    assert_eq!(document.node_at_path(root, &[2]), c);
    assert_eq!(document.element_name(c).map(|n| n.local.as_str()), Some("i"));
    assert!(document.element_name(root).is_none());

    // Moving a node within its parent detaches it first, then appends it.
    document.append_children(root, &[a]);
    assert_eq!(document.child_ids(root), vec![b, c, a]);
    document.remove_node(c);
    assert_eq!(document.child_ids(root), vec![b, a]);
    assert_eq!(document.parent_id(c), None);
    assert!(!document.node(c).flags.is_in_document());
}

#[test]
fn marking_ancestors_dirty_stops_at_a_marked_ancestor() {
    let mut document = BaseDocument::new();
    let root = document.root_node_id();
    let outer = document.create_element(QualName::new(HTML, "div"), vec![]);
    let middle = document.create_element(QualName::new(HTML, "div"), vec![]);
    let inner = document.create_element(QualName::new(HTML, "div"), vec![]);
    document.append_children(root, &[outer]);
    document.append_children(outer, &[middle]);
    document.append_children(middle, &[inner]);
    for id in [root, outer, middle, inner] {
        document.nodes[id].dirty_descendants = false;
    }
    document.nodes[outer].dirty_descendants = true;
    document.mark_ancestors_dirty(inner);
    assert!(document.node(middle).dirty_descendants);
    assert!(document.node(outer).dirty_descendants);
    assert!(!document.node(root).dirty_descendants, "the walk stops at a marked ancestor");
    assert!(!document.node(inner).dirty_descendants);
}

#[test]
fn mutator_requests_redraw_only_after_mutation() {
    let mut document = BaseDocument::new();
    let mut redraw_requests = 0;
    let root_id = document.root_node_id();

    let parent_id = document.create_element(QualName::new(HTML, "div"), vec![]);
    let child_id = document.create_element(QualName::new(HTML, "span"), vec![]);
    document.append_children(parent_id, &[child_id]);
    document.remove_and_drop_all_children(parent_id);
    document.set_attribute(parent_id, attr_name("id"), "detached");
    if document.flush_mutations() {
        redraw_requests += 1;
    }
    assert_eq!(redraw_requests, 0);

    assert_eq!(document.child_ids(root_id).len(), 0);

    let node_id = document.create_element(QualName::new(HTML, "div"), vec![]);
    document.append_children(root_id, &[node_id]);
    document.set_attribute(node_id, attr_name("id"), "in-document");
    if document.flush_mutations() {
        redraw_requests += 1;
    }
    assert_eq!(redraw_requests, 1);

    let parent_id = document.create_element(QualName::new(HTML, "div"), vec![]);
    let child_id = document.create_element(QualName::new(HTML, "span"), vec![]);
    document.append_children(root_id, &[parent_id]);
    document.append_children(parent_id, &[child_id]);
    document.remove_and_drop_all_children(parent_id);
    if document.flush_mutations() {
        redraw_requests += 1;
    }
    assert_eq!(redraw_requests, 2);

    let parent_id = document.create_element(QualName::new(HTML, "div"), vec![]);
    let child_id = document.create_element(QualName::new(HTML, "span"), vec![]);
    let detached_target_id = document.create_element(QualName::new(HTML, "div"), vec![]);
    document.append_children(root_id, &[parent_id]);
    document.append_children(parent_id, &[child_id]);
    assert_eq!(redraw_requests, 2);
    document.append_children(detached_target_id, &[child_id]);
    if document.flush_mutations() {
        redraw_requests += 1;
    }
    assert_eq!(redraw_requests, 3);
}

#[test]
fn dropping_all_children_detaches_their_subtrees() {
    let mut document = BaseDocument::new();
    let root = document.root_node_id();
    let list = document.create_element(QualName::new(HTML, "ul"), vec![]);
    let a = document.create_element(QualName::new(HTML, "li"), vec![]);
    let b = document.create_element(QualName::new(HTML, "li"), vec![]);
    let text = document.create_text_node("x");
    document.append_children(root, &[list]);
    document.append_children(list, &[a, b]);
    document.append_children(a, &[text]);
    document.flush_mutations();
    document.nodes[root].dirty_descendants = false;

    document.remove_and_drop_all_children(list);
    assert!(document.child_ids(list).is_empty());
    assert_eq!(document.parent_id(a), None);
    assert_eq!(document.parent_id(b), None);
    assert_eq!(document.parent_id(text), Some(a), "grandchildren stay under their parent");
    assert!(!document.node(a).flags.is_in_document());
    assert!(!document.node(text).flags.is_in_document());
    assert!(document.node(list).flags.is_in_document());
    assert!(document.node(root).dirty_descendants, "the ancestors of the emptied node are marked");
    assert!(document.flush_mutations());
    assert!(document.get_node(a).is_none(), "dropped nodes are no longer looked up");
    assert!(document.get_node(text).is_none());
    assert!(document.get_node(list).is_some());

    // Emptying a node without children is no mutation.
    document.remove_and_drop_all_children(list);
    assert!(!document.flush_mutations());
}

#[test]
fn reparenting_moves_all_children_in_order() {
    let mut document = BaseDocument::new();
    let root = document.root_node_id();
    let from = document.create_element(QualName::new(HTML, "div"), vec![]);
    let to = document.create_element(QualName::new(HTML, "div"), vec![]);
    let a = document.create_element(QualName::new(HTML, "p"), vec![]);
    let b = document.create_element(QualName::new(HTML, "p"), vec![]);
    let c = document.create_element(QualName::new(HTML, "p"), vec![]);
    document.append_children(root, &[from]);
    document.append_children(from, &[a, b]);
    document.append_children(to, &[c]);
    document.flush_mutations();

    document.reparent_children(from, to);
    assert!(document.child_ids(from).is_empty());
    assert_eq!(document.child_ids(to), vec![c, a, b]);
    assert_eq!(document.parent_id(a), Some(to));
    assert_eq!(document.parent_id(b), Some(to));
    assert!(!document.node(a).flags.is_in_document(), "the new parent is not in the document");
    assert!(document.flush_mutations(), "the moved nodes were in the document");
}

#[test]
fn replacing_a_node_puts_the_new_nodes_in_its_place() {
    let mut document = BaseDocument::new();
    let root = document.root_node_id();
    let first = document.create_element(QualName::new(HTML, "p"), vec![]);
    let old = document.create_element(QualName::new(HTML, "p"), vec![]);
    let last = document.create_element(QualName::new(HTML, "p"), vec![]);
    let x = document.create_element(QualName::new(HTML, "em"), vec![]);
    let y = document.create_text_node("y");
    document.append_children(root, &[first, old, last]);
    document.flush_mutations();

    document.replace_node_with(old, &[x, y]);
    assert_eq!(document.child_ids(root), vec![first, x, y, last]);
    assert_eq!(document.parent_id(old), None);
    assert!(!document.node(old).flags.is_in_document());
    assert!(document.node(x).flags.is_in_document());
    assert!(document.node(y).flags.is_in_document());
    assert!(document.flush_mutations());
}

#[test]
fn inserting_before_and_after_a_sibling() {
    let mut document = BaseDocument::new();
    let root = document.root_node_id();
    let a = document.create_element(QualName::new(HTML, "p"), vec![]);
    let b = document.create_element(QualName::new(HTML, "p"), vec![]);
    let c = document.create_element(QualName::new(HTML, "p"), vec![]);
    let d = document.create_element(QualName::new(HTML, "p"), vec![]);
    document.append_children(root, &[a]);
    document.insert_nodes_before(a, &[b]);
    assert_eq!(document.child_ids(root), vec![b, a]);
    document.insert_nodes_after(b, &[c]);
    assert_eq!(document.child_ids(root), vec![b, c, a]);
    document.insert_nodes_after(a, &[d]);
    assert_eq!(document.child_ids(root), vec![b, c, a, d]);
    // Moving a node within its own parent detaches it first.
    document.insert_nodes_before(b, &[d]);
    assert_eq!(document.child_ids(root), vec![d, b, c, a]);
}

#[test]
fn removing_a_node_marks_the_ancestors_of_its_parent() {
    let mut document = BaseDocument::new();
    let root = document.root_node_id();
    let outer = document.create_element(QualName::new(HTML, "div"), vec![]);
    let inner = document.create_element(QualName::new(HTML, "div"), vec![]);
    let leaf = document.create_element(QualName::new(HTML, "span"), vec![]);
    document.append_children(root, &[outer]);
    document.append_children(outer, &[inner]);
    document.append_children(inner, &[leaf]);
    for id in [root, outer, inner, leaf] {
        document.nodes[id].dirty_descendants = false;
    }
    document.remove_node(leaf);
    assert!(!document.node(inner).dirty_descendants, "the parent itself is not marked");
    assert!(document.node(outer).dirty_descendants);
    assert!(document.node(root).dirty_descendants);
}

#[test]
fn stepping_forward_and_backward_among_siblings() {
    let mut document = BaseDocument::new();
    let root = document.root_node_id();
    let a = document.create_element(QualName::new(HTML, "a"), vec![]);
    let b = document.create_element(QualName::new(HTML, "b"), vec![]);
    let c = document.create_element(QualName::new(HTML, "i"), vec![]);
    document.append_children(root, &[a, b, c]);
    assert_eq!(document.forward(a, 0), Some(a));
    assert_eq!(document.forward(a, 2), Some(c));
    assert_eq!(document.forward(b, 2), None);
    assert_eq!(document.backward(c, 2), Some(a));
    assert_eq!(document.backward(b, 2), None);
    assert_eq!(document.forward(root, 1), None, "the root has no siblings");
    assert_eq!(document.backward(root, 0), None);
}

#[test]
fn adding_missing_attributes_keeps_the_present_ones() {
    let mut document = BaseDocument::new();
    let id = document.create_element(QualName::new(HTML, "div"), vec![Attribute::new("class", "a")]);
    document.add_attrs_if_missing(
        id,
        vec![
            Attribute::new("class", "b"),
            Attribute::new("id", "x"),
            Attribute::new("title", "t"),
            Attribute::new("id", "y"),
        ],
    );
    let node = document.node(id);
    assert_eq!(node.attr("class").map(|s| s.as_str()), Some("a"));
    assert_eq!(node.attr("title").map(|s| s.as_str()), Some("t"));
    // Both `id` attributes were missing before the call, so the later one wins.
    assert_eq!(node.attr("id").map(|s| s.as_str()), Some("y"));
    assert_eq!(node.element_data().unwrap().attrs.len(), 3);
    assert!(!document.flush_mutations(), "the element is not in the document");
}

#[test]
fn checked_attribute_sets_the_state_of_inputs_in_the_document() {
    let mut document = BaseDocument::new();
    let root = document.root_node_id();
    let checkbox = document.create_element(QualName::new(HTML, "input"), vec![]);
    let plain = document.create_element(QualName::new(HTML, "input"), vec![]);
    let detached = document.create_element(QualName::new(HTML, "input"), vec![]);
    document.append_children(root, &[checkbox, plain]);
    if let NodeData::Element(e) = &mut document.nodes[checkbox].data {
        e.special_data = SpecialElementType::CheckboxInput(false);
    }

    document.set_attribute(checkbox, attr_name("checked"), "true");
    let e = document.node(checkbox).element_data().unwrap();
    assert_eq!(e.checkbox_input_checked(), Some(true));
    assert_eq!(e.attrs.len(), 1);
    document.set_attribute(checkbox, attr_name("checked"), "maybe");
    assert_eq!(document.node(checkbox).element_data().unwrap().checkbox_input_checked(), Some(true));

    // An input without element-specific data records the state in one more attribute.
    document.set_attribute(plain, attr_name("checked"), "false");
    let e = document.node(plain).element_data().unwrap();
    assert_eq!(e.checkbox_input_checked(), None);
    assert_eq!(e.attrs.len(), 2);
    assert_eq!(e.attrs.as_slice()[1].name.ns, HTML);
    assert_eq!(e.attrs.as_slice()[1].value, "false");
    assert_eq!(document.node(plain).attr("checked").map(|s| s.as_str()), Some("false"));

    // Outside the document the attribute is only set.
    document.set_attribute(detached, attr_name("checked"), "true");
    assert_eq!(document.node(detached).element_data().unwrap().attrs.len(), 1);
}

#[test]
fn button_inputs_get_their_value_as_a_label() {
    let mut document = BaseDocument::new();
    let submit = document.create_element(
        QualName::new(HTML, "input"),
        vec![Attribute::new("type", "submit"), Attribute::new("value", "Go")],
    );
    let text = document.create_element(
        QualName::new(HTML, "input"),
        vec![Attribute::new("type", "text"), Attribute::new("value", "typed")],
    );
    let bare = document.create_element(QualName::new(HTML, "input"), vec![Attribute::new("type", "reset")]);
    let before = document.len();
    document.process_button_input(submit);
    assert_eq!(document.len(), before + 1);
    let label = document.child_ids(submit);
    assert_eq!(label, vec![before]);
    assert_eq!(document.node(label[0]).text_data().unwrap().content, "Go");
    assert_eq!(document.parent_id(label[0]), Some(submit));

    document.process_button_input(text);
    document.process_button_input(bare);
    assert_eq!(document.len(), before + 1, "no label without a button type and a value");
    assert!(document.child_ids(text).is_empty());
}

#[test]
fn dropping_a_node_detaches_and_drops_its_subtree() {
    let mut document = BaseDocument::new();
    let root = document.root_node_id();
    let list = document.create_element(QualName::new(HTML, "ul"), vec![]);
    let a = document.create_element(QualName::new(HTML, "li"), vec![]);
    let b = document.create_element(QualName::new(HTML, "li"), vec![]);
    let text = document.create_text_node("x");
    document.append_children(root, &[list]);
    document.append_children(list, &[a, b]);
    document.append_children(a, &[text]);
    document.flush_mutations();
    document.nodes[root].dirty_descendants = false;
    document.nodes[list].dirty_descendants = false;

    let mut dropped = document.remove_and_drop_node_with(a);
    dropped.sort();
    let mut expected = vec![a, text];
    expected.sort();
    assert_eq!(dropped, expected);
    assert_eq!(document.child_ids(list), vec![b]);
    assert!(document.get_node(a).is_none());
    assert!(document.get_node(text).is_none());
    assert!(document.get_node(b).is_some());
    assert!(document.node(root).dirty_descendants, "the ancestors of the old parent are marked");
    assert!(document.flush_mutations());

    // A detached node: dropping it is no mutation and marks nothing.
    let loose = document.create_element(QualName::new(HTML, "div"), vec![]);
    assert_eq!(document.remove_and_drop_node(loose), Some(loose));
    assert!(document.get_node(loose).is_none());
    assert!(!document.flush_mutations());
}
