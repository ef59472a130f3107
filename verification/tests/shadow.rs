use blitz_dom::document::BaseDocument;
use blitz_dom::flags::IS_SHADOW_ROOT;
use blitz_dom::node::QualName;
use blitz_dom::shadow::ShadowRootMode;

const HTML: &str = "http://www.w3.org/1999/xhtml";

fn el(doc: &mut BaseDocument, tag: &str) -> usize {
    doc.create_element(QualName::new(HTML, tag), Vec::new())
}

#[test]
fn light_dom_is_untouched_and_slots_compose() {
    let mut doc = BaseDocument::new();
    let (host, a, b, root, slot_default, slot_named, fallback) = {
        let host = el(&mut doc, "div");
        let a = el(&mut doc, "p");
        let b = el(&mut doc, "span");
        doc.set_attribute(b, QualName::new("", "slot"), "side");
        doc.append_children(host, &[a, b]);
        let root = doc.attach_shadow(host, ShadowRootMode::Open);
        let slot_default = el(&mut doc, "slot");
        let fallback = doc.create_text_node("fallback");
        doc.append_children(slot_default, &[fallback]);
        let slot_named = el(&mut doc, "slot");
        doc.set_attribute(slot_named, QualName::new("", "name"), "side");
        doc.append_children(root, &[slot_default, slot_named]);
        (host, a, b, root, slot_default, slot_named, fallback)
    };
    // Light DOM untouched; composed tree goes through the shadow root.
    assert_eq!(doc.nodes[host].children.as_slice(), &[a, b]);
    assert_eq!(doc.shadow_root_of(host), Some(root));
    assert_eq!(doc.composed_children(host), &[slot_default, slot_named]);
    doc.assign_slots();
    assert_eq!(doc.composed_children(slot_default), &[a]);
    assert_eq!(doc.composed_children(slot_named), &[b]);
    assert_eq!(doc.nodes[a].assigned_slot, Some(slot_default));
    // Slot children (fallback) are still its DOM children.
    assert_eq!(doc.nodes[slot_default].children.as_slice(), &[fallback]);
    // Removing the named child: its slot falls back to its own children (none here).
    doc.remove_node(b);
    doc.assign_slots();
    assert!(doc.composed_children(slot_named).is_empty());
    assert_eq!(doc.nodes[host].children.as_slice(), &[a]);
}

#[test]
fn attaching_twice_returns_the_same_root() {
    let mut doc = BaseDocument::new();
    let body = el(&mut doc, "body");
    let root_id = doc.root_node_id();
    doc.append_children(root_id, &[body]);
    let host = el(&mut doc, "div");
    doc.append_children(body, &[host]);
    let root = doc.attach_shadow(host, ShadowRootMode::Closed);
    assert_eq!(doc.attach_shadow(host, ShadowRootMode::Open), root);
    assert!(doc.is_shadow_root(root));
    assert!(doc.node(root).flags.contains(IS_SHADOW_ROOT));
    assert!(doc.node(root).flags.is_in_document(), "a root of a host in the document is in it");
    assert_eq!(doc.node(root).parent, Some(host));
    assert!(doc.node(host).children.is_empty(), "the root is not a child of its host");
    assert_eq!(doc.node(root).attr("mode").map(|s| s.as_str()), Some("closed"));
    assert_eq!(doc.shadow_hosts, vec![host]);
    assert!(doc.node(body).dirty_descendants);
}

#[test]
fn first_slot_of_a_name_wins_and_names_are_trimmed() {
    let mut doc = BaseDocument::new();
    let host = el(&mut doc, "div");
    let x = el(&mut doc, "span");
    doc.set_attribute(x, QualName::new("", "slot"), "  top ");
    let comment = doc.create_comment_node("not slotted");
    let text = doc.create_text_node("loose");
    doc.append_children(host, &[x, comment, text]);
    let root = doc.attach_shadow(host, ShadowRootMode::Open);
    let first = el(&mut doc, "slot");
    doc.set_attribute(first, QualName::new("", "name"), "top");
    let second = el(&mut doc, "slot");
    doc.set_attribute(second, QualName::new("", "name"), "top");
    let default_slot = el(&mut doc, "slot");
    doc.append_children(root, &[first, second, default_slot]);
    doc.assign_slots();
    assert_eq!(doc.node(first).assigned_nodes, vec![x]);
    assert!(doc.node(second).assigned_nodes.is_empty());
    assert_eq!(doc.node(default_slot).assigned_nodes, vec![text]);
    assert_eq!(doc.node(x).assigned_slot, Some(first));
    assert_eq!(doc.node(text).assigned_slot, Some(default_slot));
    assert_eq!(doc.node(comment).assigned_slot, None);
}

#[test]
fn slots_of_nested_hosts_belong_to_them() {
    let mut doc = BaseDocument::new();
    let outer = el(&mut doc, "div");
    let light = el(&mut doc, "p");
    doc.append_children(outer, &[light]);
    let outer_root = doc.attach_shadow(outer, ShadowRootMode::Open);
    let inner_host = el(&mut doc, "div");
    let inner_slot = el(&mut doc, "slot");
    doc.append_children(inner_host, &[inner_slot]);
    doc.append_children(outer_root, &[inner_host]);
    let inner_root = doc.attach_shadow(inner_host, ShadowRootMode::Open);
    doc.assign_slots();
    assert!(doc.node(inner_slot).assigned_nodes.is_empty(), "not a slot of the outer tree");
    assert_eq!(doc.node(light).assigned_slot, None);
    assert_eq!(doc.containing_shadow_root(inner_slot), Some(outer_root));
    assert_eq!(doc.containing_shadow_root(inner_host), Some(outer_root));
    assert_eq!(doc.containing_shadow_root(outer_root), None);
    assert_eq!(doc.composed_children(inner_host), doc.node(inner_root).children.as_slice());
}

#[test]
fn changed_slots_mark_their_ancestors_and_unchanged_ones_do_not() {
    let mut doc = BaseDocument::new();
    let root_id = doc.root_node_id();
    let body = el(&mut doc, "body");
    let host = el(&mut doc, "div");
    let a = el(&mut doc, "p");
    doc.append_children(root_id, &[body]);
    doc.append_children(body, &[host]);
    doc.append_children(host, &[a]);
    let shadow = doc.attach_shadow(host, ShadowRootMode::Open);
    let slot = el(&mut doc, "slot");
    doc.append_children(shadow, &[slot]);
    let all = [root_id, body, host, a, shadow, slot];
    for id in all {
        doc.nodes[id].dirty_descendants = false;
    }

    doc.assign_slots_for(host);
    assert_eq!(doc.composed_children(slot), &[a]);
    assert!(doc.node(shadow).dirty_descendants, "the slot's ancestors are marked");
    assert!(doc.node(host).dirty_descendants);
    assert!(doc.node(body).dirty_descendants);
    assert!(!doc.node(slot).dirty_descendants);

    for id in all {
        doc.nodes[id].dirty_descendants = false;
    }
    doc.assign_slots_for(host);
    for id in all {
        assert!(!doc.node(id).dirty_descendants, "an unchanged assignment marks nothing");
    }
}

#[test]
fn tree_links_agree_after_moves_and_shadow_roots() {
    let mut doc = BaseDocument::new();
    let root = doc.root_node_id();
    let host = el(&mut doc, "div");
    let a = el(&mut doc, "p");
    let b = el(&mut doc, "p");
    doc.append_children(root, &[host]);
    doc.append_children(host, &[a, b]);
    let shadow = doc.attach_shadow(host, ShadowRootMode::Open);
    // A second attach gives back the same root, flagged, under the host but not among its children.
    assert_eq!(doc.attach_shadow(host, ShadowRootMode::Closed), shadow);
    assert!(doc.nodes[shadow].flags.contains(IS_SHADOW_ROOT));
    assert_eq!(doc.nodes[shadow].parent, Some(host));
    assert!(!doc.nodes[host].children.contains(&shadow));
    // Moving a child keeps parent and children in agreement.
    doc.append_children(root, &[b]);
    assert_eq!(doc.nodes[host].children, vec![a]);
    assert_eq!(doc.nodes[b].parent, Some(root));
    assert_eq!(doc.nodes[root].children, vec![host, b]);
    doc.reparent_children(root, a);
    assert!(doc.nodes[root].children.is_empty());
    assert_eq!(doc.nodes[a].children, vec![host, b]);
    assert_eq!(doc.nodes[host].parent, Some(a));
    assert_eq!(doc.nodes[b].parent, Some(a));
    assert_eq!(doc.nodes[shadow].parent, Some(host), "the shadow root stays with its host");
    doc.remove_node(b);
    assert_eq!(doc.nodes[a].children, vec![host]);
    assert_eq!(doc.nodes[b].parent, None);
}
