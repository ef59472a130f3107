use blitz_dom::document::BaseDocument;
use blitz_dom::node::{Attribute, QualName};
use blitz_dom::scrolling::{PendingScroll, ScrollBehavior, ScrollLogicalPosition};

const HTML: &str = "http://www.w3.org/1999/xhtml";

fn doc_with_target(id: &str) -> (BaseDocument, usize) {
    let mut doc = BaseDocument::new();
    let root = doc.root_node_id();
    let section = doc.create_element(QualName::new(HTML, "section"), vec![Attribute::new("id", id)]);
    doc.append_children(root, &[section]);
    (doc, section)
}

#[test]
fn fragment_scrolls_to_the_element_with_that_id() {
    let (mut doc, section) = doc_with_target("intro");
    assert!(doc.scroll_to_fragment("intro"));
    assert_eq!(
        doc.take_pending_scroll(),
        Some(PendingScroll::IntoView {
            node: section,
            behavior: ScrollBehavior::Auto,
            block: ScrollLogicalPosition::Start,
            inline: ScrollLogicalPosition::Nearest,
        })
    );
    assert_eq!(doc.take_pending_scroll(), None);
}

#[test]
fn fragments_are_percent_decoded() {
    let (mut doc, section) = doc_with_target("two words");
    assert!(doc.scroll_to_fragment_smooth("two%20words"));
    assert_eq!(
        doc.pending_scroll,
        Some(PendingScroll::IntoView {
            node: section,
            behavior: ScrollBehavior::Smooth,
            block: ScrollLogicalPosition::Start,
            inline: ScrollLogicalPosition::Nearest,
        })
    );
}

#[test]
fn empty_and_top_fragments_scroll_to_the_top() {
    let (mut doc, _) = doc_with_target("intro");
    assert!(doc.scroll_to_fragment(""));
    assert_eq!(doc.take_pending_scroll(), Some(PendingScroll::ToTop { behavior: ScrollBehavior::Auto }));
    assert!(doc.scroll_to_fragment("ToP"));
    assert_eq!(doc.take_pending_scroll(), Some(PendingScroll::ToTop { behavior: ScrollBehavior::Auto }));
    let (mut doc, section) = doc_with_target("top");
    assert!(doc.scroll_to_fragment("top"));
    assert!(matches!(doc.take_pending_scroll(), Some(PendingScroll::IntoView { node, .. }) if node == section));
}

#[test]
fn unknown_fragments_and_detached_elements_are_not_targets() {
    let (mut doc, _) = doc_with_target("intro");
    assert!(!doc.scroll_to_fragment("missing"));
    assert_eq!(doc.pending_scroll, None);
    let detached = doc.create_element(QualName::new(HTML, "div"), vec![Attribute::new("id", "away")]);
    assert_eq!(doc.get_fragment_target("away"), None);
    let root = doc.root_node_id();
    doc.append_children(root, &[detached]);
    assert_eq!(doc.get_fragment_target("away"), Some(detached));
    assert_eq!(doc.resolve_decoded_fragment("TOP"), Some(None));
    assert_eq!(doc.resolve_fragment_scroll_target("%61way"), Some(Some(detached)));
}
