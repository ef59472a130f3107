use blitz_dom::document::BaseDocument;
use blitz_dom::node::{Attribute, ElementData, NodeData, QualName, StateChange, TextNodeData};

const HTML: &str = "http://www.w3.org/1999/xhtml";

fn element(local: &str, attrs: Vec<Attribute>) -> NodeData {
    NodeData::Element(ElementData::new(QualName::new(HTML, local), attrs))
}

#[test]
fn create_node_with_disabled_attr() {
    let mut document = BaseDocument::new();
    let node = document.create_node(element("button", vec![Attribute::new("disabled", "")]));
    let node = document.get_node(node).unwrap();

    assert!(node.element_state().disabled, "form node is disabled");
    assert!(!node.element_state().enabled, "form node is not enabled");
}

#[test]
fn ignore_disabled_attr_content() {
    let mut document = BaseDocument::new();
    let node = document.create_node(element("button", vec![Attribute::new("disabled", "false")]));
    let node = document.get_node(node).unwrap();

    assert!(node.element_state().disabled, "form node is disabled");
    assert!(!node.element_state().enabled, "form node is not enabled");
}

#[test]
fn create_node_with_ignored_disable() {
    let mut document = BaseDocument::new();
    let node = document.create_node(element("a", vec![Attribute::new("disabled", "")]));
    let node = document.get_node(node).unwrap();

    assert!(!node.element_state().disabled, "Non form node cannot be disabled");
    assert!(!node.element_state().enabled, "Non form node cannot be enabled");
}

#[test]
fn create_empty_enabled_node() {
    let mut document = BaseDocument::new();
    let node = document.create_node(element("button", vec![]));
    let node = document.get_node(node).unwrap();

    assert!(node.element_state().enabled, "Button should be enabled by default");
}

#[test]
fn focussability_follows_tabindex_href_and_disabled() {
    let link = ElementData::new(QualName::new(HTML, "a"), vec![Attribute::new("href", "#x")]);
    assert!(link.is_focussable);
    let plain_link = ElementData::new(QualName::new(HTML, "a"), vec![]);
    assert!(!plain_link.is_focussable);
    let div = ElementData::new(QualName::new(HTML, "div"), vec![Attribute::new("tabindex", "0")]);
    assert!(div.is_focussable);
    let negative = ElementData::new(QualName::new(HTML, "button"), vec![Attribute::new("tabindex", "-1")]);
    assert!(!negative.is_focussable);
    let disabled = ElementData::new(QualName::new(HTML, "button"), vec![Attribute::new("disabled", "true")]);
    assert!(!disabled.is_focussable);
    let id = ElementData::new(QualName::new(HTML, "p"), vec![Attribute::new("id", "intro")]);
    assert_eq!(id.id.as_deref(), Some("intro"));
}

#[test]
fn submit_buttons() {
    let plain = ElementData::new(QualName::new(HTML, "button"), vec![]);
    assert!(plain.is_submit_button());
    let reset = ElementData::new(QualName::new(HTML, "button"), vec![Attribute::new("type", "reset")]);
    assert!(!reset.is_submit_button());
    let command = ElementData::new(QualName::new(HTML, "button"), vec![Attribute::new("command", "show-modal")]);
    assert!(!command.is_submit_button());
    let submit = ElementData::new(QualName::new(HTML, "button"), vec![Attribute::new("type", "submit")]);
    assert!(submit.is_submit_button());
}

#[test]
fn state_changes_override_each_other() {
    let mut document = BaseDocument::new();
    let id = document.create_node(element("button", vec![]));
    document.nodes[id].hover();
    assert!(document.nodes[id].is_hovered());
    document.nodes[id].unhover();
    assert!(!document.nodes[id].is_hovered());
    document.nodes[id].focus();
    assert!(document.nodes[id].is_focussed());
    assert!(document.nodes[id].element_state().focus_ring);
    document.nodes[id].blur();
    assert!(!document.nodes[id].is_focussed());
    document.nodes[id].active();
    assert!(document.nodes[id].is_active());
    document.nodes[id].unactive();
    assert!(!document.nodes[id].is_active());
    document.nodes[id].disable();
    assert!(document.nodes[id].element_state().disabled);
    document.nodes[id].enable();
    assert!(document.nodes[id].element_state().enabled);
    assert!(!document.nodes[id].element_state().disabled);

    let text = document.create_node(NodeData::Text(TextNodeData::new("  \n".to_string())));
    document.nodes[text].hover();
    assert!(!document.nodes[text].is_hovered());
    assert!(document.nodes[text].is_whitespace_node());
    let mut data = ElementData::new(QualName::new(HTML, "div"), vec![]);
    data.change_state(StateChange::Disabled(true));
    assert!(!data.element_state.disabled, "a div cannot be disabled");
}

#[test]
fn tabindex_is_read_as_a_signed_32_bit_number() {
    let div = |v: &str| ElementData::new(QualName::new(HTML, "div"), vec![Attribute::new("tabindex", v)]).is_focussable;
    let button = |v: &str| ElementData::new(QualName::new(HTML, "button"), vec![Attribute::new("tabindex", v)]).is_focussable;
    assert!(div("+3"));
    assert!(div("-0"));
    assert!(div("2147483647"));
    assert!(!div("2147483648"), "out of range: no tabindex, and a div is not focussable by default");
    assert!(!div("-1"));
    assert!(!button("-2147483648"));
    assert!(button("-2147483649"), "out of range: no tabindex, and a button is focussable by default");
    assert!(!div("1.5"));
    assert!(!div(""));
    assert!(!div("-"));
}
