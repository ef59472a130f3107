use blitz_dom::selection::{SelectionEndpoint, TextSelection};

#[test]
fn endpoints_resolve_directly_or_through_their_parent() {
    let direct = SelectionEndpoint::new(7, 3);
    assert!(direct.is_some());
    assert_eq!(direct.resolve_node_id(|_, _| None), Some(7));
    let mut anonymous = SelectionEndpoint::default();
    assert!(!anonymous.is_some());
    anonymous.set_anonymous(4, 2, 5);
    assert_eq!(anonymous.offset, 5);
    assert_eq!(anonymous.resolve_node_id(|parent, index| Some(parent * 10 + index)), Some(42));
    anonymous.clear();
    assert!(!anonymous.is_some());
}

#[test]
fn selection_is_active_once_anchor_and_focus_differ() {
    let mut selection = TextSelection::new(1, 0, 1, 0);
    assert!(!selection.is_active());
    selection.set_focus(1, 4);
    assert!(selection.is_active());
    selection.set_focus(2, 0);
    assert!(selection.is_active());
    selection.clear();
    assert!(!selection.is_active());
    assert!(!TextSelection::default().is_active());
}
