use blitz_dom::stacking::{StackingContext, StackingEntry};

fn entry(node_id: usize, z_index: i32) -> StackingEntry {
    StackingEntry { node_id, z_index }
}

#[test]
fn entries_sort_by_z_index_keeping_tree_order() {
    let sc = StackingContext::finish(vec![
        entry(1, 0),
        entry(2, -1),
        entry(3, 5),
        entry(4, 0),
        entry(5, -3),
        entry(6, -1),
    ]);
    let order: Vec<usize> = sc.entries.iter().map(|e| e.node_id).collect();
    assert_eq!(order, vec![5, 2, 6, 1, 4, 3]);
    assert_eq!(sc.negative_z_count, 3);
    let neg: Vec<usize> = sc.negative_entries().iter().map(|e| e.node_id).collect();
    assert_eq!(neg, vec![5, 2, 6]);
    let rest: Vec<usize> = sc.non_negative_entries().iter().map(|e| e.node_id).collect();
    assert_eq!(rest, vec![1, 4, 3]);
}

#[test]
fn contexts_without_negative_entries() {
    let empty = StackingContext::finish(vec![]);
    assert_eq!(empty.negative_z_count, 0);
    assert!(empty.negative_entries().is_empty());
    assert!(empty.non_negative_entries().is_empty());
    let sc = StackingContext::finish(vec![entry(7, 2), entry(8, 1)]);
    assert_eq!(sc.negative_z_count, 0);
    assert_eq!(sc.non_negative_entries(), &[entry(8, 1), entry(7, 2)]);
}
