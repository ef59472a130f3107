use blitz_dom::flags::{NodeFlags, IS_IN_DOCUMENT, IS_INLINE_ROOT, IS_STICKY, IS_TABLE_ROOT};

#[test]
fn construction_flags_reset_and_others_stay() {
    let mut flags = NodeFlags::empty();
    flags.insert(IS_INLINE_ROOT);
    flags.insert(IS_TABLE_ROOT);
    flags.insert(IS_IN_DOCUMENT);
    flags.insert(IS_STICKY);
    assert!(flags.is_inline_root() && flags.is_table_root() && flags.is_in_document());
    flags.reset_construction_flags();
    assert!(!flags.is_inline_root());
    assert!(!flags.is_table_root());
    assert!(flags.is_in_document());
    assert!(flags.contains(IS_STICKY));
    flags.set(IS_IN_DOCUMENT, false);
    assert!(!flags.is_in_document());
    flags.remove(IS_STICKY);
    assert_eq!(flags, NodeFlags::empty());
}
