//! A headless DOM core: the node tree and its mutations, shadow DOM slot assignment,
//! element lookup by id, list numbering and markers, text transforms, serialization,
//! selection, the layout and paint order of children, stacking contexts, sticky
//! registration and fragment scrolling.

pub mod construct;
pub mod custom_widget;
pub mod document;
pub mod flags;
pub mod image;
pub mod inline_layout;
pub mod layout_order;
pub mod layout_tree;
pub mod layout_types;
pub mod list_items;
pub mod list_marker;
pub mod mutation_records;
pub mod mutator;
pub mod net;
pub mod node;
pub mod query_selector;
pub mod replaced;
pub mod scrollbar;
pub mod scrolling;
pub mod selection;
pub mod serialize;
pub mod shadow;
pub mod stacking;
pub mod sticky;
pub mod table;
pub mod text_transform;
pub mod tree_links;
pub mod utf8_text;
