# blitz_dom

The document model of a small HTML engine, with its behaviour stated in Verus contracts
and proved: an arena of nodes addressed by id, the tree mutations on it, and the rules
that decide what the tree means for styling, layout order and scrolling.

## Layout

- `src/` — the verified library.
  - `document.rs` — the node arena (every id a node holds addresses a node), node
    creation, and moving, removing and dropping subtrees (document membership and dirty
    marks follow the tree; dropped nodes keep their slots but are no longer looked up).
  - `tree_links.rs` — the tree links: parent and children agree both ways, children lists
    name each child once, and a shadow host's root is a flagged shadow root under it. Every
    mutation keeps them (tree moves when the moved nodes are named once and are no shadow
    roots).
  - `mutator.rs` — dirty marking, attributes, text, tree queries and the batch of
    mutations a redraw waits for.
  - `mutation_records.rs` — the loads, unloads and title/style/form nodes that added and
    removed subtrees leave to be done, and which `<link>`s ask for a stylesheet.
  - `node.rs`, `flags.rs` — nodes, elements, attributes, interaction state and flags.
  - `shadow.rs` — shadow roots and slot assignment.
  - `query_selector.rs`, `scrolling.rs` — elements by id, URL fragments and the scroll
    they ask for.
  - `serialize.rs` — text content and HTML serialisation.
  - `list_items.rs`, `list_marker.rs` — list numbering and markers.
  - `construct.rs`, `inline_layout.rs` — box construction: how a container lays out its
    children (widgets, inline formatting contexts, anonymous boxes), the boxes embedded in
    inline content, the commands that build its text layout, and its layout parents.
  - `layout_order.rs`, `layout_tree.rs`, `stacking.rs`, `sticky.rs`, `table.rs`,
    `replaced.rs`, `layout_types.rs` — the ordering of children for layout and paint,
    walks up the layout tree and blocks nested in inline boxes, stacking contexts, the
    registry of sticky boxes, replaced elements, and small layout value types.
  - `text_transform.rs`, `utf8_text.rs` — `text-transform` and the UTF-8 text helpers it
    needs (case mapping and segmentation come from ICU).
  - `selection.rs`, `image.rs`, `net.rs`, `custom_widget.rs`, `scrollbar.rs` — text
    selections, responsive images, resource handlers, custom widgets and scrollbars.
- `tests/` — tests run against the compiled library.
- `app/` — what is left outside the proofs: floating-point geometry (layout boxes and
  sticky offsets) and the host side that performs scrolls and manages widget surfaces.
