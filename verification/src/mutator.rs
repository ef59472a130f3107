//! Mutations of the document that keep the tree's shape: dirty marking, text, attributes,
//! and the tree queries that mutation code relies on.
use vstd::prelude::*;

use crate::tree_links::{
    is_shadow_root_node, lemma_filter_contains_iff, lemma_links_created, lemma_links_dirty_walk, lemma_links_frame,
    lemma_links_reparented, links_agree, same_links,
};
use vstd::seq_lib::lemma_seq_contains_after_push;

use crate::document::{
    children_added, detach_pred, detached_children, fresh_node, ids_valid, in_document, moved_once,
    node_removed, node_wf, opt_valid, registries_after_mutation, same_content, same_registries,
    with_inserted, BaseDocument,
};
use crate::flags::{is_flag_bit, IS_SHADOW_ROOT};
use crate::node::{
    attr_value, attrs_after_set, element_of, find_attr, focussable, is_form_control, node_kind, parse_bool,
    parsed_bool, same_qual_name, Attribute, ElementData, Node, NodeData, QualName,
    SpecialElementType, StateChange,
};
use crate::utf8_text::same_text;

verus! {

/// The error of appending text to a node.
#[derive(Debug, Clone, Copy, PartialEq, Eq, Structural)]
pub enum AppendTextErr {
    /// The node is not a text node.
    NotTextNode,
}

/// Whether node `i` gets marked by a walk up the parent chain that is at `cur`, has already
/// marked the nodes of `seen`, and may take `fuel` more steps. Each step marks the node it
/// reaches and stops there if that node was already marked (before the walk, or by it).
pub open spec fn dirtied_by_walk(
    nodes: Seq<Node>,
    cur: Option<usize>,
    seen: Seq<usize>,
    i: int,
    fuel: nat,
) -> bool
    decreases fuel,
{
    match cur {
        None => false,
        Some(p) => fuel > 0 && (p == i || (0 <= p < nodes.len()
            && !nodes[p as int].dirty_descendants && !seen.contains(p) && dirtied_by_walk(
            nodes,
            nodes[p as int].parent,
            seen.push(p),
            i,
            (fuel - 1) as nat,
        ))),
    }
}

/// `nodes` after the ancestors of `id` are marked as having dirty descendants, walking up
/// until an ancestor that was already marked (at most `nodes.len()` levels).
pub open spec fn dirty_walk(nodes: Seq<Node>, id: int) -> Seq<Node> {
    Seq::new(
        nodes.len(),
        |i: int|
            Node {
                dirty_descendants: nodes[i].dirty_descendants || dirtied_by_walk(
                    nodes,
                    nodes[id].parent,
                    Seq::empty(),
                    i,
                    nodes.len(),
                ),
                ..nodes[i]
            },
    )
}

/// `start` with the nodes of `taken` detached from their parents and the dirty marks
/// `dirt`: what a walk up the parent chain sees while nodes are being moved.
pub open spec fn moved_state(start: Seq<Node>, taken: Seq<usize>, dirt: Seq<bool>) -> Seq<Node> {
    Seq::new(
        start.len(),
        |i: int|
            Node {
                parent: if taken.contains(i as usize) {
                    None
                } else {
                    start[i].parent
                },
                dirty_descendants: dirt[i],
                ..start[i]
            },
    )
}

/// The dirty marks of `nodes`.
pub open spec fn dirt_of(nodes: Seq<Node>) -> Seq<bool> {
    Seq::new(nodes.len(), |i: int| nodes[i].dirty_descendants)
}

/// The dirty marks once the nodes of `ids` are detached one after the other: detaching a
/// node that is in the document marks the ancestors of its old parent (see `dirty_walk`),
/// in the tree as it stands at that moment.
pub open spec fn detach_dirt(start: Seq<Node>, ids: Seq<usize>) -> Seq<bool>
    decreases ids.len(),
{
    if ids.len() == 0 {
        dirt_of(start)
    } else {
        let prev = detach_dirt(start, ids.drop_last());
        let c = ids.last();
        if !ids.drop_last().contains(c) && start[c as int].parent.is_some() && in_document(
            start[c as int],
        ) {
            dirt_of(dirty_walk(moved_state(start, ids, prev), start[c as int].parent->0 as int))
        } else {
            prev
        }
    }
}

/// The dirty marks once the nodes of `ids` are moved under `parent_id`: those of detaching
/// them, and then, when the new parent is in the document, those of a walk from it.
pub open spec fn move_dirt(start: Seq<Node>, ids: Seq<usize>, parent_id: int) -> Seq<bool> {
    let d = detach_dirt(start, ids);
    if in_document(start[parent_id]) {
        dirt_of(dirty_walk(moved_state(start, ids, d), parent_id))
    } else {
        d
    }
}

/// A walk up the parent chain reads only the parents and dirty marks of the nodes.
proof fn lemma_walk_same_links(a: Seq<Node>, b: Seq<Node>, cur: Option<usize>, seen: Seq<usize>, i: int, fuel: nat)
    requires
        a.len() == b.len(),
        forall|j: int| 0 <= j < a.len() ==> (#[trigger] a[j]).parent == b[j].parent && a[j].dirty_descendants == b[j].dirty_descendants,
    ensures
        dirtied_by_walk(a, cur, seen, i, fuel) == dirtied_by_walk(b, cur, seen, i, fuel),
    decreases fuel,
{
    match cur {
        Some(p) => {
            if fuel > 0 && 0 <= p < a.len() {
                lemma_walk_same_links(a, b, a[p as int].parent, seen.push(p), i, (fuel - 1) as nat);
            }
        },
        None => {},
    }
}

/// Two arenas with the same parents and dirty marks get the same dirty marks from a walk.
pub proof fn lemma_dirty_walk_same_links(a: Seq<Node>, b: Seq<Node>, id: int)
    requires
        0 <= id < a.len(),
        a.len() == b.len(),
        forall|j: int| 0 <= j < a.len() ==> (#[trigger] a[j]).parent == b[j].parent && a[j].dirty_descendants == b[j].dirty_descendants,
    ensures
        dirt_of(dirty_walk(a, id)) == dirt_of(dirty_walk(b, id)),
{
    assert forall|i: int| 0 <= i < a.len() implies #[trigger] dirt_of(dirty_walk(a, id))[i] == dirt_of(dirty_walk(b, id))[i] by {
        lemma_walk_same_links(a, b, a[id].parent, Seq::empty(), i, a.len() as nat);
    }
    assert(dirt_of(dirty_walk(a, id)) =~= dirt_of(dirty_walk(b, id)));
}

/// `now` with the dirty marks of `before` (and none on the nodes added since).
pub open spec fn undirtied(now: Seq<Node>, before: Seq<Node>) -> Seq<Node> {
    Seq::new(
        now.len(),
        |i: int|
            Node {
                dirty_descendants: if i < before.len() {
                    before[i].dirty_descendants
                } else {
                    false
                },
                ..now[i]
            },
    )
}

/// The node reached from `start` by following, for each entry of `path`, the child at that
/// index.
pub open spec fn node_at_path_spec(nodes: Seq<Node>, start: int, path: Seq<u8>) -> int
    decreases path.len(),
{
    if path.len() == 0 {
        start
    } else {
        let here = node_at_path_spec(nodes, start, path.drop_last());
        nodes[here].children@[path.last() as int] as int
    }
}

/// Whether every step of `path` from `start` names an existing child.
pub open spec fn path_valid(nodes: Seq<Node>, start: int, path: Seq<u8>) -> bool {
    forall|k: int|
        0 <= k < path.len() ==> {
            let here = #[trigger] node_at_path_spec(nodes, start, path.take(k));
            0 <= here < nodes.len() && path[k] < nodes[here].children@.len()
        }
}

/// The index of the first occurrence of `x` in `s`, if any.
pub open spec fn first_index_of(s: Seq<usize>, x: usize) -> Option<int> {
    if s.contains(x) {
        Some(choose|i: int| 0 <= i < s.len() && s[i] == x && forall|j: int| 0 <= j < i ==> s[j] != x)
    } else {
        None
    }
}

/// The first occurrence of `x` in `s` is at `k` when `s[k]` is `x` and no earlier entry is.
pub proof fn lemma_first_index_of(s: Seq<usize>, x: usize, k: int)
    requires
        0 <= k < s.len(),
        s[k] == x,
        forall|j: int| 0 <= j < k ==> s[j] != x,
    ensures
        first_index_of(s, x) == Some(k),
{
    assert(s.contains(x));
    let i = choose|i: int| 0 <= i < s.len() && s[i] == x && forall|j: int| 0 <= j < i ==> s[j] != x;
    assert(0 <= k < s.len() && s[k] == x && forall|j: int| 0 <= j < k ==> s[j] != x);
    if i < k {
        assert(s[i] != x);
    }
    if k < i {
        assert(s[k] != x);
    }
}

/// The sibling `offset` places after (or, when negative, before) node `id` among the
/// children of its parent; a node missing from its parent's children counts as the first.
pub open spec fn sibling_at(nodes: Seq<Node>, id: int, offset: int) -> Option<usize> {
    match nodes[id].parent {
        None => None,
        Some(p) => {
            let kids = nodes[p as int].children@;
            let here = match first_index_of(kids, id as usize) {
                Some(k) => k,
                None => 0,
            };
            if 0 <= here + offset < kids.len() {
                Some(kids[here + offset])
            } else {
                None
            }
        },
    }
}

/// Whether setting attribute `name` to `value` on `e`, a node in the document when
/// `in_doc` holds, sets the checked state of an `<input>`: `value` must be `true` or
/// `false`.
pub open spec fn sets_checked(e: ElementData, name: QualName, value: Seq<char>, in_doc: bool) -> bool {
    in_doc && e.name.local@ == "input"@ && name.local@ == "checked"@ && parsed_bool(value).is_some()
}

/// The `checked` attribute an input without element-specific data records its checked
/// state in: in the HTML namespace, with the value `true` or `false`.
pub open spec fn is_checked_attr(a: Attribute, checked: bool) -> bool {
    &&& a.name.prefix.is_none()
    &&& a.name.ns@ == "http://www.w3.org/1999/xhtml"@
    &&& a.name.local@ == "checked"@
    &&& a.value@ == if checked {
        "true"@
    } else {
        "false"@
    }
}

/// The element data `e` after setting its attribute `name` to `value`: the attributes, the
/// cached id and focussability, and the enabled/disabled state of form controls follow.
pub open spec fn element_after_plain_set(e: ElementData, r: ElementData, name: QualName, value: Seq<char>) -> bool {
    let local = name.local@;
    &&& attrs_after_set(e.attrs.items(), r.attrs.items(), name, value)
    &&& r.name == e.name
    &&& r.is_focussable == if local == "tabindex"@ || local == "href"@ || local == "disabled"@ {
        focussable(e.name.local@, r.attrs.items())
    } else {
        e.is_focussable
    }
    &&& if local == "id"@ {
        r.id matches Some(v) && v@ == value
    } else {
        r.id == e.id
    }
    &&& r.element_state == if local == "disabled"@ && is_form_control(e.name.local@) {
        crate::node::ElementState { disabled: true, enabled: false, ..e.element_state }
    } else {
        e.element_state
    }
    &&& r.special_data == e.special_data
    &&& r.style == e.style
    &&& r.list_item_data == e.list_item_data
}

/// The input `e` after its checked state is set from `value` when that is `true` or
/// `false`: a checkbox takes it, an input with no element-specific data records it in one
/// more `checked` attribute, and nothing else changes.
pub open spec fn checked_state_set(e: ElementData, r: ElementData, value: Seq<char>) -> bool {
    &&& r.name == e.name
    &&& r.id == e.id
    &&& r.is_focussable == e.is_focussable
    &&& r.element_state == e.element_state
    &&& r.style == e.style
    &&& r.list_item_data == e.list_item_data
    &&& match parsed_bool(value) {
        Some(b) => match e.special_data {
            SpecialElementType::CheckboxInput(_) => r.special_data == SpecialElementType::CheckboxInput(b)
                && r.attrs.items() == e.attrs.items(),
            SpecialElementType::NoData => r.special_data == e.special_data && r.attrs.items().len() > 0
                && r.attrs.items().drop_last() == e.attrs.items() && is_checked_attr(r.attrs.items().last(), b),
            _ => r.special_data == e.special_data && r.attrs.items() == e.attrs.items(),
        },
        None => r.special_data == e.special_data && r.attrs.items() == e.attrs.items(),
    }
}

/// The element data `e` after setting its attribute `name` to `value`, `e` being in the
/// document when `in_doc` holds: the attributes, the cached id and focussability, and the
/// enabled/disabled state of form controls follow; an `<input>` in the document given a
/// `checked` of `true` or `false` takes it as its checked state (a checkbox), or records
/// it in one more `checked` attribute (an input with no element-specific data yet).
pub open spec fn element_after_set(e: ElementData, r: ElementData, name: QualName, value: Seq<char>, in_doc: bool) -> bool {
    let local = name.local@;
    let checks = sets_checked(e, name, value, in_doc);
    &&& if checks && e.special_data == SpecialElementType::NoData {
        &&& r.attrs.items().len() > 0
        &&& attrs_after_set(e.attrs.items(), r.attrs.items().drop_last(), name, value)
        &&& is_checked_attr(r.attrs.items().last(), parsed_bool(value)->0)
    } else {
        attrs_after_set(e.attrs.items(), r.attrs.items(), name, value)
    }
    &&& r.name == e.name
    &&& r.is_focussable == if local == "tabindex"@ || local == "href"@ || local == "disabled"@ {
        focussable(e.name.local@, r.attrs.items())
    } else {
        e.is_focussable
    }
    &&& if local == "id"@ {
        r.id matches Some(v) && v@ == value
    } else {
        r.id == e.id
    }
    &&& r.element_state == if local == "disabled"@ && is_form_control(e.name.local@) {
        crate::node::ElementState { disabled: true, enabled: false, ..e.element_state }
    } else {
        e.element_state
    }
    &&& r.special_data == if checks && e.special_data is CheckboxInput {
        SpecialElementType::CheckboxInput(parsed_bool(value)->0)
    } else {
        e.special_data
    }
    &&& r.style == e.style
    &&& r.list_item_data == e.list_item_data
}

/// The element data `e` after removing its attribute `name`, which it had.
pub open spec fn element_after_clear(e: ElementData, r: ElementData, name: QualName, at: int) -> bool {
    let local = name.local@;
    &&& r.attrs.items() == e.attrs.items().remove(at)
    &&& r.name == e.name
    &&& r.is_focussable == if local == "tabindex"@ || local == "href"@ || local == "disabled"@ {
        focussable(e.name.local@, r.attrs.items())
    } else {
        e.is_focussable
    }
    &&& if local == "id"@ {
        r.id.is_none()
    } else {
        r.id == e.id
    }
    &&& r.element_state == if local == "disabled"@ && is_form_control(e.name.local@) {
        crate::node::ElementState { disabled: false, enabled: true, ..e.element_state }
    } else {
        e.element_state
    }
    &&& r.special_data == e.special_data
    &&& r.style == e.style
    &&& r.list_item_data == e.list_item_data
}

/// Whether `b` is `a` with other node data.
pub open spec fn same_but_data(a: Node, b: Node) -> bool {
    b == Node { data: b.data, ..a }
}

/// `nodes` after the ancestors of `id` are marked dirty, when `walk` holds.
pub open spec fn walk_if(nodes: Seq<Node>, id: int, walk: bool) -> Seq<Node> {
    if walk {
        dirty_walk(nodes, id)
    } else {
        nodes
    }
}

/// Whether setting attribute `name` on node data `data` changes the enabled/disabled state.
pub open spec fn set_disables(data: NodeData, name: QualName) -> bool {
    data matches NodeData::Element(e) && name.local@ == "disabled"@ && is_form_control(e.name.local@)
}

/// Whether clearing attribute `name` on node data `data` changes the enabled/disabled state.
pub open spec fn clear_enables(data: NodeData, name: QualName) -> bool {
    match element_of(data) {
        Some(e) => find_attr(e.attrs.items(), name).is_some() && name.local@ == "disabled"@
            && is_form_control(e.name.local@),
        None => false,
    }
}

/// Whether `after` is `before` once attribute `name` of node `id` is set to `value`: the
/// ancestors of a node in the document are marked dirty (and marked again when the change
/// disables a form control), the element's attributes are set as by `element_after_set`,
/// What removing attribute `name` of node `id` does (see `clear_attribute`).
pub open spec fn attribute_cleared(before: BaseDocument, after: BaseDocument, id: usize, name: QualName) -> bool {
    &&& registries_after_mutation(before, after, (element_of(before@[id as int].data) matches Some(e)
        && find_attr(e.attrs.items(), name).is_some()) && in_document(before@[id as int]))
    &&& after@.len() == before@.len()
    &&& forall|i: int|
        0 <= i < before@.len() && i != id ==> #[trigger] after@[i] == walk_if(
            walk_if(before@, id as int, in_document(before@[id as int])),
            id as int,
            clear_enables(before@[id as int].data, name),
        )[i]
    &&& same_but_data(
        walk_if(
            walk_if(before@, id as int, in_document(before@[id as int])),
            id as int,
            clear_enables(before@[id as int].data, name),
        )[id as int],
        after@[id as int],
    )
    &&& match element_of(before@[id as int].data) {
        Some(e) => match find_attr(e.attrs.items(), name) {
            Some(at) => node_kind(after@[id as int].data) == node_kind(
                before@[id as int].data,
            ) && (element_of(after@[id as int].data) matches Some(r)
                && element_after_clear(e, r, name, at)),
            None => after@[id as int].data == before@[id as int].data,
        },
        None => after@[id as int].data == before@[id as int].data,
    }
}

/// and nothing else changes. It counts as a mutation for an element in the document.
pub open spec fn attribute_set(before: BaseDocument, after: BaseDocument, id: usize, name: QualName, value: Seq<char>) -> bool {
    let marked = walk_if(
        walk_if(before@, id as int, in_document(before@[id as int])),
        id as int,
        set_disables(before@[id as int].data, name),
    );
    &&& registries_after_mutation(
        before,
        after,
        before@[id as int].data is Element && in_document(before@[id as int]),
    )
    &&& after@.len() == before@.len()
    &&& forall|i: int| 0 <= i < before@.len() && i != id ==> #[trigger] after@[i] == marked[i]
    &&& same_but_data(marked[id as int], after@[id as int])
    &&& match before@[id as int].data {
        NodeData::Element(e) => after@[id as int].data matches NodeData::Element(r) && element_after_set(
            e,
            r,
            name,
            value,
            in_document(before@[id as int]),
        ),
        _ => after@[id as int].data == before@[id as int].data,
    }
}

/// Whether `after` is `before` once attribute `attr` is set on node `id`, when its name is
/// missing from `present` (see `attribute_set`), and `before` itself otherwise.
pub open spec fn attr_step(before: BaseDocument, after: BaseDocument, id: usize, attr: Attribute, present: Seq<Attribute>) -> bool {
    &&& before.wf()
    &&& if find_attr(present, attr.name).is_some() {
        after == before
    } else {
        attribute_set(before, after, id, attr.name, attr.value@)
    }
}

/// Whether `states` runs from `before` to `after`, each state following the one before it
/// by `attr_step` with the next attribute of `attrs`.
pub open spec fn attr_steps(
    states: Seq<BaseDocument>,
    before: BaseDocument,
    after: BaseDocument,
    id: usize,
    attrs: Seq<Attribute>,
    present: Seq<Attribute>,
) -> bool {
    &&& states.len() == attrs.len() + 1
    &&& states[0] == before
    &&& states.last() == after
    &&& forall|k: int| 0 <= k < attrs.len() ==> #[trigger] attr_step(states[k], states[k + 1], id, attrs[k], present)
}

/// Whether `after` is `before` once the attributes of `attrs` whose names are missing from
/// `present` are set on node `id`, one after the other.
pub open spec fn attrs_added(
    before: BaseDocument,
    after: BaseDocument,
    id: usize,
    attrs: Seq<Attribute>,
    present: Seq<Attribute>,
) -> bool {
    exists|states: Seq<BaseDocument>| #[trigger] attr_steps(states, before, after, id, attrs, present)
}

/// Changing the data of node `id` after marking ancestors dirty keeps the tree links.
pub proof fn lemma_links_data_changed(a: Seq<Node>, b: Seq<Node>, id: int, first: bool, second: bool)
    requires
        links_agree(a),
        0 <= id < a.len(),
        b.len() == a.len(),
        forall|i: int| 0 <= i < a.len() && i != id ==> #[trigger] b[i] == walk_if(walk_if(a, id, first), id, second)[i],
        same_but_data(walk_if(walk_if(a, id, first), id, second)[id], b[id]),
    ensures
        links_agree(b),
{
    let m1 = walk_if(a, id, first);
    if first {
        lemma_links_dirty_walk(a, id);
    }
    let m2 = walk_if(m1, id, second);
    if second {
        lemma_links_dirty_walk(m1, id);
    }
    assert forall|i: int| 0 <= i < a.len() implies same_links(#[trigger] m2[i], b[i]) by {
        if i != id {
            assert(b[i] == m2[i]);
        }
    }
    lemma_links_frame(m2, b);
}

/// Setting an attribute keeps the tree links.
pub proof fn lemma_links_attribute_set(before: BaseDocument, after: BaseDocument, id: usize, name: QualName, value: Seq<char>)
    requires
        links_agree(before@),
        id < before@.len(),
        attribute_set(before, after, id, name, value),
    ensures
        links_agree(after@),
{
    lemma_links_data_changed(
        before@,
        after@,
        id as int,
        in_document(before@[id as int]),
        set_disables(before@[id as int].data, name),
    );
}

/// Setting attributes one after the other keeps the tree links.
pub proof fn lemma_links_attrs_added(
    before: BaseDocument,
    after: BaseDocument,
    id: usize,
    attrs: Seq<Attribute>,
    present: Seq<Attribute>,
)
    requires
        links_agree(before@),
        id < before@.len(),
        attrs_added(before, after, id, attrs, present),
    ensures
        links_agree(after@),
{
    let states = choose|states: Seq<BaseDocument>| #[trigger] attr_steps(states, before, after, id, attrs, present);
    lemma_links_attr_steps_from(states, before, after, id, attrs, present, 0);
}

/// The tree links of a state of `attr_steps` hold in the last.
proof fn lemma_links_attr_steps_from(
    states: Seq<BaseDocument>,
    before: BaseDocument,
    after: BaseDocument,
    id: usize,
    attrs: Seq<Attribute>,
    present: Seq<Attribute>,
    k: int,
)
    requires
        0 <= k <= attrs.len(),
        attr_steps(states, before, after, id, attrs, present),
        links_agree(states[k]@),
        id < states[k]@.len(),
    ensures
        links_agree(after@),
    decreases attrs.len() - k,
{
    if k < attrs.len() {
        assert(attr_step(states[k], states[k + 1], id, attrs[k], present));
        if find_attr(present, attrs[k].name).is_none() {
            lemma_links_attribute_set(states[k], states[k + 1], id, attrs[k].name, attrs[k].value@);
        }
        lemma_links_attr_steps_from(states, before, after, id, attrs, present, k + 1);
    }
}

/// Giving a button its label keeps the tree links.
pub proof fn lemma_links_button_processed(before: BaseDocument, after: BaseDocument, target: usize)
    requires
        before.wf(),
        links_agree(before@),
        target < before@.len(),
        button_processed(before, after, target),
    ensures
        links_agree(after@),
{
    match button_label(before@[target as int]) {
        Some(v) => {
            let mid = choose|mid: BaseDocument| #[trigger] label_appended(before, mid, after, target, v);
            reveal(label_appended);
            reveal(text_node_created);
            lemma_links_created(before@, mid@);
            let ids = seq![before@.len() as usize];
            assert(ids.no_duplicates());
            assert(!is_shadow_root_node(mid@[before@.len() as int])) by {
                assert(is_flag_bit(IS_SHADOW_ROOT));
            }
            assert(ids_valid(ids, mid@.len() as int));
            crate::tree_links::lemma_links_children_added(mid, after, target, ids, None);
        },
        None => {},
    }
}

/// Sets the checked state of an input from `value` when it is `true` or `false`: a checkbox
/// takes it, and an input with no element-specific data yet records it in one more
/// `checked` attribute.
fn set_input_checked_state(e: &mut ElementData, value: &str)
    ensures
        checked_state_set(*old(e), *final(e), value@),
{
    let checked = match parse_bool(value) {
        Some(b) => b,
        None => {
            return;
        },
    };
    match e.special_data {
        SpecialElementType::CheckboxInput(_) => {
            e.special_data = SpecialElementType::CheckboxInput(checked);
        },
        SpecialElementType::NoData => {
            let text = if checked {
                "true"
            } else {
                "false"
            };
            e.attrs.push(Attribute { name: QualName::new("http://www.w3.org/1999/xhtml", "checked"), value: String::from_str(text) });
            proof {
                assert(final(e).attrs.items().drop_last() =~= old(e).attrs.items());
            }
        },
        _ => {},
    }
}

/// Sets attribute `name` of `e` to `value`, with the cached id, focussability and
/// enabled/disabled state following (see `element_after_plain_set`).
fn set_attr_plain(e: &mut ElementData, name: QualName, value: &str)
    ensures
        element_after_plain_set(*old(e), *final(e), name, value@),
{
    let local = name.local.as_str();
    let focus_attr = same_text(local, "tabindex") || same_text(local, "href") || same_text(
        local,
        "disabled",
    );
    let id_attr = same_text(local, "id");
    let disabled_attr = same_text(local, "disabled");
    e.attrs.set(name, value);
    if focus_attr {
        e.flush_is_focussable();
    }
    if id_attr {
        e.id = Some(String::from_str(value));
    }
    if disabled_attr && e.can_be_disabled() {
        e.change_state(StateChange::Disabled(true));
    }
}

/// Setting the attribute and then the checked state of an input gives `element_after_set`.
/// `checked` is none of the attribute names that `set_attribute` treats specially.
proof fn lemma_checked_is_plain(local: Seq<char>)
    requires
        local == "checked"@,
    ensures
        local != "tabindex"@,
        local != "href"@,
        local != "disabled"@,
        local != "id"@,
{
    reveal_strlit("checked");
    reveal_strlit("tabindex");
    reveal_strlit("href");
    reveal_strlit("disabled");
    reveal_strlit("id");
    assert("checked"@.len() == 7);
}

/// Setting the attribute and then the checked state of an input gives `element_after_set`.
proof fn lemma_set_then_checked(e: ElementData, m: ElementData, r: ElementData, name: QualName, value: Seq<char>, in_doc: bool)
    requires
        element_after_plain_set(e, m, name, value),
        sets_checked(e, name, value, in_doc),
        checked_state_set(m, r, value),
    ensures
        element_after_set(e, r, name, value, in_doc),
{
    lemma_checked_is_plain(name.local@);
}

/// Sets attribute `name` of `e` to `value` (see `element_after_set`).
fn set_attr_in(e: &mut ElementData, name: QualName, value: &str, in_doc: bool)
    ensures
        element_after_set(*old(e), *final(e), name, value@, in_doc),
{
    let ghost g_name = name;
    let checks = in_doc && same_text(name.local.as_str(), "checked") && same_text(e.name.local.as_str(), "input");
    set_attr_plain(e, name, value);
    if checks {
        let ghost m = *e;
        set_input_checked_state(e, value);
        proof {
            if parsed_bool(value@).is_some() {
                lemma_set_then_checked(*old(e), m, *e, g_name, value@, in_doc);
            }
        }
    }
}

fn clear_attr_in(e: &mut ElementData, name: &QualName)
    requires
        find_attr(old(e).attrs.items(), *name).is_some(),
    ensures
        element_after_clear(*old(e), *final(e), *name, find_attr(old(e).attrs.items(), *name)->0),
{
    let local = name.local.as_str();
    let focus_attr = same_text(local, "tabindex") || same_text(local, "href") || same_text(
        local,
        "disabled",
    );
    let id_attr = same_text(local, "id");
    let disabled_attr = same_text(local, "disabled");
    let _ = e.attrs.remove(name);
    if id_attr {
        e.id = None;
    }
    if focus_attr {
        e.flush_is_focussable();
    }
    if disabled_attr && e.can_be_disabled() {
        e.change_state(StateChange::Disabled(false));
    }
}

/// Whether `after` is `before` with the child list of `id` emptied (the former children
/// keep their parent links until they are moved).
pub open spec fn children_taken(before: BaseDocument, after: BaseDocument, id: usize) -> bool {
    &&& after.wf()
    &&& same_registries(before, after)
    &&& after@.len() == before@.len()
    &&& after@[id as int].children@.len() == 0
    &&& after@[id as int] == (Node { children: after@[id as int].children, ..before@[id as int] })
    &&& forall|i: int| 0 <= i < before@.len() && i != id ==> #[trigger] after@[i] == before@[i]
}

/// Reparenting moves all the children of the old parent: it is left with none, and the
/// new parent's children end with them, in their order.
pub proof fn law_reparent_moves_all_children(
    before: BaseDocument,
    mid: BaseDocument,
    after: BaseDocument,
    old_parent: usize,
    new_parent: usize,
)
    requires
        old_parent < before@.len(),
        new_parent < before@.len(),
        old_parent != new_parent,
        children_taken(before, mid, old_parent),
        children_added(mid, after, new_parent, before@[old_parent as int].children@, None),
    ensures
        after@[old_parent as int].children@.len() == 0,
        after@[new_parent as int].children@ == detached_children(
            mid@,
            before@[old_parent as int].children@,
            new_parent as int,
        ) + before@[old_parent as int].children@,
{
    let kids = before@[old_parent as int].children@;
    assert(after@[old_parent as int].children@ == detached_children(mid@, kids, old_parent as int));
    reveal(Seq::filter);
    assert(mid@[old_parent as int].children@ =~= Seq::<usize>::empty());
    assert(after@[new_parent as int].children@ == with_inserted(
        detached_children(mid@, kids, new_parent as int),
        kids,
        None,
    ));
}

/// A replaced node ends up without a parent and out of the document.
pub proof fn law_replaced_node_leaves_the_document(
    before: BaseDocument,
    mid: BaseDocument,
    after: BaseDocument,
    anchor: usize,
    new_ids: Seq<usize>,
)
    requires
        anchor < before@.len(),
        before@[anchor as int].parent is Some,
        children_added(before, mid, before@[anchor as int].parent->0, new_ids, Some(anchor)),
        node_removed(mid, after, anchor),
    ensures
        after@[anchor as int].parent is None,
        !in_document(after@[anchor as int]),
{
}

/// Whether `after` is `before` with one more node: a fresh text node holding `text`.
#[verifier::opaque]
pub open spec fn text_node_created(before: BaseDocument, after: BaseDocument, text: Seq<char>) -> bool {
    &&& after.wf()
    &&& same_registries(before, after)
    &&& after@.len() == before@.len() + 1
    &&& forall|i: int| 0 <= i < before@.len() ==> #[trigger] after@[i] == before@[i]
    &&& fresh_node(after@[before@.len() as int], before@.len() as int)
    &&& after@[before@.len() as int].data matches NodeData::Text(t) && t.content@ == text
}

/// The label an `<input>` of type `button`, `submit` or `reset` shows: its `value`.
#[verifier::opaque]
pub open spec fn button_label(n: Node) -> Option<Seq<char>> {
    match element_of(n.data) {
        Some(e) => if e.name.local@ == "input"@ && match attr_value(e.attrs.items(), "type"@) {
            Some(t) => t == "button"@ || t == "submit"@ || t == "reset"@,
            None => false,
        } {
            attr_value(e.attrs.items(), "value"@)
        } else {
            None
        },
        None => None,
    }
}

/// Whether `after` is `before` once a text node holding `label` is created (giving `mid`)
/// and appended to the children of `target`.
#[verifier::opaque]
pub open spec fn label_appended(
    before: BaseDocument,
    mid: BaseDocument,
    after: BaseDocument,
    target: usize,
    label: Seq<char>,
) -> bool {
    &&& text_node_created(before, mid, label)
    &&& children_added(mid, after, target, seq![before@.len() as usize], None)
}

/// Whether `after` is `before` once node `target` is given its button label (see
/// `button_label`): a text node holding the label is created and appended to its children;
/// a node with no label is left as it is.
pub open spec fn button_processed(before: BaseDocument, after: BaseDocument, target: usize) -> bool {
    match button_label(before@[target as int]) {
        Some(v) => exists|mid: BaseDocument| #[trigger] label_appended(before, mid, after, target, v),
        None => after == before,
    }
}

/// A labelled node whose label was appended is processed.
proof fn lemma_button_processed(before: BaseDocument, mid: BaseDocument, after: BaseDocument, target: usize, v: Seq<char>)
    requires
        target < before@.len(),
        button_label(before@[target as int]) == Some(v),
        label_appended(before, mid, after, target, v),
    ensures
        button_processed(before, after, target),
{
    let l = button_label(before@[target as int]);
    assert(l->0 == v);
    assert(label_appended(before, mid, after, target, l->0));
    assert(exists|m: BaseDocument| #[trigger] label_appended(before, m, after, target, l->0));
}

/// Setting an attribute and reading it back by the same name gives the value set.
pub proof fn law_set_attribute_reads_back(e: ElementData, r: ElementData, name: QualName, value: Seq<char>, in_doc: bool)
    requires
        element_after_set(e, r, name, value, in_doc),
    ensures
        find_attr(r.attrs.items(), name) matches Some(i) && r.attrs.items()[i].value@ == value,
{
    let items = r.attrs.items();
    if sets_checked(e, name, value, in_doc) && e.special_data == SpecialElementType::NoData {
        let s = items.drop_last();
        crate::node::lemma_attrs_after_set_reads_back(e.attrs.items(), s, name, value);
        crate::node::lemma_find_attr(s, name);
        let i = find_attr(s, name)->0;
        assert forall|j: int| 0 <= j < i implies !same_qual_name(#[trigger] items[j].name, name) by {
            assert(items[j] == s[j]);
        }
        assert(items[i] == s[i]);
        crate::node::lemma_first_index(items, name, i);
    } else {
        crate::node::lemma_attrs_after_set_reads_back(e.attrs.items(), items, name, value);
    }
}

/// A form control given a `disabled` attribute is disabled and not enabled; one losing
/// its `disabled` attribute is enabled and not disabled.
pub proof fn law_disabled_follows_attribute(e: ElementData, set: ElementData, cleared: ElementData, name: QualName, value: Seq<char>, in_doc: bool)
    requires
        name.local@ == "disabled"@,
        is_form_control(e.name.local@),
    ensures
        element_after_set(e, set, name, value, in_doc) ==> set.element_state.disabled && !set.element_state.enabled,
        (find_attr(e.attrs.items(), name) matches Some(at) && element_after_clear(e, cleared, name, at))
            ==> cleared.element_state.enabled && !cleared.element_state.disabled,
{
}

/// Marking the ancestors of a node with a parent always marks that parent.
pub proof fn law_marking_dirties_parent(nodes: Seq<Node>, id: int)
    requires
        0 <= id < nodes.len(),
        nodes[id].parent matches Some(p) && p < nodes.len(),
    ensures
        dirty_walk(nodes, id)[nodes[id].parent->0 as int].dirty_descendants,
{
}

/// A batch owes a redraw exactly when one of its calls affected rendered output: starting
/// from a flushed document (`states[0]`), where each call `i` keeps the mutation flag or
/// sets it as its contract says (`mutated[i]`, false for a query), the flag that
/// `flush_mutations` hands out after the batch is whether any call set it.
pub proof fn law_batch_owes_redraw_iff_some_call_mutated(states: Seq<BaseDocument>, mutated: Seq<bool>)
    requires
        states.len() == mutated.len() + 1,
        !states[0].mutations_occurred,
        forall|i: int|
            0 <= i < mutated.len() ==> #[trigger] states[i + 1].mutations_occurred == (states[i].mutations_occurred
                || mutated[i]),
    ensures
        states.last().mutations_occurred == mutated.contains(true),
    decreases mutated.len(),
{
    if mutated.len() > 0 {
        let n = mutated.len() - 1;
        let s0 = states.drop_last();
        let m0 = mutated.drop_last();
        assert forall|i: int| 0 <= i < m0.len() implies #[trigger] s0[i + 1].mutations_occurred == (
        s0[i].mutations_occurred || m0[i]) by {
            assert(states[i + 1].mutations_occurred == (states[i].mutations_occurred || mutated[i]));
        }
        law_batch_owes_redraw_iff_some_call_mutated(s0, m0);
        assert(states[n + 1].mutations_occurred == (states[n].mutations_occurred || mutated[n]));
        assert(s0.last() == states[n]);
        if mutated[n] {
            assert(mutated.contains(true));
        } else if m0.contains(true) {
            let j = choose|j: int| 0 <= j < m0.len() && m0[j] == true;
            assert(mutated[j] == true);
        } else {
            assert forall|j: int| 0 <= j < mutated.len() implies mutated[j] != true by {
                if j < n {
                    assert(m0[j] == mutated[j]);
                }
            }
        }
    }
}

impl BaseDocument {
    /// Marks the ancestors of `id` as having dirty descendants, so that the style traversal
    /// visits the subtree of `id`; stops at the first ancestor that was already marked.
    pub fn mark_ancestors_dirty(&mut self, id: usize)
        requires
            old(self).wf(),
            id < old(self)@.len(),
        ensures
            final(self).wf(),
            same_registries(*old(self), *final(self)),
            final(self)@ == dirty_walk(old(self)@, id as int),
            links_agree(old(self)@) ==> links_agree(final(self)@),
    {
        proof {
            if links_agree(old(self)@) {
                lemma_links_dirty_walk(old(self)@, id as int);
            }
        }
        self.mark_dirty_walk(id);
    }

    /// Marks the ancestors of `id` as having dirty descendants (see `dirty_walk`).
    pub(crate) fn mark_dirty_walk(&mut self, id: usize)
        requires
            old(self).wf(),
            id < old(self)@.len(),
        ensures
            final(self).wf(),
            same_registries(*old(self), *final(self)),
            final(self)@ == dirty_walk(old(self)@, id as int),
    {
        let ghost start = self@;
        let len = self.nodes.len();
        proof {
            assert(node_wf(start[id as int], id as int, len as int));
        }
        let mut cur = self.nodes[id].parent;
        let mut fuel = len;
        let ghost mut seen: Seq<usize> = Seq::empty();
        while fuel > 0
            invariant
                self.wf(),
                same_registries(*old(self), *self),
                start == old(self)@,
                self@.len() == len,
                len == start.len(),
                fuel <= len,
                id < len,
                opt_valid(cur, len as int),
                forall|i: int|
                    0 <= i < len ==> (#[trigger] self@[i]) == (Node {
                        dirty_descendants: self@[i].dirty_descendants,
                        ..start[i]
                    }),
                forall|i: int|
                    0 <= i < len ==> (#[trigger] self@[i]).dirty_descendants == (
                    start[i].dirty_descendants || seen.contains(i as usize)),
                forall|i: int|
                    0 <= i < len ==> (start[i].dirty_descendants || dirtied_by_walk(
                        start,
                        start[id as int].parent,
                        Seq::empty(),
                        i,
                        len as nat,
                    )) == ((#[trigger] self@[i]).dirty_descendants || dirtied_by_walk(
                        start,
                        cur,
                        seen,
                        i,
                        fuel as nat,
                    )),
            decreases fuel,
        {
            match cur {
                Some(p) => {
                    let ghost before = self@;
                    let was = self.nodes[p].dirty_descendants;
                    self.nodes[p].dirty_descendants = true;
                    proof {
                        assert(node_wf(before[p as int], p as int, len as int));
                        assert forall|i: int| 0 <= i < len implies node_wf(#[trigger] self@[i], i, len as int) by {
                            assert(node_wf(before[i], i, len as int));
                        }
                        assert forall|x: usize| #[trigger] seen.push(p).contains(x) == (seen.contains(x) || x == p) by {
                            lemma_seq_contains_after_push(seen, p, x);
                        }
                        seen = seen.push(p);
                    }
                    if was {
                        fuel = 0;
                    } else {
                        cur = self.nodes[p].parent;
                        fuel = fuel - 1;
                    }
                },
                None => {
                    fuel = 0;
                },
            }
        }
        proof {
            assert(self@ =~= dirty_walk(start, id as int));
        }
    }

    /// Whether node `id` has a parent.
    pub fn node_has_parent(&self, id: usize) -> (r: bool)
        requires
            id < self@.len(),
        ensures
            r == self@[id as int].parent.is_some(),
    {
        self.nodes[id].parent.is_some()
    }

    /// The parent of node `id`.
    pub fn parent_id(&self, id: usize) -> (r: Option<usize>)
        requires
            id < self@.len(),
        ensures
            r == self@[id as int].parent,
    {
        self.nodes[id].parent
    }

    /// The last child of node `id`.
    pub fn last_child_id(&self, id: usize) -> (r: Option<usize>)
        requires
            id < self@.len(),
        ensures
            r == if self@[id as int].children@.len() > 0 {
                Some(self@[id as int].children@.last())
            } else {
                None
            },
    {
        let n = self.nodes[id].children.len();
        if n > 0 {
            Some(self.nodes[id].children[n - 1])
        } else {
            None
        }
    }

    /// The children of node `id`, in order.
    pub fn child_ids(&self, id: usize) -> (r: Vec<usize>)
        requires
            id < self@.len(),
        ensures
            r@ == self@[id as int].children@,
    {
        let kids = &self.nodes[id].children;
        let mut r: Vec<usize> = Vec::new();
        let mut k: usize = 0;
        while k < kids.len()
            invariant
                k <= kids@.len(),
                r@ == kids@.take(k as int),
            decreases kids@.len() - k,
        {
            r.push(kids[k]);
            k = k + 1;
            proof {
                assert(r@ =~= kids@.take(k as int));
            }
        }
        proof {
            assert(kids@.take(k as int) =~= kids@);
        }
        r
    }

    /// The index of node `id` among the children of its parent.
    pub fn child_index(&self, id: usize) -> (r: Option<usize>)
        requires
            self.wf(),
            id < self@.len(),
        ensures
            match r {
                Some(k) => self@[id as int].parent matches Some(p) && first_index_of(
                    self@[p as int].children@,
                    id,
                ) == Some(k as int) && k < self@[p as int].children@.len(),
                None => match self@[id as int].parent {
                    Some(p) => first_index_of(self@[p as int].children@, id).is_none(),
                    None => true,
                },
            },
    {
        proof {
            assert(node_wf(self@[id as int], id as int, self@.len() as int));
        }
        match self.nodes[id].parent {
            Some(p) => {
                let r = self.nodes[p].index_of_child(id);
                proof {
                    match r {
                        Some(k) => lemma_first_index_of(self@[p as int].children@, id, k as int),
                        None => {},
                    }
                }
                r
            },
            None => None,
        }
    }

    /// The sibling after node `id`.
    pub fn next_sibling_id(&self, id: usize) -> (r: Option<usize>)
        requires
            self.wf(),
            id < self@.len(),
        ensures
            r == sibling_at(self@, id as int, 1),
    {
        let here = match self.child_index(id) {
            Some(k) => k,
            None => 0,
        };
        match self.nodes[id].parent {
            Some(p) => {
                proof {
                    assert(node_wf(self@[id as int], id as int, self@.len() as int));
                }
                let kids = &self.nodes[p].children;
                if kids.len() > 0 && here < kids.len() - 1 {
                    Some(kids[here + 1])
                } else {
                    None
                }
            },
            None => None,
        }
    }

    /// The sibling before node `id`.
    pub fn previous_sibling_id(&self, id: usize) -> (r: Option<usize>)
        requires
            self.wf(),
            id < self@.len(),
        ensures
            r == sibling_at(self@, id as int, -1),
    {
        let here = match self.child_index(id) {
            Some(k) => k,
            None => 0,
        };
        match self.nodes[id].parent {
            Some(p) => {
                proof {
                    assert(node_wf(self@[id as int], id as int, self@.len() as int));
                }
                let kids = &self.nodes[p].children;
                if here >= 1 && here - 1 < kids.len() {
                    Some(kids[here - 1])
                } else {
                    None
                }
            },
            None => None,
        }
    }

    /// Sets the attributes of `attrs` whose names element `id` does not have yet (judged by
    /// its attributes before the call), one after the other as by `set_attribute`.
    pub fn add_attrs_if_missing(&mut self, id: usize, attrs: Vec<Attribute>)
        requires
            old(self).wf(),
            id < old(self)@.len(),
            element_of(old(self)@[id as int].data).is_some(),
        ensures
            final(self).wf(),
            attrs_added(*old(self), *final(self), id, attrs@, element_of(old(self)@[id as int].data)->0.attrs.items()),
            links_agree(old(self)@) ==> links_agree(final(self)@),
    {
        let ghost g_attrs = attrs@;
        self.add_attrs_if_missing_steps(id, attrs);
        proof {
            if links_agree(old(self)@) {
                lemma_links_attrs_added(*old(self), *self, id, g_attrs, element_of(old(self)@[id as int].data)->0.attrs.items());
            }
        }
    }

    /// The steps of `add_attrs_if_missing`.
    fn add_attrs_if_missing_steps(&mut self, id: usize, attrs: Vec<Attribute>)
        requires
            old(self).wf(),
            id < old(self)@.len(),
            element_of(old(self)@[id as int].data).is_some(),
        ensures
            final(self).wf(),
            attrs_added(*old(self), *final(self), id, attrs@, element_of(old(self)@[id as int].data)->0.attrs.items()),
    {
        let ghost input = attrs@;
        let ghost present = element_of(self@[id as int].data)->0.attrs.items();
        let n = attrs.len();
        let mut missing: Vec<bool> = Vec::new();
        match self.nodes[id].element_data() {
            Some(e) => {
                while missing.len() < n
                    invariant
                        n == attrs@.len(),
                        e.attrs.items() == present,
                        missing@.len() <= n,
                        forall|j: int| 0 <= j < missing@.len() ==> #[trigger] missing@[j] == find_attr(present, attrs@[j].name).is_none(),
                    decreases n - missing@.len(),
                {
                    let k = missing.len();
                    let absent = e.attrs.position(&attrs[k].name).is_none();
                    missing.push(absent);
                }
            },
            None => {},
        }
        let mut attrs = attrs;
        let ghost mut states: Seq<BaseDocument> = seq![*self];
        let mut k: usize = 0;
        while k < n
            invariant
                self.wf(),
                id < self@.len(),
                n == input.len(),
                k <= n,
                attrs@ == input.skip(k as int),
                missing@.len() == n,
                forall|j: int| 0 <= j < n ==> #[trigger] missing@[j] == find_attr(present, input[j].name).is_none(),
                attr_steps(states, *old(self), *self, id, input.take(k as int), present),
            decreases n - k,
        {
            let a = attrs.remove(0);
            let ghost mid = *self;
            proof {
                assert(a == input[k as int]);
                assert(attrs@ =~= input.skip(k + 1));
            }
            if missing[k] {
                self.set_attribute(id, a.name, a.value.as_str());
            }
            proof {
                let prev = states;
                states = states.push(*self);
                assert(attr_step(mid, *self, id, input[k as int], present));
                assert forall|j: int| 0 <= j < k + 1 implies #[trigger] attr_step(
                    states[j],
                    states[j + 1],
                    id,
                    input.take(k + 1)[j],
                    present,
                ) by {
                    if j < k {
                        assert(attr_step(prev[j], prev[j + 1], id, input.take(k as int)[j], present));
                    }
                }
            }
            k = k + 1;
        }
        proof {
            assert(input.take(n as int) =~= input);
            assert(attr_steps(states, *old(self), *self, id, input, present));
        }
    }

    /// The label node `id` shows as a button (see `button_label`).
    fn button_label_of(&self, id: usize) -> (r: Option<String>)
        requires
            id < self@.len(),
        ensures
            match r {
                Some(v) => button_label(self@[id as int]) == Some(v@),
                None => button_label(self@[id as int]) is None,
            },
    {
        reveal(button_label);
        let data = match self.nodes[id].element_data() {
            Some(data) => data,
            None => {
                return None;
            },
        };
        let is_button = same_text(data.name.local.as_str(), "input") && match data.attr("type") {
            Some(t) => same_text(t.as_str(), "button") || same_text(t.as_str(), "submit") || same_text(
                t.as_str(),
                "reset",
            ),
            None => false,
        };
        if !is_button {
            return None;
        }
        match data.attr("value") {
            Some(v) => Some(String::from_str(v.as_str())),
            None => None,
        }
    }

    /// Gives an `<input>` of type `button`, `submit` or `reset` with a `value` its label: a
    /// text node holding the value, appended to its children. Other nodes are left as they
    /// are.
    pub fn process_button_input(&mut self, target: usize)
        requires
            old(self).wf(),
            target < old(self)@.len(),
            old(self)@.len() < usize::MAX,
        ensures
            final(self).wf(),
            button_processed(*old(self), *final(self), target),
            links_agree(old(self)@) ==> links_agree(final(self)@),
    {
        self.process_button_input_steps(target);
        proof {
            if links_agree(old(self)@) {
                lemma_links_button_processed(*old(self), *self, target);
            }
        }
    }

    /// The steps of `process_button_input`.
    fn process_button_input_steps(&mut self, target: usize)
        requires
            old(self).wf(),
            target < old(self)@.len(),
            old(self)@.len() < usize::MAX,
        ensures
            final(self).wf(),
            button_processed(*old(self), *final(self), target),
    {
        match self.button_label_of(target) {
            Some(v) => {
                let ghost label = v@;
                assert(button_label(old(self)@[target as int]) == Some(label));
                let id = self.create_text_node(v.as_str());
                let ghost mid = *self;
                assert(text_node_created(*old(self), mid, v@)) by {
                    reveal(text_node_created);
                }
                let kids = vec![id];
                proof {
                    assert(kids@ == seq![old(self)@.len() as usize]);
                }
                self.append_children(target, kids.as_slice());
                assert(label_appended(*old(self), mid, *self, target, v@)) by {
                    reveal(label_appended);
                }
                proof {
                    lemma_button_processed(*old(self), mid, *self, target, label);
                }
            },
            None => {},
        }
    }

    /// The sibling `n` places after node `id` (counting from the first child when `id` is
    /// missing from its parent's children).
    pub fn forward(&self, id: usize, n: usize) -> (r: Option<usize>)
        requires
            self.wf(),
            id < self@.len(),
            match self@[id as int].parent {
                Some(p) => n + self@[p as int].children@.len() <= usize::MAX,
                None => true,
            },
        ensures
            r == sibling_at(self@, id as int, n as int),
    {
        let here = match self.child_index(id) {
            Some(k) => k,
            None => 0,
        };
        match self.nodes[id].parent {
            Some(p) => {
                proof {
                    assert(node_wf(self@[id as int], id as int, self@.len() as int));
                }
                let kids = &self.nodes[p].children;
                if here + n < kids.len() {
                    Some(kids[here + n])
                } else {
                    None
                }
            },
            None => None,
        }
    }

    /// The sibling `n` places before node `id` (counting from the first child when `id` is
    /// missing from its parent's children).
    pub fn backward(&self, id: usize, n: usize) -> (r: Option<usize>)
        requires
            self.wf(),
            id < self@.len(),
        ensures
            r == sibling_at(self@, id as int, -n),
    {
        let here = match self.child_index(id) {
            Some(k) => k,
            None => 0,
        };
        if here < n {
            return None;
        }
        match self.nodes[id].parent {
            Some(p) => {
                proof {
                    assert(node_wf(self@[id as int], id as int, self@.len() as int));
                }
                let kids = &self.nodes[p].children;
                if here - n < kids.len() {
                    Some(kids[here - n])
                } else {
                    None
                }
            },
            None => None,
        }
    }

    /// The name of node `id`, for elements.
    pub fn element_name(&self, id: usize) -> (r: Option<&QualName>)
        requires
            id < self@.len(),
        ensures
            match crate::node::element_of(self@[id as int].data) {
                Some(e) => r == Some(&e.name),
                None => r.is_none(),
            },
    {
        match self.nodes[id].element_data() {
            Some(e) => Some(&e.name),
            None => None,
        }
    }

    /// The node reached from `start` by following, for each entry of `path`, the child at
    /// that index.
    pub fn node_at_path(&self, start: usize, path: &[u8]) -> (r: usize)
        requires
            self.wf(),
            start < self@.len(),
            path_valid(self@, start as int, path@),
        ensures
            r == node_at_path_spec(self@, start as int, path@),
    {
        let mut current = start;
        let mut k: usize = 0;
        while k < path.len()
            invariant
                self.wf(),
                start < self@.len(),
                path_valid(self@, start as int, path@),
                k <= path@.len(),
                current == node_at_path_spec(self@, start as int, path@.take(k as int)),
                current < self@.len(),
            decreases path@.len() - k,
        {
            proof {
                assert(path@.take(k as int) == path@.take(k as int));
                let _ = node_at_path_spec(self@, start as int, path@.take(k as int));
                assert(path@.take(k + 1).drop_last() =~= path@.take(k as int));
                assert(path@.take(k + 1).last() == path@[k as int]);
            }
            let i = path[k] as usize;
            proof {
                assert(node_wf(self@[current as int], current as int, self@.len() as int));
            }
            current = self.nodes[current].children[i];
            k = k + 1;
        }
        proof {
            assert(path@.take(k as int) =~= path@);
        }
        current
    }

    /// Replaces the text of text node `id` with `value`; when the text changes, the
    /// ancestors are marked dirty. Nodes other than text nodes are left alone.
    pub fn set_node_text(&mut self, id: usize, value: &str)
        requires
            old(self).wf(),
            id < old(self)@.len(),
        ensures
            final(self).wf(),
            registries_after_mutation(*old(self), *final(self), old(self)@[id as int].data matches NodeData::Text(t)
                && t.content@ != value@ && in_document(old(self)@[id as int])),
            match old(self)@[id as int].data {
                NodeData::Text(t) => if t.content@ != value@ {
                    &&& final(self)@.len() == old(self)@.len()
                    &&& forall|i: int|
                        0 <= i < old(self)@.len() && i != id ==> #[trigger] final(self)@[i] == dirty_walk(
                            old(self)@,
                            id as int,
                        )[i]
                    &&& same_but_data(dirty_walk(old(self)@, id as int)[id as int], final(self)@[id as int])
                    &&& final(self)@[id as int].data matches NodeData::Text(n) && n.content@ == value@
                } else {
                    final(self)@ == old(self)@
                },
                _ => final(self)@ == old(self)@,
            },
            links_agree(old(self)@) ==> links_agree(final(self)@),
    {
        let changed = match &self.nodes[id].data {
            NodeData::Text(t) => !crate::utf8_text::same_text(t.content.as_str(), value),
            _ => false,
        };
        if changed {
            let in_doc = self.nodes[id].flags.is_in_document();
            self.mutations_occurred = self.mutations_occurred || in_doc;
            self.mark_dirty_walk(id);
            let ghost marked = self@;
            let mut d = NodeData::Text(crate::node::TextNodeData::new(String::from_str(value)));
            std::mem::swap(&mut self.nodes[id].data, &mut d);
            proof {
                let len = self@.len() as int;
                assert forall|i: int| 0 <= i < len implies node_wf(#[trigger] self@[i], i, len) by {
                    assert(node_wf(marked[i], i, len));
                }
                if links_agree(old(self)@) {
                    lemma_links_data_changed(old(self)@, self@, id as int, true, false);
                }
            }
        }
    }

    /// Appends `text` to text node `id`; the ancestors are marked dirty in any case.
    pub fn append_text_to_node(&mut self, id: usize, text: &str) -> (r: Result<(), AppendTextErr>)
        requires
            old(self).wf(),
            id < old(self)@.len(),
        ensures
            final(self).wf(),
            registries_after_mutation(*old(self), *final(self), old(self)@[id as int].data is Text
                && in_document(old(self)@[id as int])),
            final(self)@.len() == old(self)@.len(),
            forall|i: int|
                0 <= i < old(self)@.len() && i != id ==> #[trigger] final(self)@[i] == dirty_walk(
                    old(self)@,
                    id as int,
                )[i],
            same_but_data(dirty_walk(old(self)@, id as int)[id as int], final(self)@[id as int]),
            match old(self)@[id as int].data {
                NodeData::Text(t) => r is Ok && (final(self)@[id as int].data matches NodeData::Text(n)
                    && n.content@ == t.content@ + text@),
                _ => r == Err::<(), AppendTextErr>(AppendTextErr::NotTextNode)
                    && final(self)@[id as int].data == old(self)@[id as int].data,
            },
            links_agree(old(self)@) ==> links_agree(final(self)@),
    {
        let in_doc = self.nodes[id].flags.is_in_document();
        let is_text = self.nodes[id].is_text_node();
        self.mutations_occurred = self.mutations_occurred || (in_doc && is_text);
        self.mark_dirty_walk(id);
        let ghost marked = self@;
        let mut d = NodeData::Document;
        std::mem::swap(&mut self.nodes[id].data, &mut d);
        let r = match &mut d {
            NodeData::Text(t) => {
                t.content.append(text);
                Ok(())
            },
            _ => Err(AppendTextErr::NotTextNode),
        };
        std::mem::swap(&mut self.nodes[id].data, &mut d);
        proof {
            let len = self@.len() as int;
            assert forall|i: int| 0 <= i < len implies node_wf(#[trigger] self@[i], i, len) by {
                assert(node_wf(marked[i], i, len));
            }
            if links_agree(old(self)@) {
                lemma_links_data_changed(old(self)@, self@, id as int, true, false);
            }
        }
        r
    }

    /// Sets attribute `name` of element `id` to `value`. Ancestors of a node in the
    /// document are marked dirty; the element's cached id and focussability follow its
    /// attributes, and a form control given a `disabled` attribute becomes disabled.
    pub fn set_attribute(&mut self, id: usize, name: QualName, value: &str)
        requires
            old(self).wf(),
            id < old(self)@.len(),
        ensures
            final(self).wf(),
            attribute_set(*old(self), *final(self), id, name, value@),
            links_agree(old(self)@) ==> links_agree(final(self)@),
    {
        let ghost g_name = name;
        self.set_attribute_steps(id, name, value);
        proof {
            if links_agree(old(self)@) {
                lemma_links_attribute_set(*old(self), *self, id, g_name, value@);
            }
        }
    }

    /// The steps of `set_attribute`.
    fn set_attribute_steps(&mut self, id: usize, name: QualName, value: &str)
        requires
            old(self).wf(),
            id < old(self)@.len(),
        ensures
            final(self).wf(),
            attribute_set(*old(self), *final(self), id, name, value@),
    {
        let in_doc = self.nodes[id].flags.is_in_document();
        let is_element = self.nodes[id].is_element();
        self.mutations_occurred = self.mutations_occurred || (in_doc && is_element);
        if self.nodes[id].flags.is_in_document() {
            self.mark_dirty_walk(id);
        }
        let disables = match &self.nodes[id].data {
            NodeData::Element(e) => same_text(name.local.as_str(), "disabled") && e.can_be_disabled(),
            _ => false,
        };
        if disables {
            self.mark_dirty_walk(id);
        }
        let ghost marked = self@;
        let mut d = NodeData::Document;
        std::mem::swap(&mut self.nodes[id].data, &mut d);
        match &mut d {
            NodeData::Element(e) => set_attr_in(e, name, value, in_doc),
            _ => {},
        }
        std::mem::swap(&mut self.nodes[id].data, &mut d);
        proof {
            let len = self@.len() as int;
            assert forall|i: int| 0 <= i < len implies node_wf(#[trigger] self@[i], i, len) by {
                assert(node_wf(marked[i], i, len));
            }
        }
    }

    /// Removes attribute `name` of element `id`. Ancestors of a node in the document are
    /// marked dirty; when the element had the attribute, its cached id and focussability
    /// follow, and a form control losing its `disabled` attribute becomes enabled.
    pub fn clear_attribute(&mut self, id: usize, name: QualName)
        requires
            old(self).wf(),
            id < old(self)@.len(),
        ensures
            final(self).wf(),
            attribute_cleared(*old(self), *final(self), id, name),
            links_agree(old(self)@) ==> links_agree(final(self)@),
    {
        let ghost g_name = name;
        self.clear_attribute_steps(id, name);
        proof {
            if links_agree(old(self)@) {
                lemma_links_data_changed(old(self)@, self@, id as int, in_document(old(self)@[id as int]), clear_enables(old(self)@[id as int].data, g_name));
            }
        }
    }

    /// The steps of `clear_attribute`.
    #[verifier::spinoff_prover]
    #[verifier::rlimit(100)]
    fn clear_attribute_steps(&mut self, id: usize, name: QualName)
        requires
            old(self).wf(),
            id < old(self)@.len(),
        ensures
            final(self).wf(),
            attribute_cleared(*old(self), *final(self), id, name),
    {
        if self.nodes[id].flags.is_in_document() {
            self.mark_dirty_walk(id);
        }
        let (has, enables) = match self.nodes[id].data.downcast_element() {
            Some(e) => {
                let has = e.attrs.position(&name).is_some();
                (has, has && same_text(name.local.as_str(), "disabled") && e.can_be_disabled())
            },
            None => (false, false),
        };
        let in_doc = self.nodes[id].flags.is_in_document();
        self.mutations_occurred = self.mutations_occurred || (in_doc && has);
        if enables {
            self.mark_dirty_walk(id);
        }
        if has {
            let ghost marked = self@;
            let mut d = NodeData::Document;
            std::mem::swap(&mut self.nodes[id].data, &mut d);
            match &mut d {
                NodeData::Element(e) => clear_attr_in(e, &name),
                NodeData::AnonymousBlock(e) => clear_attr_in(e, &name),
                _ => {},
            }
            std::mem::swap(&mut self.nodes[id].data, &mut d);
            proof {
                let len = self@.len() as int;
                assert forall|i: int| 0 <= i < len implies node_wf(#[trigger] self@[i], i, len) by {
                    assert(node_wf(marked[i], i, len));
                }
            }
        }
    }

    /// Moves the nodes `new_ids` into the children of the parent of `anchor_id`, just after
    /// it: before its next sibling, or at the end when it has none.
    pub fn insert_nodes_after(&mut self, anchor_id: usize, new_ids: &[usize])
        requires
            old(self).wf(),
            anchor_id < old(self)@.len(),
            ids_valid(new_ids@, old(self)@.len() as int),
            old(self)@[anchor_id as int].parent is Some,
            match sibling_at(old(self)@, anchor_id as int, 1) {
                Some(next) => old(self)@[next as int].parent matches Some(q) && detached_children(
                    old(self)@,
                    new_ids@,
                    q as int,
                ).contains(next),
                None => true,
            },
        ensures
            final(self).wf(),
            match sibling_at(old(self)@, anchor_id as int, 1) {
                Some(next) => children_added(
                    *old(self),
                    *final(self),
                    old(self)@[next as int].parent->0,
                    new_ids@,
                    Some(next),
                ),
                None => children_added(*old(self), *final(self), old(self)@[anchor_id as int].parent->0, new_ids@, None),
            },
            links_agree(old(self)@) && moved_once(old(self)@, new_ids@) ==> links_agree(final(self)@),
    {
        proof {
            assert(node_wf(self@[anchor_id as int], anchor_id as int, self@.len() as int));
        }
        match self.next_sibling_id(anchor_id) {
            Some(next) => {
                proof {
                    let p = self@[anchor_id as int].parent->0;
                    assert(node_wf(self@[p as int], p as int, self@.len() as int));
                }
                self.insert_nodes_before(next, new_ids);
            },
            None => {
                let parent_id = match self.nodes[anchor_id].parent {
                    Some(p) => p,
                    None => anchor_id,
                };
                self.append_children(parent_id, new_ids);
            },
        }
    }

    /// Moves all the children of `old_parent_id` to the end of the children of
    /// `new_parent_id`: the old parent's child list is emptied, then the former children
    /// are appended as by `append_children`.
    pub fn reparent_children(&mut self, old_parent_id: usize, new_parent_id: usize)
        requires
            old(self).wf(),
            old_parent_id < old(self)@.len(),
            new_parent_id < old(self)@.len(),
        ensures
            final(self).wf(),
            exists|mid: BaseDocument|
                children_taken(*old(self), mid, old_parent_id) && #[trigger] children_added(
                    mid,
                    *final(self),
                    new_parent_id,
                    old(self)@[old_parent_id as int].children@,
                    None,
                ),
            links_agree(old(self)@) ==> links_agree(final(self)@),
    {
        proof {
            assert(node_wf(self@[old_parent_id as int], old_parent_id as int, self@.len() as int));
        }
        let kids = self.nodes[old_parent_id].children.clone();
        self.nodes[old_parent_id].children = Vec::new();
        let ghost mid = *self;
        proof {
            let len = self@.len() as int;
            assert forall|i: int| 0 <= i < len implies node_wf(#[trigger] self@[i], i, len) by {
                assert(node_wf(old(self)@[i], i, len));
            }
        }
        self.append_children(new_parent_id, kids.as_slice());
        proof {
            assert(children_taken(*old(self), mid, old_parent_id));
            if links_agree(old(self)@) {
                lemma_links_reparented(old(self)@, mid@, self@, old_parent_id, new_parent_id);
            }
        }
    }

    /// Puts the nodes `new_ids` in the place of `anchor_id`: they are inserted before it
    /// (as by `insert_nodes_before`), and it is then removed (as by `remove_node`).
    pub fn replace_node_with(&mut self, anchor_id: usize, new_ids: &[usize])
        requires
            old(self).wf(),
            anchor_id < old(self)@.len(),
            ids_valid(new_ids@, old(self)@.len() as int),
            old(self)@[anchor_id as int].parent matches Some(p) && detached_children(
                old(self)@,
                new_ids@,
                p as int,
            ).contains(anchor_id),
        ensures
            final(self).wf(),
            exists|mid: BaseDocument|
                #[trigger] children_added(
                    *old(self),
                    mid,
                    old(self)@[anchor_id as int].parent->0,
                    new_ids@,
                    Some(anchor_id),
                ) && node_removed(mid, *final(self), anchor_id),
            links_agree(old(self)@) && moved_once(old(self)@, new_ids@) ==> links_agree(final(self)@),
    {
        self.insert_nodes_before(anchor_id, new_ids);
        let ghost mid = *self;
        proof {
            if links_agree(old(self)@) && moved_once(old(self)@, new_ids@) {
                let p = old(self)@[anchor_id as int].parent->0;
                let kids = old(self)@[p as int].children@;
                lemma_filter_contains_iff(kids, detach_pred(old(self)@, new_ids@, p as int), anchor_id);
                assert(kids.contains(anchor_id));
                assert(same_content(old(self)@[anchor_id as int], mid@[anchor_id as int]));
                assert(is_flag_bit(IS_SHADOW_ROOT));
                assert(!is_shadow_root_node(mid@[anchor_id as int]));
            }
        }
        self.remove_node(anchor_id);
        proof {
            assert(node_removed(mid, *self, anchor_id));
        }
    }

    /// Ends a batch of mutations: tells whether one of them affected rendered output (so a
    /// redraw is owed) and clears that record.
    pub fn flush_mutations(&mut self) -> (r: bool)
        ensures
            r == old(self).mutations_occurred,
            !final(self).mutations_occurred,
            final(self)@ == old(self)@,
            final(self).shadow_hosts == old(self).shadow_hosts,
            final(self).dropped@ == old(self).dropped@,
            final(self).sticky_nodes == old(self).sticky_nodes,
            final(self).pending_scroll == old(self).pending_scroll,
    {
        let r = self.mutations_occurred;
        self.mutations_occurred = false;
        r
    }
}

} // verus!
