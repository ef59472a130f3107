//! Shadow DOM: encapsulated subtrees and slot assignment.
//!
//! `Node::children` is never rewritten: it stays the light DOM. The composed (flat) tree is
//! a view, read through [`BaseDocument::composed_children`]: a shadow host yields its shadow
//! root's children, a `<slot>` its assigned nodes (or, with none, its own children).
//!
//! A shadow root is an element named `shadow-root`, flagged `IS_SHADOW_ROOT`, whose
//! `parent` is its host but which is not among the host's `children`. Slot assignment is
//! tree-side state (`assigned_nodes` on the slot, `assigned_slot` on the light child),
//! refreshed by [`BaseDocument::assign_slots`].
use vstd::prelude::*;
use vstd::seq_lib::lemma_seq_contains_after_push;

use crate::document::{ids_valid, lemma_without_valid, node_wf, opt_valid, same_registries, BaseDocument};
use crate::flags::{is_flag_bit, IS_IN_DOCUMENT, IS_SHADOW_ROOT};
use crate::document::in_document;
use crate::mutator::{dirt_of, dirty_walk, lemma_dirty_walk_same_links, moved_state, undirtied};
use crate::node::{attr_value, element_of, Attribute, Node, NodeData, QualName};
use crate::utf8_text::{same_text, trim_white_space, trimmed};
use crate::tree_links::{
    is_shadow_root_node, lemma_links_frame, lemma_shadow_root_links, links_agree, same_links,
};

verus! {

/// The mode a shadow root was attached with.
#[derive(Clone, Copy, Debug, PartialEq, Eq, Structural)]
pub enum ShadowRootMode {
    Open,
    Closed,
}

/// The trimmed value of attribute `local` of an element, or the empty string.
pub open spec fn trimmed_attr(data: NodeData, local: Seq<char>) -> Seq<char> {
    match element_of(data) {
        Some(e) => match attr_value(e.attrs.items(), local) {
            Some(v) => trimmed(v),
            None => Seq::empty(),
        },
        None => Seq::empty(),
    }
}

/// The name of a slot: its trimmed `name` attribute ("" for the default slot).
pub open spec fn slot_name(n: Node) -> Seq<char> {
    trimmed_attr(n.data, "name"@)
}

/// The slot name a light child asks for: an element's trimmed `slot` attribute, "" for
/// text; other nodes are never slotted.
pub open spec fn wanted_slot(n: Node) -> Option<Seq<char>> {
    match n.data {
        NodeData::Element(_) => Some(trimmed_attr(n.data, "slot"@)),
        NodeData::Text(_) => Some(Seq::empty()),
        _ => None,
    }
}

/// Whether `n` is a `<slot>` element.
pub open spec fn is_slot_node(n: Node) -> bool {
    n.data matches NodeData::Element(e) && e.name.local@ == "slot"@
}

/// The slots of the shadow tree of `root` found at `id` and below, in tree order, looking
/// at most `fuel` levels down; the subtrees of nested shadow hosts are skipped, their
/// slots belonging to their own host.
pub open spec fn slots_from(nodes: Seq<Node>, root: int, id: int, fuel: nat) -> Seq<usize>
    decreases fuel, 0nat,
{
    if !(0 <= id < nodes.len()) || (id != root && nodes[id].shadow_root.is_some()) {
        Seq::empty()
    } else {
        let own: Seq<usize> = if is_slot_node(nodes[id]) {
            seq![id as usize]
        } else {
            Seq::empty()
        };
        if fuel > 0 {
            own + slots_in_list(nodes, root, nodes[id].children@, (fuel - 1) as nat)
        } else {
            own
        }
    }
}

/// The slots found at the nodes of `ids` and below, in order.
pub open spec fn slots_in_list(nodes: Seq<Node>, root: int, ids: Seq<usize>, fuel: nat) -> Seq<usize>
    decreases fuel, ids.len() + 1,
{
    if ids.len() == 0 {
        Seq::empty()
    } else {
        slots_in_list(nodes, root, ids.drop_last(), fuel) + slots_from(
            nodes,
            root,
            ids.last() as int,
            fuel,
        )
    }
}

/// The index of the first slot of `slots` named `name`, if any.
pub open spec fn first_named(nodes: Seq<Node>, slots: Seq<usize>, name: Seq<char>) -> Option<int>
    decreases slots.len(),
{
    if slots.len() == 0 {
        None
    } else {
        match first_named(nodes, slots.drop_last(), name) {
            Some(k) => Some(k),
            None => if slot_name(nodes[slots.last() as int]) == name {
                Some(slots.len() - 1)
            } else {
                None
            },
        }
    }
}

/// The index of the last occurrence of `x` in `s`, if any.
pub open spec fn last_index(s: Seq<usize>, x: usize) -> Option<int>
    decreases s.len(),
{
    if s.len() == 0 {
        None
    } else if s.last() == x {
        Some(s.len() - 1)
    } else {
        last_index(s.drop_last(), x)
    }
}

/// The last index of `x` in `s` holds `x`.
pub proof fn lemma_last_index_range(s: Seq<usize>, x: usize)
    ensures
        last_index(s, x) matches Some(k) ==> 0 <= k < s.len() && s[k] == x,
    decreases s.len(),
{
    if s.len() > 0 && s.last() != x {
        lemma_last_index_range(s.drop_last(), x);
    }
}

/// The light children assigned at step `k`, to the slot `slots[k]`: those asking for its
/// name, when it is the first slot of that name, and none otherwise.
pub open spec fn assigned_at(nodes: Seq<Node>, slots: Seq<usize>, light: Seq<usize>, k: int) -> Seq<usize> {
    let name = slot_name(nodes[slots[k] as int]);
    if first_named(nodes, slots, name) == Some(k) {
        light.filter(|c: usize| wanted_slot(nodes[c as int]) == Some(name))
    } else {
        Seq::empty()
    }
}

/// The slot a light child `c` is assigned to: the first slot named as it asks.
pub open spec fn slot_for(nodes: Seq<Node>, slots: Seq<usize>, c: int) -> Option<usize> {
    match wanted_slot(nodes[c]) {
        Some(w) => match first_named(nodes, slots, w) {
            Some(k) => Some(slots[k]),
            None => None,
        },
        None => None,
    }
}

/// The composed-tree children of `n`, given the children `root_children` of its shadow
/// root when it is a shadow host.
pub open spec fn composed_children_of(n: Node, root_children: Seq<usize>) -> Seq<usize> {
    if n.shadow_root.is_some() {
        root_children
    } else if is_slot_node(n) && n.assigned_nodes@.len() > 0 {
        n.assigned_nodes@
    } else {
        n.children@
    }
}

/// Whether light child `c` has been taken by one of the slots of `prefix`.
pub open spec fn taken_by(nodes: Seq<Node>, prefix: Seq<usize>, c: usize) -> bool {
    wanted_slot(nodes[c as int]) matches Some(w) && first_named(nodes, prefix, w).is_some()
}

proof fn lemma_first_named_push(nodes: Seq<Node>, s: Seq<usize>, x: usize, w: Seq<char>)
    ensures
        first_named(nodes, s.push(x), w) == match first_named(nodes, s, w) {
            Some(j) => Some(j),
            None => if slot_name(nodes[x as int]) == w {
                Some(s.len() as int)
            } else {
                None
            },
        },
{
    assert(s.push(x).drop_last() =~= s);
}

proof fn lemma_first_named_range(nodes: Seq<Node>, s: Seq<usize>, w: Seq<char>)
    ensures
        first_named(nodes, s, w) matches Some(j) ==> 0 <= j < s.len() && slot_name(nodes[s[j] as int]) == w,
    decreases s.len(),
{
    if s.len() > 0 {
        lemma_first_named_range(nodes, s.drop_last(), w);
    }
}

proof fn lemma_first_named_min(nodes: Seq<Node>, s: Seq<usize>, w: Seq<char>)
    ensures
        first_named(nodes, s, w) matches Some(k) ==> 0 <= k < s.len() && slot_name(nodes[s[k] as int]) == w
            && forall|j: int| 0 <= j < k ==> slot_name(nodes[#[trigger] s[j] as int]) != w,
        first_named(nodes, s, w) is None ==> forall|j: int| 0 <= j < s.len() ==> slot_name(nodes[#[trigger] s[j] as int]) != w,
    decreases s.len(),
{
    if s.len() > 0 {
        let t = s.drop_last();
        lemma_first_named_min(nodes, t, w);
        match first_named(nodes, t, w) {
            Some(k) => {
                assert(t[k] == s[k]);
                assert forall|j: int| 0 <= j < k implies slot_name(nodes[#[trigger] s[j] as int]) != w by {
                    assert(t[j] == s[j]);
                }
            },
            None => {
                assert forall|j: int| 0 <= j < s.len() - 1 implies slot_name(nodes[#[trigger] s[j] as int]) != w by {
                    assert(t[j] == s[j]);
                }
            },
        }
    }
}

/// First slot wins: a light child is assigned to a slot named as it asks, and no slot
/// before that one (in tree order) has that name; a child is left unassigned only when it
/// cannot be slotted or no slot has the name it asks for.
pub proof fn law_first_matching_slot_wins(nodes: Seq<Node>, slots: Seq<usize>, c: int)
    ensures
        slot_for(nodes, slots, c) matches Some(s) ==> exists|k: int|
            0 <= k < slots.len() && slots[k] == s && wanted_slot(nodes[c]) == Some(slot_name(nodes[s as int]))
                && forall|j: int| 0 <= j < k ==> slot_name(nodes[#[trigger] slots[j] as int]) != slot_name(nodes[s as int]),
        slot_for(nodes, slots, c) is None ==> match wanted_slot(nodes[c]) {
            Some(w) => forall|j: int| 0 <= j < slots.len() ==> slot_name(nodes[#[trigger] slots[j] as int]) != w,
            None => true,
        },
{
    match wanted_slot(nodes[c]) {
        Some(w) => {
            lemma_first_named_min(nodes, slots, w);
            match first_named(nodes, slots, w) {
                Some(k) => {
                    assert(slots[k] == slot_for(nodes, slots, c)->0);
                },
                None => {},
            }
        },
        None => {},
    }
}

/// Assigned nodes and assigned slots agree: a light child is among the nodes that the slot
/// at position `k` gets exactly when that slot is the first of its name and the child is
/// assigned to it. So each light child is among the nodes of at most the one slot it is
/// assigned to.
pub proof fn law_assigned_nodes_match_assigned_slot(
    nodes: Seq<Node>,
    slots: Seq<usize>,
    light: Seq<usize>,
    c: usize,
    k: int,
)
    requires
        0 <= k < slots.len(),
        light.contains(c),
    ensures
        assigned_at(nodes, slots, light, k).contains(c) <==> (first_named(
            nodes,
            slots,
            slot_name(nodes[slots[k] as int]),
        ) == Some(k) && slot_for(nodes, slots, c as int) == Some(slots[k])),
{
    broadcast use vstd::seq_lib::group_filter_ensures;
    broadcast use Seq::lemma_filter_contains_rev;

    let name = slot_name(nodes[slots[k] as int]);
    let pred = |x: usize| wanted_slot(nodes[x as int]) == Some(name);
    if first_named(nodes, slots, name) == Some(k) {
        let i = choose|i: int| 0 <= i < light.len() && light[i] == c;
        if assigned_at(nodes, slots, light, k).contains(c) {
            let f = light.filter(pred);
            let j = choose|j: int| 0 <= j < f.len() && f[j] == c;
            assert(pred(f[j]));
        }
        if slot_for(nodes, slots, c as int) == Some(slots[k]) {
            let w = wanted_slot(nodes[c as int])->0;
            lemma_first_named_min(nodes, slots, w);
            let j = first_named(nodes, slots, w)->0;
            assert(slots[j] == slots[k]);
            assert(w == name);
            assert(pred(light[i]));
        }
    }
}

/// A value in a list has a last index.
proof fn lemma_last_index_some(s: Seq<usize>, x: usize)
    requires
        s.contains(x),
    ensures
        last_index(s, x) is Some,
    decreases s.len(),
{
    if s.last() != x {
        let k = choose|k: int| 0 <= k < s.len() && s[k] == x;
        assert(s.drop_last()[k] == x);
        lemma_last_index_some(s.drop_last(), x);
    }
}

/// Slot assignment sends each light child to the first slot, in tree order, of the name it
/// asks for, and to no other: once the slots of `host` are assigned, a light child `c` is
/// among the nodes of a slot `s` of the host's shadow tree exactly when its assigned slot is
/// `s`, and then no slot before `s` has that name. The nodes of each slot are the light
/// children that ask for it, in the order of the light children (see `assigned_at`). The
/// slots are taken to be distinct, as they are in a tree.
pub proof fn law_slot_assignment(before: BaseDocument, after: BaseDocument, host: usize, c: usize, s: usize)
    requires
        host < before@.len(),
        c < before@.len(),
        s < before@.len(),
        slots_assigned(before, after, host),
        before@[host as int].shadow_root is Some,
        before@[host as int].children@.contains(c),
        slots_from(before@, before@[host as int].shadow_root->0 as int, before@[host as int].shadow_root->0 as int, before@.len() as nat).no_duplicates(),
        slots_from(before@, before@[host as int].shadow_root->0 as int, before@[host as int].shadow_root->0 as int, before@.len() as nat).contains(s),
    ensures
        ({
            let root = before@[host as int].shadow_root->0 as int;
            let slots = slots_from(before@, root, root, before@.len() as nat);
            let light = before@[host as int].children@;
            &&& after@[s as int].assigned_nodes@.contains(c) <==> after@[c as int].assigned_slot == Some(s)
            &&& after@[c as int].assigned_slot == Some(s) ==> exists|k: int|
                0 <= k < slots.len() && slots[k] == s && wanted_slot(before@[c as int]) == Some(slot_name(before@[s as int]))
                    && forall|j: int| 0 <= j < k ==> slot_name(before@[#[trigger] slots[j] as int]) != slot_name(before@[s as int])
            &&& after@[s as int].assigned_nodes@ == assigned_at(before@, slots, light, last_index(slots, s)->0)
        }),
{
    let root = before@[host as int].shadow_root->0 as int;
    let slots = slots_from(before@, root, root, before@.len() as nat);
    let light = before@[host as int].children@;
    lemma_last_index_some(slots, s);
    lemma_last_index_range(slots, s);
    let k = last_index(slots, s)->0;
    assert(after@[s as int].assigned_nodes@ == assigned_at(before@, slots, light, k));
    assert(after@[c as int].assigned_slot == slot_for(before@, slots, c as int));
    law_assigned_nodes_match_assigned_slot(before@, slots, light, c, k);
    law_first_matching_slot_wins(before@, slots, c as int);
    if slot_for(before@, slots, c as int) == Some(s) {
        let w = wanted_slot(before@[c as int])->0;
        lemma_first_named_min(before@, slots, w);
        let j = first_named(before@, slots, w)->0;
        assert(slots[j] == s);
        assert(j == k);
    }
}

proof fn lemma_first_named_prefix(nodes: Seq<Node>, s: Seq<usize>, k: int, w: Seq<char>)
    requires
        0 <= k <= s.len(),
    ensures
        first_named(nodes, s.take(k), w) matches Some(j) ==> first_named(nodes, s, w) == Some(j),
        first_named(nodes, s.take(k), w) is None && k < s.len() && slot_name(nodes[s[k] as int]) == w
            ==> first_named(nodes, s, w) == Some(k),
    decreases s.len(),
{
    if k == s.len() {
        assert(s.take(k) =~= s);
    } else {
        let t = s.drop_last();
        assert(t.take(k) =~= s.take(k));
        lemma_first_named_prefix(nodes, t, k, w);
        if k == s.len() - 1 {
            assert(t.take(k) =~= t);
        }
    }
}

proof fn lemma_last_index_push(s: Seq<usize>, x: usize, n: usize)
    ensures
        last_index(s.push(x), n) == if x == n {
            Some(s.len() as int)
        } else {
            last_index(s, n)
        },
{
    assert(s.push(x).drop_last() =~= s);
}

proof fn lemma_filter_take(l: Seq<usize>, p: spec_fn(usize) -> bool, i: int)
    requires
        0 <= i < l.len(),
    ensures
        l.take(i + 1).filter(p) == if p(l[i]) {
            l.take(i).filter(p).push(l[i])
        } else {
            l.take(i).filter(p)
        },
{
    reveal(Seq::filter);
    assert(l.take(i + 1).drop_last() =~= l.take(i));
}

proof fn lemma_filter_none(l: Seq<usize>, p: spec_fn(usize) -> bool)
    requires
        forall|x: usize| !#[trigger] p(x),
    ensures
        l.filter(p) == Seq::<usize>::empty(),
    decreases l.len(),
{
    reveal(Seq::filter);
    if l.len() > 0 {
        lemma_filter_none(l.drop_last(), p);
    }
    assert(l.filter(p) =~= Seq::<usize>::empty());
}

/// Whether `a` and `b` hold the same tree and node data: only slot assignments and flags
/// may differ.
pub open spec fn same_base(a: Seq<Node>, b: Seq<Node>) -> bool {
    &&& a.len() == b.len()
    &&& forall|i: int|
        0 <= i < a.len() ==> (#[trigger] a[i]).data == b[i].data && a[i].children == b[i].children
            && a[i].shadow_root == b[i].shadow_root
}

proof fn lemma_slots_from_same_base(a: Seq<Node>, b: Seq<Node>, root: int, id: int, fuel: nat)
    requires
        same_base(a, b),
    ensures
        slots_from(a, root, id, fuel) == slots_from(b, root, id, fuel),
    decreases fuel, 0nat,
{
    if 0 <= id < a.len() {
        assert(a[id].data == b[id].data);
        if fuel > 0 {
            lemma_slots_in_list_same_base(a, b, root, a[id].children@, (fuel - 1) as nat);
        }
    }
}

proof fn lemma_slots_in_list_same_base(a: Seq<Node>, b: Seq<Node>, root: int, ids: Seq<usize>, fuel: nat)
    requires
        same_base(a, b),
    ensures
        slots_in_list(a, root, ids, fuel) == slots_in_list(b, root, ids, fuel),
    decreases fuel, ids.len() + 1,
{
    if ids.len() > 0 {
        lemma_slots_in_list_same_base(a, b, root, ids.drop_last(), fuel);
        lemma_slots_from_same_base(a, b, root, ids.last() as int, fuel);
    }
}

proof fn lemma_first_named_same_base(a: Seq<Node>, b: Seq<Node>, s: Seq<usize>, w: Seq<char>)
    requires
        same_base(a, b),
        ids_valid(s, a.len() as int),
    ensures
        first_named(a, s, w) == first_named(b, s, w),
    decreases s.len(),
{
    if s.len() > 0 {
        assert(a[s.last() as int].data == b[s.last() as int].data);
        lemma_first_named_same_base(a, b, s.drop_last(), w);
    }
}

proof fn lemma_assignment_same_base(a: Seq<Node>, b: Seq<Node>, slots: Seq<usize>, light: Seq<usize>)
    requires
        same_base(a, b),
        ids_valid(slots, a.len() as int),
        ids_valid(light, a.len() as int),
    ensures
        forall|k: int| 0 <= k < slots.len() ==> #[trigger] assigned_at(a, slots, light, k) == assigned_at(b, slots, light, k),
        forall|c: int| 0 <= c < a.len() ==> #[trigger] slot_for(a, slots, c) == slot_for(b, slots, c),
{
    assert forall|k: int| 0 <= k < slots.len() implies #[trigger] assigned_at(a, slots, light, k) == assigned_at(b, slots, light, k) by {
        let name = slot_name(a[slots[k] as int]);
        assert(a[slots[k] as int].data == b[slots[k] as int].data);
        lemma_first_named_same_base(a, b, slots, name);
        let pa = |c: usize| wanted_slot(a[c as int]) == Some(name);
        let pb = |c: usize| wanted_slot(b[c as int]) == Some(name);
        assert forall|i: int| 0 <= i < light.len() implies pa(light[i]) == pb(light[i]) by {
            assert(a[light[i] as int].data == b[light[i] as int].data);
        }
        lemma_filter_congruent(light, pa, pb);
    }
    assert forall|c: int| 0 <= c < a.len() implies #[trigger] slot_for(a, slots, c) == slot_for(b, slots, c) by {
        assert(a[c].data == b[c].data);
        match wanted_slot(a[c]) {
            Some(w) => lemma_first_named_same_base(a, b, slots, w),
            None => {},
        }
    }
}

proof fn lemma_filter_congruent(l: Seq<usize>, p: spec_fn(usize) -> bool, q: spec_fn(usize) -> bool)
    requires
        forall|i: int| 0 <= i < l.len() ==> p(#[trigger] l[i]) == q(l[i]),
    ensures
        l.filter(p) == l.filter(q),
    decreases l.len(),
{
    reveal(Seq::filter);
    if l.len() > 0 {
        assert forall|i: int| 0 <= i < l.drop_last().len() implies p(#[trigger] l.drop_last()[i]) == q(l.drop_last()[i]) by {
            assert(l.drop_last()[i] == l[i]);
        }
        lemma_filter_congruent(l.drop_last(), p, q);
        assert(p(l[l.len() - 1]) == q(l[l.len() - 1]));
    }
}

/// The nodes assigned to slot `slots[k]` when its turn comes in slot assignment: those of
/// its last earlier turn, or those it started with.
pub open spec fn prior_assigned(start: Seq<Node>, slots: Seq<usize>, light: Seq<usize>, k: int) -> Seq<usize> {
    match last_index(slots.take(k), slots[k]) {
        Some(j) => assigned_at(start, slots, light, j),
        None => start[slots[k] as int].assigned_nodes@,
    }
}

/// Whether the turn of slot `slots[k]` changes the nodes assigned to it.
pub open spec fn slot_changed(start: Seq<Node>, slots: Seq<usize>, light: Seq<usize>, k: int) -> bool {
    prior_assigned(start, slots, light, k) != assigned_at(start, slots, light, k)
}

/// Whether one of the first `k` turns of slot assignment changes the nodes assigned to
/// its slot.
pub open spec fn any_slot_changed(start: Seq<Node>, slots: Seq<usize>, light: Seq<usize>, k: int) -> bool {
    exists|j: int| 0 <= j < k && #[trigger] slot_changed(start, slots, light, j)
}

/// The dirty marks after the first `k` turns of slot assignment: a turn that changes what
/// its slot holds marks the ancestors of the slot's box owner (see `box_owner`).
pub open spec fn slot_dirt(start: Seq<Node>, slots: Seq<usize>, light: Seq<usize>, k: nat) -> Seq<bool>
    decreases k,
{
    if k == 0 {
        dirt_of(start)
    } else {
        let d = slot_dirt(start, slots, light, (k - 1) as nat);
        if slot_changed(start, slots, light, k - 1) {
            dirt_of(dirty_walk(moved_state(start, Seq::empty(), d), box_owner(start, slots[k - 1] as int)))
        } else {
            d
        }
    }
}

/// The dirty marks after slot assignment for `host`: those of its turns, and, when one of
/// them changed what its slot holds, a walk from the host's box owner.
pub open spec fn dirt_after_assigning(start: Seq<Node>, slots: Seq<usize>, light: Seq<usize>, host: int) -> Seq<bool> {
    let d = slot_dirt(start, slots, light, slots.len());
    if any_slot_changed(start, slots, light, slots.len() as int) {
        dirt_of(dirty_walk(moved_state(start, Seq::empty(), d), box_owner(start, host)))
    } else {
        d
    }
}

/// Whether `after` is `before` once the light children of `host` are assigned to the slots
/// of its shadow tree (see `assign_slots_for`).
pub open spec fn slots_assigned(before: BaseDocument, after: BaseDocument, host: usize) -> bool {
    &&& after.wf()
    &&& same_registries(before, after)
    &&& after@.len() == before@.len()
    &&& forall|i: int|
        0 <= i < before@.len() ==> #[trigger] after@[i] == (Node {
            assigned_nodes: after@[i].assigned_nodes,
            assigned_slot: after@[i].assigned_slot,
            dirty_descendants: after@[i].dirty_descendants,
            ..before@[i]
        })
    &&& match before@[host as int].shadow_root {
        None => after@ == before@,
        Some(root) => {
            let slots = slots_from(before@, root as int, root as int, before@.len() as nat);
            let light = before@[host as int].children@;
            &&& dirt_of(after@) == dirt_after_assigning(before@, slots, light, host as int)
            &&& forall|n: int|
                0 <= n < before@.len() ==> match last_index(slots, n as usize) {
                    Some(k) => (#[trigger] after@[n]).assigned_nodes@ == assigned_at(before@, slots, light, k),
                    None => after@[n].assigned_nodes == before@[n].assigned_nodes,
                }
            &&& forall|c: int|
                0 <= c < before@.len() ==> (#[trigger] after@[c]).assigned_slot == if light.contains(c as usize) {
                    slot_for(before@, slots, c)
                } else {
                    before@[c].assigned_slot
                }
        },
    }
}

/// Whether `states` runs from `before` to `after`, each state following the one before it
/// by slot assignment for the next host of `hosts` (see `slots_assigned`).
pub open spec fn host_steps(states: Seq<BaseDocument>, before: BaseDocument, after: BaseDocument, hosts: Seq<usize>) -> bool {
    &&& states.len() == hosts.len() + 1
    &&& states[0] == before
    &&& states.last() == after
    &&& forall|k: int| 0 <= k < hosts.len() ==> #[trigger] slots_assigned(states[k], states[k + 1], hosts[k])
}

/// Whether `a` and `b` hold the same ids in the same order.
fn same_ids(a: &Vec<usize>, b: &Vec<usize>) -> (r: bool)
    ensures
        r == (a@ == b@),
{
    if a.len() != b.len() {
        return false;
    }
    let n = a.len();
    let mut i: usize = 0;
    while i < n
        invariant
            n == a@.len(),
            n == b@.len(),
            i <= n,
            forall|j: int| 0 <= j < i ==> a@[j] == b@[j],
        decreases n - i,
    {
        if a[i] != b[i] {
            return false;
        }
        i = i + 1;
    }
    assert(a@ =~= b@);
    true
}

/// The slots of the shadow tree of `host`, in tree order (none when it is no host).
pub open spec fn host_slots(nodes: Seq<Node>, host: int) -> Seq<usize> {
    match nodes[host].shadow_root {
        Some(r) => slots_from(nodes, r as int, r as int, nodes.len()),
        None => Seq::empty(),
    }
}

/// The light children of `host` that slot assignment reaches (none when it is no host).
pub open spec fn host_light(nodes: Seq<Node>, host: int) -> Seq<usize> {
    if nodes[host].shadow_root.is_some() {
        nodes[host].children@
    } else {
        Seq::empty()
    }
}

/// The nodes assigned to `n` after slot assignment for each of `hosts` in turn: the last
/// host whose shadow tree holds slot `n` decides.
pub open spec fn assigned_after(nodes: Seq<Node>, hosts: Seq<usize>, n: int) -> Seq<usize>
    decreases hosts.len(),
{
    if hosts.len() == 0 {
        nodes[n].assigned_nodes@
    } else {
        let h = hosts.last() as int;
        match last_index(host_slots(nodes, h), n as usize) {
            Some(k) => assigned_at(nodes, host_slots(nodes, h), nodes[h].children@, k),
            None => assigned_after(nodes, hosts.drop_last(), n),
        }
    }
}

/// The slot of `c` after slot assignment for each of `hosts` in turn: the last host that
/// has `c` as a light child decides.
pub open spec fn slot_after(nodes: Seq<Node>, hosts: Seq<usize>, c: int) -> Option<usize>
    decreases hosts.len(),
{
    if hosts.len() == 0 {
        nodes[c].assigned_slot
    } else {
        let h = hosts.last() as int;
        if host_light(nodes, h).contains(c as usize) {
            slot_for(nodes, host_slots(nodes, h), c)
        } else {
            slot_after(nodes, hosts.drop_last(), c)
        }
    }
}

/// The nearest shadow root among the ancestors of a node whose parent is `cur`, looking at
/// most `fuel` levels up.
pub open spec fn shadow_ancestor(nodes: Seq<Node>, cur: Option<usize>, fuel: nat) -> Option<usize>
    decreases fuel,
{
    match cur {
        None => None,
        Some(p) => if fuel == 0 || !(p < nodes.len()) {
            None
        } else if nodes[p as int].flags.has(IS_SHADOW_ROOT) {
            Some(p)
        } else {
            shadow_ancestor(nodes, nodes[p as int].parent, (fuel - 1) as nat)
        },
    }
}

/// The value of the `mode` attribute of a shadow root attached with `mode`.
pub open spec fn mode_value(mode: ShadowRootMode) -> Seq<char> {
    match mode {
        ShadowRootMode::Open => "open"@,
        ShadowRootMode::Closed => "closed"@,
    }
}

/// The HTML namespace.
pub open spec fn html_ns() -> Seq<char> {
    "http://www.w3.org/1999/xhtml"@
}

/// The node that owns the boxes of `id`: `id` itself, or its host when `id` is a shadow
/// root.
pub open spec fn box_owner(nodes: Seq<Node>, id: int) -> int {
    if nodes[id].flags.has(IS_SHADOW_ROOT) {
        match nodes[id].parent {
            Some(p) => p as int,
            None => id,
        }
    } else {
        id
    }
}

/// Whether `n` is a shadow root freshly attached as node `r` to `host` with `mode`.
pub open spec fn fresh_shadow_root(n: Node, r: int, host: usize, mode: ShadowRootMode, in_doc: bool) -> bool {
    &&& n.id == r
    &&& n.parent == Some(host)
    &&& n.children@.len() == 0
    &&& n.layout_parent.is_none()
    &&& n.shadow_root.is_none()
    &&& n.assigned_slot.is_none()
    &&& n.assigned_nodes@.len() == 0
    &&& forall|f: u32| is_flag_bit(f) ==> #[trigger] n.flags.has(f) == (f == IS_SHADOW_ROOT || (f
        == IS_IN_DOCUMENT && in_doc))
    &&& n.data matches NodeData::Element(e) && e.name.prefix.is_none() && e.name.ns@ == html_ns()
        && e.name.local@ == "shadow-root"@ && e.attrs.items().len() == 1
        && e.attrs.items()[0].name.local@ == "mode"@ && e.attrs.items()[0].name.ns@
        == Seq::<char>::empty() && e.attrs.items()[0].value@ == mode_value(mode)
}

/// Attaching a shadow root (see `attach_shadow`) keeps the tree links.
proof fn lemma_links_after_attach(before: BaseDocument, after: BaseDocument, host: usize, r: usize)
    requires
        before.wf(),
        links_agree(before@),
        host < before@.len(),
        before@.len() < usize::MAX,
        after@.len() == before@.len() + 1 || after@ == before@,
        match before@[host as int].shadow_root {
            Some(existing) => r == existing && after@ == before@,
            None => {
                let len = before@.len();
                &&& r == len
                &&& after@.len() == len + 1
                &&& after@[r as int].parent == Some(host)
                &&& after@[r as int].children@.len() == 0
                &&& after@[r as int].shadow_root.is_none()
                &&& is_shadow_root_node(after@[r as int])
                &&& forall|i: int|
                    0 <= i < len ==> (#[trigger] after@[i]).parent == before@[i].parent && after@[i].children@
                        == before@[i].children@ && is_shadow_root_node(after@[i]) == is_shadow_root_node(before@[i])
                        && after@[i].shadow_root == if i == host {
                        Some(r)
                    } else {
                        before@[i].shadow_root
                    }
            },
        },
    ensures
        links_agree(after@),
        after@[host as int].shadow_root == Some(r),
{
    if before@[host as int].shadow_root is None {
        let a = before@;
        let b = after@;
        let len = a.len();
        let mid = a.push(b[r as int]);
        assert forall|p: int, c: usize| 0 <= p < b.len() && b[p].children@.contains(c) implies c < b.len()
            && b[c as int].parent == Some(p as usize) && !is_shadow_root_node(b[c as int]) by {
            if p == len {
                assert(b[p].children@.len() == 0);
            }
            assert(p < len);
            assert(b[p].children@ == a[p].children@);
            assert(a[p].children@.contains(c));
            assert(c < len);
            assert(b[c as int].parent == a[c as int].parent);
        }
        assert forall|c: int| 0 <= c < b.len() && b[c].parent is Some && !is_shadow_root_node(b[c]) implies {
            let p = b[c].parent->0;
            p < b.len() && b[p as int].children@.contains(c as usize)
        } by {
            assert(c < len);
            assert(b[c].parent == a[c].parent);
            assert(a[c].parent is Some);
            let p = a[c].parent->0;
            assert(a[p as int].children@.contains(c as usize));
            assert(b[p as int].children@ == a[p as int].children@);
        }
        assert forall|p: int| 0 <= p < b.len() implies (#[trigger] b[p].children@).no_duplicates() by {
            if p < len {
                assert(a[p].children@.no_duplicates());
            }
        }
        assert forall|h: int| 0 <= h < b.len() && b[h].shadow_root is Some implies {
            let s = b[h].shadow_root->0;
            s < b.len() && is_shadow_root_node(b[s as int]) && b[s as int].parent == Some(h as usize)
        } by {
            if h != host {
                assert(h < len);
                assert(a[h].shadow_root is Some);
                let s = a[h].shadow_root->0;
                assert(s < len);
            }
        }
    }
}

impl BaseDocument {
    /// The trimmed value of attribute `local` of node `id` (an element), or "".
    fn trimmed_attr_of(&self, id: usize, local: &str) -> (r: String)
        requires
            id < self@.len(),
        ensures
            r@ == trimmed_attr(self@[id as int].data, local@),
    {
        match self.nodes[id].data.attr(local) {
            Some(v) => trim_white_space(v.as_str()),
            None => String::new(),
        }
    }

    /// The slot name a light child asks for, if it can be slotted.
    fn requested_slot(&self, id: usize) -> (r: Option<String>)
        requires
            id < self@.len(),
        ensures
            match wanted_slot(self@[id as int]) {
                Some(w) => r matches Some(s) && s@ == w,
                None => r.is_none(),
            },
    {
        match &self.nodes[id].data {
            NodeData::Element(_) => Some(self.trimmed_attr_of(id, "slot")),
            NodeData::Text(_) => Some(String::new()),
            _ => None,
        }
    }

    /// Appends to `out` the slots of the shadow tree of `root` found at `id` and below.
    fn collect_slots(&self, root: usize, id: usize, fuel: usize, out: &mut Vec<usize>)
        requires
            self.wf(),
            ids_valid(old(out)@, self@.len() as int),
        ensures
            final(out)@ == old(out)@ + slots_from(self@, root as int, id as int, fuel as nat),
            ids_valid(final(out)@, self@.len() as int),
        decreases fuel,
    {
        if id >= self.nodes.len() || (id != root && self.nodes[id].shadow_root.is_some()) {
            assert(out@ =~= old(out)@ + Seq::<usize>::empty());
            return;
        }
        let ghost base = out@;
        if self.nodes[id].is_slot() {
            out.push(id);
        }
        let ghost own = if is_slot_node(self@[id as int]) {
            seq![id]
        } else {
            Seq::<usize>::empty()
        };
        assert(out@ =~= base + own);
        if fuel == 0 {
            return;
        }
        proof {
            assert(node_wf(self@[id as int], id as int, self@.len() as int));
        }
        let n = self.nodes[id].children.len();
        let mut k: usize = 0;
        while k < n
            invariant
                self.wf(),
                id < self@.len(),
                fuel > 0,
                n == self@[id as int].children@.len(),
                k <= n,
                ids_valid(out@, self@.len() as int),
                out@ == base + own + slots_in_list(
                    self@,
                    root as int,
                    self@[id as int].children@.take(k as int),
                    (fuel - 1) as nat,
                ),
            decreases n - k,
        {
            let c = self.nodes[id].children[k];
            let ghost before = out@;
            self.collect_slots(root, c, fuel - 1, out);
            proof {
                let kids = self@[id as int].children@;
                assert(kids.take(k + 1).drop_last() =~= kids.take(k as int));
                assert(kids.take(k + 1).last() == c);
                assert(out@ =~= base + own + slots_in_list(
                    self@,
                    root as int,
                    kids.take(k + 1),
                    (fuel - 1) as nat,
                ));
            }
            k = k + 1;
        }
        proof {
            assert(self@[id as int].children@.take(n as int) =~= self@[id as int].children@);
        }
    }

    /// The shadow root attached to `host`, if any.
    pub fn shadow_root_of(&self, host: usize) -> (r: Option<usize>)
        requires
            host < self@.len(),
        ensures
            r == self@[host as int].shadow_root,
    {
        self.nodes[host].shadow_root
    }

    /// Whether `id` is a shadow root.
    pub fn is_shadow_root(&self, id: usize) -> (r: bool)
        requires
            id < self@.len(),
        ensures
            r == self@[id as int].flags.has(IS_SHADOW_ROOT),
    {
        self.nodes[id].flags.contains(IS_SHADOW_ROOT)
    }

    /// The composed-tree children of `id`: a shadow host's shadow root's children, a slot's
    /// assigned nodes (or its own children when it has none), any other node's children.
    pub fn composed_children(&self, id: usize) -> (r: &[usize])
        requires
            self.wf(),
            id < self@.len(),
        ensures
            r@ == composed_children_of(
                self@[id as int],
                match self@[id as int].shadow_root {
                    Some(s) => self@[s as int].children@,
                    None => Seq::empty(),
                },
            ),
    {
        proof {
            assert(node_wf(self@[id as int], id as int, self@.len() as int));
        }
        let node = &self.nodes[id];
        match node.shadow_root {
            Some(s) => self.nodes[s].children.as_slice(),
            None => {
                if node.is_slot() && node.assigned_nodes.len() > 0 {
                    node.assigned_nodes.as_slice()
                } else {
                    node.children.as_slice()
                }
            },
        }
    }

    /// Re-assigns the light children of `host_id` to the slots of its shadow tree: each
    /// goes to the first slot, in tree order, whose name it asks for, and a light child
    /// that no slot takes is left unassigned. Slots that are not the first of their name
    /// get no nodes. Nothing happens to a node that is not a shadow host.
    pub fn assign_slots_for(&mut self, host_id: usize)
        requires
            old(self).wf(),
            host_id < old(self)@.len(),
        ensures
            final(self).wf(),
            slots_assigned(*old(self), *final(self), host_id),
            links_agree(old(self)@) ==> links_agree(final(self)@),
    {
        self.assign_slots_for_steps(host_id);
        proof {
            if links_agree(old(self)@) {
                assert forall|i: int| 0 <= i < old(self)@.len() implies same_links(#[trigger] old(self)@[i], self@[i]) by {}
                lemma_links_frame(old(self)@, self@);
            }
        }
    }

    /// The steps of `assign_slots_for`.
    #[verifier::spinoff_prover]
    #[verifier::rlimit(100)]
    fn assign_slots_for_steps(&mut self, host_id: usize)
        requires
            old(self).wf(),
            host_id < old(self)@.len(),
        ensures
            final(self).wf(),
            slots_assigned(*old(self), *final(self), host_id),
    {
        let ghost start = self@;
        let len = self.nodes.len();
        let root = match self.nodes[host_id].shadow_root {
            Some(r) => r,
            None => {
                return;
            },
        };
        proof {
            assert(node_wf(start[host_id as int], host_id as int, len as int));
        }
        let mut slots: Vec<usize> = Vec::new();
        self.collect_slots(root, root, len, &mut slots);
        assert(slots@ =~= slots_from(start, root as int, root as int, len as nat));
        let light = self.child_ids(host_id);
        let nl = light.len();
        let mut used: Vec<bool> = Vec::new();
        while used.len() < nl
            invariant
                used@.len() <= nl,
                forall|i: int| 0 <= i < used@.len() ==> !used@[i],
            decreases nl - used@.len(),
        {
            used.push(false);
        }
        let ns = slots.len();
        let mut k: usize = 0;
        proof {
            assert forall|c: int| 0 <= c < len implies !#[trigger] taken_by(start, slots@.take(0), c as usize) by {
                assert(slots@.take(0).len() == 0);
            }
            assert forall|n: int| 0 <= n < len implies #[trigger] last_index(slots@.take(0), n as usize).is_none() by {
                assert(slots@.take(0).len() == 0);
            }
        }
        let mut changed = false;
        while k < ns
            invariant
                self.wf(),
                same_registries(*old(self), *self),
                start == old(self)@,
                self@.len() == len,
                len == start.len(),
                host_id < len,
                root < len,
                start[host_id as int].shadow_root == Some(root),
                slots@ == slots_from(start, root as int, root as int, len as nat),
                ids_valid(slots@, len as int),
                light@ == start[host_id as int].children@,
                ids_valid(light@, len as int),
                nl == light@.len(),
                ns == slots@.len(),
                k <= ns,
                used@.len() == nl,
                forall|i: int| 0 <= i < nl ==> #[trigger] used@[i] == taken_by(start, slots@.take(k as int), light@[i]),
                forall|i: int|
                    0 <= i < len ==> #[trigger] self@[i] == (Node {
                        assigned_nodes: self@[i].assigned_nodes,
                        assigned_slot: self@[i].assigned_slot,
                        dirty_descendants: self@[i].dirty_descendants,
                        ..start[i]
                    }),
                dirt_of(self@) == slot_dirt(start, slots@, light@, k as nat),
                changed == any_slot_changed(start, slots@, light@, k as int),
                forall|n: int|
                    0 <= n < len ==> match last_index(slots@.take(k as int), n as usize) {
                        Some(j) => (#[trigger] self@[n]).assigned_nodes@ == assigned_at(
                            start,
                            slots@,
                            light@,
                            j,
                        ),
                        None => self@[n].assigned_nodes == start[n].assigned_nodes,
                    },
                forall|c: int|
                    0 <= c < len ==> (#[trigger] self@[c]).assigned_slot == if light@.contains(c as usize)
                        && taken_by(start, slots@.take(k as int), c as usize) {
                        slot_for(start, slots@, c)
                    } else {
                        start[c].assigned_slot
                    },
            decreases ns - k,
        {
            let s = slots[k];
            let name = self.trimmed_attr_of(s, "name");
            let ghost name_k = slot_name(start[s as int]);
            let ghost prefix = slots@.take(k as int);
            let ghost prefix1 = slots@.take(k + 1);
            let ghost fresh = first_named(start, prefix, name_k).is_none();
            let ghost pred = |c: usize| wanted_slot(start[c as int]) == Some(name_k) && fresh;
            proof {
                assert(self@[s as int].data == start[s as int].data);
                assert(name@ == name_k);
                assert(prefix1 =~= prefix.push(s));
                assert forall|w: Seq<char>| #[trigger] first_named(start, prefix1, w) == match first_named(start, prefix, w) {
                    Some(j) => Some(j),
                    None => if slot_name(start[s as int]) == w {
                        Some(k as int)
                    } else {
                        None
                    },
                } by {
                    lemma_first_named_push(start, prefix, s, w);
                }
            }
            let mut assigned: Vec<usize> = Vec::new();
            let mut i: usize = 0;
            while i < nl
                invariant
                    self.wf(),
                    same_registries(*old(self), *self),
                    self@.len() == len,
                    len == start.len(),
                    name_k == slot_name(start[s as int]),
                    fresh == first_named(start, prefix, name_k).is_none(),
                    pred == (|c: usize| wanted_slot(start[c as int]) == Some(name_k) && fresh),
                    forall|j: int|
                        0 <= j < len ==> #[trigger] self@[j] == (Node {
                            assigned_nodes: self@[j].assigned_nodes,
                            assigned_slot: self@[j].assigned_slot,
                            dirty_descendants: self@[j].dirty_descendants,
                            ..start[j]
                        }),
                    ids_valid(light@, len as int),
                    nl == light@.len(),
                    i <= nl,
                    used@.len() == nl,
                    name@ == name_k,
                    forall|w: Seq<char>| #[trigger] first_named(start, prefix1, w) == match first_named(start, prefix, w) {
                        Some(j) => Some(j),
                        None => if name_k == w {
                            Some(k as int)
                        } else {
                            None
                        },
                    },
                    forall|j: int| 0 <= j < i ==> #[trigger] used@[j] == taken_by(start, prefix1, light@[j]),
                    forall|j: int| i <= j < nl ==> #[trigger] used@[j] == taken_by(start, prefix, light@[j]),
                    assigned@ == light@.take(i as int).filter(pred),
                decreases nl - i,
            {
                proof {
                    lemma_filter_take(light@, pred, i as int);
                }
                let c = light[i];
                if !used[i] {
                    match self.requested_slot(c) {
                        Some(w) => {
                            if same_text(w.as_str(), name.as_str()) {
                                assigned.push(c);
                                used.set(i, true);
                            }
                        },
                        None => {},
                    }
                }
                i = i + 1;
            }
            proof {
                assert(light@.take(nl as int) =~= light@);
                if fresh {
                    assert(pred =~= |c: usize| wanted_slot(start[c as int]) == Some(name_k));
                    lemma_first_named_prefix(start, slots@, k as int, name_k);
                } else {
                    lemma_filter_none(light@, pred);
                    lemma_first_named_prefix(start, slots@, k as int, name_k);
                    lemma_first_named_range(start, prefix, name_k);
                }
                assert(assigned@ == assigned_at(start, slots@, light@, k as int));
                lemma_without_valid(light@, pred, len as int);
            }
            // A slot whose assigned nodes change needs its boxes rebuilt.
            let same = same_ids(&self.nodes[s].assigned_nodes, &assigned);
            proof {
                assert(self@[s as int].assigned_nodes@ == prior_assigned(start, slots@, light@, k as int));
                assert(same == !slot_changed(start, slots@, light@, k as int));
            }
            if !same {
                changed = true;
                let owner = self.box_owner_of(s);
                let ghost pre = self@;
                self.mark_dirty_walk(owner);
                proof {
                    let moved = moved_state(start, Seq::empty(), slot_dirt(start, slots@, light@, k as nat));
                    assert forall|j: int| 0 <= j < len implies (#[trigger] pre[j]).parent == moved[j].parent
                        && pre[j].dirty_descendants == moved[j].dirty_descendants by {
                        assert(pre[j] == (Node {
                            assigned_nodes: pre[j].assigned_nodes,
                            assigned_slot: pre[j].assigned_slot,
                            dirty_descendants: pre[j].dirty_descendants,
                            ..start[j]
                        }));
                        assert(dirt_of(pre)[j] == pre[j].dirty_descendants);
                    }
                    assert(box_owner(pre, s as int) == box_owner(start, s as int));
                    lemma_dirty_walk_same_links(pre, moved, owner as int);
                    assert forall|i: int| 0 <= i < len implies #[trigger] self@[i] == (Node {
                        dirty_descendants: self@[i].dirty_descendants,
                        ..pre[i]
                    }) by {}
                }
            }
            let ghost dirt_now = dirt_of(self@);
            proof {
                assert(dirt_now == slot_dirt(start, slots@, light@, (k + 1) as nat));
                assert(changed == any_slot_changed(start, slots@, light@, k + 1)) by {
                    if slot_changed(start, slots@, light@, k as int) {
                        assert(slot_changed(start, slots@, light@, k as int));
                    } else if any_slot_changed(start, slots@, light@, k + 1) {
                        let j = choose|j: int| 0 <= j < k + 1 && #[trigger] slot_changed(start, slots@, light@, j);
                        assert(j < k);
                    }
                }
            }
            let ghost before = self@;
            let na = assigned.len();
            let mut j: usize = 0;
            while j < na
                invariant
                    self.wf(),
                    same_registries(*old(self), *self),
                    self@.len() == len,
                    before.len() == len,
                    s < len,
                    na == assigned@.len(),
                    ids_valid(assigned@, len as int),
                    j <= na,
                    forall|x: int|
                        0 <= x < len ==> #[trigger] self@[x] == (Node {
                            assigned_slot: self@[x].assigned_slot,
                            ..before[x]
                        }),
                    forall|x: int|
                        0 <= x < len ==> (#[trigger] self@[x]).assigned_slot == if assigned@.take(
                            j as int,
                        ).contains(x as usize) {
                            Some(s)
                        } else {
                            before[x].assigned_slot
                        },
                decreases na - j,
            {
                let c = assigned[j];
                let ghost here = self@;
                self.nodes[c].assigned_slot = Some(s);
                proof {
                    assert forall|x: int| 0 <= x < len implies node_wf(#[trigger] self@[x], x, len as int) by {
                        assert(node_wf(here[x], x, len as int));
                    }
                    assert(assigned@.take(j + 1) =~= assigned@.take(j as int).push(c));
                    assert forall|x: usize| #[trigger] assigned@.take(j + 1).contains(x) == (assigned@.take(
                        j as int,
                    ).contains(x) || x == c) by {
                        lemma_seq_contains_after_push(assigned@.take(j as int), c, x);
                    }
                }
                j = j + 1;
            }
            proof {
                assert(assigned@.take(na as int) =~= assigned@);
            }
            let ghost slotted = self@;
            self.nodes[s].assigned_nodes = assigned;
            proof {
                assert forall|x: int| 0 <= x < len implies node_wf(#[trigger] self@[x], x, len as int) by {
                    assert(node_wf(slotted[x], x, len as int));
                }
                assert forall|n: usize| #[trigger] last_index(prefix1, n) == if s == n {
                    Some(k as int)
                } else {
                    last_index(prefix, n)
                } by {
                    lemma_last_index_push(prefix, s, n);
                }
                assert forall|c: int| 0 <= c < len implies (#[trigger] self@[c]).assigned_slot == if light@.contains(
                    c as usize,
                ) && taken_by(start, prefix1, c as usize) {
                    slot_for(start, slots@, c)
                } else {
                    start[c].assigned_slot
                } by {
                    if assigned@.contains(c as usize) {
                        let x = choose|x: int| 0 <= x < assigned@.len() && assigned@[x] == c as usize;
                        light@.lemma_filter_contains_rev(pred, c as usize);
                        light@.lemma_filter_pred(pred, x);
                        assert(pred(c as usize));
                        lemma_first_named_prefix(start, slots@, k as int, name_k);
                    } else {
                        if light@.contains(c as usize) && taken_by(start, prefix1, c as usize) && !taken_by(
                            start,
                            prefix,
                            c as usize,
                        ) {
                            let x = choose|x: int| 0 <= x < light@.len() && light@[x] == c as usize;
                            assert(pred(c as usize));
                            light@.lemma_filter_contains(pred, x);
                        }
                        if light@.contains(c as usize) && taken_by(start, prefix, c as usize) {
                            let w = wanted_slot(start[c]).unwrap();
                            lemma_first_named_prefix(start, slots@, k as int, w);
                        }
                    }
                }
            }
            proof {
                assert(dirt_of(self@) =~= dirt_now);
            }
            k = k + 1;
        }
        proof {
            assert(slots@.take(ns as int) =~= slots@);
        }
        let ghost assigned_all = self@;
        let mut i: usize = 0;
        while i < nl
            invariant
                self.wf(),
                same_registries(*old(self), *self),
                self@.len() == len,
                len == start.len(),
                ids_valid(light@, len as int),
                nl == light@.len(),
                used@.len() == nl,
                i <= nl,
                forall|j: int| 0 <= j < nl ==> #[trigger] used@[j] == taken_by(start, slots@, light@[j]),
                forall|x: int|
                    0 <= x < len ==> #[trigger] self@[x] == (Node {
                        assigned_slot: self@[x].assigned_slot,
                        ..assigned_all[x]
                    }),
                forall|c: int|
                    0 <= c < len ==> (#[trigger] self@[c]).assigned_slot == if light@.take(i as int).contains(
                        c as usize,
                    ) && !taken_by(start, slots@, c as usize) {
                        None
                    } else {
                        assigned_all[c].assigned_slot
                    },
            decreases nl - i,
        {
            let c = light[i];
            let ghost here = self@;
            if !used[i] {
                self.nodes[c].assigned_slot = None;
                proof {
                    assert forall|x: int| 0 <= x < len implies node_wf(#[trigger] self@[x], x, len as int) by {
                        assert(node_wf(here[x], x, len as int));
                    }
                }
            }
            proof {
                assert(light@.take(i + 1) =~= light@.take(i as int).push(c));
                assert forall|x: usize| #[trigger] light@.take(i + 1).contains(x) == (light@.take(
                    i as int,
                ).contains(x) || x == c) by {
                    lemma_seq_contains_after_push(light@.take(i as int), c, x);
                }
            }
            i = i + 1;
        }
        proof {
            assert(light@.take(nl as int) =~= light@);
            assert forall|c: int| 0 <= c < len && light@.contains(c as usize) && !taken_by(start, slots@, c as usize)
                implies #[trigger] slot_for(start, slots@, c) is None by {
            }
            assert(dirt_of(self@) =~= dirt_of(assigned_all));
        }
        // The host's boxes are rebuilt when one of its slots changed.
        if changed {
            let owner = self.box_owner_of(host_id);
            let ghost pre = self@;
            self.mark_dirty_walk(owner);
            proof {
                let moved = moved_state(start, Seq::empty(), slot_dirt(start, slots@, light@, ns as nat));
                assert forall|j: int| 0 <= j < len implies (#[trigger] pre[j]).parent == moved[j].parent
                    && pre[j].dirty_descendants == moved[j].dirty_descendants by {
                    assert(dirt_of(pre)[j] == pre[j].dirty_descendants);
                }
                assert(box_owner(pre, host_id as int) == box_owner(start, host_id as int));
                lemma_dirty_walk_same_links(pre, moved, owner as int);
            }
        }
    }

    /// Re-assigns the light children of every shadow host to its slots, host by host in
    /// the order the shadow roots were attached.
    pub fn assign_slots(&mut self)
        requires
            old(self).wf(),
        ensures
            final(self).wf(),
            same_registries(*old(self), *final(self)),
            final(self)@.len() == old(self)@.len(),
            forall|i: int|
                0 <= i < old(self)@.len() ==> #[trigger] final(self)@[i] == (Node {
                    assigned_nodes: final(self)@[i].assigned_nodes,
                    assigned_slot: final(self)@[i].assigned_slot,
                    dirty_descendants: final(self)@[i].dirty_descendants,
                    ..old(self)@[i]
                }),
            forall|n: int|
                0 <= n < old(self)@.len() ==> (#[trigger] final(self)@[n]).assigned_nodes@ == assigned_after(
                    old(self)@,
                    old(self).shadow_hosts@,
                    n,
                ),
            forall|c: int|
                0 <= c < old(self)@.len() ==> (#[trigger] final(self)@[c]).assigned_slot == slot_after(
                    old(self)@,
                    old(self).shadow_hosts@,
                    c,
                ),
            exists|states: Seq<BaseDocument>| #[trigger] host_steps(states, *old(self), *final(self), old(self).shadow_hosts@),
            links_agree(old(self)@) ==> links_agree(final(self)@),
    {
        self.assign_slots_steps();
        proof {
            if links_agree(old(self)@) {
                assert forall|i: int| 0 <= i < old(self)@.len() implies same_links(#[trigger] old(self)@[i], self@[i]) by {}
                lemma_links_frame(old(self)@, self@);
            }
        }
    }

    /// The steps of `assign_slots`.
    fn assign_slots_steps(&mut self)
        requires
            old(self).wf(),
        ensures
            final(self).wf(),
            same_registries(*old(self), *final(self)),
            final(self)@.len() == old(self)@.len(),
            forall|i: int|
                0 <= i < old(self)@.len() ==> #[trigger] final(self)@[i] == (Node {
                    assigned_nodes: final(self)@[i].assigned_nodes,
                    assigned_slot: final(self)@[i].assigned_slot,
                    dirty_descendants: final(self)@[i].dirty_descendants,
                    ..old(self)@[i]
                }),
            forall|n: int|
                0 <= n < old(self)@.len() ==> (#[trigger] final(self)@[n]).assigned_nodes@ == assigned_after(
                    old(self)@,
                    old(self).shadow_hosts@,
                    n,
                ),
            forall|c: int|
                0 <= c < old(self)@.len() ==> (#[trigger] final(self)@[c]).assigned_slot == slot_after(
                    old(self)@,
                    old(self).shadow_hosts@,
                    c,
                ),
            exists|states: Seq<BaseDocument>| #[trigger] host_steps(states, *old(self), *final(self), old(self).shadow_hosts@),
    {
        let ghost start = self@;
        let ghost hosts = self.shadow_hosts@;
        let len = self.nodes.len();
        let nh = self.shadow_hosts.len();
        let mut i: usize = 0;
        let ghost mut states: Seq<BaseDocument> = seq![*self];
        proof {
            assert(hosts.take(0) =~= Seq::<usize>::empty());
        }
        while i < nh
            invariant
                self.wf(),
                same_registries(*old(self), *self),
                start == old(self)@,
                hosts == old(self).shadow_hosts@,
                self.shadow_hosts@ == hosts,
                forall|x: int| 0 <= x < len ==> node_wf(#[trigger] start[x], x, len as int),
                nh == hosts.len(),
                self@.len() == len,
                len == start.len(),
                i <= nh,
                forall|x: int|
                    0 <= x < len ==> #[trigger] self@[x] == (Node {
                        assigned_nodes: self@[x].assigned_nodes,
                        assigned_slot: self@[x].assigned_slot,
                        dirty_descendants: self@[x].dirty_descendants,
                        ..start[x]
                    }),
                host_steps(states, *old(self), *self, hosts.take(i as int)),
                forall|n: int|
                    0 <= n < len ==> (#[trigger] self@[n]).assigned_nodes@ == assigned_after(
                        start,
                        hosts.take(i as int),
                        n,
                    ),
                forall|c: int|
                    0 <= c < len ==> (#[trigger] self@[c]).assigned_slot == slot_after(
                        start,
                        hosts.take(i as int),
                        c,
                    ),
            decreases nh - i,
        {
            let h = self.shadow_hosts[i];
            let ghost before = self@;
            proof {
                assert(same_base(before, start));
                assert(h < len);
                assert(hosts.take(i + 1).drop_last() =~= hosts.take(i as int));
                assert(hosts.take(i + 1).last() == h);
                assert(before[h as int].shadow_root == start[h as int].shadow_root);
                assert(before[h as int].children == start[h as int].children);
                match start[h as int].shadow_root {
                    Some(r) => {
                        assert(node_wf(start[h as int], h as int, len as int));
                        lemma_slots_from_same_base(before, start, r as int, r as int, len as nat);
                        assert(node_wf(start[h as int], h as int, len as int));
                    },
                    None => {},
                }
            }
            self.assign_slots_for(h);
            proof {
                match start[h as int].shadow_root {
                    Some(r) => {
                        let slots = slots_from(start, r as int, r as int, len as nat);
                        lemma_slots_valid(start, r as int, r as int, len as nat);
                        lemma_assignment_same_base(before, start, slots, start[h as int].children@);
                        assert forall|n: int| 0 <= n < len implies (#[trigger] self@[n]).assigned_nodes@
                            == assigned_after(start, hosts.take(i + 1), n) by {
                            lemma_last_index_range(slots, n as usize);
                        }
                    },
                    None => {},
                }
                let prev = states;
                states = states.push(*self);
                assert forall|k: int| 0 <= k < i + 1 implies #[trigger] slots_assigned(
                    states[k],
                    states[k + 1],
                    hosts.take(i + 1)[k],
                ) by {
                    if k < i {
                        assert(slots_assigned(prev[k], prev[k + 1], hosts.take(i as int)[k]));
                    }
                }
            }
            i = i + 1;
        }
        proof {
            assert(hosts.take(nh as int) =~= hosts);
            assert(host_steps(states, *old(self), *self, hosts));
        }
    }

    /// The nearest shadow root among the ancestors of `id` (looking at most as many levels
    /// up as there are nodes), or `None` in the document tree.
    pub fn containing_shadow_root(&self, id: usize) -> (r: Option<usize>)
        requires
            self.wf(),
            id < self@.len(),
        ensures
            r == shadow_ancestor(self@, self@[id as int].parent, self@.len() as nat),
    {
        proof {
            assert(node_wf(self@[id as int], id as int, self@.len() as int));
        }
        let len = self.nodes.len();
        let mut cur = self.nodes[id].parent;
        let mut fuel = len;
        while fuel > 0
            invariant
                self.wf(),
                len == self@.len(),
                fuel <= len,
                opt_valid(cur, len as int),
                shadow_ancestor(self@, self@[id as int].parent, len as nat) == shadow_ancestor(
                    self@,
                    cur,
                    fuel as nat,
                ),
            decreases fuel,
        {
            match cur {
                Some(p) => {
                    if self.nodes[p].flags.contains(IS_SHADOW_ROOT) {
                        return Some(p);
                    }
                    proof {
                        assert(node_wf(self@[p as int], p as int, len as int));
                    }
                    cur = self.nodes[p].parent;
                    fuel = fuel - 1;
                },
                None => {
                    return None;
                },
            }
        }
        None
    }

    /// The node that owns the boxes of `id`.
    fn box_owner_of(&self, id: usize) -> (r: usize)
        requires
            self.wf(),
            id < self@.len(),
        ensures
            r == box_owner(self@, id as int),
            r < self@.len(),
    {
        proof {
            assert(node_wf(self@[id as int], id as int, self@.len() as int));
        }
        if self.nodes[id].flags.contains(IS_SHADOW_ROOT) {
            match self.nodes[id].parent {
                Some(p) => p,
                None => id,
            }
        } else {
            id
        }
    }

    /// Attaches a shadow root to `host_id` and returns its id; the host's children stay its
    /// light DOM. A host that already has a shadow root gets it back, and nothing changes.
    /// The new root is an element named `shadow-root` with the `mode` attribute, flagged as
    /// a shadow root, in the document when its host is; its parent is the host but it is
    /// not among the host's children. Slots are assigned anew for the host, and the host's
    /// box owner and the host have their ancestors marked dirty.
    pub fn attach_shadow(&mut self, host_id: usize, mode: ShadowRootMode) -> (r: usize)
        requires
            old(self).wf(),
            host_id < old(self)@.len(),
            old(self)@.len() < usize::MAX,
        ensures
            final(self).wf(),
            final(self).sticky_nodes@ == old(self).sticky_nodes@,
            final(self).pending_scroll == old(self).pending_scroll,
            final(self).dropped@ == old(self).dropped@,
            final(self).mutations_occurred == (old(self).mutations_occurred || old(self)@[host_id as int].shadow_root is None),

            match old(self)@[host_id as int].shadow_root {
                Some(existing) => r == existing && final(self)@ == old(self)@
                    && final(self).shadow_hosts@ == old(self).shadow_hosts@,
                None => {
                    let len = old(self)@.len();
                    let host = old(self)@[host_id as int];
                    &&& r == len
                    &&& final(self)@.len() == len + 1
                    &&& final(self).shadow_hosts@ == old(self).shadow_hosts@.push(host_id)
                    &&& fresh_shadow_root(final(self)@[r as int], r as int, host_id, mode, in_document(host))
                    &&& forall|i: int|
                        0 <= i < len ==> #[trigger] final(self)@[i] == (Node {
                            shadow_root: if i == host_id {
                                Some(r)
                            } else {
                                old(self)@[i].shadow_root
                            },
                            assigned_slot: if host.children@.contains(i as usize) {
                                None
                            } else {
                                old(self)@[i].assigned_slot
                            },
                            dirty_descendants: final(self)@[i].dirty_descendants,
                            ..old(self)@[i]
                        })
                    &&& final(self)@ == dirty_walk(
                        dirty_walk(undirtied(final(self)@, old(self)@), box_owner(old(self)@, host_id as int)),
                        host_id as int,
                    )
                },
            },
            links_agree(old(self)@) ==> links_agree(final(self)@),
            links_agree(old(self)@) ==> r < final(self)@.len() && final(self)@[host_id as int].shadow_root == Some(r)
                && is_shadow_root_node(final(self)@[r as int]) && final(self)@[r as int].parent == Some(host_id)
                && !final(self)@[host_id as int].children@.contains(r),
    {
        let r = self.attach_shadow_steps(host_id, mode);
        proof {
            if links_agree(old(self)@) {
                lemma_links_after_attach(*old(self), *self, host_id, r);
                lemma_shadow_root_links(self@, host_id as int);
            }
        }
        r
    }

    /// The steps of `attach_shadow`.
    fn attach_shadow_steps(&mut self, host_id: usize, mode: ShadowRootMode) -> (r: usize)
        requires
            old(self).wf(),
            host_id < old(self)@.len(),
            old(self)@.len() < usize::MAX,
        ensures
            final(self).wf(),
            final(self).sticky_nodes@ == old(self).sticky_nodes@,
            final(self).pending_scroll == old(self).pending_scroll,
            final(self).dropped@ == old(self).dropped@,
            final(self).mutations_occurred == (old(self).mutations_occurred || old(self)@[host_id as int].shadow_root is None),

            match old(self)@[host_id as int].shadow_root {
                Some(existing) => r == existing && final(self)@ == old(self)@
                    && final(self).shadow_hosts@ == old(self).shadow_hosts@,
                None => {
                    let len = old(self)@.len();
                    let host = old(self)@[host_id as int];
                    &&& r == len
                    &&& final(self)@.len() == len + 1
                    &&& final(self).shadow_hosts@ == old(self).shadow_hosts@.push(host_id)
                    &&& fresh_shadow_root(final(self)@[r as int], r as int, host_id, mode, in_document(host))
                    &&& forall|i: int|
                        0 <= i < len ==> #[trigger] final(self)@[i] == (Node {
                            shadow_root: if i == host_id {
                                Some(r)
                            } else {
                                old(self)@[i].shadow_root
                            },
                            assigned_slot: if host.children@.contains(i as usize) {
                                None
                            } else {
                                old(self)@[i].assigned_slot
                            },
                            dirty_descendants: final(self)@[i].dirty_descendants,
                            ..old(self)@[i]
                        })
                    &&& final(self)@ == dirty_walk(
                        dirty_walk(undirtied(final(self)@, old(self)@), box_owner(old(self)@, host_id as int)),
                        host_id as int,
                    )
                },
            },
    {
        match self.nodes[host_id].shadow_root {
            Some(existing) => {
                return existing;
            },
            None => {},
        }
        let ghost start = self@;
        let len = self.nodes.len();
        let name = QualName::new("http://www.w3.org/1999/xhtml", "shadow-root");
        let value = match mode {
            ShadowRootMode::Open => "open",
            ShadowRootMode::Closed => "closed",
        };
        let mut attrs: Vec<Attribute> = Vec::new();
        attrs.push(Attribute::new("mode", value));
        let root_id = self.create_element(name, attrs);
        let in_doc = self.nodes[host_id].flags.is_in_document();
        let ghost created = self@;
        self.nodes[host_id].shadow_root = Some(root_id);
        self.nodes[root_id].parent = Some(host_id);
        self.nodes[root_id].flags.insert(IS_SHADOW_ROOT);
        if in_doc {
            self.nodes[root_id].flags.insert(IS_IN_DOCUMENT);
        }
        self.shadow_hosts.push(host_id);
        proof {
            let l = self@.len() as int;
            assert forall|i: int| 0 <= i < l implies node_wf(#[trigger] self@[i], i, l) by {
                assert(node_wf(created[i], i, l));
            }
            assert forall|k: int| 0 <= k < self.shadow_hosts@.len() implies #[trigger] self.shadow_hosts@[k] < l by {
                if k < old(self).shadow_hosts@.len() {
                    assert(self.shadow_hosts@[k] == old(self).shadow_hosts@[k]);
                }
            }
        }
        let ghost structured = self@;
        proof {
            reveal_strlit("shadow-root");
            reveal_strlit("slot");
            assert(structured[root_id as int].data == created[root_id as int].data);
            assert("shadow-root"@.len() == 11);
            assert("slot"@.len() == 4);
            assert(!is_slot_node(structured[root_id as int]));
            assert(structured[root_id as int].children@.len() == 0);
            assert(slots_from(structured, root_id as int, root_id as int, (len + 1) as nat) =~= Seq::<usize>::empty());
        }
        self.assign_slots_for(host_id);
        let ghost assigned = self@;
        proof {
            let slots = slots_from(structured, root_id as int, root_id as int, (len + 1) as nat);
            let light = structured[host_id as int].children@;
            assert(!any_slot_changed(structured, slots, light, 0));
            assert(dirt_of(assigned) == dirt_of(structured));
            assert forall|i: int| 0 <= i < len + 1 implies #[trigger] assigned[i].dirty_descendants
                == structured[i].dirty_descendants by {
                assert(dirt_of(assigned)[i] == dirt_of(structured)[i]);
            }
        }
        let owner = self.box_owner_of(host_id);
        self.mark_dirty_walk(owner);
        self.mark_dirty_walk(host_id);
        proof {
            assert(assigned =~= undirtied(self@, start));
            assert forall|i: int| 0 <= i < len implies #[trigger] self@[i] == (Node {
                shadow_root: if i == host_id {
                    Some(root_id)
                } else {
                    start[i].shadow_root
                },
                assigned_slot: if start[host_id as int].children@.contains(i as usize) {
                    None
                } else {
                    start[i].assigned_slot
                },
                dirty_descendants: self@[i].dirty_descendants,
                ..start[i]
            }) by {
                assert(created[i] == start[i]);
                assert(structured[i] == (Node {
                    shadow_root: if i == host_id {
                        Some(root_id)
                    } else {
                        start[i].shadow_root
                    },
                    ..start[i]
                }));
                let slots = slots_from(structured, root_id as int, root_id as int, (len + 1) as nat);
                assert(last_index(slots, i as usize) is None);
                if start[host_id as int].children@.contains(i as usize) {
                    assert(slot_for(structured, slots, i) is None);
                }
                assert(assigned[i].assigned_nodes@ == structured[i].assigned_nodes@);
                assert(self@[i] == (Node { dirty_descendants: self@[i].dirty_descendants, ..assigned[i] }));
            }
            assert(box_owner(structured, host_id as int) == box_owner(start, host_id as int));
        }
        self.mutations_occurred = true;
        root_id
    }
}

/// Every slot found lies in the document.
proof fn lemma_slots_valid(nodes: Seq<Node>, root: int, id: int, fuel: nat)
    requires
        forall|i: int| 0 <= i < nodes.len() ==> node_wf(#[trigger] nodes[i], i, nodes.len() as int),
    ensures
        ids_valid(slots_from(nodes, root, id, fuel), nodes.len() as int),
    decreases fuel, 0nat,
{
    if 0 <= id < nodes.len() && !(id != root && nodes[id].shadow_root.is_some()) && fuel > 0 {
        lemma_slots_list_valid(nodes, root, nodes[id].children@, (fuel - 1) as nat);
    }
}

proof fn lemma_slots_list_valid(nodes: Seq<Node>, root: int, ids: Seq<usize>, fuel: nat)
    requires
        forall|i: int| 0 <= i < nodes.len() ==> node_wf(#[trigger] nodes[i], i, nodes.len() as int),
    ensures
        ids_valid(slots_in_list(nodes, root, ids, fuel), nodes.len() as int),
    decreases fuel, ids.len() + 1,
{
    if ids.len() > 0 {
        lemma_slots_list_valid(nodes, root, ids.drop_last(), fuel);
        lemma_slots_valid(nodes, root, ids.last() as int, fuel);
    }
}

} // verus!
