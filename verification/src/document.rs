//! The document: an arena of nodes addressed by id, and the tree operations on it.
use vstd::prelude::*;

use crate::tree_links::{
    is_shadow_root_node, lemma_links_children_added, lemma_links_children_dropped, lemma_links_created,
    lemma_links_node_dropped, lemma_links_node_removed, links_agree,
};

use vstd::seq_lib::lemma_seq_contains_after_push;

use crate::flags::{is_flag_bit, NodeFlags, IS_IN_DOCUMENT};
use crate::mutator::{
    detach_dirt, dirt_of, dirty_walk, first_index_of, lemma_dirty_walk_same_links,
    move_dirt, moved_state, undirtied, walk_if,
};
use crate::scrolling::PendingScroll;
use crate::sticky::StickyEntry;
use crate::node::{
    attr_value, element_of, empty_state, is_form_control, Attribute, ElementData, Node, NodeData,
    QualName, TextNodeData,
};

verus! {

/// Whether every id of `ids` addresses a node of a document with `len` nodes.
pub open spec fn ids_valid(ids: Seq<usize>, len: int) -> bool {
    forall|k: int| 0 <= k < ids.len() ==> #[trigger] ids[k] < len
}

/// Whether an optional id addresses a node of a document with `len` nodes.
pub open spec fn opt_valid(id: Option<usize>, len: int) -> bool {
    match id {
        Some(i) => i < len,
        None => true,
    }
}

/// Whether the node stored at index `i` is well formed in a document with `len` nodes.
pub open spec fn node_wf(n: Node, i: int, len: int) -> bool {
    &&& n.id == i
    &&& opt_valid(n.parent, len)
    &&& opt_valid(n.layout_parent, len)
    &&& opt_valid(n.shadow_root, len)
    &&& opt_valid(n.assigned_slot, len)
    &&& ids_valid(n.children@, len)
    &&& ids_valid(n.assigned_nodes@, len)
}

/// Whether the in-document flag of `n` is set.
pub open spec fn in_document(n: Node) -> bool {
    n.flags.has(IS_IN_DOCUMENT)
}

/// Whether node `j` lies in the subtree of `root` (following children), looking at most
/// `fuel` levels down.
pub open spec fn in_subtree(nodes: Seq<Node>, root: int, j: int, fuel: nat) -> bool
    decreases fuel, 0nat,
{
    root == j || (fuel > 0 && 0 <= root < nodes.len() && in_forest(
        nodes,
        nodes[root].children@,
        j,
        (fuel - 1) as nat,
    ))
}

/// Whether node `j` lies in the subtree of one of the nodes of `roots`, looking at most
/// `fuel` levels below them.
pub open spec fn in_forest(nodes: Seq<Node>, roots: Seq<usize>, j: int, fuel: nat) -> bool
    decreases fuel, roots.len() + 1,
{
    roots.len() > 0 && (in_forest(nodes, roots.drop_last(), j, fuel) || in_subtree(
        nodes,
        roots.last() as int,
        j,
        fuel,
    ))
}

/// Whether two node arenas have the same shape: the same nodes with the same children.
pub open spec fn same_shape(a: Seq<Node>, b: Seq<Node>) -> bool {
    &&& a.len() == b.len()
    &&& forall|i: int| 0 <= i < a.len() ==> (#[trigger] a[i]).children@ == b[i].children@
}

proof fn lemma_same_shape_subtree(a: Seq<Node>, b: Seq<Node>, root: int, j: int, fuel: nat)
    requires
        same_shape(a, b),
    ensures
        in_subtree(a, root, j, fuel) == in_subtree(b, root, j, fuel),
    decreases fuel, 0nat,
{
    if fuel > 0 && 0 <= root < a.len() {
        assert(a[root].children@ == b[root].children@);
        lemma_same_shape_forest(a, b, a[root].children@, j, (fuel - 1) as nat);
    }
}

proof fn lemma_same_shape_forest(a: Seq<Node>, b: Seq<Node>, roots: Seq<usize>, j: int, fuel: nat)
    requires
        same_shape(a, b),
    ensures
        in_forest(a, roots, j, fuel) == in_forest(b, roots, j, fuel),
    decreases fuel, roots.len() + 1,
{
    if roots.len() > 0 {
        lemma_same_shape_forest(a, b, roots.drop_last(), j, fuel);
        lemma_same_shape_subtree(a, b, roots.last() as int, j, fuel);
    }
}


/// `l` filtered by `p` and then by `q` is `l` filtered by `r`, where `r` holds exactly
/// where both do.
proof fn lemma_filter_both(
    l: Seq<usize>,
    p: spec_fn(usize) -> bool,
    q: spec_fn(usize) -> bool,
    r: spec_fn(usize) -> bool,
)
    requires
        forall|x: usize| #[trigger] r(x) == (p(x) && q(x)),
    ensures
        l.filter(p).filter(q) == l.filter(r),
    decreases l.len(),
{
    reveal(Seq::filter);
    if l.len() > 0 {
        lemma_filter_both(l.drop_last(), p, q, r);
        let fp = l.filter(p);
        if p(l.last()) {
            assert(fp == l.drop_last().filter(p).push(l.last()));
            assert(fp.drop_last() =~= l.drop_last().filter(p));
            assert(fp.last() == l.last());
        } else {
            assert(fp == l.drop_last().filter(p));
        }
    }
}

/// Filtering by a predicate that holds of every element keeps the sequence.
pub proof fn lemma_filter_all(l: Seq<usize>, p: spec_fn(usize) -> bool)
    requires
        forall|x: usize| #[trigger] p(x),
    ensures
        l.filter(p) == l,
    decreases l.len(),
{
    reveal(Seq::filter);
    if l.len() > 0 {
        lemma_filter_all(l.drop_last(), p);
        assert(l.drop_last().push(l.last()) =~= l);
    }
}

/// The ids other than `x`.
pub open spec fn other_than(x: usize) -> spec_fn(usize) -> bool {
    |y: usize| y != x
}

/// `v` without the occurrences of `x`.
pub fn without(v: &Vec<usize>, x: usize) -> (r: Vec<usize>)
    ensures
        r@ == v@.filter(other_than(x)),
{
    let mut r: Vec<usize> = Vec::new();
    let n = v.len();
    let mut i: usize = 0;
    while i < n
        invariant
            n == v@.len(),
            i <= n,
            r@ == v@.take(i as int).filter(other_than(x)),
        decreases n - i,
    {
        proof {
            reveal(Seq::filter);
            assert(v@.take(i + 1).drop_last() =~= v@.take(i as int));
            assert(v@.take(i + 1).last() == v@[i as int]);
        }
        if v[i] != x {
            r.push(v[i]);
        }
        i = i + 1;
    }
    assert(v@.take(n as int) =~= v@);
    r
}

/// Filtering valid ids keeps them valid.
pub proof fn lemma_without_valid(l: Seq<usize>, p: spec_fn(usize) -> bool, len: int)
    requires
        ids_valid(l, len),
    ensures
        ids_valid(l.filter(p), len),
{
    broadcast use vstd::seq_lib::group_filter_ensures;
    assert forall|k: int| 0 <= k < l.filter(p).len() implies #[trigger] l.filter(p)[k] < len by {
        l.lemma_filter_contains_rev(p, l.filter(p)[k]);
    }
}

/// Whether `b` is `a` with only the flags of some nodes changed.
pub open spec fn only_flags_changed(a: Node, b: Node) -> bool {
    &&& b.id == a.id
    &&& b.parent == a.parent
    &&& b.children == a.children
    &&& b.layout_parent == a.layout_parent
    &&& b.data == a.data
    &&& b.shadow_root == a.shadow_root
    &&& b.assigned_slot == a.assigned_slot
    &&& b.assigned_nodes == a.assigned_nodes
    &&& b.dirty_descendants == a.dirty_descendants
    &&& forall|f: u32| is_flag_bit(f) && f != IS_IN_DOCUMENT ==> #[trigger] b.flags.has(f) == a.flags.has(f)
}

/// Whether the child `x` stays in the children of `q` when the nodes `ids` are detached
/// from their parents.
pub open spec fn detach_pred(nodes: Seq<Node>, ids: Seq<usize>, q: int) -> spec_fn(usize) -> bool {
    |x: usize| !(ids.contains(x) && nodes[x as int].parent == Some(q as usize))
}

/// Whether `b` holds the same data, flags (but the in-document flag), slot and shadow
/// links as `a`.
pub open spec fn same_content(a: Node, b: Node) -> bool {
    &&& b.id == a.id
    &&& b.layout_parent == a.layout_parent
    &&& b.data == a.data
    &&& b.shadow_root == a.shadow_root
    &&& b.assigned_slot == a.assigned_slot
    &&& b.assigned_nodes == a.assigned_nodes
    &&& forall|f: u32| is_flag_bit(f) && f != IS_IN_DOCUMENT ==> #[trigger] b.flags.has(f) == a.flags.has(f)
}

/// The children of node `i` once the nodes `ids` are detached from their parents.
pub open spec fn detached_children(nodes: Seq<Node>, ids: Seq<usize>, i: int) -> Seq<usize> {
    nodes[i].children@.filter(detach_pred(nodes, ids, i))
}

/// `d` with `ids` inserted before `anchor` (at the end when there is none, or it is not in
/// `d`).
pub open spec fn with_inserted(d: Seq<usize>, ids: Seq<usize>, anchor: Option<usize>) -> Seq<usize> {
    match anchor {
        Some(a) => match first_index_of(d, a) {
            Some(p) => d.take(p) + ids + d.skip(p),
            None => d + ids,
        },
        None => d + ids,
    }
}

/// Whether `after` is `before` once the nodes `child_ids` are moved into the children of
/// `parent_id` (before `anchor`, or at the end): each is detached from its old parent, the
/// moved subtrees take the document membership of the parent, the ancestors of old and
/// new parents are marked dirty (see `move_dirt`), and nothing but parents, children,
/// membership and dirty marks changes. The move counts as a mutation when the parent is
/// in the document (and something moves) or a moved node was.
pub open spec fn children_added(
    before: BaseDocument,
    after: BaseDocument,
    parent_id: usize,
    child_ids: Seq<usize>,
    anchor: Option<usize>,
) -> bool {
    let len = before@.len();
    &&& registries_after_mutation(
        before,
        after,
        (in_document(before@[parent_id as int]) && child_ids.len() > 0) || exists|k: int|
            0 <= k < child_ids.len() && in_document(before@[#[trigger] child_ids[k] as int]),
    )
    &&& after@.len() == len
    &&& forall|i: int|
        0 <= i < len ==> (#[trigger] after@[i]).parent == if child_ids.contains(i as usize) {
            Some(parent_id)
        } else {
            before@[i].parent
        }
    &&& forall|i: int|
        0 <= i < len ==> (#[trigger] after@[i]).children@ == if i == parent_id {
            with_inserted(detached_children(before@, child_ids, i), child_ids, anchor)
        } else {
            detached_children(before@, child_ids, i)
        }
    &&& forall|i: int|
        0 <= i < len ==> in_document(#[trigger] after@[i]) == if in_forest(after@, child_ids, i, len as nat) {
            in_document(before@[parent_id as int])
        } else {
            in_document(before@[i])
        }
    &&& forall|i: int| 0 <= i < len ==> same_content(#[trigger] before@[i], after@[i])
    &&& dirt_of(after@) == move_dirt(before@, child_ids, parent_id as int)
}

/// What a concatenation holds.
proof fn lemma_concat_contains(a: Seq<usize>, b: Seq<usize>)
    ensures
        forall|x: usize| #[trigger] (a + b).contains(x) <==> (a.contains(x) || b.contains(x)),
{
    assert forall|x: usize| #[trigger] (a + b).contains(x) <==> (a.contains(x) || b.contains(x)) by {
        if (a + b).contains(x) {
            let k = choose|k: int| 0 <= k < (a + b).len() && (a + b)[k] == x;
            if k < a.len() {
                assert(a[k] == x);
            } else {
                assert(b[k - a.len()] == x);
            }
        }
        if a.contains(x) {
            let k = choose|k: int| 0 <= k < a.len() && a[k] == x;
            assert((a + b)[k] == x);
        }
        if b.contains(x) {
            let k = choose|k: int| 0 <= k < b.len() && b[k] == x;
            assert((a + b)[k + a.len()] == x);
        }
    }
}

/// Whether `after` is `before` once node `id` and its subtree are dropped: the node leaves
/// its parent's children, the subtree leaves the document and is no longer looked up (see
/// `looked_up`), and when the parent is in the document its ancestors are marked dirty
/// (see `dirty_walk`) over the detached tree. The drop counts as a mutation when the node
/// was in the document.
pub open spec fn node_dropped(before: BaseDocument, after: BaseDocument, id: usize) -> bool {
    let len = before@.len();
    let detached = undirtied(after@, before@);
    &&& registries_after_mutation(
        before,
        (BaseDocument { dropped: before.dropped, ..after }),
        in_document(before@[id as int]),
    )
    &&& forall|x: usize|
        #[trigger] after.dropped@.contains(x) <==> (before.dropped@.contains(x) || in_subtree(
            before@,
            id as int,
            x as int,
            len as nat,
        ))
    &&& after@.len() == len
    &&& after@[id as int].parent.is_none()
    &&& forall|i: int|
        0 <= i < len ==> (#[trigger] after@[i]).children@ == if before@[id as int].parent == Some(
            i as usize,
        ) {
            before@[i].children@.filter(other_than(id))
        } else {
            before@[i].children@
        }
    &&& forall|i: int| 0 <= i < len && i != id ==> (#[trigger] after@[i]).parent == before@[i].parent
    &&& forall|i: int|
        0 <= i < len ==> in_document(#[trigger] after@[i]) == (!in_subtree(before@, id as int, i, len as nat)
            && in_document(before@[i]))
    &&& forall|i: int| 0 <= i < len ==> same_content(#[trigger] before@[i], detached[i])
    &&& after@ == match before@[id as int].parent {
        Some(p) => walk_if(detached, p as int, in_document(before@[p as int])),
        None => detached,
    }
}

/// Whether `id` names a node of `doc` that was not dropped.
pub open spec fn looked_up(doc: BaseDocument, id: int) -> bool {
    0 <= id < doc@.len() && !doc.dropped@.contains(id as usize)
}

/// Whether the nodes `ids` can be moved keeping the tree links: each is named once and none
/// is a shadow root.
pub open spec fn moved_once(nodes: Seq<Node>, ids: Seq<usize>) -> bool {
    &&& ids.no_duplicates()
    &&& forall|k: int| 0 <= k < ids.len() ==> !is_shadow_root_node(nodes[#[trigger] ids[k] as int])
}

/// Whether `after` is `before` once node `id` is detached from its parent: the parent
/// drops it from its children, its subtree leaves the document, nothing else changes but
/// the dirty marks, which are those of a walk from the old parent (see `dirty_walk`) over
/// the detached tree. The removal counts as a mutation when the node had a parent and was
/// in the document.
pub open spec fn node_removed(before: BaseDocument, after: BaseDocument, id: usize) -> bool {
    let len = before@.len();
    let detached = undirtied(after@, before@);
    &&& registries_after_mutation(
        before,
        after,
        before@[id as int].parent.is_some() && in_document(before@[id as int]),
    )
    &&& after@.len() == len
    &&& after@[id as int].parent.is_none()
    &&& forall|i: int|
        0 <= i < len ==> (#[trigger] after@[i]).children@ == if before@[id as int].parent == Some(
            i as usize,
        ) {
            before@[i].children@.filter(other_than(id))
        } else {
            before@[i].children@
        }
    &&& forall|i: int| 0 <= i < len && i != id ==> (#[trigger] after@[i]).parent == before@[i].parent
    &&& forall|i: int|
        0 <= i < len ==> in_document(#[trigger] after@[i]) == (!in_subtree(before@, id as int, i, len as nat)
            && in_document(before@[i]))
    &&& forall|i: int| 0 <= i < len ==> same_content(#[trigger] before@[i], detached[i])
    &&& after@ == match before@[id as int].parent {
        Some(p) => dirty_walk(detached, p as int),
        None => detached,
    }
}

/// `v` with `ids` inserted at `pos`.
fn splice_ids(v: &Vec<usize>, pos: usize, ids: &[usize]) -> (r: Vec<usize>)
    requires
        pos <= v@.len(),
    ensures
        r@ == v@.take(pos as int) + ids@ + v@.skip(pos as int),
{
    let mut r: Vec<usize> = Vec::new();
    let mut k: usize = 0;
    while k < pos
        invariant
            pos <= v@.len(),
            k <= pos,
            r@ == v@.take(k as int),
        decreases pos - k,
    {
        r.push(v[k]);
        k = k + 1;
        assert(r@ =~= v@.take(k as int));
    }
    let mut j: usize = 0;
    while j < ids.len()
        invariant
            k == pos,
            j <= ids@.len(),
            r@ == v@.take(pos as int) + ids@.take(j as int),
        decreases ids@.len() - j,
    {
        r.push(ids[j]);
        j = j + 1;
        assert(r@ =~= v@.take(pos as int) + ids@.take(j as int));
    }
    assert(ids@.take(ids@.len() as int) =~= ids@);
    let ghost base = r@;
    let mut m: usize = pos;
    while m < v.len()
        invariant
            pos <= m <= v@.len(),
            base == v@.take(pos as int) + ids@,
            r@ == base + v@.subrange(pos as int, m as int),
        decreases v@.len() - m,
    {
        r.push(v[m]);
        m = m + 1;
        assert(r@ =~= base + v@.subrange(pos as int, m as int));
    }
    assert(v@.subrange(pos as int, v@.len() as int) =~= v@.skip(pos as int));
    r
}

/// The document: the nodes, addressed by id, with the document node at id 0, and the
/// registries kept beside the tree.
pub struct BaseDocument {
    /// The nodes; node `i` has id `i`.
    pub nodes: Vec<Node>,
    /// The shadow hosts, in the order their shadow roots were attached.
    pub shadow_hosts: Vec<usize>,
    /// The nodes registered as `position: sticky`, outer ones first.
    pub sticky_nodes: Vec<StickyEntry>,
    /// A scroll the document has decided on and its host has not performed yet.
    pub pending_scroll: Option<PendingScroll>,
    /// Whether a mutation that affects rendered output has happened since the mutations
    /// were last flushed.
    pub mutations_occurred: bool,
    /// The ids of the nodes dropped from the document: they keep their slots in the arena
    /// (ids are never reused) but are no longer looked up.
    pub dropped: Vec<usize>,
}

impl View for BaseDocument {
    type V = Seq<Node>;

    open spec fn view(&self) -> Seq<Node> {
        self.nodes@
    }
}

/// Whether `b` holds the same registries (shadow hosts, sticky nodes, pending scroll,
/// mutation flag) as `a`.
pub open spec fn same_registries(a: BaseDocument, b: BaseDocument) -> bool {
    &&& b.shadow_hosts@ == a.shadow_hosts@
    &&& b.sticky_nodes@ == a.sticky_nodes@
    &&& b.pending_scroll == a.pending_scroll
    &&& b.mutations_occurred == a.mutations_occurred
    &&& b.dropped@ == a.dropped@
}

/// Whether `b` holds the same registries as `a`, but for the mutation flag, which is set
/// when `mutated` holds and kept otherwise.
pub open spec fn registries_after_mutation(a: BaseDocument, b: BaseDocument, mutated: bool) -> bool {
    &&& b.shadow_hosts@ == a.shadow_hosts@
    &&& b.sticky_nodes@ == a.sticky_nodes@
    &&& b.pending_scroll == a.pending_scroll
    &&& b.mutations_occurred == (a.mutations_occurred || mutated)
    &&& b.dropped@ == a.dropped@
}

/// The state a freshly created node starts in.
pub open spec fn fresh_node(n: Node, id: int) -> bool {
    &&& n.id == id
    &&& n.parent.is_none()
    &&& n.children@.len() == 0
    &&& n.layout_parent.is_none()
    &&& !in_document(n)
    &&& !is_shadow_root_node(n)
    &&& n.shadow_root.is_none()
    &&& n.assigned_slot.is_none()
    &&& n.assigned_nodes@.len() == 0
    &&& !n.dirty_descendants
    &&& n.before.is_none()
    &&& n.after.is_none()
}

impl BaseDocument {
    /// Whether the arena is well formed: node `i` has id `i`, and every id a node holds
    /// addresses a node.
    pub open spec fn wf(&self) -> bool {
        &&& self@.len() > 0
        &&& self@[0].data is Document
        &&& forall|i: int| 0 <= i < self@.len() ==> node_wf(#[trigger] self@[i], i, self@.len() as int)
        &&& ids_valid(self.shadow_hosts@, self@.len() as int)
        &&& forall|k: int| 0 <= k < self.sticky_nodes@.len() ==> (#[trigger] self.sticky_nodes@[k]).node < self@.len()
    }

    /// A document holding only the document node, which is in the document, with empty
    /// registries.
    pub fn new() -> (r: Self)
        ensures
            r.wf(),
            r.shadow_hosts@.len() == 0,
            r.sticky_nodes@.len() == 0,
            r.pending_scroll.is_none(),
            !r.mutations_occurred,
            r@.len() == 1,
            in_document(r@[0]),
            r@[0].parent.is_none(),
            r@[0].children@.len() == 0,
    {
        let mut flags = NodeFlags::empty();
        flags.insert(IS_IN_DOCUMENT);
        let doc_node = Node {
            id: 0,
            parent: None,
            children: Vec::new(),
            layout_parent: None,
            flags,
            data: NodeData::Document,
            shadow_root: None,
            assigned_slot: None,
            assigned_nodes: Vec::new(),
            dirty_descendants: false,
            before: None,
            after: None,
        };
        let mut nodes = Vec::new();
        nodes.push(doc_node);
        BaseDocument {
            nodes,
            shadow_hosts: Vec::new(),
            sticky_nodes: Vec::new(),
            pending_scroll: None,
            mutations_occurred: false,
            dropped: Vec::new(),
        }
    }

    /// The id of the document node.
    pub fn root_node_id(&self) -> (r: usize)
        ensures
            r == 0,
    {
        0
    }

    /// The number of nodes.
    pub fn len(&self) -> (r: usize)
        ensures
            r == self@.len(),
    {
        self.nodes.len()
    }

    /// Whether node `id` was dropped.
    pub fn is_dropped(&self, id: usize) -> (r: bool)
        ensures
            r == self.dropped@.contains(id),
    {
        let n = self.dropped.len();
        let mut k: usize = 0;
        while k < n
            invariant
                n == self.dropped@.len(),
                k <= n,
                forall|j: int| 0 <= j < k ==> self.dropped@[j] != id,
            decreases n - k,
        {
            if self.dropped[k] == id {
                assert(self.dropped@[k as int] == id);
                return true;
            }
            k = k + 1;
        }
        false
    }

    /// The node with id `id`, if there is one that was not dropped.
    pub fn get_node(&self, id: usize) -> (r: Option<&Node>)
        ensures
            looked_up(*self, id as int) ==> r == Some(&self@[id as int]),
            !looked_up(*self, id as int) ==> r.is_none(),
    {
        if id < self.nodes.len() && !self.is_dropped(id) {
            Some(&self.nodes[id])
        } else {
            None
        }
    }

    /// The node with id `id`.
    pub fn node(&self, id: usize) -> (r: &Node)
        requires
            id < self@.len(),
        ensures
            *r == self@[id as int],
    {
        &self.nodes[id]
    }

    /// Adds a node holding `data`; a form control element starts disabled when it has a
    /// `disabled` attribute and enabled otherwise.
    pub fn create_node(&mut self, data: NodeData) -> (r: usize)
        requires
            old(self).wf(),
            old(self)@.len() < usize::MAX,
        ensures
            final(self).wf(),
            same_registries(*old(self), *final(self)),
            r == old(self)@.len(),
            final(self)@.len() == old(self)@.len() + 1,
            forall|i: int| 0 <= i < old(self)@.len() ==> #[trigger] final(self)@[i] == old(self)@[i],
            fresh_node(final(self)@[r as int], r as int),
            forall|f: u32| is_flag_bit(f) ==> !(#[trigger] final(self)@[r as int].flags.has(f)),
            created_data(data, final(self)@[r as int].data),
            links_agree(old(self)@) ==> links_agree(final(self)@),
    {
        let id = self.nodes.len();
        let mut data = data;
        match &mut data {
            NodeData::Element(e) => {
                if e.can_be_disabled() {
                    if e.has_attr("disabled") {
                        e.element_state.disabled = true;
                    } else {
                        e.element_state.enabled = true;
                    }
                }
            },
            _ => {},
        }
        let node = Node {
            id,
            parent: None,
            children: Vec::new(),
            layout_parent: None,
            flags: NodeFlags::empty(),
            data,
            shadow_root: None,
            assigned_slot: None,
            assigned_nodes: Vec::new(),
            dirty_descendants: false,
            before: None,
            after: None,
        };
        self.nodes.push(node);
        proof {
            assert(is_flag_bit(IS_IN_DOCUMENT));
            assert(!self@[id as int].flags.has(IS_IN_DOCUMENT));
            assert(is_flag_bit(crate::flags::IS_SHADOW_ROOT));
            assert(!self@[id as int].flags.has(crate::flags::IS_SHADOW_ROOT));
            let len = self@.len() as int;
            assert forall|i: int| 0 <= i < len implies node_wf(#[trigger] self@[i], i, len) by {
                if i < len - 1 {
                    assert(node_wf(old(self)@[i], i, len - 1));
                }
            }
            if links_agree(old(self)@) {
                lemma_links_created(old(self)@, self@);
            }
        }
        id
    }


    /// Sets the in-document flag of every node in the subtree of `id` (looking at most
    /// `fuel` levels down) to `value`.
    fn mark_subtree(&mut self, id: usize, value: bool, fuel: usize)
        requires
            old(self).wf(),
            id < old(self)@.len(),
        ensures
            final(self).wf(),
            same_registries(*old(self), *final(self)),
            final(self)@.len() == old(self)@.len(),
            forall|i: int| 0 <= i < old(self)@.len() ==> only_flags_changed(#[trigger] old(self)@[i], final(self)@[i]),
            forall|i: int|
                0 <= i < old(self)@.len() ==> in_document(#[trigger] final(self)@[i]) == if in_subtree(
                    old(self)@,
                    id as int,
                    i,
                    fuel as nat,
                ) {
                    value
                } else {
                    in_document(old(self)@[i])
                },
        decreases fuel,
    {
        let ghost start = self@;
        self.nodes[id].flags.set(IS_IN_DOCUMENT, value);
        proof {
            let len = self@.len() as int;
            assert forall|i: int| 0 <= i < len implies node_wf(#[trigger] self@[i], i, len) by {
                assert(node_wf(start[i], i, len));
            }
        }
        if fuel == 0 {
            return;
        }
        let n = self.nodes[id].children.len();
        let mut k: usize = 0;
        while k < n
            invariant
                self.wf(),
                same_registries(*old(self), *self),
                self@.len() == start.len(),
                id < start.len(),
                fuel > 0,
                n == start[id as int].children@.len(),
                k <= n,
                forall|i: int| 0 <= i < start.len() ==> only_flags_changed(#[trigger] start[i], self@[i]),
                forall|i: int|
                    0 <= i < start.len() ==> in_document(#[trigger] self@[i]) == if i == id || in_forest(
                        start,
                        start[id as int].children@.take(k as int),
                        i,
                        (fuel - 1) as nat,
                    ) {
                        value
                    } else {
                        in_document(start[i])
                    },
            decreases n - k,
        {
            let c = self.nodes[id].children[k];
            let ghost before = self@;
            proof {
                assert(node_wf(before[id as int], id as int, before.len() as int));
                assert(before[id as int].children@[k as int] == c);
            }
            self.mark_subtree(c, value, fuel - 1);
            proof {
                let kids = start[id as int].children@;
                assert(kids.take(k + 1).drop_last() =~= kids.take(k as int));
                assert(kids.take(k + 1).last() == c);
                assert(same_shape(before, start));
                assert forall|i: int| 0 <= i < start.len() implies in_subtree(before, c as int, i, (fuel - 1) as nat)
                    == #[trigger] in_subtree(start, c as int, i, (fuel - 1) as nat) by {
                    lemma_same_shape_subtree(before, start, c as int, i, (fuel - 1) as nat);
                }
                assert forall|i: int| 0 <= i < start.len() implies #[trigger] in_forest(start, kids.take(k + 1), i, (fuel - 1) as nat)
                    == (in_forest(start, kids.take(k as int), i, (fuel - 1) as nat) || in_subtree(start, c as int, i, (fuel - 1) as nat)) by {
                    assert(kids.take(k + 1).len() > 0);
                }
            }
            k = k + 1;
        }
        proof {
            assert(start[id as int].children@.take(n as int) =~= start[id as int].children@);
        }
    }

    /// Detaches `id` from its parent and takes its subtree out of the document; the
    /// ancestors of the old parent are then marked as having dirty descendants.
    pub fn remove_node(&mut self, id: usize)
        requires
            old(self).wf(),
            id < old(self)@.len(),
        ensures
            final(self).wf(),
            node_removed(*old(self), *final(self), id),
            links_agree(old(self)@) && !is_shadow_root_node(old(self)@[id as int]) ==> links_agree(final(self)@),
    {
        self.detach_node(id);
        proof {
            if links_agree(old(self)@) && !is_shadow_root_node(old(self)@[id as int]) {
                lemma_links_node_removed(*old(self), *self, id);
            }
        }
    }

    /// Detaches node `id` from its parent (see `node_removed`).
    fn detach_node(&mut self, id: usize)
        requires
            old(self).wf(),
            id < old(self)@.len(),
        ensures
            final(self).wf(),
            node_removed(*old(self), *final(self), id),
    {
        let len = self.nodes.len();
        let was_in_doc = self.nodes[id].flags.is_in_document();
        self.mark_subtree(id, false, len);
        let ghost marked = self@;
        match self.nodes[id].parent {
            Some(p) => {
                self.mutations_occurred = self.mutations_occurred || was_in_doc;
                self.nodes[id].parent = None;
                proof {
                    assert(node_wf(marked[p as int], p as int, len as int));
                }
                let kids = without(&self.nodes[p].children, id);
                proof {
                    lemma_without_valid(marked[p as int].children@, other_than(id), len as int);
                }
                self.nodes[p].children = kids;
                proof {
                    assert forall|i: int| 0 <= i < len implies node_wf(#[trigger] self@[i], i, len as int) by {
                        assert(node_wf(marked[i], i, len as int));
                    }
                }
                let ghost detached = self@;
                self.mark_dirty_walk(p);
                proof {
                    assert(undirtied(self@, old(self)@) =~= detached);
                }
            },
            None => {
                proof {
                    assert(undirtied(self@, old(self)@) =~= self@);
                }
            },
        }
    }


    /// Drops node `id` and its subtree (see `node_dropped`) and gives the ids dropped: the
    /// subtree of `id`.
    pub fn remove_and_drop_node_with(&mut self, id: usize) -> (r: Vec<usize>)
        requires
            old(self).wf(),
            looked_up(*old(self), id as int),
        ensures
            final(self).wf(),
            node_dropped(*old(self), *final(self), id),
            forall|x: usize|
                #[trigger] r@.contains(x) <==> in_subtree(old(self)@, id as int, x as int, old(self)@.len() as nat),
            links_agree(old(self)@) && !is_shadow_root_node(old(self)@[id as int]) ==> links_agree(final(self)@),
    {
        let len = self.nodes.len();
        let in_doc = self.nodes[id].flags.is_in_document();
        let mut ids: Vec<usize> = Vec::new();
        self.collect_subtree(id, len, &mut ids);
        proof {
            assert(node_wf(self@[id as int], id as int, len as int));
        }
        let parent = self.nodes[id].parent;
        let parent_in_doc = match parent {
            Some(p) => self.nodes[p].flags.is_in_document(),
            None => false,
        };
        self.mark_subtree(id, false, len);
        let ghost marked = self@;
        match parent {
            Some(p) => {
                self.nodes[id].parent = None;
                proof {
                    assert(node_wf(marked[p as int], p as int, len as int));
                }
                let kids = without(&self.nodes[p].children, id);
                proof {
                    lemma_without_valid(marked[p as int].children@, other_than(id), len as int);
                }
                self.nodes[p].children = kids;
                proof {
                    assert forall|i: int| 0 <= i < len implies node_wf(#[trigger] self@[i], i, len as int) by {
                        assert(node_wf(marked[i], i, len as int));
                    }
                }
                let ghost detached = self@;
                if parent_in_doc {
                    self.mark_dirty_walk(p);
                }
                proof {
                    assert(undirtied(self@, old(self)@) =~= detached);
                }
            },
            None => {
                proof {
                    assert(undirtied(self@, old(self)@) =~= self@);
                }
            },
        }
        self.mutations_occurred = self.mutations_occurred || in_doc;
        let ghost mid = *self;
        let n = ids.len();
        let mut k: usize = 0;
        while k < n
            invariant
                n == ids@.len(),
                k <= n,
                self@ == mid@,
                self.shadow_hosts == mid.shadow_hosts,
                self.sticky_nodes == mid.sticky_nodes,
                self.pending_scroll == mid.pending_scroll,
                self.mutations_occurred == mid.mutations_occurred,
                self.dropped@ == mid.dropped@ + ids@.take(k as int),
            decreases n - k,
        {
            self.dropped.push(ids[k]);
            proof {
                assert(ids@.take(k + 1) =~= ids@.take(k as int).push(ids@[k as int]));
            }
            k = k + 1;
        }
        proof {
            assert(ids@.take(n as int) =~= ids@);
            lemma_concat_contains(mid.dropped@, ids@);
            assert(forall|x: usize| !Seq::<usize>::empty().contains(x));
            if links_agree(old(self)@) && !is_shadow_root_node(old(self)@[id as int]) {
                lemma_links_node_dropped(*old(self), *self, id);
            }
        }
        ids
    }

    /// Drops node `id` and its subtree (see `node_dropped`), giving back the id of the
    /// dropped node.
    pub fn remove_and_drop_node(&mut self, id: usize) -> (r: Option<usize>)
        requires
            old(self).wf(),
            looked_up(*old(self), id as int),
        ensures
            final(self).wf(),
            node_dropped(*old(self), *final(self), id),
            r == Some(id),
            links_agree(old(self)@) && !is_shadow_root_node(old(self)@[id as int]) ==> links_agree(final(self)@),
    {
        let _ = self.remove_and_drop_node_with(id);
        Some(id)
    }

    /// Appends the ids of the subtree of `id` (see `in_subtree`), looking at most `fuel`
    /// levels down.
    fn collect_subtree(&self, id: usize, fuel: usize, out: &mut Vec<usize>)
        requires
            self.wf(),
            id < self@.len(),
        ensures
            forall|x: usize|
                #[trigger] final(out)@.contains(x) <==> (old(out)@.contains(x) || in_subtree(
                    self@,
                    id as int,
                    x as int,
                    fuel as nat,
                )),
        decreases fuel, 0nat,
    {
        let ghost o0 = out@;
        out.push(id);
        proof {
            assert forall|x: usize| #[trigger] out@.contains(x) <==> (o0.contains(x) || x == id) by {
                if out@.contains(x) {
                    let k = choose|k: int| 0 <= k < out@.len() && out@[k] == x;
                    if k < o0.len() {
                        assert(o0[k] == x);
                    }
                }
                if o0.contains(x) {
                    let k = choose|k: int| 0 <= k < o0.len() && o0[k] == x;
                    assert(out@[k] == x);
                }
                if x == id {
                    assert(out@[o0.len() as int] == x);
                }
            }
        }
        if fuel == 0 {
            return;
        }
        proof {
            assert(node_wf(self@[id as int], id as int, self@.len() as int));
        }
        let ghost o1 = out@;
        self.collect_forest(&self.nodes[id].children, fuel - 1, out);
    }

    /// Appends the ids of the subtrees of `roots` (see `in_forest`), looking at most `fuel`
    /// levels below them.
    fn collect_forest(&self, roots: &Vec<usize>, fuel: usize, out: &mut Vec<usize>)
        requires
            self.wf(),
            ids_valid(roots@, self@.len() as int),
        ensures
            forall|x: usize|
                #[trigger] final(out)@.contains(x) <==> (old(out)@.contains(x) || in_forest(
                    self@,
                    roots@,
                    x as int,
                    fuel as nat,
                )),
        decreases fuel, 1nat,
    {
        let ghost o0 = out@;
        let n = roots.len();
        let mut k: usize = 0;
        proof {
            assert(roots@.take(0).len() == 0);
        }
        while k < n
            invariant
                self.wf(),
                n == roots@.len(),
                k <= n,
                ids_valid(roots@, self@.len() as int),
                forall|x: usize|
                    #[trigger] out@.contains(x) <==> (o0.contains(x) || in_forest(
                        self@,
                        roots@.take(k as int),
                        x as int,
                        fuel as nat,
                    )),
            decreases n - k,
        {
            let c = roots[k];
            proof {
                assert(roots@.take(k + 1).drop_last() =~= roots@.take(k as int));
                assert(roots@.take(k + 1).last() == c);
            }
            self.collect_subtree(c, fuel, out);
            k = k + 1;
        }
        proof {
            assert(roots@.take(n as int) =~= roots@);
        }
    }

    /// Empties the children of `id` and drops their subtrees: each former child loses its
    /// parent, its subtree leaves the document and is no longer looked up (see
    /// `looked_up`); when `id` is in the document its ancestors are first marked as having
    /// dirty descendants. The emptying counts as a mutation when `id` is in the document
    /// and had children. The dropped nodes keep their slots in the arena: ids are never
    /// reused.
    pub fn remove_and_drop_all_children(&mut self, id: usize)
        requires
            old(self).wf(),
            id < old(self)@.len(),
        ensures
            final(self).wf(),
            registries_after_mutation(
                *old(self),
                (BaseDocument { dropped: old(self).dropped, ..*final(self) }),
                in_document(old(self)@[id as int]) && old(self)@[id as int].children@.len() > 0,
            ),
            forall|x: usize|
                #[trigger] final(self).dropped@.contains(x) <==> (old(self).dropped@.contains(x) || in_forest(
                    old(self)@,
                    old(self)@[id as int].children@,
                    x as int,
                    old(self)@.len() as nat,
                )),
            final(self)@.len() == old(self)@.len(),
            final(self)@[id as int].children@.len() == 0,
            forall|i: int|
                0 <= i < old(self)@.len() && i != id ==> (#[trigger] final(self)@[i]).children@ == old(
                    self,
                )@[i].children@,
            forall|i: int|
                0 <= i < old(self)@.len() ==> (#[trigger] final(self)@[i]).parent == if old(
                    self,
                )@[id as int].children@.contains(i as usize) {
                    None
                } else {
                    old(self)@[i].parent
                },
            forall|i: int|
                0 <= i < old(self)@.len() ==> in_document(#[trigger] final(self)@[i]) == (!in_forest(
                    old(self)@,
                    old(self)@[id as int].children@,
                    i,
                    old(self)@.len() as nat,
                ) && in_document(old(self)@[i])),
            forall|i: int|
                0 <= i < old(self)@.len() ==> same_content(#[trigger] old(self)@[i], final(self)@[i]),
            dirt_of(final(self)@) == dirt_of(walk_if(old(self)@, id as int, in_document(old(self)@[id as int]))),
            links_agree(old(self)@) ==> links_agree(final(self)@),
    {
        let len = self.nodes.len();
        proof {
            assert(node_wf(self@[id as int], id as int, len as int));
        }
        let mut ids: Vec<usize> = Vec::new();
        self.collect_forest(&self.nodes[id].children, len, &mut ids);
        self.detach_all_children(id);
        let n = ids.len();
        let mut k: usize = 0;
        let ghost detached = self@;
        let ghost mid = *self;
        while k < n
            invariant
                n == ids@.len(),
                k <= n,
                self@ == detached,
                self.shadow_hosts == mid.shadow_hosts,
                self.sticky_nodes == mid.sticky_nodes,
                self.pending_scroll == mid.pending_scroll,
                self.mutations_occurred == mid.mutations_occurred,
                self.dropped@ == mid.dropped@ + ids@.take(k as int),
            decreases n - k,
        {
            self.dropped.push(ids[k]);
            proof {
                assert(ids@.take(k + 1) =~= ids@.take(k as int).push(ids@[k as int]));
            }
            k = k + 1;
        }
        proof {
            assert(ids@.take(n as int) =~= ids@);
            lemma_concat_contains(mid.dropped@, ids@);
            assert(self.dropped@ == old(self).dropped@ + ids@);
        }
    }

    /// Empties the children of `id`: each former child loses its parent and its subtree
    /// leaves the document; when `id` is in the document its ancestors are first marked as
    /// having dirty descendants.
    pub(crate) fn detach_all_children(&mut self, id: usize)
        requires
            old(self).wf(),
            id < old(self)@.len(),
        ensures
            final(self).wf(),
            registries_after_mutation(
                *old(self),
                *final(self),
                in_document(old(self)@[id as int]) && old(self)@[id as int].children@.len() > 0,
            ),
            final(self)@.len() == old(self)@.len(),
            final(self)@[id as int].children@.len() == 0,
            forall|i: int|
                0 <= i < old(self)@.len() && i != id ==> (#[trigger] final(self)@[i]).children@ == old(
                    self,
                )@[i].children@,
            forall|i: int|
                0 <= i < old(self)@.len() ==> (#[trigger] final(self)@[i]).parent == if old(
                    self,
                )@[id as int].children@.contains(i as usize) {
                    None
                } else {
                    old(self)@[i].parent
                },
            forall|i: int|
                0 <= i < old(self)@.len() ==> in_document(#[trigger] final(self)@[i]) == (!in_forest(
                    old(self)@,
                    old(self)@[id as int].children@,
                    i,
                    old(self)@.len() as nat,
                ) && in_document(old(self)@[i])),
            forall|i: int|
                0 <= i < old(self)@.len() ==> same_content(#[trigger] old(self)@[i], final(self)@[i]),
            dirt_of(final(self)@) == dirt_of(walk_if(old(self)@, id as int, in_document(old(self)@[id as int]))),
            links_agree(old(self)@) ==> links_agree(final(self)@),
    {
        let len = self.nodes.len();
        let parent_in_doc = self.nodes[id].flags.is_in_document();
        if parent_in_doc {
            self.mark_dirty_walk(id);
        }
        let ghost start = self@;
        proof {
            assert(start =~= walk_if(old(self)@, id as int, parent_in_doc));
            assert(same_shape(start, old(self)@));
            assert forall|i: int| 0 <= i < len implies in_forest(start, start[id as int].children@, i, len as nat)
                == #[trigger] in_forest(old(self)@, start[id as int].children@, i, len as nat) by {
                lemma_same_shape_forest(start, old(self)@, start[id as int].children@, i, len as nat);
            }
        }
        let kids = self.nodes[id].children.clone();
        let n = kids.len();
        proof {
            assert(node_wf(start[id as int], id as int, len as int));
            assert(kids@ == start[id as int].children@);
        }
        let mut k: usize = 0;
        while k < n
            invariant
                self.wf(),
                same_registries(*old(self), *self),
                start == walk_if(old(self)@, id as int, parent_in_doc),
                self@.len() == len,
                start.len() == len,
                n == kids@.len(),
                ids_valid(kids@, len as int),
                k <= n,
                same_shape(self@, start),
                forall|i: int|
                    0 <= i < len ==> (#[trigger] self@[i]).parent == if kids@.take(k as int).contains(i as usize) {
                        None
                    } else {
                        start[i].parent
                    },
                forall|i: int|
                    0 <= i < len ==> in_document(#[trigger] self@[i]) == (!in_forest(
                        start,
                        kids@.take(k as int),
                        i,
                        len as nat,
                    ) && in_document(start[i])),
                forall|i: int| 0 <= i < len ==> same_content(#[trigger] start[i], self@[i]),
                forall|i: int| 0 <= i < len ==> (#[trigger] self@[i]).dirty_descendants == start[i].dirty_descendants,
            decreases n - k,
        {
            let c = kids[k];
            let ghost before = self@;
            proof {
                assert(kids@.take(k + 1) =~= kids@.take(k as int).push(c));
                assert forall|x: usize| #[trigger] kids@.take(k + 1).contains(x) == (kids@.take(
                    k as int,
                ).contains(x) || x == c) by {
                    lemma_seq_contains_after_push(kids@.take(k as int), c, x);
                }
            }
            self.nodes[c].parent = None;
            proof {
                assert forall|i: int| 0 <= i < len implies node_wf(#[trigger] self@[i], i, len as int) by {
                    assert(node_wf(before[i], i, len as int));
                }
            }
            let ghost set_parent = self@;
            self.mark_subtree(c, false, len);
            proof {
                assert forall|i: int| 0 <= i < len implies (#[trigger] self@[i]).parent == set_parent[i].parent
                    && same_content(start[i], self@[i]) by {
                    assert(only_flags_changed(set_parent[i], self@[i]));
                    assert(same_content(start[i], before[i]));
                    assert forall|f: u32| is_flag_bit(f) && f != IS_IN_DOCUMENT implies #[trigger] self@[i].flags.has(f)
                        == start[i].flags.has(f) by {
                        assert(set_parent[i].flags.has(f) == before[i].flags.has(f));
                    }
                }
                assert(same_shape(set_parent, start));
                assert forall|i: int| 0 <= i < len implies in_subtree(set_parent, c as int, i, len as nat)
                    == #[trigger] in_subtree(start, c as int, i, len as nat) by {
                    lemma_same_shape_subtree(set_parent, start, c as int, i, len as nat);
                }
                assert forall|i: int| 0 <= i < len implies #[trigger] in_forest(start, kids@.take(k + 1), i, len as nat)
                    == (in_forest(start, kids@.take(k as int), i, len as nat) || in_subtree(
                    start,
                    c as int,
                    i,
                    len as nat,
                )) by {
                    assert(kids@.take(k + 1).drop_last() =~= kids@.take(k as int));
                }
            }
            k = k + 1;
        }
        proof {
            assert(kids@.take(n as int) =~= kids@);
        }
        let ghost cleared = self@;
        self.nodes[id].children = Vec::new();
        proof {
            assert forall|i: int| 0 <= i < len implies node_wf(#[trigger] self@[i], i, len as int) by {
                assert(node_wf(cleared[i], i, len as int));
            }
            assert forall|i: int| 0 <= i < len implies same_content(#[trigger] old(self)@[i], self@[i]) by {
                assert(same_content(start[i], self@[i]));
            }
            assert(dirt_of(self@) =~= dirt_of(start));
        }
        self.mutations_occurred = self.mutations_occurred || (parent_in_doc && n > 0);
        proof {
            if links_agree(old(self)@) {
                assert forall|i: int| 0 <= i < len && i != id implies (#[trigger] self@[i]).children@ == old(self)@[i].children@ by {
                    assert(self@[i].children@ == start[i].children@);
                }
                lemma_links_children_dropped(old(self)@, self@, id as int);
            }
        }
    }

    /// Inserts `child_ids` into the children of `parent_id`, before `anchor` (or at the end).
    fn insert_children(&mut self, parent_id: usize, child_ids: &[usize], anchor: Option<usize>)
        requires
            old(self).wf(),
            parent_id < old(self)@.len(),
            ids_valid(child_ids@, old(self)@.len() as int),
        ensures
            final(self).wf(),
            same_registries(*old(self), *final(self)),
            final(self)@.len() == old(self)@.len(),
            forall|i: int| 0 <= i < old(self)@.len() && i != parent_id ==> #[trigger] final(self)@[i] == old(self)@[i],
            final(self)@[parent_id as int] == (Node {
                children: final(self)@[parent_id as int].children,
                ..old(self)@[parent_id as int]
            }),
            final(self)@[parent_id as int].children@ == with_inserted(
                old(self)@[parent_id as int].children@,
                child_ids@,
                anchor,
            ),
    {
        let ghost start = self@;
        let len = self.nodes.len();
        let n = child_ids.len();
        proof {
            assert(node_wf(start[parent_id as int], parent_id as int, len as int));
        }
        let pos = match anchor {
            Some(a) => {
                let found = self.nodes[parent_id].index_of_child(a);
                match found {
                    Some(p) => {
                        proof {
                            crate::mutator::lemma_first_index_of(start[parent_id as int].children@, a, p as int);
                        }
                        p
                    },
                    None => self.nodes[parent_id].children.len(),
                }
            },
            None => self.nodes[parent_id].children.len(),
        };
        let spliced = splice_ids(&self.nodes[parent_id].children, pos, child_ids);
        proof {
            let d = start[parent_id as int].children@;
            assert(d.take(d.len() as int) =~= d);
            assert(d.skip(d.len() as int) =~= Seq::<usize>::empty());
            assert(d + child_ids@ + Seq::<usize>::empty() =~= d + child_ids@);
            assert(spliced@ == with_inserted(d, child_ids@, anchor));
            assert forall|x: int| 0 <= x < spliced@.len() implies #[trigger] spliced@[x] < len by {
                if x < pos {
                    assert(spliced@[x] == d[x]);
                } else if x < pos + n {
                    assert(spliced@[x] == child_ids@[x - pos]);
                } else {
                    assert(spliced@[x] == d[x - n]);
                }
            }
        }
        self.nodes[parent_id].children = spliced;
        proof {
            assert forall|i: int| 0 <= i < len implies node_wf(#[trigger] self@[i], i, len as int) by {
                assert(node_wf(start[i], i, len as int));
            }
        }
    }

    /// Moves the nodes `child_ids` into the children of `parent_id` (before `anchor`, or at
    /// the end), detaching each from its old parent first; their subtrees take the
    /// document membership of `parent_id`.
    #[verifier::spinoff_prover]
    #[verifier::rlimit(50)]
    fn add_children_to_parent(&mut self, parent_id: usize, child_ids: &[usize], anchor: Option<usize>)
        requires
            old(self).wf(),
            parent_id < old(self)@.len(),
            ids_valid(child_ids@, old(self)@.len() as int),
            anchor matches Some(a) ==> detached_children(old(self)@, child_ids@, parent_id as int).contains(a),
        ensures
            final(self).wf(),
            children_added(*old(self), *final(self), parent_id, child_ids@, anchor),
    {
        let ghost start = self@;
        let len = self.nodes.len();
        let parent_in_doc = self.nodes[parent_id].flags.is_in_document();
        let n = child_ids.len();
        // Whether the move affects rendered output: the new parent is in the document, or
        // one of the moved nodes was.
        let mut touched = parent_in_doc && n > 0;
        let mut k: usize = 0;
        while k < n
            invariant
                self@ == start,
                len == start.len(),
                n == child_ids@.len(),
                ids_valid(child_ids@, len as int),
                k <= n,
                touched == ((parent_in_doc && n > 0) || exists|j: int|
                    0 <= j < k && in_document(start[#[trigger] child_ids@[j] as int])),
            decreases n - k,
        {
            if self.nodes[child_ids[k]].flags.is_in_document() {
                touched = true;
            }
            k = k + 1;
        }
        proof {
            assert forall|i: int| 0 <= i < len implies start[i].children@.filter(
                #[trigger] detach_pred(start, child_ids@.take(0), i),
            ) == start[i].children@ by {
                lemma_filter_all(start[i].children@, detach_pred(start, child_ids@.take(0), i));
            }
        }
        // Detach the children from their old parents.
        let mut k: usize = 0;
        while k < n
            invariant
                self.wf(),
                same_registries(*old(self), *self),
                self@.len() == start.len(),
                len == start.len(),
                n == child_ids@.len(),
                ids_valid(child_ids@, len as int),
                k <= n,
                forall|i: int|
                    0 <= i < len ==> (#[trigger] self@[i]).parent == if child_ids@.take(k as int).contains(
                        i as usize,
                    ) {
                        None
                    } else {
                        start[i].parent
                    },
                forall|i: int|
                    0 <= i < len ==> (#[trigger] self@[i]).children@ == start[i].children@.filter(
                        detach_pred(start, child_ids@.take(k as int), i),
                    ),
                forall|i: int| 0 <= i < len ==> (#[trigger] self@[i]).flags == start[i].flags,
                forall|i: int| 0 <= i < len ==> same_content(#[trigger] start[i], self@[i]),
                dirt_of(self@) == detach_dirt(start, child_ids@.take(k as int)),
            decreases n - k,
        {
            let c = child_ids[k];
            let ghost before = self@;
            let ghost taken = child_ids@.take(k as int);
            let ghost taken1 = child_ids@.take(k + 1);
            proof {
                assert(taken1 =~= taken.push(c));
                assert(c < len);
                assert forall|x: usize| #[trigger] taken1.contains(x) == (taken.contains(x) || x == c) by {
                    lemma_seq_contains_after_push(taken, c, x);
                }
                assert(taken1.drop_last() =~= taken);
                assert(taken1.last() == c);
            }
            match self.nodes[c].parent {
                Some(p) => {
                    proof {
                        assert(node_wf(before[c as int], c as int, len as int));
                        assert(!taken.contains(c));
                        assert(start[c as int].parent == Some(p));
                        assert(node_wf(before[p as int], p as int, len as int));
                    }
                    self.nodes[c].parent = None;
                    let kids = without(&self.nodes[p].children, c);
                    proof {
                        lemma_without_valid(before[p as int].children@, other_than(c), len as int);
                        lemma_filter_both(
                            start[p as int].children@,
                            detach_pred(start, taken, p as int),
                            other_than(c),
                            detach_pred(start, taken1, p as int),
                        );
                    }
                    self.nodes[p].children = kids;
                    proof {
                        assert forall|i: int| 0 <= i < len implies node_wf(#[trigger] self@[i], i, len as int) by {
                            assert(node_wf(before[i], i, len as int));
                        }
                        assert forall|i: int| 0 <= i < len && i != p implies detach_pred(start, taken, i)
                            =~= #[trigger] detach_pred(start, taken1, i) by {
                        }
                    }
                    if self.nodes[c].flags.is_in_document() {
                        let ghost cut = self@;
                        self.mark_dirty_walk(p);
                        proof {
                            let moved = moved_state(start, taken1, detach_dirt(start, taken));
                            assert forall|j: int| 0 <= j < len implies (#[trigger] cut[j]).parent == moved[j].parent
                                && cut[j].dirty_descendants == moved[j].dirty_descendants by {
                                assert(dirt_of(cut)[j] == cut[j].dirty_descendants);
                            }
                            lemma_dirty_walk_same_links(cut, moved, p as int);
                            assert forall|i: int| 0 <= i < len implies #[trigger] self@[i] == (Node {
                                dirty_descendants: self@[i].dirty_descendants,
                                ..cut[i]
                            }) by {}
                        }
                    } else {
                        proof {
                            assert(dirt_of(self@) =~= detach_dirt(start, taken));
                        }
                    }
                },
                None => {
                    proof {
                        assert(dirt_of(self@) =~= detach_dirt(start, taken1));
                        assert forall|i: int| 0 <= i < len implies detach_pred(start, taken, i)
                            =~= #[trigger] detach_pred(start, taken1, i) by {
                            if taken.contains(c) {
                            } else {
                                assert(start[c as int].parent.is_none());
                            }
                        }
                    }
                },
            }
            k = k + 1;
        }
        let ghost unmarked = self@;
        proof {
            assert(child_ids@.take(n as int) =~= child_ids@);
        }
        // Mark the ancestors of the new parent when it is in the document.
        if parent_in_doc {
            self.mark_dirty_walk(parent_id);
            proof {
                let moved = moved_state(start, child_ids@, detach_dirt(start, child_ids@));
                assert forall|j: int| 0 <= j < len implies (#[trigger] unmarked[j]).parent == moved[j].parent
                    && unmarked[j].dirty_descendants == moved[j].dirty_descendants by {
                    assert(dirt_of(unmarked)[j] == unmarked[j].dirty_descendants);
                }
                lemma_dirty_walk_same_links(unmarked, moved, parent_id as int);
            }
        }
        let ghost detached = self@;
        proof {
            assert forall|i: int| 0 <= i < len implies #[trigger] detached[i] == (Node {
                dirty_descendants: detached[i].dirty_descendants,
                ..unmarked[i]
            }) by {}
            assert(dirt_of(detached) == move_dirt(start, child_ids@, parent_id as int));
        }
        assert(detached.len() == len);
        proof {
            assert(child_ids@.take(n as int) =~= child_ids@);
        }
        // Insert them into the new parent.
        proof {
            assert(node_wf(detached[parent_id as int], parent_id as int, len as int));
            assert(detached[parent_id as int].children@ == detached_children(start, child_ids@, parent_id as int));
        }
        self.insert_children(parent_id, child_ids, anchor);
        proof {
            assert forall|i: int| 0 <= i < len implies (#[trigger] self@[i]).parent == detached[i].parent
                && self@[i].flags == detached[i].flags && same_content(detached[i], self@[i]) by {
                if i != parent_id {
                    assert(self@[i] == detached[i]);
                }
            }
        }
        let ghost appended = self@;
        assert(appended.len() == len);
        proof {
            assert(child_ids@.take(n as int) =~= child_ids@);
        }
        // Set their parent and carry the parent's document membership into their subtrees.
        let mut k: usize = 0;
        while k < n
            invariant
                self.wf(),
                same_registries(*old(self), *self),
                self@.len() == len,
                appended.len() == len,
                parent_id < len,
                n == child_ids@.len(),
                ids_valid(child_ids@, len as int),
                k <= n,
                same_shape(self@, appended),
                forall|i: int| 0 <= i < len ==> (#[trigger] self@[i]).children@ == appended[i].children@,
                forall|i: int|
                    0 <= i < len ==> (#[trigger] self@[i]).parent == if child_ids@.take(k as int).contains(
                        i as usize,
                    ) {
                        Some(parent_id)
                    } else {
                        appended[i].parent
                    },
                forall|i: int|
                    0 <= i < len ==> in_document(#[trigger] self@[i]) == if in_forest(
                        appended,
                        child_ids@.take(k as int),
                        i,
                        len as nat,
                    ) {
                        parent_in_doc
                    } else {
                        in_document(appended[i])
                    },
                forall|i: int| 0 <= i < len ==> same_content(#[trigger] appended[i], self@[i]),
                forall|i: int| 0 <= i < len ==> (#[trigger] self@[i]).dirty_descendants == appended[i].dirty_descendants,
            decreases n - k,
        {
            let c = child_ids[k];
            let ghost before = self@;
            proof {
                assert(child_ids@.take(k + 1) =~= child_ids@.take(k as int).push(c));
                assert(c < len);
                assert forall|x: usize| #[trigger] child_ids@.take(k + 1).contains(x) == (child_ids@.take(
                    k as int,
                ).contains(x) || x == c) by {
                    lemma_seq_contains_after_push(child_ids@.take(k as int), c, x);
                }
            }
            self.nodes[c].parent = Some(parent_id);
            proof {
                assert forall|i: int| 0 <= i < len implies node_wf(#[trigger] self@[i], i, len as int) by {
                    assert(node_wf(before[i], i, len as int));
                }
            }
            let ghost set_parent = self@;
            self.mark_subtree(c, parent_in_doc, len);
            proof {
                assert forall|i: int| 0 <= i < len implies (#[trigger] self@[i]).parent == set_parent[i].parent
                    && same_content(appended[i], self@[i]) by {
                    assert(only_flags_changed(set_parent[i], self@[i]));
                    assert(same_content(appended[i], before[i]));
                    assert forall|f: u32| is_flag_bit(f) && f != IS_IN_DOCUMENT implies #[trigger] self@[i].flags.has(f)
                        == appended[i].flags.has(f) by {
                        assert(set_parent[i].flags.has(f) == before[i].flags.has(f));
                    }
                }
                assert(same_shape(set_parent, appended));
                assert forall|i: int| 0 <= i < len implies in_subtree(set_parent, c as int, i, len as nat)
                    == #[trigger] in_subtree(appended, c as int, i, len as nat) by {
                    lemma_same_shape_subtree(set_parent, appended, c as int, i, len as nat);
                }
                assert forall|i: int| 0 <= i < len implies #[trigger] in_forest(appended, child_ids@.take(k + 1), i, len as nat)
                    == (in_forest(appended, child_ids@.take(k as int), i, len as nat) || in_subtree(
                    appended,
                    c as int,
                    i,
                    len as nat,
                )) by {
                    assert(child_ids@.take(k + 1).drop_last() =~= child_ids@.take(k as int));
                }
            }
            k = k + 1;
        }
        proof {
            assert(child_ids@.take(n as int) =~= child_ids@);
            assert forall|i: int| 0 <= i < len implies in_forest(self@, child_ids@, i, len as nat)
                == #[trigger] in_forest(appended, child_ids@, i, len as nat) by {
                lemma_same_shape_forest(self@, appended, child_ids@, i, len as nat);
            }
            assert forall|i: int| 0 <= i < len implies (#[trigger] self@[i]).children@ == if i == parent_id {
                with_inserted(detached_children(start, child_ids@, i), child_ids@, anchor)
            } else {
                detached_children(start, child_ids@, i)
            } by {
                assert(detached[i].children@ == detached_children(start, child_ids@, i));
            }
        }
        proof {
            assert forall|i: int| 0 <= i < len implies #[trigger] appended[i].dirty_descendants
                == detached[i].dirty_descendants by {
                if i != parent_id {
                    assert(appended[i] == detached[i]);
                }
            }
            assert(dirt_of(self@) =~= dirt_of(detached));
        }
        self.mutations_occurred = self.mutations_occurred || touched;
    }

    /// Moves the nodes `child_ids` to the end of the children of `parent_id`, detaching
    /// each from its old parent first; their subtrees take the document membership of
    /// `parent_id`.
    pub fn append_children(&mut self, parent_id: usize, child_ids: &[usize])
        requires
            old(self).wf(),
            parent_id < old(self)@.len(),
            ids_valid(child_ids@, old(self)@.len() as int),
        ensures
            final(self).wf(),
            children_added(*old(self), *final(self), parent_id, child_ids@, None),
            links_agree(old(self)@) && moved_once(old(self)@, child_ids@) ==> links_agree(final(self)@),
    {
        self.add_children_to_parent(parent_id, child_ids, None);
        proof {
            if links_agree(old(self)@) && moved_once(old(self)@, child_ids@) {
                lemma_links_children_added(*old(self), *self, parent_id, child_ids@, None);
            }
        }
    }

    /// Moves the nodes `new_ids` into the children of the parent of `anchor_id`, just
    /// before it, detaching each from its old parent first. The anchor must have a parent
    /// and stay among its children once the moved nodes are detached.
    pub fn insert_nodes_before(&mut self, anchor_id: usize, new_ids: &[usize])
        requires
            old(self).wf(),
            anchor_id < old(self)@.len(),
            ids_valid(new_ids@, old(self)@.len() as int),
            old(self)@[anchor_id as int].parent matches Some(p) && detached_children(
                old(self)@,
                new_ids@,
                p as int,
            ).contains(anchor_id),
        ensures
            final(self).wf(),
            children_added(*old(self), *final(self), old(self)@[anchor_id as int].parent->0, new_ids@, Some(anchor_id)),
            links_agree(old(self)@) && moved_once(old(self)@, new_ids@) ==> links_agree(final(self)@),
    {
        proof {
            assert(node_wf(self@[anchor_id as int], anchor_id as int, self@.len() as int));
        }
        let parent_id = match self.nodes[anchor_id].parent {
            Some(p) => p,
            None => anchor_id,
        };
        self.add_children_to_parent(parent_id, new_ids, Some(anchor_id));
        proof {
            if links_agree(old(self)@) && moved_once(old(self)@, new_ids@) {
                lemma_links_children_added(*old(self), *self, parent_id, new_ids@, Some(anchor_id));
            }
        }
    }

    /// Creates an element named `name` with attributes `attrs`.
    pub fn create_element(&mut self, name: QualName, attrs: Vec<Attribute>) -> (r: usize)
        requires
            old(self).wf(),
            old(self)@.len() < usize::MAX,
        ensures
            final(self).wf(),
            same_registries(*old(self), *final(self)),
            r == old(self)@.len(),
            final(self)@.len() == old(self)@.len() + 1,
            forall|i: int| 0 <= i < old(self)@.len() ==> #[trigger] final(self)@[i] == old(self)@[i],
            fresh_node(final(self)@[r as int], r as int),
            links_agree(old(self)@) ==> links_agree(final(self)@),
            forall|f: u32| is_flag_bit(f) ==> !(#[trigger] final(self)@[r as int].flags.has(f)),
            final(self)@[r as int].data matches NodeData::Element(e) && e.name == name
                && e.attrs.items() == attrs@ && form_state_follows_attrs(e),
    {
        let data = ElementData::new(name, attrs);
        self.create_node(NodeData::Element(data))
    }

    /// Creates a text node holding `text`.
    pub fn create_text_node(&mut self, text: &str) -> (r: usize)
        requires
            old(self).wf(),
            old(self)@.len() < usize::MAX,
        ensures
            final(self).wf(),
            same_registries(*old(self), *final(self)),
            r == old(self)@.len(),
            final(self)@.len() == old(self)@.len() + 1,
            forall|i: int| 0 <= i < old(self)@.len() ==> #[trigger] final(self)@[i] == old(self)@[i],
            fresh_node(final(self)@[r as int], r as int),
            links_agree(old(self)@) ==> links_agree(final(self)@),
            final(self)@[r as int].data matches NodeData::Text(t) && t.content@ == text@,
    {
        self.create_node(NodeData::Text(TextNodeData::new(String::from_str(text))))
    }

    /// Creates a comment node holding `contents`.
    pub fn create_comment_node(&mut self, contents: &str) -> (r: usize)
        requires
            old(self).wf(),
            old(self)@.len() < usize::MAX,
        ensures
            final(self).wf(),
            same_registries(*old(self), *final(self)),
            r == old(self)@.len(),
            final(self)@.len() == old(self)@.len() + 1,
            forall|i: int| 0 <= i < old(self)@.len() ==> #[trigger] final(self)@[i] == old(self)@[i],
            fresh_node(final(self)@[r as int], r as int),
            links_agree(old(self)@) ==> links_agree(final(self)@),
            final(self)@[r as int].data matches NodeData::Comment { contents: c } && c@ == contents@,
    {
        self.create_node(NodeData::Comment { contents: String::from_str(contents) })
    }
}

/// Whether a form control's enabled/disabled state follows its `disabled` attribute
/// (disabled exactly when it has one), and other elements are neither.
pub open spec fn form_state_follows_attrs(e: ElementData) -> bool {
    if is_form_control(e.name.local@) {
        let has = attr_value(e.attrs.items(), "disabled"@).is_some();
        e.element_state.disabled == has && e.element_state.enabled == !has
    } else {
        !e.element_state.disabled && !e.element_state.enabled
    }
}

/// The data a created node holds for the given `data`: the same, with a fresh element's
/// enabled/disabled state following its `disabled` attribute.
pub open spec fn created_data(data: NodeData, stored: NodeData) -> bool {
    match data {
        NodeData::Element(e) => stored matches NodeData::Element(s) && s.name == e.name
            && s.attrs == e.attrs && s.id == e.id && s.is_focussable == e.is_focussable
            && s.special_data == e.special_data && s.style == e.style && s.list_item_data
            == e.list_item_data && s.element_state.hover == e.element_state.hover
            && s.element_state.focus == e.element_state.focus && s.element_state.focus_ring
            == e.element_state.focus_ring && s.element_state.active == e.element_state.active && (
        if is_form_control(e.name.local@) {
            if attr_value(e.attrs.items(), "disabled"@).is_some() {
                s.element_state.disabled && s.element_state.enabled == e.element_state.enabled
            } else {
                s.element_state.enabled && s.element_state.disabled == e.element_state.disabled
            }
        } else {
            s.element_state == e.element_state
        }),
        _ => stored == data,
    }
}

} // verus!
