//! The links of the node tree: parent and children agree both ways, a children list names
//! each child once, and a shadow host's root is a flagged shadow root whose parent is the
//! host but which is no child of it. The tree mutations keep these links on the inputs
//! that the original keeps them on.
use vstd::prelude::*;

use crate::document::{
    children_added, detach_pred, detached_children, fresh_node, ids_valid, node_dropped, node_removed, other_than,
    same_content, with_inserted, BaseDocument,
};
use crate::flags::{is_flag_bit, IS_SHADOW_ROOT};
use crate::node::Node;

verus! {

broadcast use vstd::seq_lib::group_filter_ensures;

/// Whether `n` is a shadow root.
pub open spec fn is_shadow_root_node(n: Node) -> bool {
    n.flags.has(IS_SHADOW_ROOT)
}

/// Whether the links of `nodes` agree: a node lists `c` among its children exactly when
/// `c` names it as parent and is no shadow root; no children list names a node twice; and
/// the shadow root of a host is a node flagged as a shadow root whose parent is the host
/// (so, by the first point, it is not among the host's children).
pub open spec fn links_agree(nodes: Seq<Node>) -> bool {
    &&& forall|p: int, c: usize|
        #![trigger nodes[p].children@.contains(c)]
        0 <= p < nodes.len() && nodes[p].children@.contains(c) ==> c < nodes.len() && nodes[c as int].parent
            == Some(p as usize) && !is_shadow_root_node(nodes[c as int])
    &&& forall|c: int|
        #![trigger nodes[c].parent]
        0 <= c < nodes.len() && nodes[c].parent is Some && !is_shadow_root_node(nodes[c]) ==> {
            let p = nodes[c].parent->0;
            p < nodes.len() && nodes[p as int].children@.contains(c as usize)
        }
    &&& forall|p: int| 0 <= p < nodes.len() ==> (#[trigger] nodes[p].children@).no_duplicates()
    &&& forall|h: int|
        #![trigger nodes[h].shadow_root]
        0 <= h < nodes.len() && nodes[h].shadow_root is Some ==> {
            let r = nodes[h].shadow_root->0;
            r < nodes.len() && is_shadow_root_node(nodes[r as int]) && nodes[r as int].parent == Some(h as usize)
        }
}

/// Whether `b` has the same links as `a`: parent, children, shadow root and shadow-root
/// flag.
pub open spec fn same_links(a: Node, b: Node) -> bool {
    &&& b.parent == a.parent
    &&& b.children@ == a.children@
    &&& b.shadow_root == a.shadow_root
    &&& is_shadow_root_node(b) == is_shadow_root_node(a)
}

impl BaseDocument {
    /// The arena is well formed and its tree links agree (see `links_agree`).
    pub open spec fn tree_wf(&self) -> bool {
        self.wf() && links_agree(self@)
    }
}

/// Links that are all the same agree as before.
pub proof fn lemma_links_frame(a: Seq<Node>, b: Seq<Node>)
    requires
        links_agree(a),
        a.len() == b.len(),
        forall|i: int| 0 <= i < a.len() ==> same_links(#[trigger] a[i], b[i]),
    ensures
        links_agree(b),
{
    assert forall|p: int, c: usize| 0 <= p < b.len() && b[p].children@.contains(c) implies c < b.len()
        && b[c as int].parent == Some(p as usize) && !is_shadow_root_node(b[c as int]) by {
        assert(same_links(a[p], b[p]));
        assert(a[p].children@.contains(c));
        assert(same_links(a[c as int], b[c as int]));
    }
    assert forall|c: int| 0 <= c < b.len() && b[c].parent is Some && !is_shadow_root_node(b[c]) implies {
        let p = b[c].parent->0;
        p < b.len() && b[p as int].children@.contains(c as usize)
    } by {
        assert(same_links(a[c], b[c]));
        let p = a[c].parent->0;
        assert(a[c].parent is Some);
        assert(same_links(a[p as int], b[p as int]));
    }
    assert forall|p: int| 0 <= p < b.len() implies (#[trigger] b[p].children@).no_duplicates() by {
        assert(same_links(a[p], b[p]));
    }
    assert forall|h: int| 0 <= h < b.len() && b[h].shadow_root is Some implies {
        let r = b[h].shadow_root->0;
        r < b.len() && is_shadow_root_node(b[r as int]) && b[r as int].parent == Some(h as usize)
    } by {
        assert(same_links(a[h], b[h]));
        assert(a[h].shadow_root is Some);
        let r = a[h].shadow_root->0;
        assert(same_links(a[r as int], b[r as int]));
    }
}

/// A node added with no links keeps the links agreeing.
pub proof fn lemma_links_push(a: Seq<Node>, n: Node)
    requires
        links_agree(a),
        n.parent is None,
        n.children@.len() == 0,
        n.shadow_root is None,
    ensures
        links_agree(a.push(n)),
{
    let b = a.push(n);
    assert forall|p: int, c: usize| 0 <= p < b.len() && b[p].children@.contains(c) implies c < b.len()
        && b[c as int].parent == Some(p as usize) && !is_shadow_root_node(b[c as int]) by {
        assert(p < a.len());
        assert(a[p].children@.contains(c));
    }
    assert forall|c: int| 0 <= c < b.len() && b[c].parent is Some && !is_shadow_root_node(b[c]) implies {
        let p = b[c].parent->0;
        p < b.len() && b[p as int].children@.contains(c as usize)
    } by {
        assert(c < a.len());
        assert(a[c].parent is Some);
    }
    assert forall|p: int| 0 <= p < b.len() implies (#[trigger] b[p].children@).no_duplicates() by {
        if p < a.len() {
            assert(b[p] == a[p]);
        }
    }
    assert forall|h: int| 0 <= h < b.len() && b[h].shadow_root is Some implies {
        let r = b[h].shadow_root->0;
        r < b.len() && is_shadow_root_node(b[r as int]) && b[r as int].parent == Some(h as usize)
    } by {
        assert(h < a.len());
        assert(a[h].shadow_root is Some);
    }
}

/// A freshly created node keeps the links agreeing.
pub proof fn lemma_links_created(a: Seq<Node>, b: Seq<Node>)
    requires
        links_agree(a),
        b.len() == a.len() + 1,
        forall|i: int| 0 <= i < a.len() ==> #[trigger] b[i] == a[i],
        fresh_node(b[a.len() as int], a.len() as int),
    ensures
        links_agree(b),
{
    assert(b =~= a.push(b[a.len() as int]));
    lemma_links_push(a, b[a.len() as int]);
}

/// Emptying the children of `id`, whose former children lose their parent, keeps the
/// links agreeing.
pub proof fn lemma_links_children_dropped(a: Seq<Node>, b: Seq<Node>, id: int)
    requires
        links_agree(a),
        0 <= id < a.len(),
        a.len() <= usize::MAX,
        b.len() == a.len(),
        b[id].children@.len() == 0,
        forall|i: int| 0 <= i < a.len() && i != id ==> (#[trigger] b[i]).children@ == a[i].children@,
        forall|i: int|
            0 <= i < a.len() ==> (#[trigger] b[i]).parent == if a[id].children@.contains(i as usize) {
                None
            } else {
                a[i].parent
            },
        forall|i: int| 0 <= i < a.len() ==> same_content(#[trigger] a[i], b[i]),
    ensures
        links_agree(b),
{
    let len = a.len();
    assert forall|i: int| 0 <= i < len implies #[trigger] is_shadow_root_node(b[i]) == is_shadow_root_node(a[i]) && b[i].shadow_root
        == a[i].shadow_root by {
        assert(same_content(a[i], b[i]));
        assert(is_flag_bit(IS_SHADOW_ROOT));
    }
    assert forall|p: int, c: usize| 0 <= p < len && b[p].children@.contains(c) implies c < len && b[c as int].parent
        == Some(p as usize) && !is_shadow_root_node(b[c as int]) by {
        if p == id {
            assert(!b[p].children@.contains(c));
        }
        assert(b[p].children@ == a[p].children@);
        assert(a[p].children@.contains(c));
        assert(c < len);
        assert(a[c as int].parent == Some(p as usize));
        assert(p != id);
        assert(!a[id].children@.contains(c)) by {
            if a[id].children@.contains(c) {
                assert(a[c as int].parent == Some(id as usize));
                assert((p as usize) as int == p);
                assert((id as usize) as int == id);
                assert(false);
            }
        }
        assert(b[c as int].parent == a[c as int].parent);
        assert(same_content(a[c as int], b[c as int]));
    }
    assert forall|c: int| 0 <= c < len && b[c].parent is Some && !is_shadow_root_node(b[c]) implies {
        let p = b[c].parent->0;
        p < len && b[p as int].children@.contains(c as usize)
    } by {
        assert(!a[id].children@.contains(c as usize));
        assert(a[c].parent is Some);
        let p = a[c].parent->0;
        assert(a[p as int].children@.contains(c as usize));
        if p == id {
        }
    }
    assert forall|p: int| 0 <= p < len implies (#[trigger] b[p].children@).no_duplicates() by {
        if p != id {
            assert(a[p].children@.no_duplicates());
        }
    }
    assert forall|h: int| 0 <= h < len && b[h].shadow_root is Some implies {
        let r = b[h].shadow_root->0;
        r < len && is_shadow_root_node(b[r as int]) && b[r as int].parent == Some(h as usize)
    } by {
        assert(a[h].shadow_root is Some);
        let r = a[h].shadow_root->0;
        if a[id].children@.contains(r) {
            assert(!is_shadow_root_node(a[r as int]));
        }
    }
}

/// Marking ancestors dirty keeps the links.
pub proof fn lemma_links_dirty_walk(a: Seq<Node>, id: int)
    requires
        links_agree(a),
    ensures
        links_agree(crate::mutator::dirty_walk(a, id)),
{
    let b = crate::mutator::dirty_walk(a, id);
    assert forall|i: int| 0 <= i < a.len() implies same_links(#[trigger] a[i], b[i]) by {}
    lemma_links_frame(a, b);
}

/// Where the links agree, a host's shadow root is a node flagged as a shadow root whose
/// parent is the host and which is not among the host's children.
pub proof fn lemma_shadow_root_links(nodes: Seq<Node>, host: int)
    requires
        links_agree(nodes),
        0 <= host < nodes.len(),
        nodes[host].shadow_root is Some,
    ensures
        ({
            let r = nodes[host].shadow_root->0;
            &&& r < nodes.len()
            &&& is_shadow_root_node(nodes[r as int])
            &&& nodes[r as int].parent == Some(host as usize)
            &&& !nodes[host].children@.contains(r)
        }),
{
}

/// A concatenation of two lists without repeats that share nothing has no repeats.
proof fn lemma_concat_no_dup(x: Seq<usize>, y: Seq<usize>)
    requires
        x.no_duplicates(),
        y.no_duplicates(),
        forall|v: usize| x.contains(v) ==> !y.contains(v),
    ensures
        (x + y).no_duplicates(),
{
    let s = x + y;
    assert forall|i: int, j: int| 0 <= i < s.len() && 0 <= j < s.len() && i != j implies s[i] != s[j] by {
        if i < x.len() && j >= x.len() {
            assert(x.contains(s[i]));
            assert(y[j - x.len()] == s[j]);
            assert(y.contains(s[j]));
        } else if j < x.len() && i >= x.len() {
            assert(x.contains(s[j]));
            assert(y[i - x.len()] == s[i]);
            assert(y.contains(s[i]));
        } else if i >= x.len() {
            assert(s[i] == y[i - x.len()] && s[j] == y[j - x.len()]);
        }
    }
}

/// A filtered list without repeats has no repeats.
proof fn lemma_filter_no_dup(s: Seq<usize>, p: spec_fn(usize) -> bool)
    requires
        s.no_duplicates(),
    ensures
        s.filter(p).no_duplicates(),
    decreases s.len(),
{
    reveal(Seq::filter);
    if s.len() > 0 {
        let t = s.drop_last();
        assert(t.no_duplicates()) by {
            assert forall|i: int, j: int| 0 <= i < t.len() && 0 <= j < t.len() && i != j implies t[i] != t[j] by {
                assert(t[i] == s[i] && t[j] == s[j]);
            }
        }
        lemma_filter_no_dup(t, p);
        if p(s.last()) {
            assert(!t.filter(p).contains(s.last())) by {
                if t.filter(p).contains(s.last()) {
                    t.lemma_filter_contains_rev(p, s.last());
                    let k = choose|k: int| 0 <= k < t.len() && t[k] == s.last();
                    assert(s[k] == s[s.len() - 1]);
                }
            }
            lemma_concat_no_dup(t.filter(p), seq![s.last()]);
            assert(s.filter(p) == t.filter(p) + seq![s.last()]);
        }
    }
}

/// An entry of a filtered list is an entry of the list that the filter keeps.
pub proof fn lemma_filter_contains_iff(s: Seq<usize>, p: spec_fn(usize) -> bool, x: usize)
    ensures
        s.filter(p).contains(x) <==> (s.contains(x) && p(x)),
{
    if s.filter(p).contains(x) {
        s.lemma_filter_contains_rev(p, x);
        let k = choose|k: int| 0 <= k < s.filter(p).len() && s.filter(p)[k] == x;
        assert(p(s.filter(p)[k]));
    }
    if s.contains(x) && p(x) {
        let k = choose|k: int| 0 <= k < s.len() && s[k] == x;
        assert(s.filter(p).contains(s[k]));
    }
}

/// A value in a list has a first position.
proof fn lemma_first_position(s: Seq<usize>, x: usize, k: int)
    requires
        0 <= k < s.len(),
        s[k] == x,
    ensures
        exists|i: int| 0 <= i < s.len() && s[i] == x && forall|j: int| 0 <= j < i ==> s[j] != x,
    decreases k,
{
    if exists|j: int| 0 <= j < k && s[j] == x {
        let j = choose|j: int| 0 <= j < k && s[j] == x;
        lemma_first_position(s, x, j);
    } else {
        assert(0 <= k < s.len() && s[k] == x && forall|j: int| 0 <= j < k ==> s[j] != x);
    }
}

/// What `a + ids + b` holds, and that it has no repeats when `a + b` has none, `ids` has
/// none and they share nothing.
proof fn lemma_three_parts(a: Seq<usize>, ids: Seq<usize>, b: Seq<usize>)
    ensures
        forall|x: usize| #[trigger] (a + ids + b).contains(x) <==> ((a + b).contains(x) || ids.contains(x)),
        (a + b).no_duplicates() && ids.no_duplicates() && (forall|v: usize| (a + b).contains(v) ==> !ids.contains(v))
            ==> (a + ids + b).no_duplicates(),
{
    let w = a + ids + b;
    let d = a + b;
    assert forall|x: usize| #[trigger] w.contains(x) <==> (d.contains(x) || ids.contains(x)) by {
        if w.contains(x) {
            let k = choose|k: int| 0 <= k < w.len() && w[k] == x;
            if k < a.len() {
                assert(d[k] == x);
            } else if k < a.len() + ids.len() {
                assert(ids[k - a.len()] == x);
            } else {
                assert(d[k - ids.len()] == x);
            }
        }
        if d.contains(x) {
            let k = choose|k: int| 0 <= k < d.len() && d[k] == x;
            if k < a.len() {
                assert(w[k] == x);
            } else {
                assert(w[k + ids.len()] == x);
            }
        }
        if ids.contains(x) {
            let k = choose|k: int| 0 <= k < ids.len() && ids[k] == x;
            assert(w[k + a.len()] == x);
        }
    }
    if d.no_duplicates() && ids.no_duplicates() && (forall|v: usize| d.contains(v) ==> !ids.contains(v)) {
        let p = a.len() as int;
        assert forall|i: int, j: int| 0 <= i < w.len() && 0 <= j < w.len() && i != j implies w[i] != w[j] by {
            let di = if i < p { i } else { i - ids.len() };
            let dj = if j < p { j } else { j - ids.len() };
            let in_i = p <= i < p + ids.len();
            let in_j = p <= j < p + ids.len();
            if in_i && in_j {
                assert(w[i] == ids[i - p] && w[j] == ids[j - p]);
            } else if in_i {
                assert(w[i] == ids[i - p]);
                assert(w[j] == d[dj]);
                assert(d.contains(d[dj]));
                assert(ids.contains(ids[i - p]));
            } else if in_j {
                assert(w[j] == ids[j - p]);
                assert(w[i] == d[di]);
                assert(d.contains(d[di]));
                assert(ids.contains(ids[j - p]));
            } else {
                assert(w[i] == d[di] && w[j] == d[dj]);
            }
        }
    }
}

/// What `with_inserted` holds, and that it has no repeats when neither part has and they
/// share nothing.
proof fn lemma_with_inserted(d: Seq<usize>, ids: Seq<usize>, anchor: Option<usize>)
    ensures
        forall|x: usize| #[trigger] with_inserted(d, ids, anchor).contains(x) <==> (d.contains(x) || ids.contains(x)),
        d.no_duplicates() && ids.no_duplicates() && (forall|v: usize| d.contains(v) ==> !ids.contains(v))
            ==> with_inserted(d, ids, anchor).no_duplicates(),
{
    let mut p: int = d.len() as int;
    if anchor is Some && d.contains(anchor->0) {
        let k = choose|k: int| 0 <= k < d.len() && d[k] == anchor->0;
        lemma_first_position(d, anchor->0, k);
        p = crate::mutator::first_index_of(d, anchor->0)->0;
    }
    assert(0 <= p <= d.len());
    assert(with_inserted(d, ids, anchor) == d.take(p) + ids + d.skip(p));
    assert(d.take(p) + d.skip(p) =~= d);
    lemma_three_parts(d.take(p), ids, d.skip(p));
}

/// Detaching a node that is no shadow root keeps the links agreeing.
pub proof fn lemma_links_node_removed(before: BaseDocument, after: BaseDocument, id: usize)
    requires
        before.wf(),
        links_agree(before@),
        id < before@.len(),
        !is_shadow_root_node(before@[id as int]),
        node_removed(before, after, id),
    ensures
        links_agree(after@),
{
    let a = before@;
    let b = after@;
    let len = a.len();
    let detached = crate::mutator::undirtied(b, a);
    assert forall|i: int| 0 <= i < len implies #[trigger] is_shadow_root_node(b[i]) == is_shadow_root_node(a[i]) && b[i].shadow_root
        == a[i].shadow_root by {
        assert(same_content(a[i], detached[i]));
        assert(detached[i].flags == b[i].flags);
        assert(is_flag_bit(IS_SHADOW_ROOT));
    }
    let q = a[id as int].parent;
    assert forall|p: int, c: usize| 0 <= p < len implies #[trigger] b[p].children@.contains(c) <==> (a[p].children@.contains(c)
        && !(q == Some(p as usize) && c == id)) by {
        if q == Some(p as usize) {
            lemma_filter_contains_iff(a[p].children@, other_than(id), c);
        }
    }
    assert forall|p: int, c: usize| 0 <= p < len && b[p].children@.contains(c) implies c < len && b[c as int].parent
        == Some(p as usize) && !is_shadow_root_node(b[c as int]) by {
        assert(a[p].children@.contains(c));
        if c == id {
            assert(a[id as int].parent == Some(p as usize));
        }
    }
    assert forall|c: int| 0 <= c < len && b[c].parent is Some && !is_shadow_root_node(b[c]) implies {
        let p = b[c].parent->0;
        p < len && b[p as int].children@.contains(c as usize)
    } by {
        assert(c != id);
        assert(a[c].parent is Some);
        let p = a[c].parent->0;
        assert(a[p as int].children@.contains(c as usize));
    }
    assert forall|p: int| 0 <= p < len implies (#[trigger] b[p].children@).no_duplicates() by {
        assert(a[p].children@.no_duplicates());
        lemma_filter_no_dup(a[p].children@, other_than(id));
    }
    assert forall|h: int| 0 <= h < len && b[h].shadow_root is Some implies {
        let r = b[h].shadow_root->0;
        r < len && is_shadow_root_node(b[r as int]) && b[r as int].parent == Some(h as usize)
    } by {
        assert(a[h].shadow_root is Some);
        let r = a[h].shadow_root->0;
        assert(r != id);
    }
}

/// Dropping a node that is no shadow root keeps the links agreeing.
pub proof fn lemma_links_node_dropped(before: BaseDocument, after: BaseDocument, id: usize)
    requires
        before.wf(),
        links_agree(before@),
        id < before@.len(),
        !is_shadow_root_node(before@[id as int]),
        node_dropped(before, after, id),
    ensures
        links_agree(after@),
{
    let a = before@;
    let b = after@;
    let len = a.len();
    let detached = crate::mutator::undirtied(b, a);
    assert forall|i: int| 0 <= i < len implies #[trigger] is_shadow_root_node(b[i]) == is_shadow_root_node(a[i]) && b[i].shadow_root
        == a[i].shadow_root by {
        assert(same_content(a[i], detached[i]));
        assert(detached[i].flags == b[i].flags);
        assert(is_flag_bit(IS_SHADOW_ROOT));
    }
    let q = a[id as int].parent;
    assert forall|p: int, c: usize| 0 <= p < len implies #[trigger] b[p].children@.contains(c) <==> (a[p].children@.contains(c)
        && !(q == Some(p as usize) && c == id)) by {
        if q == Some(p as usize) {
            lemma_filter_contains_iff(a[p].children@, other_than(id), c);
        }
    }
    assert forall|p: int, c: usize| 0 <= p < len && b[p].children@.contains(c) implies c < len && b[c as int].parent
        == Some(p as usize) && !is_shadow_root_node(b[c as int]) by {
        assert(a[p].children@.contains(c));
        if c == id {
            assert(a[id as int].parent == Some(p as usize));
        }
    }
    assert forall|c: int| 0 <= c < len && b[c].parent is Some && !is_shadow_root_node(b[c]) implies {
        let p = b[c].parent->0;
        p < len && b[p as int].children@.contains(c as usize)
    } by {
        assert(c != id);
        assert(a[c].parent is Some);
        let p = a[c].parent->0;
        assert(a[p as int].children@.contains(c as usize));
    }
    assert forall|p: int| 0 <= p < len implies (#[trigger] b[p].children@).no_duplicates() by {
        assert(a[p].children@.no_duplicates());
        lemma_filter_no_dup(a[p].children@, other_than(id));
    }
    assert forall|h: int| 0 <= h < len && b[h].shadow_root is Some implies {
        let r = b[h].shadow_root->0;
        r < len && is_shadow_root_node(b[r as int]) && b[r as int].parent == Some(h as usize)
    } by {
        assert(a[h].shadow_root is Some);
        let r = a[h].shadow_root->0;
        assert(r != id);
    }
}

/// The part of `children_added` that the tree links depend on: parents, children lists,
/// shadow roots and flags.
pub open spec fn moved_links(
    before: Seq<Node>,
    after: Seq<Node>,
    parent_id: usize,
    child_ids: Seq<usize>,
    anchor: Option<usize>,
) -> bool {
    &&& after.len() == before.len()
    &&& forall|i: int|
        0 <= i < before.len() ==> (#[trigger] after[i]).parent == if child_ids.contains(i as usize) {
            Some(parent_id)
        } else {
            before[i].parent
        }
    &&& forall|i: int|
        0 <= i < before.len() ==> (#[trigger] after[i]).children@ == if i == parent_id {
            with_inserted(detached_children(before, child_ids, i), child_ids, anchor)
        } else {
            detached_children(before, child_ids, i)
        }
    &&& forall|i: int| 0 <= i < before.len() ==> same_content(#[trigger] before[i], after[i])
}

/// Taking all the children of `op` and appending them to `np` keeps the links agreeing:
/// the detour through a state where `op` lists no children while they still name it as
/// parent does not matter.
pub proof fn lemma_links_reparented(a: Seq<Node>, mid: Seq<Node>, b: Seq<Node>, op: usize, np: usize)
    requires
        links_agree(a),
        op < a.len(),
        np < a.len(),
        mid.len() == a.len(),
        mid[op as int].children@.len() == 0,
        mid[op as int] == (Node { children: mid[op as int].children, ..a[op as int] }),
        forall|i: int| 0 <= i < a.len() && i != op ==> #[trigger] mid[i] == a[i],
        moved_links(mid, b, np, a[op as int].children@, None),
    ensures
        links_agree(b),
{
    let kids = a[op as int].children@;
    assert forall|i: int| 0 <= i < a.len() implies #[trigger] detached_children(mid, kids, i) == detached_children(a, kids, i) by {
        assert(detach_pred(mid, kids, i) =~= detach_pred(a, kids, i));
        if i == op {
            assert forall|k: int| 0 <= k < kids.len() implies !detach_pred(a, kids, i)(#[trigger] kids[k]) by {
                assert(kids.contains(kids[k]));
            }
            crate::layout_order::lemma_filter_none_matching(kids, detach_pred(a, kids, i));
            crate::layout_order::lemma_filter_none_matching(mid[i].children@, detach_pred(mid, kids, i));
        }
    }
    assert forall|i: int| 0 <= i < a.len() implies same_content(#[trigger] a[i], b[i]) by {
        assert(same_content(mid[i], b[i]));
        assert(mid[i].flags == a[i].flags);
    }
    assert(moved_links(a, b, np, kids, None));
    assert forall|k: int| 0 <= k < kids.len() implies !is_shadow_root_node(a[#[trigger] kids[k] as int]) && #[trigger] kids[k]
        < a.len() by {
        assert(kids.contains(kids[k]));
    }
    assert(kids.no_duplicates());
    lemma_links_moved(a, b, np, kids, None);
}

/// Moving nodes into a parent keeps the links agreeing when the moved nodes are named once
/// and none of them is a shadow root.
pub proof fn lemma_links_children_added(
    before: BaseDocument,
    after: BaseDocument,
    parent_id: usize,
    child_ids: Seq<usize>,
    anchor: Option<usize>,
)
    requires
        links_agree(before@),
        parent_id < before@.len(),
        ids_valid(child_ids, before@.len() as int),
        child_ids.no_duplicates(),
        forall|k: int| 0 <= k < child_ids.len() ==> !is_shadow_root_node(before@[#[trigger] child_ids[k] as int]),
        children_added(before, after, parent_id, child_ids, anchor),
    ensures
        links_agree(after@),
{
    lemma_links_moved(before@, after@, parent_id, child_ids, anchor);
}

/// Moving nodes into a parent, as `moved_links` describes, keeps the links agreeing when
/// the moved nodes are named once and none of them is a shadow root.
pub proof fn lemma_links_moved(a: Seq<Node>, b: Seq<Node>, parent_id: usize, child_ids: Seq<usize>, anchor: Option<usize>)
    requires
        links_agree(a),
        parent_id < a.len(),
        ids_valid(child_ids, a.len() as int),
        child_ids.no_duplicates(),
        forall|k: int| 0 <= k < child_ids.len() ==> !is_shadow_root_node(a[#[trigger] child_ids[k] as int]),
        moved_links(a, b, parent_id, child_ids, anchor),
    ensures
        links_agree(b),
{
    let len = a.len();
    assert forall|i: int| 0 <= i < len implies #[trigger] is_shadow_root_node(b[i]) == is_shadow_root_node(a[i]) && b[i].shadow_root
        == a[i].shadow_root by {
        assert(same_content(a[i], b[i]));
        assert(is_flag_bit(IS_SHADOW_ROOT));
    }
    // What the children lists hold.
    assert forall|p: int, c: usize| 0 <= p < len implies #[trigger] b[p].children@.contains(c) <==> (c < len && (
    if child_ids.contains(c) {
        p == parent_id
    } else {
        a[p].children@.contains(c)
    })) by {
        let dp = detached_children(a, child_ids, p);
        lemma_filter_contains_iff(a[p].children@, detach_pred(a, child_ids, p), c);
        lemma_with_inserted(dp, child_ids, anchor);
        if dp.contains(c) {
            assert(a[p].children@.contains(c));
        }
        if a[p].children@.contains(c) {
            assert(c < len);
        }
        if child_ids.contains(c) {
            let k = choose|k: int| 0 <= k < child_ids.len() && child_ids[k] == c;
            assert(c < len);
        }
    }
    assert forall|p: int, c: usize| 0 <= p < len && b[p].children@.contains(c) implies c < len && b[c as int].parent
        == Some(p as usize) && !is_shadow_root_node(b[c as int]) by {
        if child_ids.contains(c) {
            let k = choose|k: int| 0 <= k < child_ids.len() && child_ids[k] == c;
            assert(!is_shadow_root_node(a[child_ids[k] as int]));
        } else {
            assert(a[p].children@.contains(c));
        }
    }
    assert forall|c: int| 0 <= c < len && b[c].parent is Some && !is_shadow_root_node(b[c]) implies {
        let p = b[c].parent->0;
        p < len && b[p as int].children@.contains(c as usize)
    } by {
        if child_ids.contains(c as usize) {
            assert(b[parent_id as int].children@.contains(c as usize));
        } else {
            assert(a[c].parent is Some);
            let p = a[c].parent->0;
            assert(a[p as int].children@.contains(c as usize));
            assert(b[p as int].children@.contains(c as usize));
        }
    }
    assert forall|p: int| 0 <= p < len implies (#[trigger] b[p].children@).no_duplicates() by {
        let dp = detached_children(a, child_ids, p);
        assert(a[p].children@.no_duplicates());
        lemma_filter_no_dup(a[p].children@, detach_pred(a, child_ids, p));
        if p == parent_id {
            assert forall|v: usize| dp.contains(v) implies !child_ids.contains(v) by {
                lemma_filter_contains_iff(a[p].children@, detach_pred(a, child_ids, p), v);
                assert(a[p].children@.contains(v));
                assert(a[v as int].parent == Some(p as usize));
            }
            lemma_with_inserted(dp, child_ids, anchor);
        }
    }
    assert forall|h: int| 0 <= h < len && b[h].shadow_root is Some implies {
        let r = b[h].shadow_root->0;
        r < len && is_shadow_root_node(b[r as int]) && b[r as int].parent == Some(h as usize)
    } by {
        assert(a[h].shadow_root is Some);
        let r = a[h].shadow_root->0;
        assert(r < len);
        if child_ids.contains(r) {
            let k = choose|k: int| 0 <= k < child_ids.len() && child_ids[k] == r;
            assert(!is_shadow_root_node(a[child_ids[k] as int]));
        }
    }
}

} // verus!
