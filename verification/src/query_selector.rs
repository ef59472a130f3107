//! Finding elements by id: the one element with an id, or the first in tree order when
//! several share it.
use vstd::prelude::*;

use crate::document::{in_document, node_wf, BaseDocument};
use crate::node::{Node, NodeData};
use crate::utf8_text::same_text;

verus! {

/// Whether `n` is an element of the document whose id is `id`.
pub open spec fn has_element_id(n: Node, id: Seq<char>) -> bool {
    &&& in_document(n)
    &&& n.data matches NodeData::Element(e) && e.id matches Some(v) && v@ == id
}

/// The lowest node id among `nodes[from..]` with `has_element_id(_, id)`.
pub open spec fn first_with_id(nodes: Seq<Node>, id: Seq<char>, from: int) -> Option<int>
    decreases nodes.len() - from,
{
    if from >= nodes.len() || from < 0 {
        None
    } else if has_element_id(nodes[from], id) {
        Some(from)
    } else {
        first_with_id(nodes, id, from + 1)
    }
}

/// How many of `nodes[from..]` have `has_element_id(_, id)`.
pub open spec fn count_with_id(nodes: Seq<Node>, id: Seq<char>, from: int) -> nat
    decreases nodes.len() - from,
{
    if from >= nodes.len() || from < 0 {
        0
    } else {
        (if has_element_id(nodes[from], id) {
            1nat
        } else {
            0nat
        }) + count_with_id(nodes, id, from + 1)
    }
}

/// The first node of the subtree of `root`, in tree order (a node before its children,
/// children in order), with `has_element_id(_, id)`, looking at most `fuel` levels down.
pub open spec fn tree_find(nodes: Seq<Node>, root: int, id: Seq<char>, fuel: nat) -> Option<int>
    decreases fuel, 0nat,
{
    if !(0 <= root < nodes.len()) {
        None
    } else if has_element_id(nodes[root], id) {
        Some(root)
    } else if fuel == 0 {
        None
    } else {
        forest_find(nodes, nodes[root].children@, id, (fuel - 1) as nat)
    }
}

/// The first match of `tree_find` over the subtrees of `roots`, in order.
pub open spec fn forest_find(nodes: Seq<Node>, roots: Seq<usize>, id: Seq<char>, fuel: nat) -> Option<int>
    decreases fuel, roots.len() + 1,
{
    if roots.len() == 0 {
        None
    } else {
        match forest_find(nodes, roots.drop_last(), id, fuel) {
            Some(x) => Some(x),
            None => tree_find(nodes, roots.last() as int, id, fuel),
        }
    }
}

/// The element of the document whose id is `id`: the only one, or, when several have it,
/// the first of them in tree order from the document node. An empty id names no element.
pub open spec fn element_by_id(nodes: Seq<Node>, id: Seq<char>) -> Option<int> {
    let n = count_with_id(nodes, id, 0);
    if id.len() == 0 || n == 0 {
        None
    } else if n == 1 {
        first_with_id(nodes, id, 0)
    } else {
        tree_find(nodes, 0, id, nodes.len() as nat)
    }
}

/// A match found among the first subtrees of a list stays the match of a longer list.
proof fn lemma_forest_find_prefix(nodes: Seq<Node>, roots: Seq<usize>, id: Seq<char>, fuel: nat, k: int, j: int)
    requires
        0 <= k <= j <= roots.len(),
        forest_find(nodes, roots.take(k), id, fuel).is_some(),
    ensures
        forest_find(nodes, roots.take(j), id, fuel) == forest_find(nodes, roots.take(k), id, fuel),
    decreases j - k,
{
    if j > k {
        lemma_forest_find_prefix(nodes, roots, id, fuel, k, j - 1);
        assert(roots.take(j).drop_last() =~= roots.take(j - 1));
    }
}

/// The lowest matching node id is one of the matches counted.
proof fn lemma_count_first(nodes: Seq<Node>, id: Seq<char>, from: int)
    requires
        0 <= from,
    ensures
        (count_with_id(nodes, id, from) == 0) == first_with_id(nodes, id, from).is_none(),
    decreases nodes.len() - from,
{
    if from < nodes.len() {
        lemma_count_first(nodes, id, from + 1);
    }
}

/// Whether `n` is an element of the document whose id is exactly `s`, character for
/// character.
pub open spec fn has_exact_id(n: Node, s: Seq<char>) -> bool {
    in_document(n) && (n.data matches NodeData::Element(e) && e.id matches Some(v) && v@ =~= s)
}

/// A node that the scan from `from` finds has the id looked for.
proof fn lemma_first_with_id_sound(nodes: Seq<Node>, id: Seq<char>, from: int)
    ensures
        first_with_id(nodes, id, from) matches Some(x) ==> 0 <= x < nodes.len() && has_element_id(nodes[x], id),
    decreases nodes.len() - from,
{
    if 0 <= from < nodes.len() && !has_element_id(nodes[from], id) {
        lemma_first_with_id_sound(nodes, id, from + 1);
    }
}

/// A node that the walk in tree order finds has the id looked for.
proof fn lemma_tree_find_sound(nodes: Seq<Node>, root: int, id: Seq<char>, fuel: nat)
    ensures
        tree_find(nodes, root, id, fuel) matches Some(x) ==> 0 <= x < nodes.len() && has_element_id(nodes[x], id),
    decreases fuel, 0nat,
{
    if 0 <= root < nodes.len() && !has_element_id(nodes[root], id) && fuel > 0 {
        lemma_forest_find_sound(nodes, nodes[root].children@, id, (fuel - 1) as nat);
    }
}

/// A node that the walk over a list of subtrees finds has the id looked for.
proof fn lemma_forest_find_sound(nodes: Seq<Node>, roots: Seq<usize>, id: Seq<char>, fuel: nat)
    ensures
        forest_find(nodes, roots, id, fuel) matches Some(x) ==> 0 <= x < nodes.len() && has_element_id(nodes[x], id),
    decreases fuel, roots.len() + 1,
{
    if roots.len() > 0 {
        lemma_forest_find_sound(nodes, roots.drop_last(), id, fuel);
        lemma_tree_find_sound(nodes, roots.last() as int, id, fuel);
    }
}

/// The scan from `from` finds the one element with the id, when only one has it.
proof fn lemma_first_with_id_unique(nodes: Seq<Node>, id: Seq<char>, from: int, x: int)
    requires
        0 <= from <= x < nodes.len(),
        has_element_id(nodes[x], id),
        forall|y: int| from <= y < nodes.len() && has_element_id(nodes[y], id) ==> y == x,
    ensures
        first_with_id(nodes, id, from) == Some(x),
        count_with_id(nodes, id, from) == 1,
    decreases nodes.len() - from,
{
    if from < x {
        lemma_first_with_id_unique(nodes, id, from + 1, x);
    } else {
        lemma_count_zero(nodes, id, from + 1);
    }
}

/// No node from `from` on has the id: none is counted.
proof fn lemma_count_zero(nodes: Seq<Node>, id: Seq<char>, from: int)
    requires
        0 <= from,
        forall|y: int| from <= y < nodes.len() ==> !has_element_id(nodes[y], id),
    ensures
        count_with_id(nodes, id, from) == 0,
    decreases nodes.len() - from,
{
    if from < nodes.len() {
        lemma_count_zero(nodes, id, from + 1);
    }
}

/// An element is found by id only under its exact id: what `element_by_id` finds is an
/// element of the document whose id equals `s` character for character; and when exactly
/// one element of the document has that id, it is the one found. An empty id finds
/// nothing.
pub proof fn law_found_by_exact_id(nodes: Seq<Node>, s: Seq<char>)
    ensures
        element_by_id(nodes, s) matches Some(x) ==> 0 <= x < nodes.len() && has_exact_id(nodes[x], s),
        s.len() == 0 ==> element_by_id(nodes, s) is None,
        forall|x: int|
            0 <= x < nodes.len() && s.len() > 0 && has_exact_id(nodes[x], s) && (forall|y: int|
                0 <= y < nodes.len() && has_exact_id(nodes[y], s) ==> y == x) ==> element_by_id(nodes, s)
                == Some(x),
{
    lemma_first_with_id_sound(nodes, s, 0);
    lemma_tree_find_sound(nodes, 0, s, nodes.len() as nat);
    assert forall|i: int| 0 <= i < nodes.len() implies has_element_id(nodes[i], s) == has_exact_id(nodes[i], s) by {
        if has_element_id(nodes[i], s) {
            assert(has_exact_id(nodes[i], s));
        }
        if has_exact_id(nodes[i], s) {
            assert(has_element_id(nodes[i], s));
        }
    }
    assert forall|x: int|
        0 <= x < nodes.len() && s.len() > 0 && has_exact_id(nodes[x], s) && (forall|y: int|
            0 <= y < nodes.len() && has_exact_id(nodes[y], s) ==> y == x) implies element_by_id(nodes, s)
        == Some(x) by {
        assert forall|y: int| 0 <= y < nodes.len() && has_element_id(nodes[y], s) implies y == x by {
            assert(has_exact_id(nodes[y], s));
        }
        lemma_first_with_id_unique(nodes, s, 0, x);
    }
}

impl BaseDocument {
    /// Whether node `i` is an element of the document whose id is `id`.
    fn has_id(&self, i: usize, id: &str) -> (r: bool)
        requires
            i < self@.len(),
        ensures
            r == has_element_id(self@[i as int], id@),
    {
        let node = &self.nodes[i];
        node.flags.is_in_document() && match &node.data {
            NodeData::Element(e) => match &e.id {
                Some(v) => same_text(v.as_str(), id),
                None => false,
            },
            _ => false,
        }
    }

    /// The first node of the subtree of `root` in tree order whose id is `id` (see
    /// `tree_find`).
    fn find_in_tree(&self, root: usize, id: &str, fuel: usize) -> (r: Option<usize>)
        requires
            self.wf(),
            root < self@.len(),
        ensures
            match tree_find(self@, root as int, id@, fuel as nat) {
                Some(x) => r == Some(x as usize),
                None => r.is_none(),
            },
        decreases fuel,
    {
        if self.has_id(root, id) {
            return Some(root);
        }
        if fuel == 0 {
            return None;
        }
        proof {
            assert(node_wf(self@[root as int], root as int, self@.len() as int));
        }
        let n = self.nodes[root].children.len();
        let ghost kids = self@[root as int].children@;
        let mut k: usize = 0;
        while k < n
            invariant
                self.wf(),
                root < self@.len(),
                fuel > 0,
                !has_element_id(self@[root as int], id@),
                kids == self@[root as int].children@,
                n == kids.len(),
                k <= n,
                forest_find(self@, kids.take(k as int), id@, (fuel - 1) as nat).is_none(),
            decreases n - k,
        {
            let c = self.nodes[root].children[k];
            proof {
                assert(node_wf(self@[root as int], root as int, self@.len() as int));
                assert(kids.take(k + 1).drop_last() =~= kids.take(k as int));
                assert(kids.take(k + 1).last() == c);
            }
            match self.find_in_tree(c, id, fuel - 1) {
                Some(x) => {
                    proof {
                        let f = (fuel - 1) as nat;
                        assert(forest_find(self@, kids.take(k + 1), id@, f) == tree_find(self@, c as int, id@, f));
                        lemma_forest_find_prefix(self@, kids, id@, f, k + 1, n as int);
                        assert(kids.take(n as int) =~= kids);
                        assert(forest_find(self@, kids, id@, f) == tree_find(self@, c as int, id@, f));
                        assert(tree_find(self@, root as int, id@, fuel as nat) == forest_find(self@, kids, id@, f));
                    }
                    return Some(x);
                },
                None => {},
            }
            k = k + 1;
        }
        proof {
            assert(kids.take(n as int) =~= kids);
        }
        None
    }

    /// The element of the document whose id is `id`: the only one, or the first in tree
    /// order when several have it. An empty id names no element.
    pub fn get_element_by_id(&self, id: &str) -> (r: Option<usize>)
        requires
            self.wf(),
        ensures
            match element_by_id(self@, id@) {
                Some(x) => r == Some(x as usize),
                None => r.is_none(),
            },
    {
        if id.unicode_len() == 0 {
            return None;
        }
        let len = self.nodes.len();
        // Count the candidates (up to two) from the highest id down, keeping the lowest.
        let mut count: usize = 0;
        let mut first: usize = 0;
        let mut i: usize = len;
        while i > 0
            invariant
                len == self@.len(),
                i <= len,
                count <= 2,
                count == if count_with_id(self@, id@, i as int) >= 2 {
                    2
                } else {
                    count_with_id(self@, id@, i as int)
                },
                count > 0 ==> first_with_id(self@, id@, i as int) == Some(first as int),
            decreases i,
        {
            i = i - 1;
            proof {
                lemma_count_first(self@, id@, i + 1);
            }
            if self.has_id(i, id) {
                first = i;
                if count < 2 {
                    count = count + 1;
                }
            }
        }
        proof {
            lemma_count_first(self@, id@, 0);
        }
        if count == 0 {
            None
        } else if count == 1 {
            Some(first)
        } else {
            self.find_in_tree(0, id, len)
        }
    }
}

} // verus!
