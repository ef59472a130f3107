//! What mutations leave to be done: resource loads and unloads that are due at once, and
//! the title, `<style>` and form-associated nodes to process once a batch of mutations
//! ends. Also what a `<link>` asks to be loaded as a stylesheet.
use vstd::prelude::*;

use crate::document::{node_wf, BaseDocument};
use crate::image::is_tag;
use crate::document::same_registries;
use crate::document::in_document;
use crate::mutator::{attribute_cleared, attribute_set};
use crate::node::{attr_value, element_of, find_attr, QualName, parse_u64, parsed_u64, CanvasData, ElementData, Node, NodeData, SpecialElementType};
use crate::utf8_text::same_text;

use crate::tree_links::{lemma_links_frame, links_agree, same_links};
verus! {

/// Work on a node that a mutation makes due at once.
#[derive(Clone, Copy, Debug, PartialEq, Eq, Structural)]
pub enum SpecialOp {
    LoadImage(usize),
    LoadIframe(usize),
    LoadStylesheet(usize),
    UnloadStylesheet(usize),
    LoadCustomPaintSource(usize),
    ProcessButtonInput(usize),
    UnloadSubDocument(usize),
}

/// What mutations have left to be done.
pub struct MutationRecords {
    /// The work that is due at once, in the order it was found.
    pub eager_op_queue: Vec<SpecialOp>,
    /// The latest `<title>` element added.
    pub title_node: Option<usize>,
    /// The `<style>` elements whose stylesheet must be (re)built, each once.
    pub style_nodes: Vec<usize>,
    /// The form-associated elements whose form owner must be reset, each once.
    pub form_nodes: Vec<usize>,
    /// Whether an element that bears on animation has gone, so that whether the document
    /// animates must be computed again.
    pub recompute_is_animating: bool,
}

/// The records as values: the queue, the title node, the style nodes, the form nodes and
/// the animation flag.
pub type RecordsModel = (Seq<SpecialOp>, Option<usize>, Seq<usize>, Seq<usize>, bool);

impl View for MutationRecords {
    type V = RecordsModel;

    open spec fn view(&self) -> RecordsModel {
        (
            self.eager_op_queue@,
            self.title_node,
            self.style_nodes@,
            self.form_nodes@,
            self.recompute_is_animating,
        )
    }
}

/// `s` with `x` added at the end, unless it holds `x` already.
pub open spec fn insert_once(s: Seq<usize>, x: usize) -> Seq<usize> {
    if s.contains(x) {
        s
    } else {
        s.push(x)
    }
}

/// Whether `tag` names a form-associated element that may need a label or a form owner.
pub open spec fn form_tag(tag: Seq<char>) -> bool {
    tag == "button"@ || tag == "fieldset"@ || tag == "input"@ || tag == "select"@ || tag
        == "textarea"@ || tag == "object"@ || tag == "output"@
}

/// What adding node `n` (id `id`) to the document leaves to be done: a `<title>` becomes
/// the title node; a `<link>`, `<img>`, `<iframe>` or `<canvas>` queues its load; a
/// `<style>` is recorded; a form-associated element queues its label and is recorded.
/// Nodes other than elements leave nothing.
pub open spec fn added_node_step(m: RecordsModel, n: Node, id: usize) -> RecordsModel {
    match n.data {
        NodeData::Element(e) => {
            let tag = e.name.local@;
            if tag == "title"@ {
                (m.0, Some(id), m.2, m.3, m.4)
            } else if tag == "link"@ {
                (m.0.push(SpecialOp::LoadStylesheet(id)), m.1, m.2, m.3, m.4)
            } else if tag == "img"@ {
                (m.0.push(SpecialOp::LoadImage(id)), m.1, m.2, m.3, m.4)
            } else if tag == "iframe"@ {
                (m.0.push(SpecialOp::LoadIframe(id)), m.1, m.2, m.3, m.4)
            } else if tag == "canvas"@ {
                (m.0.push(SpecialOp::LoadCustomPaintSource(id)), m.1, m.2, m.3, m.4)
            } else if tag == "style"@ {
                (m.0, m.1, insert_once(m.2, id), m.3, m.4)
            } else if form_tag(tag) {
                (m.0.push(SpecialOp::ProcessButtonInput(id)), m.1, m.2, insert_once(m.3, id), m.4)
            } else {
                m
            }
        },
        _ => m,
    }
}

/// What adding each kind of element to the document leaves to be done, tag by tag: an
/// `img` queues exactly one image load, a `link` one stylesheet load, an `iframe` one
/// document load and a `canvas` one paint-source load, each for that element and after
/// what was queued before; a form control (`button`, `fieldset`, `input`, `select`,
/// `textarea`, `object`, `output`) queues its label and is recorded as a form node; a
/// `title` becomes the title node and a `style` is recorded as a style node, queuing
/// nothing. A node that is no element leaves the records as they were.
pub proof fn law_added_elements_queue_their_work(m: RecordsModel, n: Node, id: usize)
    ensures
        ({
            let r = added_node_step(m, n, id);
            match n.data {
                NodeData::Element(e) => {
                    let t = e.name.local@;
                    &&& t == "img"@ ==> r == (m.0.push(SpecialOp::LoadImage(id)), m.1, m.2, m.3, m.4)
                    &&& t == "link"@ ==> r == (m.0.push(SpecialOp::LoadStylesheet(id)), m.1, m.2, m.3, m.4)
                    &&& t == "iframe"@ ==> r == (m.0.push(SpecialOp::LoadIframe(id)), m.1, m.2, m.3, m.4)
                    &&& t == "canvas"@ ==> r == (m.0.push(SpecialOp::LoadCustomPaintSource(id)), m.1, m.2, m.3, m.4)
                    &&& (t == "button"@ || t == "fieldset"@ || t == "input"@ || t == "select"@ || t == "textarea"@ || t
                        == "object"@ || t == "output"@) ==> r.0 == m.0.push(SpecialOp::ProcessButtonInput(id))
                        && r.3.contains(id) && r.1 == m.1 && r.2 == m.2
                    &&& t == "title"@ ==> r == (m.0, Some(id), m.2, m.3, m.4)
                    &&& t == "style"@ ==> r.0 == m.0 && r.1 == m.1 && r.2.contains(id) && r.3 == m.3
                },
                _ => r == m,
            }
        }),
{
    reveal_strlit("img");
    assert("img"@.len() == 3 && "img"@[0] == 'i' && "img"@[1] == 'm');
    reveal_strlit("link");
    assert("link"@.len() == 4 && "link"@[0] == 'l' && "link"@[1] == 'i');
    reveal_strlit("iframe");
    assert("iframe"@.len() == 6 && "iframe"@[0] == 'i' && "iframe"@[1] == 'f');
    reveal_strlit("canvas");
    assert("canvas"@.len() == 6 && "canvas"@[0] == 'c' && "canvas"@[1] == 'a');
    reveal_strlit("button");
    assert("button"@.len() == 6 && "button"@[0] == 'b' && "button"@[1] == 'u');
    reveal_strlit("fieldset");
    assert("fieldset"@.len() == 8 && "fieldset"@[0] == 'f' && "fieldset"@[1] == 'i');
    reveal_strlit("input");
    assert("input"@.len() == 5 && "input"@[0] == 'i' && "input"@[1] == 'n');
    reveal_strlit("select");
    assert("select"@.len() == 6 && "select"@[0] == 's' && "select"@[1] == 'e');
    reveal_strlit("textarea");
    assert("textarea"@.len() == 8 && "textarea"@[0] == 't' && "textarea"@[1] == 'e');
    reveal_strlit("object");
    assert("object"@.len() == 6 && "object"@[0] == 'o' && "object"@[1] == 'b');
    reveal_strlit("output");
    assert("output"@.len() == 6 && "output"@[0] == 'o' && "output"@[1] == 'u');
    reveal_strlit("title");
    assert("title"@.len() == 5 && "title"@[0] == 't' && "title"@[1] == 'i');
    reveal_strlit("style");
    assert("style"@.len() == 5 && "style"@[0] == 's' && "style"@[1] == 't');
    match n.data {
        NodeData::Element(e) => {
            let t = e.name.local@;
            if t == "style"@ || form_tag(t) {
                let s = if t == "style"@ { m.2 } else { m.3 };
                if !s.contains(id) {
                    assert(s.push(id)[s.len() as int] == id);
                }
            }
        },
        _ => {},
    }
}

/// What taking each kind of element out of the document leaves to be done: a stylesheet
/// queues exactly its unloading and a sub-document exactly its unloading, each after what
/// was queued before; a canvas makes the animation state stale and queues nothing; any
/// other node leaves the records as they were.
pub proof fn law_removed_elements_unload(m: RecordsModel, n: Node, id: usize)
    ensures
        ({
            let r = removed_node_step(m, n, id);
            match n.data {
                NodeData::Element(e) => {
                    &&& e.special_data is Stylesheet ==> r == (m.0.push(SpecialOp::UnloadStylesheet(id)), m.1, m.2, m.3, m.4)
                    &&& e.special_data is SubDocument ==> r == (m.0.push(SpecialOp::UnloadSubDocument(id)), m.1, m.2, m.3, m.4)
                    &&& e.special_data is Canvas ==> r == (m.0, m.1, m.2, m.3, true)
                    &&& !(e.special_data is Stylesheet || e.special_data is SubDocument || e.special_data is Canvas) ==> r == m
                },
                _ => r == m,
            }
        }),
{
}

/// A change to the contents of a `<title>` makes it the title node again, and one to a
/// `<style>` records it as a style node; nothing is queued, and other nodes leave the
/// records as they were.
pub proof fn law_changed_title_and_style_are_recorded(m: RecordsModel, n: Node, id: usize)
    ensures
        ({
            let r = recorded_node_step(m, n, id);
            &&& r.0 == m.0
            &&& r.3 == m.3
            &&& r.4 == m.4
            &&& (element_of(n.data) matches Some(e) && e.name.local@ == "title"@) ==> r.1 == Some(id) && r.2 == m.2
            &&& (element_of(n.data) matches Some(e) && e.name.local@ == "style"@) ==> r.1 == m.1 && r.2.contains(id)
            &&& !(element_of(n.data) matches Some(e) && (e.name.local@ == "title"@ || e.name.local@ == "style"@)) ==> r
                == m
        }),
{
    reveal_strlit("title");
    reveal_strlit("style");
    assert("title"@.len() == 5 && "title"@[0] == 't');
    assert("style"@.len() == 5 && "style"@[0] == 's');
    if !m.2.contains(id) {
        assert(m.2.push(id)[m.2.len() as int] == id);
    }
}

/// What taking node `n` (id `id`) out of the document leaves to be done: a sub-document or
/// a stylesheet queues its unloading; a canvas makes the animation state stale.
pub open spec fn removed_node_step(m: RecordsModel, n: Node, id: usize) -> RecordsModel {
    match n.data {
        NodeData::Element(e) => match e.special_data {
            SpecialElementType::SubDocument => (m.0.push(SpecialOp::UnloadSubDocument(id)), m.1, m.2, m.3, m.4),
            SpecialElementType::Stylesheet => (m.0.push(SpecialOp::UnloadStylesheet(id)), m.1, m.2, m.3, m.4),
            SpecialElementType::Canvas(_) => (m.0, m.1, m.2, m.3, true),
            _ => m,
        },
        _ => m,
    }
}

/// What a change to the contents of node `n` (id `id`) leaves to be done: a `<title>`
/// becomes the title node again and a `<style>` is recorded.
pub open spec fn recorded_node_step(m: RecordsModel, n: Node, id: usize) -> RecordsModel {
    match element_of(n.data) {
        Some(e) => if e.name.local@ == "title"@ {
            (m.0, Some(id), m.2, m.3, m.4)
        } else if e.name.local@ == "style"@ {
            (m.0, m.1, insert_once(m.2, id), m.3, m.4)
        } else {
            m
        },
        None => m,
    }
}

/// The step for each node added.
pub open spec fn added_steps() -> spec_fn(RecordsModel, Node, usize) -> RecordsModel {
    |m: RecordsModel, n: Node, id: usize| added_node_step(m, n, id)
}

/// The step for each node removed.
pub open spec fn removed_steps() -> spec_fn(RecordsModel, Node, usize) -> RecordsModel {
    |m: RecordsModel, n: Node, id: usize| removed_node_step(m, n, id)
}

/// `m` after `step` for each of the nodes `ids`, in order.
pub open spec fn fold_steps(
    m: RecordsModel,
    nodes: Seq<Node>,
    ids: Seq<usize>,
    step: spec_fn(RecordsModel, Node, usize) -> RecordsModel,
) -> RecordsModel
    decreases ids.len(),
{
    if ids.len() == 0 {
        m
    } else {
        step(fold_steps(m, nodes, ids.drop_last(), step), nodes[ids.last() as int], ids.last())
    }
}

/// The subtree of `root` in tree order (a node before its children, children in order),
/// going at most `fuel` levels down.
pub open spec fn subtree_preorder(nodes: Seq<Node>, root: int, fuel: nat) -> Seq<usize>
    decreases fuel, 0nat,
{
    if !(0 <= root < nodes.len()) {
        Seq::empty()
    } else if fuel == 0 {
        seq![root as usize]
    } else {
        seq![root as usize] + forest_preorder(nodes, nodes[root].children@, (fuel - 1) as nat)
    }
}

/// The subtrees of `roots` in tree order, one after the other.
pub open spec fn forest_preorder(nodes: Seq<Node>, roots: Seq<usize>, fuel: nat) -> Seq<usize>
    decreases fuel, roots.len() + 1,
{
    if roots.len() == 0 {
        Seq::empty()
    } else {
        forest_preorder(nodes, roots.drop_last(), fuel) + subtree_preorder(nodes, roots.last() as int, fuel)
    }
}

/// Stepping through two lists of nodes is stepping through the first, then the second.
pub proof fn lemma_fold_steps_append(
    m: RecordsModel,
    nodes: Seq<Node>,
    a: Seq<usize>,
    b: Seq<usize>,
    step: spec_fn(RecordsModel, Node, usize) -> RecordsModel,
)
    ensures
        fold_steps(m, nodes, a + b, step) == fold_steps(fold_steps(m, nodes, a, step), nodes, b, step),
    decreases b.len(),
{
    if b.len() == 0 {
        assert(a + b =~= a);
    } else {
        lemma_fold_steps_append(m, nodes, a, b.drop_last(), step);
        assert((a + b).drop_last() =~= a + b.drop_last());
        assert((a + b).last() == b.last());
    }
}

/// Adding `x` once keeps a list free of repeats.
proof fn lemma_insert_once(s: Seq<usize>, x: usize)
    requires
        s.no_duplicates(),
    ensures
        insert_once(s, x).no_duplicates(),
{
    if !s.contains(x) {
        assert forall|i: int, j: int|
            0 <= i < s.len() + 1 && 0 <= j < s.len() + 1 && i != j implies s.push(x)[i] != s.push(x)[j] by {
            if i < s.len() && j < s.len() {
            } else if i == s.len() {
                assert(s.push(x)[j] == s[j]);
            } else {
                assert(s.push(x)[i] == s[i]);
            }
        }
    }
}

/// Adds `x` to the end of `v` unless `v` holds it already.
fn push_once(v: &mut Vec<usize>, x: usize)
    ensures
        final(v)@ == insert_once(old(v)@, x),
{
    let n = v.len();
    let mut i: usize = 0;
    while i < n
        invariant
            n == v@.len(),
            i <= n,
            forall|j: int| 0 <= j < i ==> v@[j] != x,
        decreases n - i,
    {
        if v[i] == x {
            assert(v@.contains(x));
            return;
        }
        i = i + 1;
    }
    assert(!v@.contains(x));
    v.push(x);
}

/// Which records a walk over a subtree keeps.
#[derive(Clone, Copy)]
enum SubtreeWalk {
    Added,
    Removed,
}

/// The step of `walk`.
spec fn walk_steps(walk: SubtreeWalk) -> spec_fn(RecordsModel, Node, usize) -> RecordsModel {
    match walk {
        SubtreeWalk::Added => added_steps(),
        SubtreeWalk::Removed => removed_steps(),
    }
}

impl MutationRecords {
    /// The records are well formed: no node is recorded twice as a style or form node.
    pub open spec fn wf(&self) -> bool {
        self.style_nodes@.no_duplicates() && self.form_nodes@.no_duplicates()
    }

    /// No records.
    pub fn new() -> (r: Self)
        ensures
            r.wf(),
            r@ == (Seq::<SpecialOp>::empty(), None::<usize>, Seq::<usize>::empty(), Seq::<usize>::empty(), false),
    {
        let r = MutationRecords {
            eager_op_queue: Vec::new(),
            title_node: None,
            style_nodes: Vec::new(),
            form_nodes: Vec::new(),
            recompute_is_animating: false,
        };
        assert(r.style_nodes@ =~= Seq::<usize>::empty());
        assert(r.form_nodes@ =~= Seq::<usize>::empty());
        r
    }

    /// Records what adding node `node` (id `id`) to the document leaves to be done (see
    /// `added_node_step`).
    pub fn record_added_node(&mut self, node: &Node, id: usize)
        requires
            old(self).wf(),
        ensures
            final(self).wf(),
            final(self)@ == added_node_step(old(self)@, *node, id),
    {
        proof {
            lemma_insert_once(self.style_nodes@, id);
            lemma_insert_once(self.form_nodes@, id);
        }
        if let NodeData::Element(e) = &node.data {
            let tag = e.name.local.as_str();
            if same_text(tag, "title") {
                self.title_node = Some(id);
            } else if same_text(tag, "link") {
                self.eager_op_queue.push(SpecialOp::LoadStylesheet(id));
            } else if same_text(tag, "img") {
                self.eager_op_queue.push(SpecialOp::LoadImage(id));
            } else if same_text(tag, "iframe") {
                self.eager_op_queue.push(SpecialOp::LoadIframe(id));
            } else if same_text(tag, "canvas") {
                self.eager_op_queue.push(SpecialOp::LoadCustomPaintSource(id));
            } else if same_text(tag, "style") {
                push_once(&mut self.style_nodes, id);
            } else if same_text(tag, "button") || same_text(tag, "fieldset") || same_text(tag, "input")
                || same_text(tag, "select") || same_text(tag, "textarea") || same_text(tag, "object")
                || same_text(tag, "output") {
                self.eager_op_queue.push(SpecialOp::ProcessButtonInput(id));
                push_once(&mut self.form_nodes, id);
            }
        }
    }

    /// Records what taking node `node` (id `id`) out of the document leaves to be done (see
    /// `removed_node_step`).
    pub fn record_removed_node(&mut self, node: &Node, id: usize)
        requires
            old(self).wf(),
        ensures
            final(self).wf(),
            final(self)@ == removed_node_step(old(self)@, *node, id),
    {
        if let NodeData::Element(e) = &node.data {
            match e.special_data {
                SpecialElementType::SubDocument => self.eager_op_queue.push(SpecialOp::UnloadSubDocument(id)),
                SpecialElementType::Stylesheet => self.eager_op_queue.push(SpecialOp::UnloadStylesheet(id)),
                SpecialElementType::Canvas(_) => self.recompute_is_animating = true,
                _ => {},
            }
        }
    }

    /// Records node `node_id` of `doc` again when it is a `<title>` or a `<style>` whose
    /// contents changed (see `recorded_node_step`); nothing for `None`.
    pub fn maybe_record_node(&mut self, doc: &BaseDocument, node_id: Option<usize>)
        requires
            old(self).wf(),
            node_id matches Some(id) ==> id < doc@.len(),
        ensures
            final(self).wf(),
            final(self)@ == match node_id {
                Some(id) => recorded_node_step(old(self)@, doc@[id as int], id),
                None => old(self)@,
            },
    {
        let id = match node_id {
            Some(id) => id,
            None => return,
        };
        proof {
            lemma_insert_once(self.style_nodes@, id);
        }
        if let Some(e) = doc.nodes[id].data.downcast_element() {
            let tag = e.name.local.as_str();
            if same_text(tag, "title") {
                self.title_node = Some(id);
            } else if same_text(tag, "style") {
                push_once(&mut self.style_nodes, id);
            }
        }
    }

    /// Hands out the queued work, leaving the queue empty and the other records as they
    /// are.
    pub fn take_eager_ops(&mut self) -> (r: Vec<SpecialOp>)
        ensures
            r@ == old(self)@.0,
            final(self)@ == (Seq::<SpecialOp>::empty(), old(self)@.1, old(self)@.2, old(self)@.3, old(self)@.4),
            final(self).wf() == old(self).wf(),
    {
        let mut r = Vec::new();
        std::mem::swap(&mut r, &mut self.eager_op_queue);
        assert(self.eager_op_queue@ =~= Seq::<SpecialOp>::empty());
        r
    }

    /// Applies the step of `walk` to each node of the subtree of `root`, in tree order, at
    /// most `fuel` levels down.
    fn walk_subtree(&mut self, doc: &BaseDocument, root: usize, fuel: usize, walk: SubtreeWalk)
        requires
            old(self).wf(),
            doc.wf(),
            root < doc@.len(),
        ensures
            final(self).wf(),
            final(self)@ == fold_steps(old(self)@, doc@, subtree_preorder(doc@, root as int, fuel as nat), walk_steps(walk)),
        decreases fuel,
    {
        let ghost start = self@;
        let ghost step = walk_steps(walk);
        match walk {
            SubtreeWalk::Added => self.record_added_node(&doc.nodes[root], root),
            SubtreeWalk::Removed => self.record_removed_node(&doc.nodes[root], root),
        }
        proof {
            let one = seq![root];
            assert(one.drop_last() =~= Seq::<usize>::empty());
            assert(fold_steps(start, doc@, one.drop_last(), step) == start);
            match walk {
                SubtreeWalk::Added => assert(step(start, doc@[root as int], root) == added_node_step(start, doc@[root as int], root)),
                SubtreeWalk::Removed => assert(step(start, doc@[root as int], root) == removed_node_step(start, doc@[root as int], root)),
            }
            assert(self@ == fold_steps(start, doc@, one, step));
        }
        if fuel == 0 {
            return;
        }
        proof {
            assert(node_wf(doc@[root as int], root as int, doc@.len() as int));
        }
        let n = doc.nodes[root].children.len();
        let ghost kids = doc@[root as int].children@;
        let ghost f = (fuel - 1) as nat;
        let mut k: usize = 0;
        while k < n
            invariant
                self.wf(),
                doc.wf(),
                root < doc@.len(),
                fuel > 0,
                f == fuel - 1,
                step == walk_steps(walk),
                kids == doc@[root as int].children@,
                n == kids.len(),
                k <= n,
                self@ == fold_steps(start, doc@, seq![root] + forest_preorder(doc@, kids.take(k as int), f), step),
            decreases n - k,
        {
            let c = doc.nodes[root].children[k];
            proof {
                assert(node_wf(doc@[root as int], root as int, doc@.len() as int));
                assert(kids.take(k + 1).drop_last() =~= kids.take(k as int));
                assert(kids.take(k + 1).last() == c);
            }
            let ghost before = self@;
            self.walk_subtree(doc, c, fuel - 1, walk);
            proof {
                let pre = seq![root] + forest_preorder(doc@, kids.take(k as int), f);
                let sub = subtree_preorder(doc@, c as int, f);
                lemma_fold_steps_append(start, doc@, pre, sub, step);
                assert(forest_preorder(doc@, kids.take(k + 1), f) == forest_preorder(doc@, kids.take(k as int), f) + sub);
                assert(pre + sub =~= seq![root] + forest_preorder(doc@, kids.take(k + 1), f));
            }
            k = k + 1;
        }
        proof {
            assert(kids.take(n as int) =~= kids);
        }
    }

    /// Records what adding the subtree of `root` to the document leaves to be done: the
    /// step `added_node_step` for each of its nodes, in tree order.
    pub fn record_added_subtree(&mut self, doc: &BaseDocument, root: usize)
        requires
            old(self).wf(),
            doc.wf(),
            root < doc@.len(),
        ensures
            final(self).wf(),
            final(self)@ == fold_steps(old(self)@, doc@, subtree_preorder(doc@, root as int, doc@.len() as nat), added_steps()),
    {
        self.walk_subtree(doc, root, doc.nodes.len(), SubtreeWalk::Added);
    }

    /// Records what taking the subtree of `root` out of the document leaves to be done:
    /// the step `removed_node_step` for each of its nodes, in tree order.
    pub fn record_removed_subtree(&mut self, doc: &BaseDocument, root: usize)
        requires
            old(self).wf(),
            doc.wf(),
            root < doc@.len(),
        ensures
            final(self).wf(),
            final(self)@ == fold_steps(old(self)@, doc@, subtree_preorder(doc@, root as int, doc@.len() as nat), removed_steps()),
    {
        self.walk_subtree(doc, root, doc.nodes.len(), SubtreeWalk::Removed);
    }
}


/// Whether `c` is ASCII white space: tab, line feed, form feed, carriage return or space.
pub open spec fn is_ascii_white_space(c: char) -> bool {
    c == '\t' || c == '\n' || c == '\u{c}' || c == '\r' || c == ' '
}

/// Whether `tok` stands in `s` from index `i` as a whole word: with ASCII white space or
/// an end of `s` on either side.
pub open spec fn token_at(s: Seq<char>, tok: Seq<char>, i: int) -> bool {
    &&& 0 <= i
    &&& i + tok.len() <= s.len()
    &&& s.subrange(i, i + tok.len()) == tok
    &&& i == 0 || is_ascii_white_space(s[i - 1])
    &&& i + tok.len() == s.len() || is_ascii_white_space(s[i + tok.len()])
}

/// Whether one of the words of `s`, split at ASCII white space, is `tok` (for a `tok`
/// that is not empty and holds no ASCII white space).
pub open spec fn has_ascii_token(s: Seq<char>, tok: Seq<char>) -> bool {
    exists|i: int| #[trigger] token_at(s, tok, i)
}

/// Whether `c` is ASCII white space (see `is_ascii_white_space`).
fn ascii_white_space(c: char) -> (r: bool)
    ensures
        r == is_ascii_white_space(c),
{
    c == '\t' || c == '\n' || c == '\u{c}' || c == '\r' || c == ' '
}

/// Whether `tok` stands in `s` from index `i` as a whole word (see `token_at`).
fn token_here(s: &str, tok: &str, i: usize) -> (r: bool)
    requires
        i + tok@.len() <= s@.len(),
    ensures
        r == token_at(s@, tok@, i as int),
{
    let n = s.unicode_len();
    let m = tok.unicode_len();
    let before = i == 0 || ascii_white_space(s.get_char(i - 1));
    let after = i + m == n || ascii_white_space(s.get_char(i + m));
    before && after && same_text(s.substring_char(i, i + m), tok)
}

/// Whether one of the words of `s`, split at ASCII white space, is `tok` (see
/// `has_ascii_token`).
pub fn contains_ascii_token(s: &str, tok: &str) -> (r: bool)
    ensures
        r == has_ascii_token(s@, tok@),
{
    let n = s.unicode_len();
    let m = tok.unicode_len();
    if m > n {
        assert forall|j: int| !token_at(s@, tok@, j) by {}
        return false;
    }
    let mut i: usize = 0;
    while i < n - m
        invariant
            n == s@.len(),
            m == tok@.len(),
            m <= n,
            i <= n - m,
            forall|j: int| 0 <= j < i ==> !token_at(s@, tok@, j),
        decreases n - m - i,
    {
        if token_here(s, tok, i) {
            return true;
        }
        i = i + 1;
    }
    if token_here(s, tok, i) {
        return true;
    }
    assert forall|j: int| !token_at(s@, tok@, j) by {
        if 0 <= j <= i {
        }
    }
    false
}

/// Whether an ancestor on the parent chain from `cur` (itself included) is a `tag`
/// element, looking at most `fuel` steps up.
pub open spec fn has_tagged_ancestor(nodes: Seq<Node>, cur: Option<usize>, tag: Seq<char>, fuel: nat) -> bool
    decreases fuel,
{
    match cur {
        None => false,
        Some(p) => if p >= nodes.len() {
            false
        } else if is_tag(nodes[p as int], tag) {
            true
        } else if fuel == 0 {
            false
        } else {
            has_tagged_ancestor(nodes, nodes[p as int].parent, tag, (fuel - 1) as nat)
        },
    }
}

/// The value of attribute `name` of node `n`, for elements.
pub open spec fn node_attr(n: Node, name: Seq<char>) -> Option<Seq<char>> {
    match element_of(n.data) {
        Some(e) => attr_value(e.attrs.items(), name),
        None => None,
    }
}

/// What node `id` asks to be loaded as a stylesheet: for a node with a `rel` attribute
/// among whose words is `stylesheet`, and an `href`, that `href` and whether the node lies
/// inside a `<head>` (a stylesheet there holds up the first render).
pub open spec fn stylesheet_link_of(nodes: Seq<Node>, id: int) -> Option<(Seq<char>, bool)> {
    let n = nodes[id];
    match (node_attr(n, "rel"@), node_attr(n, "href"@)) {
        (Some(rel), Some(href)) => if has_ascii_token(rel, "stylesheet"@) {
            Some((href, has_tagged_ancestor(nodes, n.parent, "head"@, nodes.len() as nat)))
        } else {
            None
        },
        _ => None,
    }
}

/// A stylesheet that a `<link>` asks to be loaded.
pub struct StylesheetLink {
    /// The `href`, as written.
    pub href: String,
    /// Whether the link lies inside a `<head>`.
    pub in_head: bool,
}

impl BaseDocument {
    /// Whether an ancestor on the parent chain from `cur` (itself included) is a `tag`
    /// element (see `has_tagged_ancestor`).
    fn tagged_ancestor_within(&self, cur: Option<usize>, tag: &str, fuel: usize) -> (r: bool)
        requires
            self.wf(),
            cur matches Some(p) ==> p < self@.len(),
        ensures
            r == has_tagged_ancestor(self@, cur, tag@, fuel as nat),
        decreases fuel,
    {
        match cur {
            None => false,
            Some(p) => {
                if self.nodes[p].data.is_element_with_tag_name(tag) {
                    true
                } else if fuel == 0 {
                    false
                } else {
                    proof {
                        assert(node_wf(self@[p as int], p as int, self@.len() as int));
                    }
                    self.tagged_ancestor_within(self.nodes[p].parent, tag, fuel - 1)
                }
            },
        }
    }

    /// What node `id` asks to be loaded as a stylesheet (see `stylesheet_link_of`); `None`
    /// when it asks for none.
    pub fn stylesheet_link(&self, id: usize) -> (r: Option<StylesheetLink>)
        requires
            self.wf(),
            id < self@.len(),
        ensures
            match stylesheet_link_of(self@, id as int) {
                Some((href, in_head)) => r matches Some(l) && l.href@ == href && l.in_head == in_head,
                None => r.is_none(),
            },
    {
        let node = &self.nodes[id];
        let rel = match node.attr("rel") {
            Some(v) => v,
            None => return None,
        };
        let href = match node.attr("href") {
            Some(v) => v,
            None => return None,
        };
        if !contains_ascii_token(rel.as_str(), "stylesheet") {
            return None;
        }
        proof {
            assert(node_wf(self@[id as int], id as int, self@.len() as int));
        }
        let in_head = self.tagged_ancestor_within(node.parent, "head", self.nodes.len());
        Some(StylesheetLink { href: href.clone(), in_head })
    }
}


/// The custom paint source that node `n` names in its `src` attribute, when that is a
/// number.
pub open spec fn custom_paint_source(n: Node) -> Option<u64> {
    match node_attr(n, "src"@) {
        Some(src) => parsed_u64(src),
        None => None,
    }
}

/// `n` with its element-specific data replaced by `special`, for elements.
pub open spec fn with_special_data(n: Node, special: SpecialElementType) -> Node {
    Node {
        data: match n.data {
            NodeData::Element(e) => NodeData::Element(ElementData { special_data: special, ..e }),
            NodeData::AnonymousBlock(e) => NodeData::AnonymousBlock(ElementData { special_data: special, ..e }),
            d => d,
        },
        ..n
    }
}

impl BaseDocument {
    /// Makes node `target` a canvas painted by the custom paint source that its `src`
    /// attribute names, when that is a number, and records that whether the document
    /// animates must be computed again. Otherwise nothing changes.
    pub fn load_custom_paint_src(&mut self, records: &mut MutationRecords, target: usize)
        requires
            old(self).wf(),
            target < old(self)@.len(),
        ensures
            final(self).wf(),
            same_registries(*old(self), *final(self)),
            match custom_paint_source(old(self)@[target as int]) {
                Some(id) => {
                    &&& final(self)@ == old(self)@.update(
                        target as int,
                        with_special_data(old(self)@[target as int], SpecialElementType::Canvas(CanvasData { custom_paint_source_id: id })),
                    )
                    &&& final(records)@ == (old(records)@.0, old(records)@.1, old(records)@.2, old(records)@.3, true)
                },
                None => final(self)@ == old(self)@ && final(records)@ == old(records)@,
            },
            final(records).wf() == old(records).wf(),
            links_agree(old(self)@) ==> links_agree(final(self)@),
    {
        self.load_custom_paint_src_steps(records, target);
        proof {
            if links_agree(old(self)@) {
                assert forall|i: int| 0 <= i < old(self)@.len() implies same_links(#[trigger] old(self)@[i], self@[i]) by {
                    assert(crate::flags::is_flag_bit(crate::flags::IS_SHADOW_ROOT));
                }
                lemma_links_frame(old(self)@, self@);
            }
        }
    }

    /// The steps of `load_custom_paint_src`.
    fn load_custom_paint_src_steps(&mut self, records: &mut MutationRecords, target: usize)
        requires
            old(self).wf(),
            target < old(self)@.len(),
        ensures
            final(self).wf(),
            same_registries(*old(self), *final(self)),
            match custom_paint_source(old(self)@[target as int]) {
                Some(id) => {
                    &&& final(self)@ == old(self)@.update(
                        target as int,
                        with_special_data(old(self)@[target as int], SpecialElementType::Canvas(CanvasData { custom_paint_source_id: id })),
                    )
                    &&& final(records)@ == (old(records)@.0, old(records)@.1, old(records)@.2, old(records)@.3, true)
                },
                None => final(self)@ == old(self)@ && final(records)@ == old(records)@,
            },
            final(records).wf() == old(records).wf(),
    {
        let id = match self.nodes[target].attr("src") {
            Some(src) => match parse_u64(src.as_str()) {
                Some(id) => id,
                None => return,
            },
            None => return,
        };
        records.recompute_is_animating = true;
        let ghost before = self@;
        let mut d = NodeData::Document;
        std::mem::swap(&mut self.nodes[target].data, &mut d);
        match &mut d {
            NodeData::Element(e) => e.special_data = SpecialElementType::Canvas(CanvasData { custom_paint_source_id: id }),
            NodeData::AnonymousBlock(e) => e.special_data = SpecialElementType::Canvas(CanvasData { custom_paint_source_id: id }),
            _ => {},
        }
        std::mem::swap(&mut self.nodes[target].data, &mut d);
        proof {
            assert(self@ =~= before.update(
                target as int,
                with_special_data(before[target as int], SpecialElementType::Canvas(CanvasData { custom_paint_source_id: id })),
            ));
            let len = self@.len() as int;
            assert forall|i: int| 0 <= i < len implies node_wf(#[trigger] self@[i], i, len) by {
                assert(node_wf(before[i], i, len));
            }
        }
    }
}


/// The load that setting attribute `name` on node `n` (id `id`) starts: for an element in
/// the document, an `img`'s `src` loads the image, a `canvas`'s `src` its paint source, a
/// `link`'s `href` its stylesheet, and an `iframe`'s `src` or `srcdoc` its document.
pub open spec fn attribute_set_step(m: RecordsModel, n: Node, id: usize, name: QualName) -> RecordsModel {
    match n.data {
        NodeData::Element(e) => {
            let t = e.name.local@;
            let a = name.local@;
            if !in_document(n) {
                m
            } else if t == "img"@ && a == "src"@ {
                (m.0.push(SpecialOp::LoadImage(id)), m.1, m.2, m.3, m.4)
            } else if t == "canvas"@ && a == "src"@ {
                (m.0.push(SpecialOp::LoadCustomPaintSource(id)), m.1, m.2, m.3, m.4)
            } else if t == "link"@ && a == "href"@ {
                (m.0.push(SpecialOp::LoadStylesheet(id)), m.1, m.2, m.3, m.4)
            } else if t == "iframe"@ && (a == "src"@ || a == "srcdoc"@) {
                (m.0.push(SpecialOp::LoadIframe(id)), m.1, m.2, m.3, m.4)
            } else {
                m
            }
        },
        _ => m,
    }
}

/// What removing attribute `name` from node `n` (id `id`) leaves to be done, when the
/// element had it: a `canvas`'s `src` makes the animation state stale, a `link`'s `href`
/// unloads its stylesheet, and an `iframe`'s `srcdoc`, in the document, loads its
/// document again from `src`.
pub open spec fn attribute_cleared_step(m: RecordsModel, n: Node, id: usize, name: QualName) -> RecordsModel {
    match element_of(n.data) {
        Some(e) => {
            let t = e.name.local@;
            let a = name.local@;
            if find_attr(e.attrs.items(), name).is_none() {
                m
            } else if t == "canvas"@ && a == "src"@ {
                (m.0, m.1, m.2, m.3, true)
            } else if t == "link"@ && a == "href"@ {
                (m.0.push(SpecialOp::UnloadStylesheet(id)), m.1, m.2, m.3, m.4)
            } else if t == "iframe"@ && a == "srcdoc"@ && in_document(n) {
                (m.0.push(SpecialOp::LoadIframe(id)), m.1, m.2, m.3, m.4)
            } else {
                m
            }
        },
        None => m,
    }
}

impl MutationRecords {
    /// Records the load that setting attribute `name` on `node` (id `id`) starts (see
    /// `attribute_set_step`).
    pub fn record_attribute_set(&mut self, node: &Node, id: usize, name: &QualName)
        requires
            old(self).wf(),
        ensures
            final(self).wf(),
            final(self)@ == attribute_set_step(old(self)@, *node, id, *name),
    {
        if let NodeData::Element(e) = &node.data {
            if !node.flags.is_in_document() {
                return;
            }
            let t = e.name.local.as_str();
            let a = name.local.as_str();
            if same_text(t, "img") && same_text(a, "src") {
                self.eager_op_queue.push(SpecialOp::LoadImage(id));
            } else if same_text(t, "canvas") && same_text(a, "src") {
                self.eager_op_queue.push(SpecialOp::LoadCustomPaintSource(id));
            } else if same_text(t, "link") && same_text(a, "href") {
                self.eager_op_queue.push(SpecialOp::LoadStylesheet(id));
            } else if same_text(t, "iframe") && (same_text(a, "src") || same_text(a, "srcdoc")) {
                self.eager_op_queue.push(SpecialOp::LoadIframe(id));
            }
        }
    }

    /// Records what removing attribute `name` from `node` (id `id`) leaves to be done (see
    /// `attribute_cleared_step`); `node` is the node before the removal.
    pub fn record_attribute_cleared(&mut self, node: &Node, id: usize, name: &QualName)
        requires
            old(self).wf(),
        ensures
            final(self).wf(),
            final(self)@ == attribute_cleared_step(old(self)@, *node, id, *name),
    {
        if let Some(e) = node.element_data() {
            if e.attrs.position(name).is_none() {
                return;
            }
            let t = e.name.local.as_str();
            let a = name.local.as_str();
            if same_text(t, "canvas") && same_text(a, "src") {
                self.recompute_is_animating = true;
            } else if same_text(t, "link") && same_text(a, "href") {
                self.eager_op_queue.push(SpecialOp::UnloadStylesheet(id));
            } else if same_text(t, "iframe") && same_text(a, "srcdoc") && node.flags.is_in_document() {
                self.eager_op_queue.push(SpecialOp::LoadIframe(id));
            }
        }
    }
}

impl BaseDocument {
    /// Sets attribute `name` of element `id` to `value` (see `set_attribute`) and records
    /// the load that the change starts (see `attribute_set_step`).
    pub fn set_attribute_recorded(&mut self, records: &mut MutationRecords, id: usize, name: QualName, value: &str)
        requires
            old(self).wf(),
            old(records).wf(),
            id < old(self)@.len(),
        ensures
            final(self).wf(),
            final(records).wf(),
            attribute_set(*old(self), *final(self), id, name, value@),
            final(records)@ == attribute_set_step(old(records)@, old(self)@[id as int], id, name),
            links_agree(old(self)@) ==> links_agree(final(self)@),
    {
        records.record_attribute_set(&self.nodes[id], id, &name);
        self.set_attribute(id, name, value);
    }

    /// Removes attribute `name` of element `id` (see `clear_attribute`) and records what
    /// the removal leaves to be done (see `attribute_cleared_step`).
    pub fn clear_attribute_recorded(&mut self, records: &mut MutationRecords, id: usize, name: QualName)
        requires
            old(self).wf(),
            old(records).wf(),
            id < old(self)@.len(),
        ensures
            final(self).wf(),
            final(records).wf(),
            attribute_cleared(*old(self), *final(self), id, name),
            final(records)@ == attribute_cleared_step(old(records)@, old(self)@[id as int], id, name),
            links_agree(old(self)@) ==> links_agree(final(self)@),
    {
        records.record_attribute_cleared(&self.nodes[id], id, &name);
        self.clear_attribute(id, name);
    }
}

} // verus!
