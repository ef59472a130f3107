//! Which elements take part in the selection of a responsive image source.
use vstd::prelude::*;

use crate::document::{looked_up, node_wf, BaseDocument};
use crate::node::{attr_value, element_of, Node};

verus! {

/// Whether `n` is an element with local name `tag`.
pub open spec fn is_tag(n: Node, tag: Seq<char>) -> bool {
    element_of(n.data) matches Some(e) && e.name.local@ == tag
}

/// Whether the image element `id` picks its source from a `srcset` attribute or a
/// `<picture>` parent (and so must pick again when the environment changes).
pub open spec fn uses_srcset_or_picture(doc: BaseDocument, id: int) -> bool {
    let nodes = doc@;
    looked_up(doc, id) && ((element_of(nodes[id].data) matches Some(e) && attr_value(
        e.attrs.items(),
        "srcset"@,
    ).is_some()) || (nodes[id].parent matches Some(p) && looked_up(doc, p as int) && is_tag(
        nodes[p as int],
        "picture"@,
    )))
}

impl BaseDocument {
    /// Whether `id` is an `<img>` element (false for an id that names no node, or a dropped
    /// one).
    pub fn is_img_node(&self, id: usize) -> (r: bool)
        ensures
            r == (looked_up(*self, id as int) && is_tag(self@[id as int], "img"@)),
    {
        match self.get_node(id) {
            Some(n) => n.data.is_element_with_tag_name("img"),
            None => false,
        }
    }

    /// Whether `id` is a `<picture>` element (false for an id that names no node, or a
    /// dropped one).
    pub fn is_picture_node(&self, id: usize) -> (r: bool)
        ensures
            r == (looked_up(*self, id as int) && is_tag(self@[id as int], "picture"@)),
    {
        match self.get_node(id) {
            Some(n) => n.data.is_element_with_tag_name("picture"),
            None => false,
        }
    }

    /// Whether node `id` has a `srcset` attribute or a `<picture>` parent.
    pub fn use_srcset_or_picture(&self, id: usize) -> (r: bool)
        requires
            self.wf(),
        ensures
            r == uses_srcset_or_picture(*self, id as int),
    {
        let node = match self.get_node(id) {
            Some(n) => n,
            None => {
                return false;
            },
        };
        proof {
            assert(node_wf(self@[id as int], id as int, self@.len() as int));
        }
        if node.attr("srcset").is_some() {
            return true;
        }
        match node.parent {
            Some(p) => self.is_picture_node(p),
            None => false,
        }
    }
}

} // verus!
