//! Text selection state for non-input elements.
//!
//! A selection spans inline roots in the document, including anonymous blocks, whose
//! ids are unstable across layout reconstruction: for those an endpoint stores the
//! stable parent id and the index among the parent's anonymous children instead.
use vstd::prelude::*;

verus! {

/// One endpoint (anchor or focus) of a text selection.
///
/// For regular nodes, `node_or_parent` holds the node id directly. For anonymous blocks,
/// `node_or_parent` holds the parent id and `sibling_index` the index among the
/// anonymous siblings.
#[derive(Clone, Copy, Debug)]
pub struct SelectionEndpoint {
    /// For regular nodes: the node id. For anonymous blocks: the parent id.
    pub node_or_parent: Option<usize>,
    /// Byte offset within the inline root's text.
    pub offset: usize,
    /// For anonymous blocks only: index among anonymous siblings.
    pub sibling_index: Option<usize>,
}

impl SelectionEndpoint {
    /// Creates an endpoint at the given (non-anonymous) node and offset.
    pub fn new(node: usize, offset: usize) -> (r: Self)
        ensures
            r.node_or_parent == Some(node),
            r.offset == offset,
            r.sibling_index.is_none(),
    {
        SelectionEndpoint { node_or_parent: Some(node), offset, sibling_index: None }
    }

    /// Whether this endpoint is set.
    pub fn is_some(&self) -> (r: bool)
        ensures
            r == self.node_or_parent.is_some(),
    {
        self.node_or_parent.is_some()
    }

    /// Clears this endpoint.
    pub fn clear(&mut self)
        ensures
            final(self).node_or_parent.is_none(),
            final(self).offset == 0,
            final(self).sibling_index.is_none(),
    {
        self.node_or_parent = None;
        self.offset = 0;
        self.sibling_index = None;
    }

    /// Resolves the node id, using `lookup_fn(parent, sibling_index)` for anonymous blocks.
    pub fn resolve_node_id(&self, lookup_fn: impl FnOnce(usize, usize) -> Option<usize>) -> (r:
        Option<usize>)
        requires
            self.node_or_parent.is_some() && self.sibling_index.is_some() ==> call_requires(
                lookup_fn,
                (self.node_or_parent.unwrap(), self.sibling_index.unwrap()),
            ),
        ensures
            self.node_or_parent.is_some() && self.sibling_index.is_some() ==> call_ensures(
                lookup_fn,
                (self.node_or_parent.unwrap(), self.sibling_index.unwrap()),
                r,
            ),
            self.node_or_parent.is_none() ==> r.is_none(),
            self.sibling_index.is_none() ==> r == self.node_or_parent,
    {
        match (self.node_or_parent, self.sibling_index) {
            (Some(node), None) => Some(node),
            (Some(parent), Some(idx)) => lookup_fn(parent, idx),
            _ => None,
        }
    }

    /// Sets this endpoint to a direct node reference (for regular nodes).
    pub fn set_node(&mut self, node: usize, offset: usize)
        ensures
            final(self).node_or_parent == Some(node),
            final(self).offset == offset,
            final(self).sibling_index.is_none(),
    {
        self.node_or_parent = Some(node);
        self.offset = offset;
        self.sibling_index = None;
    }

    /// Sets this endpoint to an anonymous block reference.
    pub fn set_anonymous(&mut self, parent: usize, sibling_index: usize, offset: usize)
        ensures
            final(self).node_or_parent == Some(parent),
            final(self).offset == offset,
            final(self).sibling_index == Some(sibling_index),
    {
        self.node_or_parent = Some(parent);
        self.offset = offset;
        self.sibling_index = Some(sibling_index);
    }
}

impl Default for SelectionEndpoint {
    fn default() -> (r: Self)
        ensures
            r.node_or_parent.is_none(),
            r.offset == 0,
            r.sibling_index.is_none(),
    {
        SelectionEndpoint { node_or_parent: None, offset: 0, sibling_index: None }
    }
}

/// Text selection state for non-input elements: the anchor (where the selection started)
/// and the focus (where it currently ends).
#[derive(Clone, Copy, Debug)]
pub struct TextSelection {
    /// The anchor point (where the selection started via mousedown).
    pub anchor: SelectionEndpoint,
    /// The focus point (where the selection currently ends, updated during drag).
    pub focus: SelectionEndpoint,
}

/// Whether a selection is active: both endpoints are set and they differ (comparing the
/// stored references, not resolved node ids).
pub open spec fn selection_active(s: TextSelection) -> bool {
    &&& s.anchor.node_or_parent.is_some()
    &&& s.focus.node_or_parent.is_some()
    &&& (s.anchor.node_or_parent != s.focus.node_or_parent || s.anchor.sibling_index
        != s.focus.sibling_index || s.anchor.offset != s.focus.offset)
}

impl TextSelection {
    /// Creates a selection spanning from the anchor to the focus.
    pub fn new(anchor_node: usize, anchor_offset: usize, focus_node: usize, focus_offset: usize) -> (r:
        Self)
        ensures
            r.anchor.node_or_parent == Some(anchor_node),
            r.anchor.offset == anchor_offset,
            r.anchor.sibling_index.is_none(),
            r.focus.node_or_parent == Some(focus_node),
            r.focus.offset == focus_offset,
            r.focus.sibling_index.is_none(),
    {
        TextSelection {
            anchor: SelectionEndpoint::new(anchor_node, anchor_offset),
            focus: SelectionEndpoint::new(focus_node, focus_offset),
        }
    }

    /// Whether there is an active (non-empty) selection.
    pub fn is_active(&self) -> (r: bool)
        ensures
            r == selection_active(*self),
    {
        self.anchor.is_some() && self.focus.is_some() && (self.anchor.node_or_parent
            != self.focus.node_or_parent || self.anchor.sibling_index != self.focus.sibling_index
            || self.anchor.offset != self.focus.offset)
    }

    /// Clears the selection.
    pub fn clear(&mut self)
        ensures
            final(self).anchor.node_or_parent.is_none(),
            final(self).anchor.offset == 0,
            final(self).anchor.sibling_index.is_none(),
            final(self).focus.node_or_parent.is_none(),
            final(self).focus.offset == 0,
            final(self).focus.sibling_index.is_none(),
    {
        self.anchor.clear();
        self.focus.clear();
    }

    /// Updates the focus endpoint (for non-anonymous nodes); the anchor is unchanged.
    pub fn set_focus(&mut self, node: usize, offset: usize)
        ensures
            final(self).anchor == old(self).anchor,
            final(self).focus.node_or_parent == Some(node),
            final(self).focus.offset == offset,
            final(self).focus.sibling_index.is_none(),
    {
        self.focus.set_node(node, offset);
    }
}

impl Default for TextSelection {
    fn default() -> (r: Self)
        ensures
            !selection_active(r),
            r.anchor.node_or_parent.is_none(),
            r.focus.node_or_parent.is_none(),
    {
        TextSelection { anchor: SelectionEndpoint::default(), focus: SelectionEndpoint::default() }
    }
}

/// A cleared selection is inactive, and stays inactive until both endpoints are set again.
pub proof fn law_cleared_selection_is_inactive(s: TextSelection)
    requires
        s.anchor.node_or_parent.is_none() || s.focus.node_or_parent.is_none(),
    ensures
        !selection_active(s),
{
}

/// A selection whose focus is moved back onto its anchor (same node, same offset, both
/// regular nodes) is inactive; moved anywhere else from a set anchor, it is active.
pub proof fn law_focus_on_anchor_is_collapsed(s: TextSelection, node: usize, offset: usize)
    requires
        s.anchor.node_or_parent.is_some(),
        s.focus.node_or_parent == Some(node),
        s.focus.offset == offset,
        s.focus.sibling_index.is_none(),
    ensures
        selection_active(s) <==> !(s.anchor.node_or_parent == Some(node) && s.anchor.offset
            == offset && s.anchor.sibling_index.is_none()),
{
}

} // verus!
