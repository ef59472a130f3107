//! The `scrollbar-width` of scroll containers.
use vstd::prelude::*;

use crate::node::Node;

verus! {

/// The computed value of `scrollbar-width`.
#[derive(Clone, Copy, Debug, PartialEq, Eq, Structural)]
pub enum ScrollbarWidth {
    Auto,
    Thin,
    /// `none`: no scrollbar is shown.
    NoScrollbar,
}

impl Default for ScrollbarWidth {
    fn default() -> (r: Self)
        ensures
            r == ScrollbarWidth::Auto,
    {
        ScrollbarWidth::Auto
    }
}

impl Node {
    /// The node's used `scrollbar-width`: the computed styles do not carry the property
    /// yet, so it is always `auto`.
    pub fn scrollbar_width(&self) -> (r: ScrollbarWidth)
        ensures
            r == ScrollbarWidth::Auto,
    {
        ScrollbarWidth::Auto
    }
}

} // verus!
