//! Replaced elements: those laid out as a leaf box with an intrinsic size, and the
//! block containers that `text-overflow` applies to.
use vstd::prelude::*;

use crate::node::{DisplayInside, ElementStyle};
use crate::utf8_text::same_text;

verus! {

/// Whether an element with local name `tag` is a replaced element: `img`, `svg`, `canvas`,
/// `video`, `embed` or `iframe`. `object` is not one, so that its fallback children render
/// when it has no resource.
pub open spec fn replaced_tag(tag: Seq<char>) -> bool {
    tag == "img"@ || tag == "svg"@ || tag == "canvas"@ || tag == "video"@ || tag == "embed"@
        || tag == "iframe"@
}

/// Whether an element with local name `tag_name` is a replaced element (see `replaced_tag`).
pub fn is_replaced_element(tag_name: &str) -> (r: bool)
    ensures
        r == replaced_tag(tag_name@),
{
    same_text(tag_name, "img") || same_text(tag_name, "svg") || same_text(tag_name, "canvas")
        || same_text(tag_name, "video") || same_text(tag_name, "embed") || same_text(tag_name, "iframe")
}

/// Whether `style` describes a block container: its inner display is `flow` or
/// `flow-root`.
pub open spec fn block_container(style: ElementStyle) -> bool {
    style.display_inside is Flow || style.display_inside is FlowRoot
}

/// Whether `style` describes a block container (see `block_container`): `text-overflow`
/// applies to those only, not to the anonymous wrappers of flex or grid items.
pub fn is_block_container(style: &ElementStyle) -> (r: bool)
    ensures
        r == block_container(*style),
{
    match style.display_inside {
        DisplayInside::Flow | DisplayInside::FlowRoot => true,
        _ => false,
    }
}

} // verus!
