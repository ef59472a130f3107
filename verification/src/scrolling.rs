//! Scrolling to URL fragments: deciding what a fragment targets and recording the scroll
//! for the host, which performs it with the layout.
use vstd::prelude::*;

use crate::document::BaseDocument;
use crate::node::Node;
use crate::query_selector::element_by_id;

verus! {

/// How a scroll moves: at once, or animated.
#[derive(Clone, Copy, Debug, PartialEq, Eq, Structural)]
pub enum ScrollBehavior {
    Auto,
    Instant,
    Smooth,
}

/// Where a scrolled-to box ends up within the scrollport, on one axis.
#[derive(Clone, Copy, Debug, PartialEq, Eq, Structural)]
pub enum ScrollLogicalPosition {
    Start,
    Center,
    End,
    Nearest,
}

/// A scroll the document has decided on, for its host to perform with the layout.
#[derive(Clone, Copy, Debug, PartialEq, Eq, Structural)]
pub enum PendingScroll {
    /// Scroll the node into view, aligned as given on the block and inline axes.
    IntoView {
        node: usize,
        behavior: ScrollBehavior,
        block: ScrollLogicalPosition,
        inline: ScrollLogicalPosition,
    },
    /// Scroll the document to its top.
    ToTop { behavior: ScrollBehavior },
}

impl Default for ScrollBehavior {
    fn default() -> (r: Self)
        ensures
            r == ScrollBehavior::Auto,
    {
        ScrollBehavior::Auto
    }
}

/// What percent-decoding `s` and then decoding the bytes as UTF-8 (lossily) gives.
pub uninterp spec fn percent_decoded(s: Seq<char>) -> Seq<char>;

/// Calls `percent_encoding::percent_decode_str` and `decode_utf8_lossy`. Trusted: the
/// result is the one `percent_decoded` names, and a string without `%` decodes to itself
/// (the decoder yields every other byte unchanged, and valid UTF-8 decodes losslessly).
#[verifier::external_body]
fn decode_fragment(fragment: &str) -> (r: String)
    ensures
        r@ == percent_decoded(fragment@),
        !fragment@.contains('%') ==> r@ == fragment@,
{
    percent_encoding::percent_decode_str(fragment).decode_utf8_lossy().into_owned()
}

/// ASCII lowercase of a character (others unchanged).
pub open spec fn ascii_lower(c: char) -> char {
    if 'A' <= c && c <= 'Z' {
        ((c as u32) + 32) as char
    } else {
        c
    }
}

/// Whether `a` and `b` are equal ignoring ASCII case.
pub open spec fn eq_ignore_ascii_case(a: Seq<char>, b: Seq<char>) -> bool {
    a.len() == b.len() && forall|i: int| 0 <= i < a.len() ==> ascii_lower(#[trigger] a[i]) == ascii_lower(b[i])
}

fn lower(c: char) -> (r: char)
    ensures
        r == ascii_lower(c),
{
    if 'A' <= c && c <= 'Z' {
        ((c as u32) + 32) as u8 as char
    } else {
        c
    }
}

/// Whether `a` and `b` are equal ignoring ASCII case.
pub fn equal_ignoring_ascii_case(a: &str, b: &str) -> (r: bool)
    ensures
        r == eq_ignore_ascii_case(a@, b@),
{
    let n = a.unicode_len();
    if n != b.unicode_len() {
        return false;
    }
    let mut i: usize = 0;
    while i < n
        invariant
            n == a@.len(),
            n == b@.len(),
            i <= n,
            forall|j: int| 0 <= j < i ==> ascii_lower(#[trigger] a@[j]) == ascii_lower(b@[j]),
        decreases n - i,
    {
        if lower(a.get_char(i)) != lower(b.get_char(i)) {
            return false;
        }
        i = i + 1;
    }
    true
}

/// The scroll target of a decoded fragment: `Some(Some(node))` for the element with that
/// id (see `element_by_id`), `Some(None)` for the top of the document
/// (an empty fragment, or `top` in any ASCII case when no element has that id), `None` when
/// the fragment targets nothing.
pub open spec fn fragment_target(nodes: Seq<Node>, decoded: Seq<char>) -> Option<Option<usize>> {
    if decoded.len() > 0 && element_by_id(nodes, decoded).is_some() {
        Some(Some(element_by_id(nodes, decoded)->0 as usize))
    } else if decoded.len() == 0 || eq_ignore_ascii_case(decoded, "top"@) {
        Some(None)
    } else {
        None
    }
}

/// The scroll that targeting `target` with `behavior` asks for.
pub open spec fn scroll_for(target: Option<usize>, behavior: ScrollBehavior) -> PendingScroll {
    match target {
        Some(node) => PendingScroll::IntoView {
            node,
            behavior,
            block: ScrollLogicalPosition::Start,
            inline: ScrollLogicalPosition::Nearest,
        },
        None => PendingScroll::ToTop { behavior },
    }
}

impl BaseDocument {
    /// The element a decoded fragment names: the element of the document whose id it is
    /// (see `element_by_id`).
    pub fn get_fragment_target(&self, id: &str) -> (r: Option<usize>)
        requires
            self.wf(),
        ensures
            match element_by_id(self@, id@) {
                Some(i) => r == Some(i as usize),
                None => r.is_none(),
            },
    {
        self.get_element_by_id(id)
    }

    /// The scroll target of an already decoded fragment (see `fragment_target`).
    pub fn resolve_decoded_fragment(&self, decoded: &str) -> (r: Option<Option<usize>>)
        requires
            self.wf(),
        ensures
            r == fragment_target(self@, decoded@),
    {
        if decoded.unicode_len() > 0 {
            match self.get_fragment_target(decoded) {
                Some(id) => {
                    return Some(Some(id));
                },
                None => {},
            }
        }
        if decoded.unicode_len() == 0 || equal_ignoring_ascii_case(decoded, "top") {
            Some(None)
        } else {
            None
        }
    }

    /// The scroll target of a URL fragment, which is percent-decoded first.
    pub fn resolve_fragment_scroll_target(&self, fragment: &str) -> (r: Option<Option<usize>>)
        requires
            self.wf(),
        ensures
            r == fragment_target(self@, percent_decoded(fragment@)),
    {
        let decoded = decode_fragment(fragment);
        self.resolve_decoded_fragment(decoded.as_str())
    }

    fn scroll_to_fragment_with_behavior(&mut self, fragment: &str, behavior: ScrollBehavior) -> (r: bool)
        requires
            old(self).wf(),
        ensures
            final(self)@ == old(self)@,
            final(self).shadow_hosts == old(self).shadow_hosts,
            final(self).dropped@ == old(self).dropped@,
            final(self).sticky_nodes == old(self).sticky_nodes,
            final(self).mutations_occurred == old(self).mutations_occurred,
            r == fragment_target(old(self)@, percent_decoded(fragment@)).is_some(),
            final(self).pending_scroll == match fragment_target(old(self)@, percent_decoded(fragment@)) {
                Some(target) => Some(scroll_for(target, behavior)),
                None => old(self).pending_scroll,
            },
    {
        match self.resolve_fragment_scroll_target(fragment) {
            Some(Some(node)) => {
                self.pending_scroll = Some(
                    PendingScroll::IntoView {
                        node,
                        behavior,
                        block: ScrollLogicalPosition::Start,
                        inline: ScrollLogicalPosition::Nearest,
                    },
                );
                true
            },
            Some(None) => {
                self.pending_scroll = Some(PendingScroll::ToTop { behavior });
                true
            },
            None => false,
        }
    }

    /// Scrolls to the element targeted by a URL fragment (the part after `#`), jumping at
    /// once: an empty fragment, or `top` when no element has that id, scrolls to the top
    /// of the document. Returns whether a target was found; the scroll is recorded in
    /// `pending_scroll` for the host to perform.
    pub fn scroll_to_fragment(&mut self, fragment: &str) -> (r: bool)
        requires
            old(self).wf(),
        ensures
            final(self)@ == old(self)@,
            final(self).shadow_hosts == old(self).shadow_hosts,
            final(self).dropped@ == old(self).dropped@,
            final(self).sticky_nodes == old(self).sticky_nodes,
            final(self).mutations_occurred == old(self).mutations_occurred,
            r == fragment_target(old(self)@, percent_decoded(fragment@)).is_some(),
            final(self).pending_scroll == match fragment_target(old(self)@, percent_decoded(fragment@)) {
                Some(target) => Some(scroll_for(target, ScrollBehavior::Auto)),
                None => old(self).pending_scroll,
            },
    {
        self.scroll_to_fragment_with_behavior(fragment, ScrollBehavior::Auto)
    }

    /// Like `scroll_to_fragment`, but the scroll is animated.
    pub fn scroll_to_fragment_smooth(&mut self, fragment: &str) -> (r: bool)
        requires
            old(self).wf(),
        ensures
            final(self)@ == old(self)@,
            final(self).shadow_hosts == old(self).shadow_hosts,
            final(self).dropped@ == old(self).dropped@,
            final(self).sticky_nodes == old(self).sticky_nodes,
            final(self).mutations_occurred == old(self).mutations_occurred,
            r == fragment_target(old(self)@, percent_decoded(fragment@)).is_some(),
            final(self).pending_scroll == match fragment_target(old(self)@, percent_decoded(fragment@)) {
                Some(target) => Some(scroll_for(target, ScrollBehavior::Smooth)),
                None => old(self).pending_scroll,
            },
    {
        self.scroll_to_fragment_with_behavior(fragment, ScrollBehavior::Smooth)
    }

    /// Takes the scroll the document has decided on, leaving none.
    pub fn take_pending_scroll(&mut self) -> (r: Option<PendingScroll>)
        ensures
            r == old(self).pending_scroll,
            final(self).pending_scroll.is_none(),
            final(self)@ == old(self)@,
            final(self).shadow_hosts == old(self).shadow_hosts,
            final(self).dropped@ == old(self).dropped@,
            final(self).sticky_nodes == old(self).sticky_nodes,
            final(self).mutations_occurred == old(self).mutations_occurred,
    {
        let r = self.pending_scroll;
        self.pending_scroll = None;
        r
    }
}

} // verus!
