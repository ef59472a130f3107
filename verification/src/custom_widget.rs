//! The state custom widgets share with the document.
use vstd::prelude::*;

verus! {

/// Context passed to a widget while it paints: lets it ask for another frame.
pub struct WidgetPaintContext {
    redraw_requested: bool,
}

impl WidgetPaintContext {
    /// Whether the widget has asked for a redraw.
    pub closed spec fn wants_redraw(&self) -> bool {
        self.redraw_requested
    }

    /// A context in which no redraw has been requested.
    pub fn new() -> (r: Self)
        ensures
            !r.wants_redraw(),
    {
        WidgetPaintContext { redraw_requested: false }
    }

    /// Requests that the document be redrawn; widgets that animate call this each time
    /// they paint, to schedule another frame.
    pub fn request_redraw(&mut self)
        ensures
            final(self).wants_redraw(),
    {
        self.redraw_requested = true;
    }

    /// Whether the widget has requested a redraw.
    pub fn redraw_requested(&self) -> (r: bool)
        ensures
            r == self.wants_redraw(),
    {
        self.redraw_requested
    }
}

impl Default for WidgetPaintContext {
    fn default() -> (r: Self)
        ensures
            !r.wants_redraw(),
    {
        WidgetPaintContext::new()
    }
}

/// Where a custom widget is in its life.
#[derive(Debug, Copy, Clone, Eq, PartialEq, Structural)]
pub enum CustomWidgetStatus {
    Suspended,
    Active,
    PendingRemoval,
}

} // verus!
