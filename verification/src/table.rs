//! Table layout support: the child ids of a table's cell grid.
use vstd::prelude::*;

verus! {

/// The ids `start..end` of a table's cells, handed out in order.
pub struct RangeIter {
    pub start: usize,
    pub end: usize,
}

impl RangeIter {
    /// The ids from `start` up to (but not including) `end`.
    pub fn new(start: usize, end: usize) -> (r: Self)
        ensures
            r.start == start,
            r.end == end,
    {
        RangeIter { start, end }
    }

    /// The next id, if any is left.
    pub fn next(&mut self) -> (r: Option<usize>)
        ensures
            old(self).start < old(self).end ==> r == Some(old(self).start) && final(self).start == old(self).start + 1
                && final(self).end == old(self).end,
            old(self).start >= old(self).end ==> r.is_none() && *final(self) == *old(self),
    {
        if self.start < self.end {
            let id = self.start;
            self.start = self.start + 1;
            Some(id)
        } else {
            None
        }
    }
}

} // verus!
