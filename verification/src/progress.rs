use vstd::prelude::*;

use crate::cell::Cell;

verus! {

/// An append-only log of `(row, col, resulting cell state)` events. When
/// disabled, `record` is a no-op, so algorithms can report unconditionally.
pub struct ProgressTracker {
    pub history: Vec<(usize, usize, Cell)>,
    pub enabled: bool,
}

impl ProgressTracker {
    pub fn new(enabled: bool) -> (r: Self)
        ensures
            r.history@ == Seq::<(usize, usize, Cell)>::empty(),
            r.enabled == enabled,
    {
        Self { history: Vec::new(), enabled }
    }

    pub fn record(&mut self, y: usize, x: usize, cell: Cell)
        ensures
            final(self).enabled == old(self).enabled,
            old(self).enabled ==> final(self).history@ == old(self).history@.push((y, x, cell)),
            !old(self).enabled ==> final(self).history@ == old(self).history@,
    {
        if self.enabled {
            self.history.push((y, x, cell));
        }
    }
}

} // verus!
