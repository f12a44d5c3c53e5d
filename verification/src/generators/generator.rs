use vstd::prelude::*;

use crate::maze::Maze;
use crate::progress::ProgressTracker;

verus! {

/// A maze construction strategy.
///
/// `generate` builds a `height` x `width` grid of walls, carves corridors over
/// the odd-coordinate lattice, and finally forces the start and end cells
/// open. When no start or end is supplied they default to `(1, 1)` and
/// `(height - 2, width - 2)`. An `imperfect_percentage` above zero then turns
/// that share of the remaining interior walls into open cells, trading the
/// perfect maze for one with cycles. Carved cells are appended to `tracker`
/// for later animation.
pub trait MazeGenerator {
    fn generate(
        &self,
        height: usize,
        width: usize,
        start: Option<(usize, usize)>,
        end: Option<(usize, usize)>,
        imperfect_percentage: u32,
        tracker: &mut ProgressTracker,
    ) -> (m: Maze)
        requires
            height >= 3,
            width >= 3,
            height * width * 100 <= usize::MAX,
            start matches Some(s) ==> s.0 < height && s.1 < width,
            end matches Some(e) ==> e.0 < height && e.1 < width,
        ensures
            m.wf(),
            m.rows() == height,
            m.cols() == width,
            m.start == (match start {
                Some(s) => s,
                None => (1usize, 1usize),
            }),
            m.end == (match end {
                Some(e) => e,
                None => (((height - 2) as usize), ((width - 2) as usize)),
            }),
            m.open_at(m.start),
            m.open_at(m.end),
            final(tracker).enabled == old(tracker).enabled,
            old(tracker).history@.is_prefix_of(final(tracker).history@),
    ;
}

} // verus!
