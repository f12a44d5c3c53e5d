use vstd::prelude::*;

use crate::maze::Maze;
use crate::progress::ProgressTracker;

verus! {

/// A path-finding strategy over a maze.
///
/// `solve` returns a path from `maze.start` to `maze.end` exactly when some
/// sequence of adjacent open cells connects the two; a returned path starts at
/// `maze.start`, ends at `maze.end`, steps only between orthogonally adjacent
/// open cells, and `None` means no such path exists at all. Visited cells are
/// appended to `tracker` for later animation.
pub trait Solver {
    fn solve(&self, maze: &Maze, tracker: &mut ProgressTracker) -> (r: Option<Vec<(usize, usize)>>)
        requires
            maze.wf(),
            maze.rows() * maze.cols() + maze.rows() + maze.cols() <= usize::MAX,
        ensures
            r is Some <==> maze.has_path(maze.start, maze.end),
            r matches Some(p) ==> maze.connects(p@, maze.start, maze.end),
            final(tracker).enabled == old(tracker).enabled,
            old(tracker).history@.is_prefix_of(final(tracker).history@),
    ;
}

/// Two paths between the maze's start and end that are each no longer than
/// every such path have equal length. Breadth-first search, Dijkstra and A*
/// each ensure that bound for their result, so the three always return paths
/// of one length, and any other returned path - depth-first search's, say -
/// is at least as long.
pub proof fn lemma_shortest_paths_equal_length(
    m: &Maze,
    a: Seq<(usize, usize)>,
    b: Seq<(usize, usize)>,
)
    requires
        m.connects(a, m.start, m.end),
        m.connects(b, m.start, m.end),
        forall|q: Seq<(usize, usize)>| m.connects(q, m.start, m.end) ==> a.len() <= q.len(),
        forall|q: Seq<(usize, usize)>| m.connects(q, m.start, m.end) ==> b.len() <= q.len(),
    ensures
        a.len() == b.len(),
{
}

} // verus!
