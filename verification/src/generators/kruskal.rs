use vstd::prelude::*;

use crate::cell::Cell;
use crate::dsu::DisjointSet;
use crate::generators::generator::MazeGenerator;
use crate::grid::{filled_table, lemma_flat_index, table_wf};
use crate::maze::Maze;
use crate::progress::ProgressTracker;

verus! {

/// Kruskal-style generation: every lattice cell is carved up front and every
/// wall between two lattice cells becomes a candidate edge. The edges are
/// shuffled, and an edge is carved exactly when its endpoints still lie in
/// different components of a disjoint-set structure, which yields a uniformly
/// branching spanning tree.
pub struct KruskalMazeGenerator;

/// Both endpoints of a candidate edge are inside the grid.
spec fn edge_ok(e: (usize, usize, usize, usize), height: usize, width: usize) -> bool {
    e.0 < height && e.1 < width && e.2 < height && e.3 < width
}

impl MazeGenerator for KruskalMazeGenerator {
    #[verifier::rlimit(100)]
    fn generate(
        &self,
        height: usize,
        width: usize,
        start: Option<(usize, usize)>,
        end: Option<(usize, usize)>,
        imperfect_percentage: u32,
        tracker: &mut ProgressTracker,
    ) -> (m: Maze)
        ensures
            forall|p: (usize, usize)| p.0 < height && p.1 < width && p.0 % 2 == 1 && p.1 % 2 == 1
                ==> m.cell_at(p.0 as int, p.1 as int) == Cell::Path,
    {
        proof {
            let h = height as int;
            let w = width as int;
            assert(h * 300 <= h * w * 100) by (nonlinear_arith)
                requires w >= 3, h >= 0;
            assert(w * 300 <= h * w * 100) by (nonlinear_arith)
                requires h >= 3, w >= 0;
        }
        let mut cells: Vec<Vec<Cell>> = filled_table(Cell::Wall, height, width);
        let mut walls: Vec<(usize, usize, usize, usize)> = Vec::new();

        let mut r: usize = 1;
        while r < height
            invariant
                width >= 3,
                height * 300 <= usize::MAX,
                width * 300 <= usize::MAX,
                r % 2 == 1,
                table_wf(cells@, height as int, width as int),
                forall|i: int| 0 <= i < walls@.len() ==> edge_ok(#[trigger] walls@[i], height, width),
                forall|p: (usize, usize)| p.0 < height && p.1 < width
                    && p.0 % 2 == 1 && p.1 % 2 == 1 && p.0 < r
                    ==> cells@[p.0 as int]@[p.1 as int] == Cell::Path,
            decreases height + 2 - r,
        {
            let mut c: usize = 1;
            while c < width
                invariant
                    r < height,
                    height * 300 <= usize::MAX,
                    width * 300 <= usize::MAX,
                    r % 2 == 1,
                    c % 2 == 1,
                    table_wf(cells@, height as int, width as int),
                    forall|i: int| 0 <= i < walls@.len() ==> edge_ok(#[trigger] walls@[i], height, width),
                    forall|p: (usize, usize)| p.0 < height && p.1 < width
                        && p.0 % 2 == 1 && p.1 % 2 == 1 && (p.0 < r || (p.0 == r && p.1 < c))
                        ==> cells@[p.0 as int]@[p.1 as int] == Cell::Path,
                decreases width + 2 - c,
            {
                cells[r][c] = Cell::Path;
                if r + 2 < height {
                    walls.push((r, c, r + 2, c));
                }
                if c + 2 < width {
                    walls.push((r, c, r, c + 2));
                }
                c += 2;
            }
            r += 2;
        }

        let mut tr: usize = 1;
        while tr < height
            invariant
                width >= 3,
                height * 300 <= usize::MAX,
                width * 300 <= usize::MAX,
                tracker.enabled == old(tracker).enabled,
                old(tracker).history@.is_prefix_of(tracker.history@),
            decreases height + 2 - tr,
        {
            let mut tc: usize = 1;
            while tc < width
                invariant
                    height * 300 <= usize::MAX,
                    width * 300 <= usize::MAX,
                    tracker.enabled == old(tracker).enabled,
                    old(tracker).history@.is_prefix_of(tracker.history@),
                decreases width + 2 - tc,
            {
                tracker.record(tr, tc, Cell::Path);
                tc += 2;
            }
            tr += 2;
        }

        proof {
            let h = height as int;
            let w = width as int;
            assert(h * w <= h * w * 100) by (nonlinear_arith)
                requires 0 <= h * w;
        }
        let mut dset = DisjointSet::new(height * width);
        let ghost w0 = walls@;
        crate::random::shuffle(&mut walls);
        proof {
            broadcast use vstd::seq_lib::group_to_multiset_ensures;
            assert forall|i: int| 0 <= i < walls@.len()
                implies edge_ok(#[trigger] walls@[i], height, width) by {
                assert(walls@.contains(walls@[i]));
                assert(walls@.to_multiset().count(walls@[i]) > 0);
                assert(w0.contains(walls@[i]));
                let j = choose|j: int| 0 <= j < w0.len() && w0[j] == walls@[i];
            }
        }

        let mut i: usize = 0;
        while i < walls.len()
            invariant
                i <= walls@.len(),
                height >= 3,
                width >= 3,
                height * width * 100 <= usize::MAX,
                height * 300 <= usize::MAX,
                width * 300 <= usize::MAX,
                table_wf(cells@, height as int, width as int),
                forall|p: (usize, usize)| p.0 < height && p.1 < width
                    && p.0 % 2 == 1 && p.1 % 2 == 1
                    ==> cells@[p.0 as int]@[p.1 as int] == Cell::Path,
                forall|j: int| 0 <= j < walls@.len() ==> edge_ok(#[trigger] walls@[j], height, width),
                dset.wf(),
                dset.len() == height * width,
                tracker.enabled == old(tracker).enabled,
                old(tracker).history@.is_prefix_of(tracker.history@),
            decreases walls@.len() - i,
        {
            let (r1, c1, r2, c2) = walls[i];
            proof {
                lemma_flat_index(r1 as int, c1 as int, height as int, width as int);
                lemma_flat_index(r2 as int, c2 as int, height as int, width as int);
                let h = height as int;
                let w = width as int;
                assert(h * w <= h * w * 100) by (nonlinear_arith)
                    requires 0 <= h * w;
            }
            let idx1 = r1 * width + c1;
            let idx2 = r2 * width + c2;
            if dset.find(idx1) != dset.find(idx2) {
                dset.union(idx1, idx2);
                let mr = (r1 + r2) / 2;
                let mc = (c1 + c2) / 2;
                cells[mr][mc] = Cell::Path;
                tracker.record(mr, mc, Cell::Path);
            }
            i += 1;
        }

        let start_node = match start {
            Some(s) => s,
            None => (1, 1),
        };
        let end_node = match end {
            Some(e) => e,
            None => (height - 2, width - 2),
        };
        cells[start_node.0][start_node.1] = Cell::Path;
        cells[end_node.0][end_node.1] = Cell::Path;

        let mut maze = Maze { cells, start: start_node, end: end_node };
        if imperfect_percentage > 0 {
            maze.remove_walls(imperfect_percentage);
        }
        maze
    }
}

} // verus!
