use vstd::prelude::*;

use crate::cell::Cell;
use crate::generators::generator::MazeGenerator;
use crate::grid::{filled_table, lemma_carve, table_wf, wall_count};
use crate::maze::Maze;
use crate::progress::ProgressTracker;

verus! {

/// Prim-style generation: starting from one random lattice cell, a frontier
/// of candidate walls adjacent to the carved region is kept, and a uniformly
/// random frontier entry is carved whenever both the candidate cell and the
/// passage towards its parent are still walls. Branches come out shorter and
/// more uniform than with depth-first carving.
pub struct PrimMazeGenerator;

/// Both the candidate cell and its parent lie inside the grid.
spec fn frontier_ok(e: (usize, usize, usize, usize), height: usize, width: usize) -> bool {
    e.0 < height && e.1 < width && e.2 < height && e.3 < width
}

impl MazeGenerator for PrimMazeGenerator {
    #[verifier::rlimit(100)]
    fn generate(
        &self,
        height: usize,
        width: usize,
        start: Option<(usize, usize)>,
        end: Option<(usize, usize)>,
        imperfect_percentage: u32,
        tracker: &mut ProgressTracker,
    ) -> (m: Maze) {
        proof {
            let h = height as int;
            let w = width as int;
            assert(h * 300 <= h * w * 100) by (nonlinear_arith)
                requires w >= 3, h >= 0;
            assert(w * 300 <= h * w * 100) by (nonlinear_arith)
                requires h >= 3, w >= 0;
        }
        let mut cells: Vec<Vec<Cell>> = filled_table(Cell::Wall, height, width);
        let mut walls: Vec<(usize, usize, usize, usize)> = Vec::new();

        let sy = crate::random::random_below(height / 2) * 2 + 1;
        let sx = crate::random::random_below(width / 2) * 2 + 1;
        cells[sy][sx] = Cell::Path;
        tracker.record(sy, sx, Cell::Path);
        if sy > 2 {
            walls.push((sy - 2, sx, sy, sx));
        }
        if sy + 2 < height {
            walls.push((sy + 2, sx, sy, sx));
        }
        if sx > 2 {
            walls.push((sy, sx - 2, sy, sx));
        }
        if sx + 2 < width {
            walls.push((sy, sx + 2, sy, sx));
        }

        while walls.len() != 0
            invariant
                height >= 3,
                width >= 3,
                height * 300 <= usize::MAX,
                width * 300 <= usize::MAX,
                table_wf(cells@, height as int, width as int),
                forall|i: int| 0 <= i < walls@.len()
                    ==> frontier_ok(#[trigger] walls@[i], height, width),
                tracker.enabled == old(tracker).enabled,
                old(tracker).history@.is_prefix_of(tracker.history@),
            decreases wall_count(cells@, height as int), walls@.len(),
        {
            let idx = crate::random::random_below(walls.len());
            let ghost walls0 = walls@;
            let (wy, wx, py, px) = walls.swap_remove(idx);
            proof {
                assert(walls0[idx as int] == (wy, wx, py, px));
                assert forall|i: int| 0 <= i < walls@.len()
                    implies frontier_ok(#[trigger] walls@[i], height, width) by {
                    if i == idx {
                        assert(walls@[i] == walls0[walls0.len() - 1]);
                    } else {
                        assert(walls@[i] == walls0[i]);
                    }
                }
            }
            if cells[wy][wx] == Cell::Wall {
                let by = (wy + py) / 2;
                let bx = (wx + px) / 2;
                if cells[by][bx] == Cell::Wall {
                    let ghost cells0 = cells@;
                    cells[wy][wx] = Cell::Path;
                    proof {
                        lemma_carve(cells0, cells@, wy as int, wx as int, height as int);
                    }
                    let ghost cells1 = cells@;
                    cells[by][bx] = Cell::Path;
                    proof {
                        lemma_carve(cells1, cells@, by as int, bx as int, height as int);
                    }
                    tracker.record(wy, wx, Cell::Path);
                    tracker.record(by, bx, Cell::Path);
                    if wy > 2 && cells[wy - 2][wx] == Cell::Wall {
                        walls.push((wy - 2, wx, wy, wx));
                    }
                    if wy + 2 < height && cells[wy + 2][wx] == Cell::Wall {
                        walls.push((wy + 2, wx, wy, wx));
                    }
                    if wx > 2 && cells[wy][wx - 2] == Cell::Wall {
                        walls.push((wy, wx - 2, wy, wx));
                    }
                    if wx + 2 < width && cells[wy][wx + 2] == Cell::Wall {
                        walls.push((wy, wx + 2, wy, wx));
                    }
                }
            }
        }

        let start_node = match start {
            Some(s) => s,
            None => (1, 1),
        };
        let end_node = match end {
            Some(e) => e,
            None => (height - 2, width - 2),
        };
        cells[start_node.0][start_node.1] = Cell::Path;
        cells[end_node.0][end_node.1] = Cell::Path;

        let mut maze = Maze { cells, start: start_node, end: end_node };
        if imperfect_percentage > 0 {
            maze.remove_walls(imperfect_percentage);
        }
        maze
    }
}

} // verus!
