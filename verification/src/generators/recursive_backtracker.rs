use vstd::prelude::*;

use crate::cell::Cell;
use crate::generators::generator::MazeGenerator;
use crate::grid::{filled_table, lemma_carve, table_wf, wall_count};
use crate::maze::Maze;
use crate::progress::ProgressTracker;

verus! {

/// Depth-first carving with an explicit backtracking stack: from the current
/// cell a random still-walled lattice neighbour is carved and entered; when
/// none is left the generator backtracks. The result is a spanning tree with
/// long corridors and few branch points.
pub struct RecursiveBacktrackerMazeGenerator;

impl MazeGenerator for RecursiveBacktrackerMazeGenerator {
    #[verifier::rlimit(100)]
    fn generate(
        &self,
        height: usize,
        width: usize,
        start: Option<(usize, usize)>,
        end: Option<(usize, usize)>,
        imperfect_percentage: u32,
        tracker: &mut ProgressTracker,
    ) -> (m: Maze) {
        proof {
            let h = height as int;
            let w = width as int;
            assert(h * 300 <= h * w * 100) by (nonlinear_arith)
                requires w >= 3, h >= 0;
            assert(w * 300 <= h * w * 100) by (nonlinear_arith)
                requires h >= 3, w >= 0;
        }
        let mut cells: Vec<Vec<Cell>> = filled_table(Cell::Wall, height, width);

        let start_node = match start {
            Some(s) => s,
            None => (1, 1),
        };
        cells[start_node.0][start_node.1] = Cell::Path;
        tracker.record(start_node.0, start_node.1, Cell::Path);
        let mut stack: Vec<(usize, usize)> = Vec::new();
        stack.push(start_node);

        while stack.len() != 0
            invariant
                height >= 3,
                width >= 3,
                height * 300 <= usize::MAX,
                width * 300 <= usize::MAX,
                table_wf(cells@, height as int, width as int),
                forall|i: int| 0 <= i < stack@.len()
                    ==> (#[trigger] stack@[i]).0 < height && stack@[i].1 < width,
                tracker.enabled == old(tracker).enabled,
                old(tracker).history@.is_prefix_of(tracker.history@),
            decreases wall_count(cells@, height as int), stack@.len(),
        {
            let top = stack[stack.len() - 1];
            let (y, x) = top;
            let mut neighbors: Vec<(usize, usize)> = Vec::new();
            if y > 1 && cells[y - 2][x] == Cell::Wall {
                neighbors.push((y - 2, x));
            }
            if y < height - 2 && cells[y + 2][x] == Cell::Wall {
                neighbors.push((y + 2, x));
            }
            if x > 1 && cells[y][x - 2] == Cell::Wall {
                neighbors.push((y, x - 2));
            }
            if x < width - 2 && cells[y][x + 2] == Cell::Wall {
                neighbors.push((y, x + 2));
            }
            proof {
                assert(forall|i: int| 0 <= i < neighbors@.len() ==> {
                    let q = #[trigger] neighbors@[i];
                    q.0 < height && q.1 < width
                        && cells@[q.0 as int]@[q.1 as int] == Cell::Wall
                });
            }
            match crate::random::choose_coord(&neighbors) {
                Some(next_cell) => {
                    let (ny, nx) = next_cell;
                    proof {
                        let i = choose|i: int|
                            0 <= i < neighbors@.len() && neighbors@[i] == next_cell;
                    }
                    let ghost cells0 = cells@;
                    cells[ny][nx] = Cell::Path;
                    proof {
                        lemma_carve(cells0, cells@, ny as int, nx as int, height as int);
                    }
                    let my = (y + ny) / 2;
                    let mx = (x + nx) / 2;
                    let ghost cells1 = cells@;
                    cells[my][mx] = Cell::Path;
                    proof {
                        lemma_carve(cells1, cells@, my as int, mx as int, height as int);
                    }
                    tracker.record(ny, nx, Cell::Path);
                    tracker.record(my, mx, Cell::Path);
                    stack.push(next_cell);
                }
                None => {
                    let _ = stack.pop();
                }
            }
        }

        let end_node = match end {
            Some(e) => e,
            None => (height - 2, width - 2),
        };
        cells[start_node.0][start_node.1] = Cell::Path;
        cells[end_node.0][end_node.1] = Cell::Path;

        let mut maze = Maze { cells, start: start_node, end: end_node };
        if imperfect_percentage > 0 {
            maze.remove_walls(imperfect_percentage);
        }
        maze
    }
}

} // verus!
