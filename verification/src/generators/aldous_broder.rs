use vstd::prelude::*;

use crate::cell::Cell;
use crate::generators::generator::MazeGenerator;
use crate::grid::{filled_table, table_wf};
use crate::maze::Maze;
use crate::progress::ProgressTracker;

verus! {

/// Aldous-Broder generation: a random walk over the lattice cells that carves
/// every cell it visits for the first time, together with the passage it came
/// through. The walk samples spanning trees uniformly, but a random walk
/// alone is not guaranteed to cover the lattice in bounded time, so after a
/// generous step budget the few cells it never reached are carved
/// deterministically, row by row.
pub struct AldousBroderMazeGenerator;

impl MazeGenerator for AldousBroderMazeGenerator {
    #[verifier::rlimit(100)]
    fn generate(
        &self,
        height: usize,
        width: usize,
        start: Option<(usize, usize)>,
        end: Option<(usize, usize)>,
        imperfect_percentage: u32,
        tracker: &mut ProgressTracker,
    ) -> (m: Maze)
        ensures
            forall|p: (usize, usize)| p.0 < height && p.1 < width && p.0 % 2 == 1 && p.1 % 2 == 1
                ==> m.cell_at(p.0 as int, p.1 as int) == Cell::Path,
    {
        proof {
            let h = height as int;
            let w = width as int;
            assert(h * 300 <= h * w * 100) by (nonlinear_arith)
                requires w >= 3, h >= 0;
            assert(w * 300 <= h * w * 100) by (nonlinear_arith)
                requires h >= 3, w >= 0;
            assert((h / 2) * (w / 2) <= h * w) by (nonlinear_arith)
                requires h >= 0, w >= 0;
            let hd = h / 2;
            let wd = w / 2;
            assert(hd * wd >= 1) by (nonlinear_arith)
                requires hd >= 1, wd >= 1;
        }
        let mut cells: Vec<Vec<Cell>> = filled_table(Cell::Wall, height, width);
        let ghost lattice_total = ((height / 2) * (width / 2)) as int;

        let mut unvisited: usize = (height / 2) * (width / 2) - 1;
        let mut cy: usize = crate::random::random_below(height / 2) * 2 + 1;
        let mut cx: usize = crate::random::random_below(width / 2) * 2 + 1;
        cells[cy][cx] = Cell::Path;
        tracker.record(cy, cx, Cell::Path);

        let mut fuel: usize = height * width * 100;
        while unvisited > 0 && fuel > 0
            invariant
                height >= 3,
                width >= 3,
                height * 300 <= usize::MAX,
                width * 300 <= usize::MAX,
                table_wf(cells@, height as int, width as int),
                1 <= cy < height,
                1 <= cx < width,
                cy % 2 == 1,
                cx % 2 == 1,
                unvisited <= lattice_total - 1,
                lattice_total == ((height / 2) * (width / 2)) as int,
                tracker.enabled == old(tracker).enabled,
                old(tracker).history@.is_prefix_of(tracker.history@),
            decreases unvisited, fuel,
        {
            let mut neighbors: Vec<(usize, usize)> = Vec::new();
            if cy > 1 {
                neighbors.push((cy - 2, cx));
            }
            if cy < height - 2 {
                neighbors.push((cy + 2, cx));
            }
            if cx > 1 {
                neighbors.push((cy, cx - 2));
            }
            if cx < width - 2 {
                neighbors.push((cy, cx + 2));
            }
            proof {
                let hd = (height / 2) as int;
                let wd = (width / 2) as int;
                assert(hd * wd >= 2 ==> hd >= 2 || wd >= 2) by (nonlinear_arith)
                    requires hd >= 1, wd >= 1;
                assert(neighbors@.len() >= 1);
            }
            let pick = crate::random::random_below(neighbors.len());
            let (ny, nx) = neighbors[pick];
            if cells[ny][nx] == Cell::Wall {
                cells[ny][nx] = Cell::Path;
                let my = (cy + ny) / 2;
                let mx = (cx + nx) / 2;
                cells[my][mx] = Cell::Path;
                tracker.record(ny, nx, Cell::Path);
                tracker.record(my, mx, Cell::Path);
                unvisited -= 1;
            } else {
                fuel -= 1;
            }
            cy = ny;
            cx = nx;
        }

        // Visit every lattice cell once more: the walk almost surely carved
        // them all, but if the budget ran out the leftovers are linked to the
        // cell before them, so the lattice ends up fully carved either way.
        let mut sr: usize = 1;
        while sr < height
            invariant
                height >= 3,
                width >= 3,
                height * 300 <= usize::MAX,
                width * 300 <= usize::MAX,
                table_wf(cells@, height as int, width as int),
                sr % 2 == 1,
                forall|p: (usize, usize)| p.0 < height && p.1 < width
                    && p.0 % 2 == 1 && p.1 % 2 == 1 && p.0 < sr
                    ==> cells@[p.0 as int]@[p.1 as int] == Cell::Path,
                tracker.enabled == old(tracker).enabled,
                old(tracker).history@.is_prefix_of(tracker.history@),
            decreases height + 2 - sr,
        {
            let mut sc: usize = 1;
            while sc < width
                invariant
                    height >= 3,
                    width >= 3,
                    height * 300 <= usize::MAX,
                    width * 300 <= usize::MAX,
                    sr % 2 == 1,
                    sc % 2 == 1,
                    sr < height,
                    table_wf(cells@, height as int, width as int),
                    forall|p: (usize, usize)| p.0 < height && p.1 < width
                        && p.0 % 2 == 1 && p.1 % 2 == 1 && (p.0 < sr || (p.0 == sr && p.1 < sc))
                        ==> cells@[p.0 as int]@[p.1 as int] == Cell::Path,
                    tracker.enabled == old(tracker).enabled,
                    old(tracker).history@.is_prefix_of(tracker.history@),
                decreases width + 2 - sc,
            {
                let sc_wall = cells[sr][sc] == Cell::Wall;
                if sc_wall {
                    cells[sr][sc] = Cell::Path;
                    tracker.record(sr, sc, Cell::Path);
                    if sc > 1 {
                        cells[sr][sc - 1] = Cell::Path;
                        tracker.record(sr, sc - 1, Cell::Path);
                    } else if sr > 1 {
                        cells[sr - 1][sc] = Cell::Path;
                        tracker.record(sr - 1, sc, Cell::Path);
                    }
                }
                sc += 2;
            }
            sr += 2;
        }

        let start_node = match start {
            Some(s) => s,
            None => (1, 1),
        };
        let end_node = match end {
            Some(e) => e,
            None => (height - 2, width - 2),
        };
        cells[start_node.0][start_node.1] = Cell::Path;
        cells[end_node.0][end_node.1] = Cell::Path;

        let mut maze = Maze { cells, start: start_node, end: end_node };
        if imperfect_percentage > 0 {
            maze.remove_walls(imperfect_percentage);
        }
        maze
    }
}

} // verus!
