use vstd::prelude::*;

use crate::cell::Cell;
use crate::grid::{filled_table, lemma_mark, table_wf, unmarked};
use crate::maze::{adjacent, lemma_closed_set_covers_path, lemma_neighbor_seq_complete, Maze};
use crate::progress::ProgressTracker;
use crate::solvers::search::{dset_of, parent_ok, rebuild_path};
use crate::solvers::solver::Solver;
use crate::stack::Stack;

verus! {

/// Depth-first search: explores the maze from `start` with a LIFO frontier,
/// so it dives as deep as possible before backtracking. It returns some path,
/// not necessarily a shortest one. The canonical visited policy here is to
/// mark a cell the moment a neighbour first reaches it, so the stack never
/// holds a cell twice and each cell keeps its first discoverer as parent.
pub struct DfsSolver;

impl Solver for DfsSolver {
    #[verifier::rlimit(100)]
    fn solve(&self, maze: &Maze, tracker: &mut ProgressTracker) -> (r: Option<Vec<(usize, usize)>>) {
        let rows = maze.cells.len();
        let cols = maze.cells[0].len();
        let start = maze.start;
        let end = maze.end;

        let mut discovered: Vec<Vec<bool>> = filled_table(false, rows, cols);
        let mut parent: Vec<Vec<(usize, usize)>> = filled_table((0usize, 0usize), rows, cols);
        let ghost mut depth: Map<(usize, usize), nat> = Map::empty();
        let ghost mut processed: Set<(usize, usize)> = Set::empty();
        let mut stack: Stack<(usize, usize)> = Stack::new();

        discovered[start.0][start.1] = true;
        proof {
            depth = depth.insert(start, 0);
        }
        stack.push(start);
        proof {
            assert(stack@[0] == start);
            assert forall|p: (usize, usize)|
                dset_of(discovered@, rows as int, cols as int).contains(p)
                    implies stack@.contains(p) || processed.contains(p) by {
                assert(p == start);
            }
        }

        while stack.length() != 0
            invariant
                maze.wf(),
                rows == maze.rows(),
                cols == maze.cols(),
                start == maze.start,
                end == maze.end,
                table_wf(discovered@, rows as int, cols as int),
                table_wf(parent@, rows as int, cols as int),
                dset_of(discovered@, rows as int, cols as int).contains(start),
                parent_ok(maze, dset_of(discovered@, rows as int, cols as int), parent@, depth, start),
                forall|i: int| 0 <= i < stack@.len()
                    ==> dset_of(discovered@, rows as int, cols as int).contains(#[trigger] stack@[i]),
                forall|p: (usize, usize)| dset_of(discovered@, rows as int, cols as int).contains(p)
                    ==> stack@.contains(p) || processed.contains(p),
                forall|p: (usize, usize)| #[trigger] processed.contains(p)
                    ==> dset_of(discovered@, rows as int, cols as int).contains(p) && p != end,
                forall|p: (usize, usize), n: (usize, usize)|
                    processed.contains(p) && maze.open_at(n) && #[trigger] adjacent(p, n)
                        ==> dset_of(discovered@, rows as int, cols as int).contains(n),
                tracker.enabled == old(tracker).enabled,
                old(tracker).history@.is_prefix_of(tracker.history@),
            decreases unmarked(discovered@, rows as int), stack@.len(),
        {
            let ghost u0 = unmarked(discovered@, rows as int);
            let ghost old_s = stack@;
            let cur = stack.pop().unwrap();
            let ghost q0 = stack@.len();
            proof {
                assert forall|p: (usize, usize)|
                    dset_of(discovered@, rows as int, cols as int).contains(p)
                        implies stack@.contains(p) || processed.contains(p) || p == cur by {
                    if !processed.contains(p) && p != cur {
                        let i = choose|i: int| 0 <= i < old_s.len() && old_s[i] == p;
                        assert(stack@[i] == p);
                    }
                }
            }
            let (row, col) = cur;
            tracker.record(row, col, Cell::Path);
            if row == end.0 && col == end.1 {
                let path = rebuild_path(
                    maze,
                    &parent,
                    cur,
                    Ghost(dset_of(discovered@, rows as int, cols as int)),
                    Ghost(depth),
                );
                proof {
                    assert(cur == end);
                    assert(maze.connects(path@, start, end));
                    assert(maze.has_path(start, end));
                }
                return Some(path);
            }
            let neighbors = Maze::get_neighbors(row, col, rows, cols);
            proof {
                crate::maze::lemma_neighbor_seq_sound(row, col, rows, cols);
            }
            let ghost nseq = neighbors@;
            for k in 0..neighbors.len()
                invariant
                    maze.wf(),
                    rows == maze.rows(),
                    cols == maze.cols(),
                    start == maze.start,
                    end == maze.end,
                    row == cur.0,
                    col == cur.1,
                    cur != end,
                    row < rows,
                    col < cols,
                    nseq == crate::maze::neighbor_seq(row, col, rows, cols),
                    neighbors@ == nseq,
                    table_wf(discovered@, rows as int, cols as int),
                    table_wf(parent@, rows as int, cols as int),
                    dset_of(discovered@, rows as int, cols as int).contains(start),
                    dset_of(discovered@, rows as int, cols as int).contains(cur),
                    parent_ok(maze, dset_of(discovered@, rows as int, cols as int), parent@, depth, start),
                    forall|i: int| 0 <= i < stack@.len()
                        ==> dset_of(discovered@, rows as int, cols as int).contains(#[trigger] stack@[i]),
                    forall|p: (usize, usize)| dset_of(discovered@, rows as int, cols as int).contains(p)
                        ==> stack@.contains(p) || processed.contains(p) || p == cur,
                    forall|p: (usize, usize)| #[trigger] processed.contains(p)
                        ==> dset_of(discovered@, rows as int, cols as int).contains(p) && p != end,
                    forall|p: (usize, usize), n: (usize, usize)|
                        processed.contains(p) && maze.open_at(n) && #[trigger] adjacent(p, n)
                            ==> dset_of(discovered@, rows as int, cols as int).contains(n),
                    forall|j: int| 0 <= j < k && maze.open_at(#[trigger] nseq[j])
                        ==> dset_of(discovered@, rows as int, cols as int).contains(nseq[j]),
                    unmarked(discovered@, rows as int) < u0
                        || (unmarked(discovered@, rows as int) == u0 && stack@.len() == q0),
                    tracker.enabled == old(tracker).enabled,
                    old(tracker).history@.is_prefix_of(tracker.history@),
            {
                let (nr, nc) = neighbors[k];
                if maze.cells[nr][nc] != Cell::Wall && !discovered[nr][nc] {
                    let ghost d_old = discovered@;
                    discovered[nr][nc] = true;
                    parent[nr][nc] = (row, col);
                    proof {
                        depth = depth.insert((nr, nc), depth[cur] + 1);
                        lemma_mark(d_old, discovered@, nr as int, nc as int, rows as int);
                        assert(dset_of(discovered@, rows as int, cols as int)
                            =~= dset_of(d_old, rows as int, cols as int).insert((nr, nc)));
                    }
                    let ghost mid_s = stack@;
                    stack.push((nr, nc));
                    proof {
                        assert(stack@[stack@.len() - 1] == (nr, nc));
                        assert forall|p: (usize, usize)|
                            dset_of(discovered@, rows as int, cols as int).contains(p)
                                implies stack@.contains(p) || processed.contains(p) || p == cur by {
                            if p != (nr, nc) && !processed.contains(p) && p != cur {
                                assert(dset_of(d_old, rows as int, cols as int).contains(p));
                                let i = choose|i: int| 0 <= i < mid_s.len() && mid_s[i] == p;
                                assert(stack@[i] == p);
                            }
                        }
                    }
                }
            }
            proof {
                processed = processed.insert(cur);
                assert forall|p: (usize, usize), n: (usize, usize)|
                    processed.contains(p) && maze.open_at(n) && #[trigger] adjacent(p, n)
                        implies dset_of(discovered@, rows as int, cols as int).contains(n) by {
                    if p == cur {
                        lemma_neighbor_seq_complete(row, col, rows, cols, n);
                        let j = choose|j: int| 0 <= j < nseq.len() && nseq[j] == n;
                        assert(maze.open_at(nseq[j]));
                    }
                }
            }
        }
        proof {
            let ds = dset_of(discovered@, rows as int, cols as int);
            assert forall|a: (usize, usize), b: (usize, usize)|
                ds.contains(a) && maze.open_at(b) && #[trigger] adjacent(a, b)
                    implies ds.contains(b) by {
                assert(processed.contains(a));
            }
            assert(!maze.has_path(start, end)) by {
                if maze.has_path(start, end) {
                    let p = choose|p: Seq<(usize, usize)>| maze.connects(p, start, end);
                    lemma_closed_set_covers_path(maze, ds, p);
                    assert(ds.contains(end));
                    assert(processed.contains(end));
                    assert(false);
                }
            }
        }
        None
    }
}

} // verus!
