use vstd::prelude::*;

use crate::cell::Cell;
use crate::grid::{filled_table, lemma_mark, table_wf, unmarked};
use crate::maze::{adjacent, lemma_closed_set_covers_path, lemma_neighbor_seq_complete, Maze};
use crate::progress::ProgressTracker;
use crate::queue::Queue;
use crate::solvers::search::{
    dset_of, exact_depths, lemma_walk_respects_depths, parent_ok, rebuild_path,
};
use crate::solvers::solver::Solver;

verus! {

/// Breadth-first search: explores the maze from `start` outward with a FIFO
/// frontier, so cells are processed in non-decreasing distance order. A cell
/// is marked discovered the moment a neighbour first reaches it and is never
/// enqueued twice. Because all edges cost one, a returned path is a shortest
/// one, which the implementation ensures on top of the trait contract.
pub struct BfsSolver;

impl Solver for BfsSolver {
    #[verifier::rlimit(100)]
    fn solve(&self, maze: &Maze, tracker: &mut ProgressTracker) -> (r: Option<Vec<(usize, usize)>>)
        ensures
            r matches Some(p) ==> forall|q: Seq<(usize, usize)>|
                maze.connects(q, maze.start, maze.end) ==> p@.len() <= q.len(),
    {
        let rows = maze.cells.len();
        let cols = maze.cells[0].len();
        let start = maze.start;
        let end = maze.end;

        let mut discovered: Vec<Vec<bool>> = filled_table(false, rows, cols);
        let mut parent: Vec<Vec<(usize, usize)>> = filled_table((0usize, 0usize), rows, cols);
        let ghost mut depth: Map<(usize, usize), nat> = Map::empty();
        let ghost mut processed: Set<(usize, usize)> = Set::empty();
        let mut queue: Queue<(usize, usize)> = Queue::new();

        discovered[start.0][start.1] = true;
        proof {
            depth = depth.insert(start, 0);
        }
        queue.enqueue(start);
        proof {
            assert(queue@[0] == start);
            assert(queue@ =~= seq![start]);
            assert forall|p: (usize, usize)|
                dset_of(discovered@, rows as int, cols as int).contains(p)
                    implies queue@.contains(p) || processed.contains(p) by {
                assert(p == start);
            }
        }

        while queue.length() != 0
            invariant
                maze.wf(),
                rows == maze.rows(),
                cols == maze.cols(),
                start == maze.start,
                end == maze.end,
                table_wf(discovered@, rows as int, cols as int),
                table_wf(parent@, rows as int, cols as int),
                dset_of(discovered@, rows as int, cols as int).contains(start),
                parent_ok(maze, dset_of(discovered@, rows as int, cols as int), parent@, depth, start),
                exact_depths(dset_of(discovered@, rows as int, cols as int), parent@, depth, start),
                forall|i: int| 0 <= i < queue@.len()
                    ==> dset_of(discovered@, rows as int, cols as int).contains(#[trigger] queue@[i]),
                forall|p: (usize, usize)| dset_of(discovered@, rows as int, cols as int).contains(p)
                    ==> queue@.contains(p) || processed.contains(p),
                forall|p: (usize, usize)| #[trigger] processed.contains(p)
                    ==> dset_of(discovered@, rows as int, cols as int).contains(p) && p != end,
                forall|p: (usize, usize), n: (usize, usize)|
                    processed.contains(p) && maze.open_at(n) && #[trigger] adjacent(p, n)
                        ==> dset_of(discovered@, rows as int, cols as int).contains(n)
                            && depth[n] <= depth[p] + 1,
                forall|i: int, j: int| #![trigger queue@[i], queue@[j]]
                    0 <= i <= j < queue@.len() ==> depth[queue@[i]] <= depth[queue@[j]],
                queue@.len() > 0 ==> depth[queue@.last()] <= depth[queue@[0]] + 1,
                forall|c: (usize, usize), i: int| #![trigger processed.contains(c), queue@[i]]
                    processed.contains(c) && 0 <= i < queue@.len() ==> depth[c] <= depth[queue@[i]],
                processed.contains(start) || queue@ == seq![start],
                tracker.enabled == old(tracker).enabled,
                old(tracker).history@.is_prefix_of(tracker.history@),
            decreases unmarked(discovered@, rows as int), queue@.len(),
        {
            let ghost u0 = unmarked(discovered@, rows as int);
            let ghost old_q = queue@;
            let cur = queue.dequeue().unwrap();
            let ghost q0 = queue@.len();
            proof {
                assert forall|p: (usize, usize)|
                    dset_of(discovered@, rows as int, cols as int).contains(p)
                        implies queue@.contains(p) || processed.contains(p) || p == cur by {
                    if !processed.contains(p) && p != cur {
                        let i = choose|i: int| 0 <= i < old_q.len() && old_q[i] == p;
                        assert(queue@[i - 1] == p);
                    }
                }
                assert forall|i: int| 0 <= i < queue@.len()
                    implies depth[cur] <= depth[#[trigger] queue@[i]]
                        && depth[queue@[i]] <= depth[cur] + 1 by {
                    assert(queue@[i] == old_q[i + 1]);
                    assert(depth[old_q[0]] <= depth[old_q[i + 1]]);
                    assert(depth[old_q[i + 1]] <= depth[old_q.last()]);
                }
                assert forall|c: (usize, usize)| #[trigger] processed.contains(c)
                    implies depth[c] <= depth[cur] by {
                    assert(depth[c] <= depth[old_q[0]]);
                }
            }
            let (row, col) = cur;
            tracker.record(row, col, Cell::Path);
            if row == end.0 && col == end.1 {
                let path = rebuild_path(
                    maze,
                    &parent,
                    cur,
                    Ghost(dset_of(discovered@, rows as int, cols as int)),
                    Ghost(depth),
                );
                proof {
                    let ds = dset_of(discovered@, rows as int, cols as int);
                    assert(cur == end);
                    assert(maze.connects(path@, start, end));
                    assert(maze.has_path(start, end));
                    assert(path@.len() == depth[cur] + 1);
                    assert forall|q: Seq<(usize, usize)>| maze.connects(q, start, end)
                        implies path@.len() <= q.len() by {
                        if cur == start {
                            assert(depth[cur] == 0);
                        } else {
                            assert(processed.contains(start));
                            assert(depth[start] == 0);
                            assert forall|c: (usize, usize)|
                                ds.contains(c) && !processed.contains(c)
                                    implies depth[c] >= depth[cur] by {
                                if c != cur {
                                    let i = choose|i: int|
                                        0 <= i < queue@.len() && queue@[i] == c;
                                    assert(queue@[i] == old_q[i + 1]);
                                    assert(depth[old_q[0]] <= depth[old_q[i + 1]]);
                                }
                            }
                            lemma_walk_respects_depths(
                                maze, processed, ds, depth, depth[cur], q, 0,
                            );
                            assert(q.last() == end);
                            assert(!processed.contains(end));
                        }
                    }
                }
                return Some(path);
            }
            let neighbors = Maze::get_neighbors(row, col, rows, cols);
            proof {
                crate::maze::lemma_neighbor_seq_sound(row, col, rows, cols);
            }
            let ghost nseq = neighbors@;
            for k in 0..neighbors.len()
                invariant
                    maze.wf(),
                    rows == maze.rows(),
                    cols == maze.cols(),
                    start == maze.start,
                    end == maze.end,
                    row == cur.0,
                    col == cur.1,
                    cur != end,
                    row < rows,
                    col < cols,
                    nseq == crate::maze::neighbor_seq(row, col, rows, cols),
                    neighbors@ == nseq,
                    table_wf(discovered@, rows as int, cols as int),
                    table_wf(parent@, rows as int, cols as int),
                    dset_of(discovered@, rows as int, cols as int).contains(start),
                    dset_of(discovered@, rows as int, cols as int).contains(cur),
                    parent_ok(maze, dset_of(discovered@, rows as int, cols as int), parent@, depth, start),
                    exact_depths(dset_of(discovered@, rows as int, cols as int), parent@, depth, start),
                    forall|i: int| 0 <= i < queue@.len()
                        ==> dset_of(discovered@, rows as int, cols as int).contains(#[trigger] queue@[i]),
                    forall|p: (usize, usize)| dset_of(discovered@, rows as int, cols as int).contains(p)
                        ==> queue@.contains(p) || processed.contains(p) || p == cur,
                    forall|p: (usize, usize)| #[trigger] processed.contains(p)
                        ==> dset_of(discovered@, rows as int, cols as int).contains(p) && p != end,
                    forall|p: (usize, usize), n: (usize, usize)|
                        processed.contains(p) && maze.open_at(n) && #[trigger] adjacent(p, n)
                            ==> dset_of(discovered@, rows as int, cols as int).contains(n)
                                && depth[n] <= depth[p] + 1,
                    forall|i: int| 0 <= i < queue@.len()
                        ==> depth[cur] <= depth[#[trigger] queue@[i]]
                            && depth[queue@[i]] <= depth[cur] + 1,
                    forall|i: int, j: int| #![trigger queue@[i], queue@[j]]
                        0 <= i <= j < queue@.len() ==> depth[queue@[i]] <= depth[queue@[j]],
                    forall|c: (usize, usize)| #[trigger] processed.contains(c)
                        ==> depth[c] <= depth[cur],
                    processed.contains(start) || cur == start,
                    forall|j: int| 0 <= j < k && maze.open_at(#[trigger] nseq[j])
                        ==> dset_of(discovered@, rows as int, cols as int).contains(nseq[j])
                            && depth[nseq[j]] <= depth[cur] + 1,
                    unmarked(discovered@, rows as int) < u0
                        || (unmarked(discovered@, rows as int) == u0 && queue@.len() == q0),
                    tracker.enabled == old(tracker).enabled,
                    old(tracker).history@.is_prefix_of(tracker.history@),
            {
                let (nr, nc) = neighbors[k];
                if maze.cells[nr][nc] != Cell::Wall && !discovered[nr][nc] {
                    let ghost d_old = discovered@;
                    discovered[nr][nc] = true;
                    parent[nr][nc] = (row, col);
                    proof {
                        depth = depth.insert((nr, nc), depth[cur] + 1);
                        lemma_mark(d_old, discovered@, nr as int, nc as int, rows as int);
                        assert(dset_of(discovered@, rows as int, cols as int)
                            =~= dset_of(d_old, rows as int, cols as int).insert((nr, nc)));
                    }
                    let ghost mid_q = queue@;
                    queue.enqueue((nr, nc));
                    proof {
                        assert(queue@[queue@.len() - 1] == (nr, nc));
                        assert forall|p: (usize, usize)|
                            dset_of(discovered@, rows as int, cols as int).contains(p)
                                implies queue@.contains(p) || processed.contains(p) || p == cur by {
                            if p != (nr, nc) && !processed.contains(p) && p != cur {
                                assert(dset_of(d_old, rows as int, cols as int).contains(p));
                                let i = choose|i: int| 0 <= i < mid_q.len() && mid_q[i] == p;
                                assert(queue@[i] == p);
                            }
                        }
                        assert forall|i: int| 0 <= i < queue@.len()
                            implies depth[cur] <= depth[#[trigger] queue@[i]]
                                && depth[queue@[i]] <= depth[cur] + 1 by {
                            if i < queue@.len() - 1 {
                                assert(queue@[i] == mid_q[i]);
                                assert(dset_of(d_old, rows as int, cols as int).contains(mid_q[i]));
                                assert(mid_q[i] != (nr, nc));
                            }
                        }
                        assert forall|i: int, j: int|
                            0 <= i <= j < queue@.len()
                                implies depth[#[trigger] queue@[i]] <= depth[#[trigger] queue@[j]] by {
                            if j < queue@.len() - 1 {
                                assert(queue@[i] == mid_q[i]);
                                assert(queue@[j] == mid_q[j]);
                            } else if i < queue@.len() - 1 {
                                assert(queue@[i] == mid_q[i]);
                            }
                        }
                        assert(depth[nseq[k as int]] == depth[cur] + 1);
                    }
                } else {
                    proof {
                        let n = (nr, nc);
                        if maze.open_at(n) {
                            assert(dset_of(discovered@, rows as int, cols as int).contains(n));
                            if !processed.contains(n) && n != cur {
                                assert(queue@.contains(n));
                                let i = choose|i: int| 0 <= i < queue@.len() && queue@[i] == n;
                                assert(depth[queue@[i]] <= depth[cur] + 1);
                            }
                        }
                    }
                }
            }
            proof {
                processed = processed.insert(cur);
                assert forall|p: (usize, usize), n: (usize, usize)|
                    processed.contains(p) && maze.open_at(n) && #[trigger] adjacent(p, n)
                        implies dset_of(discovered@, rows as int, cols as int).contains(n)
                            && depth[n] <= depth[p] + 1 by {
                    if p == cur {
                        lemma_neighbor_seq_complete(row, col, rows, cols, n);
                        let j = choose|j: int| 0 <= j < nseq.len() && nseq[j] == n;
                        assert(maze.open_at(nseq[j]));
                    }
                }
            }
        }
        proof {
            let ds = dset_of(discovered@, rows as int, cols as int);
            assert forall|a: (usize, usize), b: (usize, usize)|
                ds.contains(a) && maze.open_at(b) && #[trigger] adjacent(a, b)
                    implies ds.contains(b) by {
                assert(processed.contains(a));
            }
            assert(!maze.has_path(start, end)) by {
                if maze.has_path(start, end) {
                    let p = choose|p: Seq<(usize, usize)>| maze.connects(p, start, end);
                    lemma_closed_set_covers_path(maze, ds, p);
                    assert(ds.contains(end));
                    assert(processed.contains(end));
                    assert(false);
                }
            }
        }
        None
    }
}

} // verus!
