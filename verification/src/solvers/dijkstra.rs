use vstd::prelude::*;

use crate::cell::Cell;
use vstd::multiset::Multiset;
use crate::grid::{capped, filled_table, lemma_all_unset, lemma_pot_lower, lemma_set, lemma_set_keep, pot, table_wf, unset};
use crate::maze::{adjacent, lemma_closed_set_covers_path, lemma_neighbor_seq_complete, Maze};
use crate::priority_queue::PriorityQueue;
use crate::progress::ProgressTracker;
use crate::solvers::search::{dist_set, lemma_walk_respects_depths, parent_ok, rebuild_path};
use crate::solvers::solver::Solver;

verus! {

/// Dijkstra's algorithm: a minimum priority queue keyed by the accumulated
/// path cost from `start`, with lazy deletion - a popped entry whose priority
/// exceeds the best known cost of its cell is stale and skipped. With every
/// edge costing one this finds the same shortest paths as breadth-first
/// search, but through a heap.
pub struct DijkstraSolver;

impl Solver for DijkstraSolver {
    #[verifier::rlimit(100)]
    fn solve(&self, maze: &Maze, tracker: &mut ProgressTracker) -> (r: Option<Vec<(usize, usize)>>)
        ensures
            r matches Some(p) ==> forall|q: Seq<(usize, usize)>|
                maze.connects(q, maze.start, maze.end) ==> p@.len() <= q.len(),
    {
        let rows = maze.cells.len();
        let cols = maze.cells[0].len();
        let start = maze.start;
        let end = maze.end;
        let ghost cap = (rows * cols + 1) as nat;

        let mut dist: Vec<Vec<usize>> = filled_table(usize::MAX, rows, cols);
        let mut prev: Vec<Vec<(usize, usize)>> = filled_table((0usize, 0usize), rows, cols);
        let ghost mut dmap: Map<(usize, usize), nat> = Map::empty();
        let ghost mut settled: Set<(usize, usize)> = Set::empty();
        let mut queue: PriorityQueue<(usize, usize)> = PriorityQueue::new();

        proof {
            lemma_all_unset(dist@, rows as int, cols as int, rows as int);
        }
        let ghost d0 = dist@;
        dist[start.0][start.1] = 0;
        proof {
            dmap = dmap.insert(start, 0);
            lemma_set(d0, dist@, start.0 as int, start.1 as int, 0, rows as int);
        }
        queue.push((0, start));
        proof {
            assert forall|e: (usize, (usize, usize))| queue@.count(e) > 0 implies e.1 == start by {
                if e != (0usize, start) {
                    assert(Multiset::<(usize, (usize, usize))>::empty().count(e) == 0);
                }
            }
        }

        while queue.length() != 0
            invariant
                maze.wf(),
                rows == maze.rows(),
                cols == maze.cols(),
                start == maze.start,
                end == maze.end,
                maze.rows() * maze.cols() + maze.rows() + maze.cols() <= usize::MAX,
                cap == (rows * cols + 1) as nat,
                table_wf(dist@, rows as int, cols as int),
                table_wf(prev@, rows as int, cols as int),
                queue.wf(),
                dist_set(dist@, rows as int, cols as int).contains(start),
                dist@[start.0 as int]@[start.1 as int] == 0,
                parent_ok(maze, dist_set(dist@, rows as int, cols as int), prev@, dmap, start),
                forall|p: (usize, usize)| dist_set(dist@, rows as int, cols as int).contains(p)
                    ==> dmap.contains_key(p) && dmap[p] == dist@[p.0 as int]@[p.1 as int] as nat,
                forall|e: (usize, (usize, usize))| queue@.count(e) > 0
                    ==> dist_set(dist@, rows as int, cols as int).contains(e.1)
                        && e.0 >= dist@[e.1.0 as int]@[e.1.1 as int],
                forall|p: (usize, usize)| dist_set(dist@, rows as int, cols as int).contains(p)
                    ==> queue@.count((dist@[p.0 as int]@[p.1 as int], p)) > 0 || settled.contains(p),
                forall|p: (usize, usize)| #[trigger] settled.contains(p)
                    ==> dist_set(dist@, rows as int, cols as int).contains(p) && p != end,
                forall|p: (usize, usize), n: (usize, usize)|
                    settled.contains(p) && maze.open_at(n) && #[trigger] adjacent(p, n)
                        ==> dist_set(dist@, rows as int, cols as int).contains(n)
                            && dist@[n.0 as int]@[n.1 as int] <= dist@[p.0 as int]@[p.1 as int] + 1,
                forall|c: (usize, usize), e: (usize, (usize, usize))|
                    #![trigger settled.contains(c), queue@.count(e)]
                    settled.contains(c) && queue@.count(e) > 0
                        ==> dist@[c.0 as int]@[c.1 as int] <= e.0,
                settled.contains(start) || (forall|e: (usize, (usize, usize))|
                    queue@.count(e) > 0 ==> e.1 == start),
                forall|p: (usize, usize)| dist_set(dist@, rows as int, cols as int).contains(p)
                    ==> dist@[p.0 as int]@[p.1 as int] + unset(dist@, rows as int) <= rows * cols,
                tracker.enabled == old(tracker).enabled,
                old(tracker).history@.is_prefix_of(tracker.history@),
            decreases pot(dist@, cap, rows as int), queue@.len(),
        {
            let ghost pot0 = pot(dist@, cap, rows as int);
            let ghost old_pq = queue@;
            let e = queue.pop().unwrap();
            let ghost q0 = queue@.len();
            let (d, cur) = e;
            let (row, col) = cur;
            tracker.record(row, col, Cell::Path);
            if row == end.0 && col == end.1 {
                let path = rebuild_path(
                    maze,
                    &prev,
                    cur,
                    Ghost(dist_set(dist@, rows as int, cols as int)),
                    Ghost(dmap),
                );
                proof {
                    let ds = dist_set(dist@, rows as int, cols as int);
                    assert(cur == end);
                    assert(maze.connects(path@, start, end));
                    assert(maze.has_path(start, end));
                    let dend = dist@[end.0 as int]@[end.1 as int] as nat;
                    assert(path@.len() <= dend + 1);
                    assert forall|q: Seq<(usize, usize)>| maze.connects(q, start, end)
                        implies path@.len() <= q.len() by {
                        if cur == start {
                            assert(dend == 0);
                        } else {
                            assert(settled.contains(start)) by {
                                if !settled.contains(start) {
                                    assert(old_pq.count(e) > 0);
                                    assert(e.1 == start);
                                    assert(false);
                                }
                            }
                            assert(dmap[start] == 0);
                            assert(dend <= d);
                            assert forall|c: (usize, usize)|
                                ds.contains(c) && !settled.contains(c)
                                    implies dmap[c] >= dend by {
                                let tracked_e = (dist@[c.0 as int]@[c.1 as int], c);
                                assert(old_pq.count(tracked_e) > 0);
                                assert(d <= tracked_e.0);
                            }
                            assert forall|c: (usize, usize), n: (usize, usize)|
                                settled.contains(c) && maze.open_at(n) && #[trigger] adjacent(c, n)
                                    implies ds.contains(n) && dmap[n] <= dmap[c] + 1 by {
                            }
                            lemma_walk_respects_depths(
                                maze, settled, ds, dmap, dend, q, 0,
                            );
                            assert(q.last() == end);
                            assert(!settled.contains(end));
                        }
                    }
                }
                return Some(path);
            }
            if d > dist[row][col] {
                // A better cost for this cell was found after this entry was
                // pushed: the entry is stale, and the cell either still has
                // its live entry pending or is settled already.
                continue;
            }
            proof {
                assert(d == dist@[row as int]@[col as int]);
            }
            let neighbors = Maze::get_neighbors(row, col, rows, cols);
            proof {
                crate::maze::lemma_neighbor_seq_sound(row, col, rows, cols);
            }
            let ghost nseq = neighbors@;
            for k in 0..neighbors.len()
                invariant
                    maze.wf(),
                    rows == maze.rows(),
                    cols == maze.cols(),
                    start == maze.start,
                    end == maze.end,
                    maze.rows() * maze.cols() + maze.rows() + maze.cols() <= usize::MAX,
                    cap == (rows * cols + 1) as nat,
                    row == cur.0,
                    col == cur.1,
                    cur != end,
                    row < rows,
                    col < cols,
                    nseq == crate::maze::neighbor_seq(row, col, rows, cols),
                    neighbors@ == nseq,
                    table_wf(dist@, rows as int, cols as int),
                    table_wf(prev@, rows as int, cols as int),
                    queue.wf(),
                    dist_set(dist@, rows as int, cols as int).contains(start),
                    dist_set(dist@, rows as int, cols as int).contains(cur),
                    dist@[row as int]@[col as int] == d,
                    d <= rows * cols,
                    dist@[start.0 as int]@[start.1 as int] == 0,
                    forall|c: (usize, usize)| #[trigger] settled.contains(c)
                        ==> dist@[c.0 as int]@[c.1 as int] <= d,
                    forall|e2: (usize, (usize, usize))| queue@.count(e2) > 0 ==> d <= e2.0,
                    settled.contains(start) || cur == start,
                    parent_ok(maze, dist_set(dist@, rows as int, cols as int), prev@, dmap, start),
                    forall|p: (usize, usize)| dist_set(dist@, rows as int, cols as int).contains(p)
                        ==> dmap.contains_key(p) && dmap[p] == dist@[p.0 as int]@[p.1 as int] as nat,
                    forall|e2: (usize, (usize, usize))| queue@.count(e2) > 0
                        ==> dist_set(dist@, rows as int, cols as int).contains(e2.1)
                            && e2.0 >= dist@[e2.1.0 as int]@[e2.1.1 as int],
                    forall|p: (usize, usize)| dist_set(dist@, rows as int, cols as int).contains(p)
                        ==> queue@.count((dist@[p.0 as int]@[p.1 as int], p)) > 0
                            || settled.contains(p) || p == cur,
                    forall|p: (usize, usize)| #[trigger] settled.contains(p)
                        ==> dist_set(dist@, rows as int, cols as int).contains(p) && p != end,
                    forall|p: (usize, usize), n: (usize, usize)|
                        settled.contains(p) && maze.open_at(n) && #[trigger] adjacent(p, n)
                            ==> dist_set(dist@, rows as int, cols as int).contains(n)
                                && dist@[n.0 as int]@[n.1 as int] <= dist@[p.0 as int]@[p.1 as int] + 1,
                    forall|j: int| 0 <= j < k && maze.open_at(#[trigger] nseq[j])
                        ==> dist_set(dist@, rows as int, cols as int).contains(nseq[j])
                            && dist@[(#[trigger] nseq[j]).0 as int]@[nseq[j].1 as int] <= d + 1,
                    forall|p: (usize, usize)| dist_set(dist@, rows as int, cols as int).contains(p)
                        ==> dist@[p.0 as int]@[p.1 as int] + unset(dist@, rows as int) <= rows * cols,
                    pot(dist@, cap, rows as int) < pot0
                        || (pot(dist@, cap, rows as int) == pot0 && queue@.len() == q0),
                    tracker.enabled == old(tracker).enabled,
                    old(tracker).history@.is_prefix_of(tracker.history@),
            {
                let (nr, nc) = neighbors[k];
                if maze.cells[nr][nc] != Cell::Wall {
                    let nd = dist[nr][nc];
                    let new_cost = d + 1;
                    if new_cost < nd {
                        proof {
                            assert(!settled.contains((nr, nc))) by {
                                if settled.contains((nr, nc)) {
                                    assert(dist@[nr as int]@[nc as int] <= d);
                                }
                            }
                        }
                        let ghost d_old = dist@;
                        dist[nr][nc] = new_cost;
                        prev[nr][nc] = cur;
                        proof {
                            dmap = dmap.insert((nr, nc), new_cost as nat);
                            assert(dist_set(d_old, rows as int, cols as int).contains(cur));
                            assert(d + unset(d_old, rows as int) <= rows * cols);
                            if nd == usize::MAX {
                                lemma_set(d_old, dist@, nr as int, nc as int, new_cost, rows as int);
                                assert(unset(d_old, rows as int) == unset(dist@, rows as int) + 1);
                                assert(new_cost <= rows * cols);
                            } else {
                                lemma_set_keep(d_old, dist@, nr as int, nc as int, new_cost, rows as int);
                                assert(dist_set(d_old, rows as int, cols as int).contains((nr, nc)));
                                assert(nd + unset(d_old, rows as int) <= rows * cols);
                                assert(new_cost <= rows * cols);
                            }
                            assert(cap < usize::MAX as nat);
                            assert(capped(new_cost, cap) < capped(d_old[nr as int]@[nc as int], cap));
                            lemma_pot_lower(d_old, dist@, cap, nr as int, nc as int, new_cost, rows as int);
                            assert(dist_set(dist@, rows as int, cols as int)
                                =~= dist_set(d_old, rows as int, cols as int).insert((nr, nc)));
                            assert forall|p: (usize, usize)|
                                dist_set(dist@, rows as int, cols as int).contains(p)
                                    implies dist@[p.0 as int]@[p.1 as int] + unset(dist@, rows as int)
                                        <= rows * cols by {
                                if p != (nr, nc) {
                                    assert(dist_set(d_old, rows as int, cols as int).contains(p));
                                    assert(dist@[p.0 as int]@[p.1 as int] == d_old[p.0 as int]@[p.1 as int]);
                                }
                            }
                        }
                        queue.push((new_cost, (nr, nc)));
                        proof {
                            assert(queue@.count((new_cost, (nr, nc))) > 0);
                        }
                    }
                }
            }
            proof {
                settled = settled.insert(cur);
                assert forall|p: (usize, usize), n: (usize, usize)|
                    settled.contains(p) && maze.open_at(n) && #[trigger] adjacent(p, n)
                        implies dist_set(dist@, rows as int, cols as int).contains(n)
                            && dist@[n.0 as int]@[n.1 as int]
                                <= dist@[p.0 as int]@[p.1 as int] + 1 by {
                    if p == cur {
                        lemma_neighbor_seq_complete(row, col, rows, cols, n);
                        let j = choose|j: int| 0 <= j < nseq.len() && nseq[j] == n;
                        assert(maze.open_at(nseq[j]));
                    }
                }
            }
        }
        proof {
            let ds = dist_set(dist@, rows as int, cols as int);
            assert forall|a: (usize, usize), b: (usize, usize)|
                ds.contains(a) && maze.open_at(b) && #[trigger] adjacent(a, b)
                    implies ds.contains(b) by {
                assert(queue@.count((dist@[a.0 as int]@[a.1 as int], a)) == 0);
                assert(settled.contains(a));
            }
            assert(!ds.contains(end)) by {
                broadcast use vstd::multiset::group_multiset_axioms;
                if ds.contains(end) {
                    assert(!settled.contains(end));
                    assert(queue@.count((dist@[end.0 as int]@[end.1 as int], end)) > 0);
                    assert(queue@.len() > 0);
                    assert(false);
                }
            }
            assert(!maze.has_path(start, end)) by {
                if maze.has_path(start, end) {
                    let p = choose|p: Seq<(usize, usize)>| maze.connects(p, start, end);
                    lemma_closed_set_covers_path(maze, ds, p);
                    assert(ds.contains(end));
                    assert(false);
                }
            }
        }
        None
    }
}

} // verus!
