use vstd::prelude::*;

use crate::grid::table_wf;
use crate::maze::{adjacent, Maze};

verus! {

/// The set of discovered cells tracked by a `rows` x `cols` table of flags.
pub open spec fn dset_of(d: Seq<Vec<bool>>, rows: int, cols: int) -> Set<(usize, usize)> {
    Set::new(|p: (usize, usize)| p.0 < rows && p.1 < cols && d[p.0 as int]@[p.1 as int])
}

/// The set of discovered cells tracked by a `rows` x `cols` table of best-known
/// costs, where `usize::MAX` marks a cell not reached yet.
pub open spec fn dist_set(d: Seq<Vec<usize>>, rows: int, cols: int) -> Set<(usize, usize)> {
    Set::new(|p: (usize, usize)| p.0 < rows && p.1 < cols && d[p.0 as int]@[p.1 as int] != usize::MAX)
}

/// Over the discovered set `dset`, the parent table is a forest rooted at
/// `start`: every discovered cell is open, and every discovered cell other
/// than `start` has a discovered, adjacent parent of strictly smaller depth.
pub open spec fn parent_ok(
    m: &Maze,
    dset: Set<(usize, usize)>,
    par: Seq<Vec<(usize, usize)>>,
    depth: Map<(usize, usize), nat>,
    start: (usize, usize),
) -> bool {
    forall|p: (usize, usize)| #[trigger] dset.contains(p) ==> {
        &&& m.open_at(p)
        &&& depth.contains_key(p)
        &&& (p != start ==> {
            let q = par[p.0 as int]@[p.1 as int];
            &&& dset.contains(q)
            &&& adjacent(q, p)
            &&& depth.contains_key(q)
            &&& depth[q] < depth[p]
        })
    }
}

/// Depths follow the parent pointers exactly: the root `start` has depth zero
/// and every other discovered cell sits exactly one step below its parent.
/// Breadth-first and depth-first search keep this at all times; the cost-based
/// searches only keep the strict decrease of `parent_ok`.
pub open spec fn exact_depths(
    dset: Set<(usize, usize)>,
    par: Seq<Vec<(usize, usize)>>,
    depth: Map<(usize, usize), nat>,
    start: (usize, usize),
) -> bool {
    forall|p: (usize, usize)| #[trigger] dset.contains(p) ==> {
        &&& (p == start ==> depth[p] == 0)
        &&& (p != start ==> depth[par[p.0 as int]@[p.1 as int]] + 1 == depth[p])
    }
}

/// In breadth-first exploration order, any walk from a processed cell must
/// spend at least one step per depth level: either it stays inside the
/// processed region and its end lies within reach of its length, or it leaves
/// the region through a frontier cell, whose depth is at least `dend`.
pub proof fn lemma_walk_respects_depths(
    m: &Maze,
    processed: Set<(usize, usize)>,
    dset: Set<(usize, usize)>,
    depth: Map<(usize, usize), nat>,
    dend: nat,
    p: Seq<(usize, usize)>,
    k: nat,
)
    requires
        m.is_path(p),
        processed.contains(p[0]),
        forall|c: (usize, usize)| #[trigger] processed.contains(c) ==> dset.contains(c),
        forall|c: (usize, usize)| #[trigger] dset.contains(c) ==> depth.contains_key(c),
        depth[p[0]] <= k,
        forall|c: (usize, usize), n: (usize, usize)|
            processed.contains(c) && m.open_at(n) && #[trigger] adjacent(c, n)
                ==> dset.contains(n) && depth[n] <= depth[c] + 1,
        forall|c: (usize, usize)| dset.contains(c) && !processed.contains(c)
            ==> depth[c] >= dend,
    ensures
        dend <= k + p.len() - 1
            || (processed.contains(p.last()) && depth[p.last()] <= k + p.len() - 1),
    decreases p.len(),
{
    if p.len() > 1 {
        assert(adjacent(p[0], p[1]));
        assert(m.open_at(p[1]));
        assert(dset.contains(p[1]) && depth[p[1]] <= depth[p[0]] + 1);
        if processed.contains(p[1]) {
            let q = p.subrange(1, p.len() as int);
            assert(m.is_path(q));
            lemma_walk_respects_depths(m, processed, dset, depth, dend, q, (k + 1) as nat);
            assert(q.last() == p.last());
        } else {
            assert(depth[p[1]] >= dend);
        }
    }
}

/// Walk the parent pointers back from `target` to the root `start`, then
/// reverse the walk into a path from `start` to `target`. When the depths are
/// exact, the walk has exactly one cell per depth level.
pub(crate) fn rebuild_path(
    m: &Maze,
    par: &Vec<Vec<(usize, usize)>>,
    target: (usize, usize),
    Ghost(dset): Ghost<Set<(usize, usize)>>,
    Ghost(depth): Ghost<Map<(usize, usize), nat>>,
) -> (r: Vec<(usize, usize)>)
    requires
        m.wf(),
        table_wf(par@, m.rows(), m.cols()),
        parent_ok(m, dset, par@, depth, m.start),
        dset.contains(target),
    ensures
        m.connects(r@, m.start, target),
        r@.len() <= depth[target] + 1,
        exact_depths(dset, par@, depth, m.start) ==> r@.len() == depth[target] + 1,
{
    let mut back: Vec<(usize, usize)> = Vec::new();
    let mut cur = target;
    back.push(cur);
    while cur.0 != m.start.0 || cur.1 != m.start.1
        invariant
            m.wf(),
            table_wf(par@, m.rows(), m.cols()),
            parent_ok(m, dset, par@, depth, m.start),
            dset.contains(cur),
            back@.len() >= 1,
            back@[0] == target,
            back@.last() == cur,
            m.is_path(back@),
            back@.len() + depth[cur] <= depth[target] + 1,
            exact_depths(dset, par@, depth, m.start)
                ==> back@.len() + depth[cur] == depth[target] + 1,
        decreases depth[cur],
    {
        assert(cur != m.start);
        let q = par[cur.0][cur.1];
        let ghost back_old = back@;
        back.push(q);
        cur = q;
        proof {
            assert(adjacent(par[back_old.last().0 as int]@[back_old.last().1 as int], back_old.last()));
            assert forall|i: int| 0 <= i < back@.len() - 1 implies adjacent(
                #[trigger] back@[i],
                back@[i + 1],
            ) by {
                if i < back_old.len() - 1 {
                    assert(adjacent(back_old[i], back_old[i + 1]));
                }
            }
        }
    }
    proof {
        assert(cur == m.start);
    }
    let mut path: Vec<(usize, usize)> = Vec::new();
    let n = back.len();
    for i in 0..n
        invariant
            back@.len() == n,
            path@.len() == i,
            forall|k: int| 0 <= k < i ==> #[trigger] path@[k] == back@[n - 1 - k],
    {
        path.push(back[n - 1 - i]);
    }
    proof {
        assert forall|k: int| 0 <= k < path@.len() - 1 implies adjacent(
            #[trigger] path@[k],
            path@[k + 1],
        ) by {
            assert(adjacent(back@[n - 2 - k], back@[n - 1 - k]));
        }
        assert forall|k: int| 0 <= k < path@.len() implies m.open_at(#[trigger] path@[k]) by {
            assert(m.open_at(back@[n - 1 - k]));
        }
        assert(path@[0] == back@[n - 1]);
        assert(path@[path@.len() - 1] == back@[0]);
    }
    path
}

} // verus!
