use vstd::prelude::*;

verus! {

/// Union-find over the labels `0 .. size`, kept flat: every element points
/// directly at the representative of its component, so `find` is a single
/// array read and `union` relabels one component.
pub struct DisjointSet {
    parent: Vec<usize>,
}

impl DisjointSet {
    pub closed spec fn len(&self) -> int {
        self.parent@.len() as int
    }

    /// The representative label of `i`'s component.
    pub closed spec fn rep(&self, i: int) -> int {
        self.parent@[i] as int
    }

    /// Every element points at an in-range root: representatives are fixed
    /// points, so two elements are in one component iff their `rep`s agree.
    pub closed spec fn wf(&self) -> bool {
        forall|i: int| 0 <= i < self.len() ==> {
            &&& 0 <= #[trigger] self.rep(i) < self.len()
            &&& self.rep(self.rep(i)) == self.rep(i)
        }
    }

    pub fn new(size: usize) -> (r: Self)
        ensures
            r.wf(),
            r.len() == size,
            forall|i: int| 0 <= i < size ==> #[trigger] r.rep(i) == i,
    {
        let mut parent: Vec<usize> = Vec::new();
        for i in 0..size
            invariant
                parent@.len() == i,
                forall|k: int| 0 <= k < i ==> #[trigger] parent@[k] == k,
        {
            parent.push(i);
        }
        DisjointSet { parent }
    }

    pub fn find(&self, i: usize) -> (r: usize)
        requires
            i < self.len(),
        ensures
            r == self.rep(i as int),
    {
        self.parent[i]
    }

    pub fn union(&mut self, i: usize, j: usize)
        requires
            old(self).wf(),
            i < old(self).len(),
            j < old(self).len(),
        ensures
            final(self).wf(),
            final(self).len() == old(self).len(),
            forall|k: int| 0 <= k < old(self).len() ==> #[trigger] final(self).rep(k) == (
                if old(self).rep(k) == old(self).rep(i as int) {
                    old(self).rep(j as int)
                } else {
                    old(self).rep(k)
                }
            ),
    {
        let ri = self.parent[i];
        let rj = self.parent[j];
        if ri != rj {
            let n = self.parent.len();
            for k in 0..n
                invariant
                    self.parent@.len() == n,
                    n == old(self).len(),
                    old(self).wf(),
                    ri == old(self).rep(i as int),
                    rj == old(self).rep(j as int),
                    ri != rj,
                    forall|m: int| 0 <= m < k ==> #[trigger] self.parent@[m] == (
                        if old(self).rep(m) == ri { rj as usize } else { old(self).parent@[m] }
                    ),
                    forall|m: int| k <= m < n ==> #[trigger] self.parent@[m] == old(self).parent@[m],
            {
                if self.parent[k] == ri {
                    self.parent[k] = rj;
                }
            }
            proof {
                // Representatives are fixed points of the old structure, so a
                // relabelled element now points at the (unchanged) root rj.
                assert(old(self).rep(rj as int) == rj);
                assert forall|m: int| 0 <= m < n implies {
                    &&& 0 <= #[trigger] self.rep(m) < n
                    &&& self.rep(self.rep(m)) == self.rep(m)
                } by {
                    assert(old(self).rep(old(self).rep(m)) == old(self).rep(m));
                }
            }
        }
    }
}

} // verus!
