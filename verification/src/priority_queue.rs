use vstd::prelude::*;
use vstd::multiset::Multiset;
use vstd::seq_lib::group_to_multiset_ensures;

verus! {

/// A minimum priority queue of `(priority, payload)` pairs, viewed as the
/// multiset of pending entries. `pop` and `peek` yield an entry whose priority
/// is no larger than that of any other pending entry; ties are broken
/// arbitrarily. Entries are kept sorted by descending priority, smallest last.
pub struct PriorityQueue<T> {
    items: Vec<(usize, T)>,
}

impl<T> View for PriorityQueue<T> {
    type V = Multiset<(usize, T)>;

    closed spec fn view(&self) -> Multiset<(usize, T)> {
        self.items@.to_multiset()
    }
}

impl<T> PriorityQueue<T> {
    /// Entries are sorted by descending priority, so the last is minimal.
    pub closed spec fn wf(&self) -> bool {
        forall|i: int, j: int| 0 <= i <= j < self.items@.len()
            ==> #[trigger] self.items@[i].0 >= #[trigger] self.items@[j].0
    }

    pub fn new() -> (r: Self)
        ensures
            r.wf(),
            r@ == Multiset::<(usize, T)>::empty(),
    {
        let r = PriorityQueue { items: Vec::new() };
        proof {
            broadcast use group_to_multiset_ensures;
            assert forall|e: (usize, T)| r@.count(e) == 0 by {
                assert(!r.items@.contains(e));
            }
            assert(r@ =~= Multiset::<(usize, T)>::empty());
        }
        r
    }

    pub fn length(&self) -> (r: usize)
        ensures
            r == self@.len(),
    {
        proof {
            broadcast use group_to_multiset_ensures;
        }
        self.items.len()
    }

    pub fn is_empty(&self) -> (r: bool)
        ensures
            r == (self@.len() == 0),
    {
        proof {
            broadcast use group_to_multiset_ensures;
        }
        self.items.len() == 0
    }

    pub fn push(&mut self, item: (usize, T))
        requires
            old(self).wf(),
        ensures
            final(self).wf(),
            final(self)@ == old(self)@.insert(item),
    {
        let ghost s_old = self.items@;
        let mut i = self.items.len();
        while i > 0 && self.items[i - 1].0 < item.0
            invariant
                i <= self.items@.len(),
                self.items@ == s_old,
                forall|j: int| i <= j < self.items@.len() ==> #[trigger] self.items@[j].0 < item.0,
            decreases i,
        {
            i -= 1;
        }
        self.items.insert(i, item);
        proof {
            broadcast use group_to_multiset_ensures;
            let s_new = self.items@;
            assert(s_new.remove(i as int) =~= s_old);
            assert(s_new[i as int] == item);
            assert(s_new.to_multiset().remove(item) =~= s_old.to_multiset());
            assert(s_new.contains(item));
            assert(s_new.to_multiset().count(item) > 0);
            assert forall|e: (usize, T)| s_new.to_multiset().count(e)
                == s_old.to_multiset().insert(item).count(e) by {
                if e == item {
                    assert(s_new.to_multiset().remove(item).count(item)
                        == s_new.to_multiset().count(item) - 1);
                } else {
                    assert(s_new.to_multiset().remove(item).count(e)
                        == s_new.to_multiset().count(e));
                }
            }
            assert(final(self)@ =~= old(self)@.insert(item));
            // The new element sits between the larger and the strictly
            // smaller priorities, so the order is maintained.
            assert forall|a: int, b: int| 0 <= a <= b < s_new.len()
                implies #[trigger] s_new[a].0 >= #[trigger] s_new[b].0 by {
                if a < i && b >= i + 1 {
                    assert(s_new[a] == s_old[a]);
                    assert(s_new[b] == s_old[b - 1]);
                } else if a < i && b == i {
                    assert(s_new[a] == s_old[a]);
                    assert(s_old[a].0 >= s_old[i - 1].0);
                } else if a == i && b > i {
                    assert(s_new[b] == s_old[b - 1]);
                }
            }
        }
    }

    pub fn pop(&mut self) -> (r: Option<(usize, T)>)
        requires
            old(self).wf(),
        ensures
            final(self).wf(),
            old(self)@.len() == 0 ==> r is None && final(self)@ == old(self)@,
            old(self)@.len() > 0 ==> r is Some,
            r matches Some(e) ==> {
                &&& old(self)@.count(e) > 0
                &&& final(self)@ == old(self)@.remove(e)
                &&& forall|f: (usize, T)| old(self)@.count(f) > 0 ==> e.0 <= #[trigger] f.0
            },
    {
        proof {
            broadcast use group_to_multiset_ensures;
        }
        let ghost s_old = self.items@;
        let r = self.items.pop();
        proof {
            if s_old.len() > 0 {
                let e = s_old.last();
                assert(s_old.remove(s_old.len() - 1) =~= s_old.drop_last());
                assert(final(self)@ =~= old(self)@.remove(e));
                assert(s_old.contains(e));
                assert forall|f: (usize, T)| old(self)@.count(f) > 0 implies e.0 <= #[trigger] f.0 by {
                    assert(s_old.contains(f));
                    let k = choose|k: int| 0 <= k < s_old.len() && s_old[k] == f;
                    assert(s_old[k].0 >= s_old[s_old.len() - 1].0);
                }
            }
        }
        r
    }

    pub fn peek(&self) -> (r: Option<&(usize, T)>)
        requires
            self.wf(),
        ensures
            self@.len() == 0 ==> r is None,
            self@.len() > 0 ==> r is Some,
            r matches Some(e) ==> {
                &&& self@.count(*e) > 0
                &&& forall|f: (usize, T)| self@.count(f) > 0 ==> e.0 <= #[trigger] f.0
            },
    {
        proof {
            broadcast use group_to_multiset_ensures;
        }
        if self.items.len() == 0 {
            None
        } else {
            let r = &self.items[self.items.len() - 1];
            proof {
                let s = self.items@;
                let e = s.last();
                assert(s.contains(e));
                assert forall|f: (usize, T)| self@.count(f) > 0 implies e.0 <= #[trigger] f.0 by {
                    assert(s.contains(f));
                    let k = choose|k: int| 0 <= k < s.len() && s[k] == f;
                    assert(s[k].0 >= s[s.len() - 1].0);
                }
            }
            Some(r)
        }
    }
}

} // verus!
