use vstd::prelude::*;

verus! {

/// A deduplicated collection of grid coordinates: the cells that must be
/// re-evaluated in the coming generation (every live cell plus anything a
/// step might touch).  Uniqueness is enforced on insertion.
pub struct UniqueCoordinates {
    pub coords: Vec<(isize, isize)>,
}

impl UniqueCoordinates {
    /// Membership, the only thing most callers care about.
    pub open spec fn contains_coord(self, c: (isize, isize)) -> bool {
        self.coords@.contains(c)
    }

    /// No coordinate occurs twice.
    pub open spec fn no_dups(self) -> bool {
        forall|i: int, j: int|
            0 <= i < j < self.coords@.len() ==> self.coords@[i] != self.coords@[j]
    }

    pub fn new() -> (s: UniqueCoordinates)
        ensures
            s.coords@ == Seq::<(isize, isize)>::empty(),
            s.no_dups(),
    {
        UniqueCoordinates { coords: Vec::new() }
    }

    /// Inserts `c` unless it is already present.
    pub fn push(&mut self, c: (isize, isize))
        requires
            old(self).no_dups(),
        ensures
            final(self).no_dups(),
            old(self).contains_coord(c) ==> final(self).coords@ == old(self).coords@,
            !old(self).contains_coord(c) ==> final(self).coords@ == old(self).coords@.push(c),
            final(self).contains_coord(c),
            forall|d: (isize, isize)|
                final(self).contains_coord(d) == (old(self).contains_coord(d) || d == c),
    {
        let n = self.coords.len();
        let mut i: usize = 0;
        while i < n
            invariant
                *self == *old(self),
                old(self).no_dups(),
                n == self.coords.len(),
                i <= n,
                forall|k: int| 0 <= k < i ==> self.coords@[k] != c,
            decreases n - i,
        {
            let d = self.coords[i];
            if d.0 == c.0 && d.1 == c.1 {
                proof {
                    assert(self.coords@[i as int] == c);
                }
                return;
            }
            i += 1;
        }
        proof {
            assert(forall|k: int| 0 <= k < self.coords@.len() ==> self.coords@[k] != c);
            assert(!self.coords@.contains(c));
        }
        self.coords.push(c);
        proof {
            assert(self.coords@.last() == c);
            assert(self.coords@.contains(c));
            assert forall|d: (isize, isize)|
                self.coords@.contains(d) == (old(self).coords@.contains(d) || d == c) by {
                if old(self).contains_coord(d) {
                    let k = choose|k: int|
                        0 <= k < old(self).coords@.len() && old(self).coords@[k] == d;
                    assert(self.coords@[k] == d);
                }
                if self.coords@.contains(d) && d != c {
                    let k = choose|k: int| 0 <= k < self.coords@.len() && self.coords@[k] == d;
                    assert(k < old(self).coords@.len());
                    assert(old(self).coords@[k] == d);
                }
            }
        }
    }

    /// Removes `c` if it is present; the relative order of the remaining
    /// coordinates is preserved.
    pub fn remove(&mut self, c: (isize, isize))
        requires
            old(self).no_dups(),
        ensures
            final(self).no_dups(),
            !final(self).contains_coord(c),
            forall|d: (isize, isize)|
                d != c ==> final(self).contains_coord(d) == old(self).contains_coord(d),
            old(self).contains_coord(c)
                ==> final(self).coords@.len() == old(self).coords@.len() - 1,
            !old(self).contains_coord(c) ==> final(self).coords@ == old(self).coords@,
    {
        let n = self.coords.len();
        let mut i: usize = 0;
        while i < n
            invariant
                *self == *old(self),
                n == self.coords.len(),
                i <= n,
                old(self).no_dups(),
                forall|k: int| 0 <= k < i ==> self.coords@[k] != c,
            decreases n - i,
        {
            let d = self.coords[i];
            if d.0 == c.0 && d.1 == c.1 {
                proof {
                    assert(self.coords@[i as int] == c);
                }
                self.coords.remove(i);
                proof {
                    let pre = old(self).coords@;
                    let post = self.coords@;
                    assert(post == pre.remove(i as int));
                    assert forall|d: (isize, isize)| post.contains(d) implies d != c by {
                        let k = choose|k: int| 0 <= k < post.len() && post[k] == d;
                        if k < i {
                            assert(pre[k] == d);
                        } else {
                            assert(pre[k + 1] == d);
                            assert(k + 1 != i);
                        }
                    }
                    assert forall|d: (isize, isize)| d != c implies
                        post.contains(d) == pre.contains(d) by {
                        if pre.contains(d) {
                            let k = choose|k: int| 0 <= k < pre.len() && pre[k] == d;
                            if k < i {
                                assert(post[k] == d);
                            } else {
                                assert(k != i);
                                assert(post[k - 1] == d);
                            }
                        }
                        if post.contains(d) {
                            let k = choose|k: int| 0 <= k < post.len() && post[k] == d;
                            if k < i {
                                assert(pre[k] == d);
                            } else {
                                assert(pre[k + 1] == d);
                            }
                        }
                    }
                    assert forall|a: int, b: int| 0 <= a < b < post.len() implies
                        post[a] != post[b] by {
                        let a0: int = if a < i { a } else { a + 1 };
                        let b0: int = if b < i { b } else { b + 1 };
                        assert(post[a] == pre[a0]);
                        assert(post[b] == pre[b0]);
                    }
                }
                return;
            }
            i += 1;
        }
        proof {
            assert(forall|k: int| 0 <= k < self.coords@.len() ==> self.coords@[k] != c);
            assert(!self.coords@.contains(c));
        }
    }
}

} // verus!
