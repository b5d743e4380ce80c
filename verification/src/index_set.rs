//! A set of slot indices, kept as a sorted vector with binary search.
use vstd::prelude::*;

verus! {

/// Strictly increasing: sorted, and thus free of duplicates.
pub open spec fn sorted_strict(s: Seq<usize>) -> bool {
    forall|i: int, j: int| 0 <= i < j < s.len() ==> s[i] < s[j]
}

/// A set of indices with a sorted-vector representation.
pub struct IndexSet {
    inner: Vec<usize>,
}

impl View for IndexSet {
    type V = Seq<usize>;

    closed spec fn view(&self) -> Seq<usize> {
        self.inner@
    }
}

impl IndexSet {
    pub closed spec fn wf(&self) -> bool {
        sorted_strict(self.inner@)
    }

    /// A well-formed set's vector is strictly increasing.
    pub proof fn lemma_sorted(&self)
        requires
            self.wf(),
        ensures
            sorted_strict(self@),
    {
    }

    /// Create an empty set.
    pub fn new() -> (r: Self)
        ensures
            r.wf(),
            r@ == Seq::<usize>::empty(),
    {
        let r = IndexSet { inner: Vec::new() };
        proof {
            assert(r@ =~= Seq::<usize>::empty());
        }
        r
    }

    /// Number of elements.
    pub fn len(&self) -> (r: usize)
        ensures
            r == self@.len(),
    {
        self.inner.len()
    }

    /// Whether the set has no element.
    pub fn is_empty(&self) -> (r: bool)
        ensures
            r == (self@.len() == 0),
    {
        self.inner.len() == 0
    }

    /// The elements, in increasing order.
    pub fn as_slice(&self) -> (r: &[usize])
        ensures
            r@ == self@,
    {
        self.inner.as_slice()
    }

    /// The element at a position of the sorted order.
    pub fn at(&self, k: usize) -> (r: usize)
        requires
            k < self@.len(),
        ensures
            r == self@[k as int],
    {
        self.inner[k]
    }

    /// Binary search: the position of `e`, or the position where `e` would
    /// be inserted to keep the vector sorted.
    fn position(&self, e: usize) -> (r: Result<usize, usize>)
        requires
            self.wf(),
        ensures
            match r {
                Ok(k) => k < self@.len() && self@[k as int] == e,
                Err(k) => {
                    &&& k <= self@.len()
                    &&& forall|m: int| 0 <= m < k ==> self@[m] < e
                    &&& forall|m: int| k <= m < self@.len() ==> self@[m] > e
                },
            },
    {
        let mut lo: usize = 0;
        let mut hi: usize = self.inner.len();
        while lo < hi
            invariant
                self.wf(),
                lo <= hi <= self@.len(),
                forall|m: int| 0 <= m < lo ==> self@[m] < e,
                forall|m: int| hi <= m < self@.len() ==> self@[m] > e,
            decreases hi - lo,
        {
            let mid = lo + (hi - lo) / 2;
            let v = self.inner[mid];
            if v == e {
                return Ok(mid);
            } else if v < e {
                proof {
                    assert forall|m: int| 0 <= m < mid + 1 implies self@[m] < e by {
                        if m < mid {
                            assert(self@[m] < self@[mid as int]);
                        }
                    }
                }
                lo = mid + 1;
            } else {
                proof {
                    assert forall|m: int| mid <= m < self@.len() implies self@[m] > e by {
                        if m > mid {
                            assert(self@[mid as int] < self@[m]);
                        }
                    }
                }
                hi = mid;
            }
        }
        Err(lo)
    }

    /// Whether `e` is in the set.
    pub fn contains(&self, e: usize) -> (r: bool)
        requires
            self.wf(),
        ensures
            r == self@.contains(e),
    {
        match self.position(e) {
            Ok(_) => true,
            Err(_) => {
                proof {
                    assert(forall|m: int| 0 <= m < self@.len() ==> self@[m] != e);
                }
                false
            },
        }
    }

    /// Add `e` to the set; no change if it is already there.
    pub fn insert(&mut self, e: usize)
        requires
            old(self).wf(),
        ensures
            final(self).wf(),
            forall|x: usize|
                #[trigger] final(self)@.contains(x) == (old(self)@.contains(x) || x == e),
    {
        let ghost pre = self@;
        match self.position(e) {
            Ok(_) => {
                proof {
                    assert forall|x: usize|
                        self@.contains(x) == (pre.contains(x) || x == e) by {}
                }
            },
            Err(k) => {
                self.inner.insert(k, e);
                proof {
                    let now = self@;
                    assert forall|i: int, j: int| 0 <= i < j < now.len() implies now[i] < now[j] by {
                        if j < k {
                        } else if i < k && j == k {
                        } else if i < k && j > k {
                            assert(now[j] == pre[j - 1]);
                        } else if i == k {
                            assert(now[j] == pre[j - 1]);
                        } else {
                            assert(now[i] == pre[i - 1]);
                            assert(now[j] == pre[j - 1]);
                        }
                    }
                    assert forall|x: usize|
                        self@.contains(x) == (pre.contains(x) || x == e) by {
                        if x == e {
                            assert(now[k as int] == e);
                        } else {
                            if pre.contains(x) {
                                let m = choose|m: int| 0 <= m < pre.len() && pre[m] == x;
                                if m < k {
                                    assert(now[m] == x);
                                } else {
                                    assert(now[m + 1] == x);
                                }
                            }
                            if now.contains(x) {
                                let m = choose|m: int| 0 <= m < now.len() && now[m] == x;
                                if m < k {
                                    assert(pre[m] == x);
                                } else if m > k {
                                    assert(pre[m - 1] == x);
                                }
                            }
                        }
                    }
                }
            },
        }
    }

    /// Take `e` out of the set; no change if it is not there.
    pub fn remove(&mut self, e: usize)
        requires
            old(self).wf(),
        ensures
            final(self).wf(),
            forall|x: usize|
                #[trigger] final(self)@.contains(x) == (old(self)@.contains(x) && x != e),
    {
        let ghost pre = self@;
        match self.position(e) {
            Ok(k) => {
                let _ = self.inner.remove(k);
                proof {
                    let now = self@;
                    assert forall|i: int, j: int| 0 <= i < j < now.len() implies now[i] < now[j] by {
                        if i >= k {
                            assert(now[i] == pre[i + 1]);
                            assert(now[j] == pre[j + 1]);
                        } else if j >= k {
                            assert(now[j] == pre[j + 1]);
                        }
                    }
                    assert forall|x: usize|
                        self@.contains(x) == (pre.contains(x) && x != e) by {
                        if now.contains(x) {
                            let m = choose|m: int| 0 <= m < now.len() && now[m] == x;
                            if m < k {
                                assert(pre[m] == x);
                                assert(pre[m] != pre[k as int]);
                            } else {
                                assert(pre[m + 1] == x);
                                assert(pre[m + 1] != pre[k as int]);
                            }
                        }
                        if pre.contains(x) && x != e {
                            let m = choose|m: int| 0 <= m < pre.len() && pre[m] == x;
                            if m < k {
                                assert(now[m] == x);
                            } else {
                                assert(m != k);
                                assert(now[m - 1] == x);
                            }
                        }
                    }
                }
            },
            Err(_) => {
                proof {
                    assert forall|x: usize|
                        self@.contains(x) == (pre.contains(x) && x != e) by {
                        if pre.contains(x) && x == e {
                            let m = choose|m: int| 0 <= m < pre.len() && pre[m] == x;
                            assert(false);
                        }
                    }
                }
            },
        }
    }
}

} // verus!
