//! A sorted, non-overlapping set of `(start, size)` address ranges with
//! logarithmic containment lookup.

use vstd::prelude::*;

verus! {

/// `a` lies in `[r.0, r.0 + r.1)`.
pub open spec fn in_range(r: (usize, usize), a: int) -> bool {
    r.0 <= a < r.0 + r.1
}

/// Two non-empty ranges share at least one address.
pub open spec fn overlaps(x: (usize, usize), y: (usize, usize)) -> bool {
    x.1 > 0 && y.1 > 0 && x.0 < y.0 + y.1 && y.0 < x.0 + x.1
}

/// No two entries of `s` (at different positions) overlap.
pub open spec fn pairwise_disjoint(s: Seq<(usize, usize)>) -> bool {
    forall|i: int, j: int| 0 <= i < j < s.len() ==> !overlaps(s[i], s[j])
}

/// Every range of `s` ends at a representable address.
pub open spec fn ranges_fit(s: Seq<(usize, usize)>) -> bool {
    forall|i: int| 0 <= i < s.len() ==> s[i].0 + s[i].1 <= usize::MAX
}

/// Two inputs overlapped; building an index from them is refused.
#[derive(Clone, Copy, Debug)]
pub struct OverlapError {
    pub first: (usize, usize),
    pub second: (usize, usize),
}

#[derive(Debug)]
pub struct RegionIndex {
    ranges: Vec<(usize, usize)>,
}

impl View for RegionIndex {
    type V = Seq<(usize, usize)>;

    closed spec fn view(&self) -> Seq<(usize, usize)> {
        self.ranges@
    }
}

impl RegionIndex {
    /// Non-empty ranges, ending at representable addresses, sorted by start
    /// with each one ending at or before the next begins.
    pub open spec fn wf(&self) -> bool {
        &&& forall|i: int| 0 <= i < self@.len() ==> self@[i].1 > 0
        &&& ranges_fit(self@)
        &&& forall|i: int, j: int| 0 <= i < j < self@.len() ==> self@[i].0 + self@[i].1 <= self@[j].0
    }

    /// The index was built from `input`: it holds exactly its non-empty ranges.
    pub open spec fn built_from(&self, input: Seq<(usize, usize)>) -> bool {
        &&& self.wf()
        &&& forall|r: (usize, usize)| self@.contains(r) <==> (input.contains(r) && r.1 > 0)
    }

    /// The range of the index that holds `a`, if any.
    pub open spec fn region_of(&self, a: int) -> Option<(usize, usize)> {
        if exists|r: (usize, usize)| self@.contains(r) && in_range(r, a) {
            Some(choose|r: (usize, usize)| self@.contains(r) && in_range(r, a))
        } else {
            None
        }
    }

    pub fn new() -> (r: Self)
        ensures
            r.wf(),
            r@ == Seq::<(usize, usize)>::empty(),
    {
        RegionIndex { ranges: Vec::new() }
    }

    pub fn len(&self) -> (r: usize)
        ensures
            r == self@.len(),
    {
        self.ranges.len()
    }

    pub fn ranges(&self) -> (r: &Vec<(usize, usize)>)
        ensures
            r@ == self@,
    {
        &self.ranges
    }

    /// Adds the non-empty range `x`, keeping the order. Returns the range
    /// that `x` overlaps, leaving the index unchanged, where there is one.
    pub fn insert(&mut self, x: (usize, usize)) -> (r: Option<(usize, usize)>)
        requires
            old(self).wf(),
            x.1 > 0,
            x.0 + x.1 <= usize::MAX,
        ensures
            final(self).wf(),
            r.is_some() <==> exists|y: (usize, usize)| old(self)@.contains(y) && overlaps(y, x),
            r.is_some() ==> old(self)@.contains(r.unwrap()) && overlaps(r.unwrap(), x),
            r.is_some() ==> final(self)@ == old(self)@,
            r.is_none() ==> forall|y: (usize, usize)|
                final(self)@.contains(y) <==> (old(self)@.contains(y) || y == x),
    {
        let n = self.ranges.len();
        let mut p: usize = 0;
        while p < n && self.ranges[p].0 < x.0
            invariant
                self.wf(),
                n == self@.len(),
                p <= n,
                forall|j: int| 0 <= j < p ==> self@[j].0 < x.0,
            decreases n - p,
        {
            p = p + 1;
        }
        let ghost s = self@;
        if p > 0 {
            let prev = self.ranges[p - 1];
            if prev.0 + prev.1 > x.0 {
                assert(s[p - 1] == prev && s.contains(prev));
                assert(overlaps(prev, x));
                return Some(prev);
            }
        }
        if p < n {
            let next = self.ranges[p];
            if x.0 + x.1 > next.0 {
                assert(s[p as int] == next && s.contains(next));
                assert(overlaps(next, x));
                return Some(next);
            }
        }
        assert forall|y: (usize, usize)| s.contains(y) implies !overlaps(y, x) by {
            let i = choose|i: int| 0 <= i < s.len() && s[i] == y;
            if i < p as int - 1 {
                assert(s[i].0 + s[i].1 <= s[p - 1].0);
            } else if i > p as int {
                assert(s[p as int].0 + s[p as int].1 <= s[i].0);
            }
        }
        self.ranges.insert(p, x);
        let ghost t = self@;
        assert(t =~= s.subrange(0, p as int).push(x) + s.subrange(p as int, s.len() as int));
        assert forall|i: int| 0 <= i < t.len() implies t[i] == (if i < p { s[i] } else if i == p {
            x
        } else {
            s[i - 1]
        }) by {}
        assert forall|i: int, j: int| 0 <= i < j < t.len() implies t[i].0 + t[i].1 <= t[j].0 by {
            if j < p {
            } else if j == p {
                if i < p as int - 1 {
                    assert(s[i].0 + s[i].1 <= s[p - 1].0);
                }
            } else if i == p {
                if j > p as int + 1 {
                    assert(s[p as int].0 + s[p as int].1 <= s[j - 1].0);
                }
            } else if i < p {
                assert(s[i].0 + s[i].1 <= s[j - 1].0);
            } else {
                assert(s[i - 1].0 + s[i - 1].1 <= s[j - 1].0);
            }
        }
        assert forall|y: (usize, usize)| t.contains(y) <==> (s.contains(y) || y == x) by {
            if t.contains(y) {
                let i = choose|i: int| 0 <= i < t.len() && t[i] == y;
                if i < p {
                    assert(s[i] == y);
                } else if i > p {
                    assert(s[i - 1] == y);
                }
            }
            if s.contains(y) {
                let i = choose|i: int| 0 <= i < s.len() && s[i] == y;
                if i < p {
                    assert(t[i] == y);
                } else {
                    assert(t[i + 1] == y);
                }
            }
            if y == x {
                assert(t[p as int] == x);
            }
        }
        None
    }

    /// Builds an index from ranges in any order. Empty ranges are left out;
    /// any two overlapping ranges make it fail.
    pub fn build(regions: &Vec<(usize, usize)>) -> (r: Result<RegionIndex, OverlapError>)
        requires
            ranges_fit(regions@),
        ensures
            r.is_ok() <==> pairwise_disjoint(regions@),
            r.is_ok() ==> r->Ok_0.built_from(regions@),
            r.is_err() ==> regions@.contains(r->Err_0.first) && regions@.contains(r->Err_0.second)
                && overlaps(r->Err_0.first, r->Err_0.second),
    {
        let mut idx = RegionIndex::new();
        let mut k: usize = 0;
        while k < regions.len()
            invariant
                ranges_fit(regions@),
                idx.wf(),
                k <= regions@.len(),
                pairwise_disjoint(regions@.subrange(0, k as int)),
                forall|y: (usize, usize)|
                    idx@.contains(y) <==> (regions@.subrange(0, k as int).contains(y) && y.1 > 0),
            decreases regions@.len() - k,
        {
            let x = regions[k];
            let ghost pre = regions@.subrange(0, k as int);
            let ghost post = regions@.subrange(0, k as int + 1);
            assert(post =~= pre.push(x));
            assert forall|y: (usize, usize)| post.contains(y) <==> (pre.contains(y) || y == x) by {
                if post.contains(y) {
                    let i = choose|i: int| 0 <= i < post.len() && post[i] == y;
                    if i < k {
                        assert(pre[i] == y);
                    }
                }
                if pre.contains(y) {
                    let i = choose|i: int| 0 <= i < pre.len() && pre[i] == y;
                    assert(post[i] == y);
                }
                if y == x {
                    assert(post[k as int] == x);
                }
            }
            if x.1 > 0 {
                assert(x.0 + x.1 <= usize::MAX);
                match idx.insert(x) {
                    Some(y) => {
                        assert(regions@.contains(y));
                        assert(regions@.contains(x)) by {
                            assert(regions@[k as int] == x);
                        }
                        proof {
                            let i = choose|i: int| 0 <= i < pre.len() && pre[i] == y;
                            assert(regions@[i] == y);
                            assert(!pairwise_disjoint(regions@)) by {
                                assert(overlaps(regions@[i], regions@[k as int]));
                            }
                        }
                        return Err(OverlapError { first: y, second: x });
                    },
                    None => {},
                }
            }
            assert(pairwise_disjoint(post)) by {
                assert forall|i: int, j: int| 0 <= i < j < post.len() implies !overlaps(
                    post[i],
                    post[j],
                ) by {
                    if j == k {
                        if x.1 > 0 {
                            assert(pre[i] == post[i]);
                            assert(idx@.contains(post[i]) || post[i].1 == 0);
                        }
                    } else {
                        assert(pre[i] == post[i] && pre[j] == post[j]);
                    }
                }
            }
            k = k + 1;
        }
        assert(regions@.subrange(0, regions@.len() as int) =~= regions@);
        Ok(idx)
    }

    /// The range holding `a`, found by binary search.
    pub fn contains(&self, a: usize) -> (r: Option<(usize, usize)>)
        requires
            self.wf(),
        ensures
            r == self.region_of(a as int),
    {
        let mut lo: usize = 0;
        let mut hi: usize = self.ranges.len();
        while lo < hi
            invariant
                self.wf(),
                lo <= hi <= self@.len(),
                forall|j: int| 0 <= j < lo ==> self@[j].0 + self@[j].1 <= a,
                forall|j: int| hi <= j < self@.len() ==> a < self@[j].0,
            decreases hi - lo,
        {
            let mid = lo + (hi - lo) / 2;
            let r = self.ranges[mid];
            if a < r.0 {
                assert forall|j: int| mid <= j < self@.len() implies a < self@[j].0 by {
                    if j > mid {
                        assert(self@[mid as int].0 + self@[mid as int].1 <= self@[j].0);
                    }
                }
                hi = mid;
            } else if a - r.0 < r.1 {
                proof {
                    assert(self@[mid as int] == r);
                    self.lemma_unique(r, a as int);
                }
                return Some(r);
            } else {
                assert forall|j: int| 0 <= j <= mid implies self@[j].0 + self@[j].1 <= a by {
                    if j < mid {
                        assert(self@[j].0 + self@[j].1 <= self@[mid as int].0);
                    }
                }
                lo = mid + 1;
            }
        }
        assert(!exists|y: (usize, usize)| self@.contains(y) && in_range(y, a as int));
        None
    }

    /// Within a well-formed index, at most one range holds a given address.
    pub proof fn lemma_unique(&self, r: (usize, usize), a: int)
        requires
            self.wf(),
            self@.contains(r),
            in_range(r, a),
        ensures
            self.region_of(a) == Some(r),
    {
        let y = choose|y: (usize, usize)| self@.contains(y) && in_range(y, a);
        let i = choose|i: int| 0 <= i < self@.len() && self@[i] == r;
        let j = choose|j: int| 0 <= j < self@.len() && self@[j] == y;
        if i < j {
            assert(self@[i].0 + self@[i].1 <= self@[j].0);
        } else if j < i {
            assert(self@[j].0 + self@[j].1 <= self@[i].0);
        }
    }
}

/// A range of the index is reported for an address exactly when the address
/// lies inside it.
pub proof fn lemma_contains_exact(idx: &RegionIndex, r: (usize, usize), a: int)
    requires
        idx.wf(),
        idx@.contains(r),
    ensures
        in_range(r, a) <==> idx.region_of(a) == Some(r),
{
    if in_range(r, a) {
        idx.lemma_unique(r, a);
    }
}

/// Indexes built from the same ranges in any two orders answer every lookup
/// alike.
pub proof fn lemma_build_order_independent(
    a: Seq<(usize, usize)>,
    b: Seq<(usize, usize)>,
    ia: &RegionIndex,
    ib: &RegionIndex,
    addr: int,
)
    requires
        a.to_multiset() == b.to_multiset(),
        ia.built_from(a),
        ib.built_from(b),
    ensures
        ia.region_of(addr) == ib.region_of(addr),
{
    broadcast use vstd::seq_lib::to_multiset_contains;

    assert forall|r: (usize, usize)| ia@.contains(r) <==> ib@.contains(r) by {
        assert(a.contains(r) <==> a.to_multiset().count(r) > 0);
        assert(b.contains(r) <==> b.to_multiset().count(r) > 0);
    }
    if let Some(r) = ia.region_of(addr) {
        ia.lemma_unique(r, addr);
        ib.lemma_unique(r, addr);
    } else if let Some(r) = ib.region_of(addr) {
        ib.lemma_unique(r, addr);
    }
}

} // verus!
