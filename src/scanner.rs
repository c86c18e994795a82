//! The chain scanner: a pointer graph indexed by location, the meaning of an
//! offset chain over it, and a bounded search for every chain from an anchor
//! to a target.

use vstd::prelude::*;

use crate::builder::PointerEdge;
use crate::region::{spec_wrap_add, wrap_add};
use crate::region_index::RegionIndex;

verus! {

/// `a` comes before `b` in the order of `(location, target)` pairs.
pub open spec fn pair_le(a: (usize, usize), b: (usize, usize)) -> bool {
    a.0 < b.0 || (a.0 == b.0 && a.1 <= b.1)
}

/// Relies on `slice::sort_unstable`: afterwards the pairs are those that were
/// there before, in ascending tuple order (first by location, then by target).
#[verifier::external_body]
fn sort_pairs(v: &mut Vec<(usize, usize)>)
    ensures
        final(v)@.to_multiset() == old(v)@.to_multiset(),
        forall|i: int, j: int| 0 <= i < j < final(v)@.len() ==> pair_le(final(v)@[i], final(v)@[j]),
{
    v.sort_unstable();
}

/// The target recorded at `loc`, if any edge starts there.
pub open spec fn deref(g: Seq<PointerEdge>, loc: int) -> Option<usize> {
    if exists|i: int| 0 <= i < g.len() && g[i].location == loc {
        Some(g[choose|i: int| 0 <= i < g.len() && g[i].location == loc].target)
    } else {
        None
    }
}

/// Pointer edges sorted by location, at most one per location.
#[derive(Debug)]
pub struct PointerGraph {
    edges: Vec<PointerEdge>,
}

impl View for PointerGraph {
    type V = Seq<PointerEdge>;

    closed spec fn view(&self) -> Seq<PointerEdge> {
        self.edges@
    }
}

/// The edge `e` may be followed: its target lies in an allowed region.
pub open spec fn allowed_edge(allowed: RegionIndex, e: PointerEdge) -> bool {
    allowed.region_of(e.target as int).is_some()
}


/// The `(location, target)` pair of each edge whose target lies in `allowed`.
fn allowed_pairs(edges: &Vec<PointerEdge>, allowed: &RegionIndex) -> (r: Vec<(usize, usize)>)
    requires
        allowed.wf(),
    ensures
        forall|p: (usize, usize)|
            r@.contains(p) <==> exists|k: int|
                0 <= k < edges@.len() && edges@[k] == (PointerEdge { location: p.0, target: p.1 })
                    && allowed_edge(*allowed, edges@[k]),
{
    let mut pairs: Vec<(usize, usize)> = Vec::new();
    let mut i: usize = 0;
    while i < edges.len()
        invariant
            allowed.wf(),
            i <= edges@.len(),
            forall|p: (usize, usize)|
                pairs@.contains(p) <==> exists|k: int|
                    0 <= k < i && edges@[k] == (PointerEdge { location: p.0, target: p.1 })
                        && allowed_edge(*allowed, edges@[k]),
        decreases edges@.len() - i,
    {
        let e = edges[i];
        let ghost before = pairs@;
        let hit = allowed.contains(e.target).is_some();
        if hit {
            pairs.push((e.location, e.target));
        }
        assert(hit == allowed_edge(*allowed, edges@[i as int]));
        assert forall|p: (usize, usize)|
            pairs@.contains(p) <==> exists|k: int|
                0 <= k < i + 1 && edges@[k] == (PointerEdge { location: p.0, target: p.1 })
                    && allowed_edge(*allowed, edges@[k]) by {
            if pairs@.contains(p) {
                let m = choose|m: int| 0 <= m < pairs@.len() && pairs@[m] == p;
                if m < before.len() {
                    assert(before[m] == p);
                    assert(before.contains(p));
                } else {
                    assert(edges@[i as int] == (PointerEdge { location: p.0, target: p.1 }));
                }
            }
            if exists|k: int|
                0 <= k < i + 1 && edges@[k] == (PointerEdge { location: p.0, target: p.1 })
                    && allowed_edge(*allowed, edges@[k]) {
                let k = choose|k: int|
                    0 <= k < i + 1 && edges@[k] == (PointerEdge { location: p.0, target: p.1 })
                        && allowed_edge(*allowed, edges@[k]);
                if k < i {
                    assert(before.contains(p));
                    let m = choose|m: int| 0 <= m < before.len() && before[m] == p;
                    assert(pairs@[m] == p);
                } else {
                    assert(pairs@[pairs@.len() - 1] == p);
                }
            }
        }
        i = i + 1;
    }
    pairs
}

impl PointerGraph {
    pub open spec fn wf(&self) -> bool {
        forall|i: int, j: int| 0 <= i < j < self@.len() ==> self@[i].location < self@[j].location
    }

    proof fn lemma_deref_at(&self, i: int)
        requires
            self.wf(),
            0 <= i < self@.len(),
        ensures
            deref(self@, self@[i].location as int) == Some(self@[i].target),
    {
        let loc = self@[i].location as int;
        let j = choose|j: int| 0 <= j < self@.len() && self@[j].location == loc;
        assert(i == j);
    }

    /// Indexes the edges whose target lies in `allowed`. Where several edges
    /// share a location, the one with the smallest target is kept.
    pub fn new(edges: &Vec<PointerEdge>, allowed: &RegionIndex) -> (g: Self)
        requires
            allowed.wf(),
        ensures
            g.wf(),
            forall|loc: int|
                deref(g@, loc).is_some() <==> exists|e: PointerEdge|
                    edges@.contains(e) && e.location == loc && allowed_edge(*allowed, e),
            forall|loc: int|
                #![trigger deref(g@, loc)]
                deref(g@, loc).is_some() ==> edges@.contains(
                    PointerEdge { location: loc as usize, target: deref(g@, loc).unwrap() },
                ) && allowed_edge(*allowed, PointerEdge { location: loc as usize, target: deref(g@, loc).unwrap() }),
    {
        broadcast use vstd::seq_lib::to_multiset_contains;

        let mut pairs = allowed_pairs(edges, allowed);
        let ghost unsorted = pairs@;
        sort_pairs(&mut pairs);
        assert forall|p: (usize, usize)| pairs@.contains(p) <==> unsorted.contains(p) by {
            assert(pairs@.to_multiset().count(p) == unsorted.to_multiset().count(p));
        }
        let mut out: Vec<PointerEdge> = Vec::new();
        let mut j: usize = 0;
        while j < pairs.len()
            invariant
                j <= pairs@.len(),
                forall|a: int, b: int|
                    0 <= a < b < pairs@.len() ==> pair_le(pairs@[a], pairs@[b]),
                forall|a: int, b: int|
                    0 <= a < b < out@.len() ==> out@[a].location < out@[b].location,
                forall|a: int|
                    0 <= a < out@.len() ==> pairs@.contains((out@[a].location, out@[a].target)),
                forall|a: int|
                    #![trigger pairs@[a]]
                    0 <= a < j ==> exists|b: int|
                        0 <= b < out@.len() && out@[b].location == pairs@[a].0,
                j > 0 ==> out@.len() > 0 && out@[out@.len() - 1].location == pairs@[j - 1].0,
                j == 0 ==> out@.len() == 0,
                forall|a: int| 0 <= a < out@.len() ==> out@[a].location <= pairs@[j - 1].0,
            decreases pairs@.len() - j,
        {
            let p = pairs[j];
            let ghost before = out@;
            if j == 0 || out[out.len() - 1].location != p.0 {
                out.push(PointerEdge { location: p.0, target: p.1 });
                assert(pairs@.contains(p)) by {
                    assert(pairs@[j as int] == p);
                }
                if j > 0 {
                    assert(pair_le(pairs@[j - 1], pairs@[j as int]));
                }
                assert forall|a: int|
                    #![trigger pairs@[a]]
                    0 <= a < j + 1 implies exists|b: int|
                        0 <= b < out@.len() && out@[b].location == pairs@[a].0 by {
                    if a < j {
                        let b = choose|b: int|
                            0 <= b < before.len() && before[b].location == pairs@[a].0;
                        assert(out@[b] == before[b]);
                    } else {
                        assert(out@[out@.len() - 1].location == pairs@[a].0);
                    }
                }
            } else {
                assert(pair_le(pairs@[j - 1], pairs@[j as int]));
                assert forall|a: int|
                    #![trigger pairs@[a]]
                    0 <= a < j + 1 implies exists|b: int|
                        0 <= b < out@.len() && out@[b].location == pairs@[a].0 by {
                    if a < j {
                        let b = choose|b: int|
                            0 <= b < before.len() && before[b].location == pairs@[a].0;
                    } else {
                        assert(out@[out@.len() - 1].location == pairs@[a].0);
                    }
                }
            }
            j = j + 1;
        }
        let g = PointerGraph { edges: out };
        assert forall|loc: int|
            deref(g@, loc).is_some() <==> exists|e: PointerEdge|
                edges@.contains(e) && e.location == loc && allowed_edge(*allowed, e) by {
            if deref(g@, loc).is_some() {
                let a = choose|a: int| 0 <= a < g@.len() && g@[a].location == loc;
                let p = (g@[a].location, g@[a].target);
                assert(unsorted.contains(p));
                let k = choose|k: int|
                    0 <= k < edges@.len() && edges@[k] == (PointerEdge { location: p.0, target: p.1 })
                        && allowed_edge(*allowed, edges@[k]);
                assert(edges@.contains(edges@[k]));
            }
            if exists|e: PointerEdge|
                edges@.contains(e) && e.location == loc && allowed_edge(*allowed, e) {
                let e = choose|e: PointerEdge|
                    edges@.contains(e) && e.location == loc && allowed_edge(*allowed, e);
                let k = choose|k: int| 0 <= k < edges@.len() && edges@[k] == e;
                assert(unsorted.contains((e.location, e.target)));
                assert(pairs@.contains((e.location, e.target)));
                let a = choose|a: int| 0 <= a < pairs@.len() && pairs@[a] == (e.location, e.target);
                let b = choose|b: int| 0 <= b < out@.len() && out@[b].location == pairs@[a].0;
                assert(g@[b].location == loc);
            }
        }
        assert forall|loc: int|
            #![trigger deref(g@, loc)]
            deref(g@, loc).is_some() implies edges@.contains(
                PointerEdge { location: loc as usize, target: deref(g@, loc).unwrap() },
            ) && allowed_edge(*allowed, PointerEdge { location: loc as usize, target: deref(g@, loc).unwrap() }) by {
            let a = choose|a: int| 0 <= a < g@.len() && g@[a].location == loc;
            let p = (g@[a].location, g@[a].target);
            assert(unsorted.contains(p));
            let k = choose|k: int|
                0 <= k < edges@.len() && edges@[k] == (PointerEdge { location: p.0, target: p.1 })
                    && allowed_edge(*allowed, edges@[k]);
            assert(edges@[k] == PointerEdge { location: loc as usize, target: deref(g@, loc).unwrap() });
        }
        g
    }

    pub fn len(&self) -> (r: usize)
        ensures
            r == self@.len(),
    {
        self.edges.len()
    }

    /// Index of the first edge whose location is at least `addr`.
    fn lower_bound(&self, addr: usize) -> (r: usize)
        requires
            self.wf(),
        ensures
            r <= self@.len(),
            forall|i: int| 0 <= i < r ==> self@[i].location < addr,
            forall|i: int| r <= i < self@.len() ==> self@[i].location >= addr,
    {
        let mut lo: usize = 0;
        let mut hi: usize = self.edges.len();
        while lo < hi
            invariant
                self.wf(),
                lo <= hi <= self@.len(),
                forall|i: int| 0 <= i < lo ==> self@[i].location < addr,
                forall|i: int| hi <= i < self@.len() ==> self@[i].location >= addr,
            decreases hi - lo,
        {
            let mid = lo + (hi - lo) / 2;
            if self.edges[mid].location < addr {
                lo = mid + 1;
            } else {
                hi = mid;
            }
        }
        lo
    }

    /// The target recorded at `loc`.
    pub fn deref(&self, loc: usize) -> (r: Option<usize>)
        requires
            self.wf(),
        ensures
            r == deref(self@, loc as int),
    {
        let i = self.lower_bound(loc);
        if i < self.edges.len() && self.edges[i].location == loc {
            proof {
                self.lemma_deref_at(i as int);
            }
            Some(self.edges[i].target)
        } else {
            assert(!exists|k: int| 0 <= k < self@.len() && self@[k].location == loc);
            None
        }
    }
}

/// Where the chain `steps` leads from `a`: each offset is added to the current
/// address and the pointer stored there is followed.
pub open spec fn follow(g: Seq<PointerEdge>, a: int, steps: Seq<i16>) -> Option<int>
    decreases steps.len(),
{
    if steps.len() == 0 {
        Some(a)
    } else {
        match deref(g, a + steps[0]) {
            Some(t) => follow(g, t as int, steps.drop_first()),
            None => None,
        }
    }
}

/// Every offset of `steps` lies in `[-max_offset, max_offset]`.
pub open spec fn within(steps: Seq<i16>, max_offset: i16) -> bool {
    forall|i: int| 0 <= i < steps.len() ==> -max_offset <= #[trigger] steps[i] <= max_offset
}

/// `steps` is a chain the scanner reports: at most `depth` offsets, each within
/// bounds, leading from `a` to `target` and reaching it only at the end.
pub open spec fn is_chain(
    g: Seq<PointerEdge>,
    a: int,
    steps: Seq<i16>,
    target: int,
    depth: int,
    max_offset: i16,
) -> bool {
    &&& steps.len() <= depth
    &&& within(steps, max_offset)
    &&& follow(g, a, steps) == Some(target)
    &&& forall|k: int| 0 <= k < steps.len() ==> follow(g, a, #[trigger] steps.take(k)) != Some(target)
}

/// Following a chain in two parts is following the first, then the second.
pub proof fn lemma_follow_append(g: Seq<PointerEdge>, a: int, s1: Seq<i16>, s2: Seq<i16>)
    ensures
        follow(g, a, s1 + s2) == match follow(g, a, s1) {
            Some(b) => follow(g, b, s2),
            None => None,
        },
    decreases s1.len(),
{
    if s1.len() > 0 {
        assert((s1 + s2).drop_first() =~= s1.drop_first() + s2);
        assert((s1 + s2)[0] == s1[0]);
        match deref(g, a + s1[0]) {
            Some(t) => lemma_follow_append(g, t as int, s1.drop_first(), s2),
            None => {},
        }
    } else {
        assert(s1 + s2 =~= s2);
    }
}

/// Extending a chain found from `t` by the step into `t` gives a chain from `a`.
proof fn lemma_chain_cons(
    g: Seq<PointerEdge>,
    a: int,
    o: i16,
    t: usize,
    rest: Seq<i16>,
    target: int,
    depth: int,
    max_offset: i16,
)
    requires
        deref(g, a + o) == Some(t),
        a != target,
        -max_offset <= o <= max_offset,
    ensures
        is_chain(g, a, seq![o] + rest, target, depth, max_offset) <==> is_chain(
            g,
            t as int,
            rest,
            target,
            depth - 1,
            max_offset,
        ),
{
    let s = seq![o] + rest;
    assert(s.drop_first() =~= rest);
    assert(s[0] == o);
    assert forall|k: int| 0 < k <= s.len() implies follow(g, a, s.take(k)) == follow(g, t as int, rest.take(k - 1)) by {
        assert(s.take(k).drop_first() =~= rest.take(k - 1));
        assert(s.take(k)[0] == o);
    }
    assert(follow(g, a, s.take(0)) == Some(a)) by {
        assert(s.take(0).len() == 0);
    }
    if is_chain(g, t as int, rest, target, depth - 1, max_offset) {
        assert forall|k: int| 0 <= k < s.len() implies follow(g, a, #[trigger] s.take(k)) != Some(target) by {
            if k > 0 {
                assert(follow(g, t as int, rest.take(k - 1)) != Some(target));
            }
        }
        assert forall|i: int| 0 <= i < s.len() implies -max_offset <= #[trigger] s[i] <= max_offset by {
            if i > 0 {
                assert(s[i] == rest[i - 1]);
            }
        }
        assert(s.take(s.len() as int) =~= s);
        assert(rest.take(rest.len() as int) =~= rest);
    }
    if is_chain(g, a, s, target, depth, max_offset) {
        assert forall|k: int| 0 <= k < rest.len() implies follow(g, t as int, #[trigger] rest.take(k)) != Some(target) by {
            assert(follow(g, a, s.take(k + 1)) != Some(target));
        }
        assert forall|i: int| 0 <= i < rest.len() implies -max_offset <= #[trigger] rest[i] <= max_offset by {
            assert(s[i + 1] == rest[i]);
        }
        assert(s.take(s.len() as int) =~= s);
        assert(rest.take(rest.len() as int) =~= rest);
    }
}

/// A copy of `prefix` with `o` appended.
fn extend_path(prefix: &Vec<i16>, o: i16) -> (r: Vec<i16>)
    ensures
        r@ == prefix@.push(o),
{
    let mut r: Vec<i16> = Vec::new();
    let mut i: usize = 0;
    while i < prefix.len()
        invariant
            i <= prefix@.len(),
            r@ == prefix@.subrange(0, i as int),
        decreases prefix@.len() - i,
    {
        r.push(prefix[i]);
        assert(r@ =~= prefix@.subrange(0, i + 1));
        i = i + 1;
    }
    r.push(o);
    assert(r@ =~= prefix@.push(o));
    r
}

/// `new` keeps every path of `old` in place and may add more after them.
pub open spec fn extends(new: Seq<Vec<i16>>, old: Seq<Vec<i16>>) -> bool {
    old.len() <= new.len() && forall|j: int| 0 <= j < old.len() ==> new[j] == old[j]
}

/// `prefix + s` stands in `outs` at or after `lo`.
pub open spec fn found(outs: Seq<Vec<i16>>, lo: int, prefix: Seq<i16>, s: Seq<i16>) -> bool {
    exists|j: int| lo <= j < outs.len() && #[trigger] outs[j]@ == prefix + s
}

/// `v` is `prefix` followed by a chain from `a`.
pub open spec fn chain_after(
    v: Seq<i16>,
    prefix: Seq<i16>,
    g: Seq<PointerEdge>,
    a: int,
    target: int,
    depth: int,
    max_offset: i16,
) -> bool {
    &&& prefix.len() <= v.len()
    &&& v.subrange(0, prefix.len() as int) == prefix
    &&& is_chain(g, a, v.subrange(prefix.len() as int, v.len() as int), target, depth, max_offset)
}

/// Each path of `outs` from `lo` on is `prefix` followed by a chain from `a`.
#[verifier::opaque]
spec fn sound(
    outs: Seq<Vec<i16>>,
    lo: int,
    prefix: Seq<i16>,
    g: Seq<PointerEdge>,
    a: int,
    target: int,
    depth: int,
    max_offset: i16,
) -> bool {
    forall|j: int|
        lo <= j < outs.len() ==> chain_after(#[trigger] outs[j]@, prefix, g, a, target, depth, max_offset)
}

/// Each chain from `a` whose first step lands on one of the first `bound`
/// edges stands in `outs`, after `prefix`, at or after `lo`.
#[verifier::opaque]
spec fn complete_below(
    outs: Seq<Vec<i16>>,
    lo: int,
    prefix: Seq<i16>,
    g: Seq<PointerEdge>,
    a: int,
    target: int,
    depth: int,
    max_offset: i16,
    bound: int,
) -> bool {
    forall|s: Seq<i16>|
        #[trigger] is_chain(g, a, s, target, depth, max_offset) && (exists|k: int|
            0 <= k < bound && g[k].location == a + s[0]) ==> found(outs, lo, prefix, s)
}

/// Each chain from `a` stands in `outs`, after `prefix`, at or after `lo`.
#[verifier::opaque]
spec fn complete(
    outs: Seq<Vec<i16>>,
    lo: int,
    prefix: Seq<i16>,
    g: Seq<PointerEdge>,
    a: int,
    target: int,
    depth: int,
    max_offset: i16,
) -> bool {
    forall|s: Seq<i16>| #[trigger] is_chain(g, a, s, target, depth, max_offset) ==> found(outs, lo, prefix, s)
}

proof fn lemma_chain_at_target(g: Seq<PointerEdge>, a: int, s: Seq<i16>, depth: int, max_offset: i16)
    requires
        depth >= 0,
    ensures
        is_chain(g, a, Seq::empty(), a, depth, max_offset),
        is_chain(g, a, s, a, depth, max_offset) ==> s == Seq::<i16>::empty(),
{
    if s.len() > 0 {
        assert(s.take(0) =~= Seq::<i16>::empty());
    }
}

proof fn lemma_chain_nonempty(g: Seq<PointerEdge>, a: int, s: Seq<i16>, target: int, depth: int, max_offset: i16)
    requires
        a != target,
        is_chain(g, a, s, target, depth, max_offset),
    ensures
        s.len() > 0,
        deref(g, a + s[0]).is_some(),
        -max_offset <= s[0] <= max_offset,
{
}

proof fn lemma_sound_step(
    mid: Seq<Vec<i16>>,
    new: Seq<Vec<i16>>,
    start: int,
    prefix: Seq<i16>,
    o: i16,
    t: usize,
    g: Seq<PointerEdge>,
    a: int,
    target: int,
    depth: int,
    max_offset: i16,
)
    requires
        0 <= start <= mid.len(),
        sound(mid, start, prefix, g, a, target, depth, max_offset),
        extends(new, mid),
        sound(new, mid.len() as int, prefix.push(o), g, t as int, target, depth - 1, max_offset),
        deref(g, a + o) == Some(t),
        a != target,
        -max_offset <= o <= max_offset,
    ensures
        sound(new, start, prefix, g, a, target, depth, max_offset),
{
    reveal(sound);
    assert forall|j: int| start <= j < new.len() implies chain_after(
        #[trigger] new[j]@,
        prefix,
        g,
        a,
        target,
        depth,
        max_offset,
    ) by {
        if j >= mid.len() {
            let v = new[j]@;
            let p = prefix.push(o);
            assert(chain_after(v, p, g, t as int, target, depth - 1, max_offset));
            let r = v.subrange(p.len() as int, v.len() as int);
            lemma_chain_cons(g, a, o, t, r, target, depth, max_offset);
            assert(v.subrange(0, p.len() as int)[prefix.len() as int] == v[prefix.len() as int]);
            assert(v.subrange(prefix.len() as int, v.len() as int) =~= seq![o] + r);
            assert(v.subrange(0, prefix.len() as int) =~= p.subrange(0, prefix.len() as int));
            assert(p.subrange(0, prefix.len() as int) =~= prefix);
        } else {
            assert(new[j] == mid[j]);
        }
    }
}

proof fn lemma_complete_step(
    mid: Seq<Vec<i16>>,
    new: Seq<Vec<i16>>,
    start: int,
    prefix: Seq<i16>,
    i: int,
    g: Seq<PointerEdge>,
    a: int,
    target: int,
    depth: int,
    max_offset: i16,
)
    requires
        0 <= start <= mid.len(),
        0 <= i < g.len(),
        forall|x: int, y: int| 0 <= x < y < g.len() ==> g[x].location < g[y].location,
        complete_below(mid, start, prefix, g, a, target, depth, max_offset, i),
        extends(new, mid),
        -max_offset <= g[i].location - a <= max_offset,
        complete(new, mid.len() as int, prefix.push((g[i].location - a) as i16), g, g[i].target as int, target, depth - 1, max_offset),
        a != target,
    ensures
        complete_below(new, start, prefix, g, a, target, depth, max_offset, i + 1),
{
    reveal(complete_below);
    reveal(complete);
    let o = (g[i].location - a) as i16;
    let t = g[i].target;
    assert(deref(g, a + o) == Some(t)) by {
        let k = choose|k: int| 0 <= k < g.len() && g[k].location == a + o;
        assert(k == i);
    }
    assert forall|s: Seq<i16>|
        #[trigger] is_chain(g, a, s, target, depth, max_offset) && (exists|k: int|
            0 <= k < i + 1 && g[k].location == a + s[0]) implies found(new, start, prefix, s) by {
        let k = choose|k: int| 0 <= k < i + 1 && g[k].location == a + s[0];
        if k < i {
            assert(exists|k2: int| 0 <= k2 < i && g[k2].location == a + s[0]) by {
                assert(g[k].location == a + s[0]);
            }
            assert(found(mid, start, prefix, s));
            let j = choose|j: int| start <= j < mid.len() && #[trigger] mid[j]@ == prefix + s;
            assert(new[j] == mid[j]);
        } else {
            lemma_chain_nonempty(g, a, s, target, depth, max_offset);
            let rest = s.drop_first();
            assert(s =~= seq![o] + rest);
            lemma_chain_cons(g, a, o, t, rest, target, depth, max_offset);
            assert(found(new, mid.len() as int, prefix.push(o), rest));
            let j = choose|j: int| mid.len() <= j < new.len() && #[trigger] new[j]@ == prefix.push(o) + rest;
            assert(prefix.push(o) + rest =~= prefix + s);
        }
    }
}

proof fn lemma_complete_final(
    outs: Seq<Vec<i16>>,
    start: int,
    prefix: Seq<i16>,
    i: int,
    g: Seq<PointerEdge>,
    a: int,
    target: int,
    depth: int,
    max_offset: i16,
)
    requires
        a != target,
        complete_below(outs, start, prefix, g, a, target, depth, max_offset, i),
        forall|k: int|
            i <= k < g.len() ==> !(-max_offset <= #[trigger] g[k].location - a <= max_offset),
    ensures
        complete(outs, start, prefix, g, a, target, depth, max_offset),
{
    reveal(complete_below);
    reveal(complete);
    assert forall|s: Seq<i16>| #[trigger] is_chain(g, a, s, target, depth, max_offset) implies found(
        outs,
        start,
        prefix,
        s,
    ) by {
        lemma_chain_nonempty(g, a, s, target, depth, max_offset);
        let k = choose|k: int| 0 <= k < g.len() && g[k].location == a + s[0];
        assert(k < i);
    }
}

/// Depth-first search from `a`: appends to `out`, after `prefix`, every chain
/// to `target` of at most `depth` steps, until `out` holds `cap` paths.
fn search(
    g: &PointerGraph,
    a: usize,
    target: usize,
    depth: usize,
    max_offset: i16,
    cap: usize,
    prefix: &Vec<i16>,
    out: &mut Vec<Vec<i16>>,
)
    requires
        g.wf(),
        max_offset >= 0,
        old(out)@.len() <= cap,
    ensures
        extends(final(out)@, old(out)@),
        final(out)@.len() <= cap,
        sound(final(out)@, old(out)@.len() as int, prefix@, g@, a as int, target as int, depth as int, max_offset),
        final(out)@.len() < cap ==> complete(final(out)@, old(out)@.len() as int, prefix@, g@, a as int, target as int, depth as int, max_offset),
    decreases depth,
{
    let ghost start = old(out)@;
    let ghost gs = g@;
    let ghost lo = start.len() as int;
    if out.len() >= cap {
        proof {
            reveal(sound);
        }
        return;
    }
    if a == target {
        out.push(copy_path(prefix));
        proof {
            reveal(sound);
            reveal(complete);
            lemma_chain_at_target(gs, a as int, Seq::empty(), depth as int, max_offset);
            let v = out@[lo]@;
            assert(v == prefix@);
            assert(v.subrange(0, prefix@.len() as int) =~= prefix@);
            assert(v.subrange(prefix@.len() as int, v.len() as int) =~= Seq::<i16>::empty());
            assert(v == prefix@ + Seq::<i16>::empty());
            assert forall|s: Seq<i16>| #[trigger] is_chain(gs, a as int, s, target as int, depth as int, max_offset) implies found(
                out@,
                lo,
                prefix@,
                s,
            ) by {
                lemma_chain_at_target(gs, a as int, s, depth as int, max_offset);
            }
        }
        return;
    }
    if depth == 0 {
        proof {
            reveal(sound);
            reveal(complete);
        }
        return;
    }
    let lo_addr = a.saturating_sub(max_offset as usize);
    let hi_addr = a.saturating_add(max_offset as usize);
    let mut i = g.lower_bound(lo_addr);
    let n = g.edges.len();
    proof {
        reveal(sound);
        reveal(complete_below);
        assert forall|s: Seq<i16>|
            #[trigger] is_chain(gs, a as int, s, target as int, depth as int, max_offset) && (exists|k: int|
                0 <= k < i && gs[k].location == a + s[0]) implies found(out@, lo, prefix@, s) by {
            lemma_chain_nonempty(gs, a as int, s, target as int, depth as int, max_offset);
        }
    }
    while i < n && g.edges[i].location <= hi_addr && out.len() < cap
        invariant
            g.wf(),
            gs == g@,
            n == g@.len(),
            max_offset >= 0,
            a != target,
            depth > 0,
            i <= n,
            lo == start.len(),
            out@.len() <= cap,
            lo_addr as int == (if a >= max_offset { a - max_offset } else { 0 }),
            hi_addr as int == (if a + max_offset <= usize::MAX { a + max_offset } else { usize::MAX as int }),
            forall|k: int| 0 <= k < i ==> gs[k].location <= hi_addr,
            forall|k: int| i <= k < n ==> gs[k].location >= lo_addr,
            extends(out@, start),
            sound(out@, lo, prefix@, gs, a as int, target as int, depth as int, max_offset),
            out@.len() < cap ==> complete_below(out@, lo, prefix@, gs, a as int, target as int, depth as int, max_offset, i as int),
        decreases n - i,
    {
        let e = g.edges[i];
        let o: i16 = if e.location >= a {
            (e.location - a) as i16
        } else {
            (0 - ((a - e.location) as i32)) as i16
        };
        assert(o == e.location - a);
        let next = extend_path(prefix, o);
        let ghost mid = out@;
        proof {
            g.lemma_deref_at(i as int);
        }
        search(g, e.target, target, depth - 1, max_offset, cap, &next, out);
        proof {
            lemma_sound_step(mid, out@, lo, prefix@, o, e.target, gs, a as int, target as int, depth as int, max_offset);
            if out@.len() < cap {
                lemma_complete_step(mid, out@, lo, prefix@, i as int, gs, a as int, target as int, depth as int, max_offset);
            }
        }
        i = i + 1;
    }
    proof {
        if out@.len() < cap {
            if i < n {
                assert forall|k: int| i <= k < n implies gs[k].location > hi_addr by {
                    if k > i {
                        assert(gs[i as int].location < gs[k].location);
                    }
                }
            }
            lemma_complete_final(out@, lo, prefix@, i as int, gs, a as int, target as int, depth as int, max_offset);
        }
    }
}

/// A copy of `prefix`.
fn copy_path(prefix: &Vec<i16>) -> (r: Vec<i16>)
    ensures
        r@ == prefix@,
{
    let mut r: Vec<i16> = Vec::new();
    let mut i: usize = 0;
    while i < prefix.len()
        invariant
            i <= prefix@.len(),
            r@ == prefix@.subrange(0, i as int),
        decreases prefix@.len() - i,
    {
        r.push(prefix[i]);
        assert(r@ =~= prefix@.subrange(0, i + 1));
        i = i + 1;
    }
    assert(r@ =~= prefix@);
    r
}


/// How a search ended.
#[derive(Clone, Copy, Debug, PartialEq, Eq, Structural)]
pub enum ScanStatus {
    /// Every chain within the bounds was returned, and there is at least one.
    Found,
    /// No chain exists within the bounds.
    NoPathFound,
    /// The search stopped at the cap on paths; more chains may exist.
    LimitReached,
}

/// The chains found by `scan` and how the search ended.
#[derive(Debug)]
pub struct ScanResult {
    pub paths: Vec<Vec<i16>>,
    pub status: ScanStatus,
}

/// Every chain of at most `max_depth` offsets, each in `[-max_offset,
/// max_offset]`, that leads from `anchor` to `target` and reaches it only at
/// its end; at most `max_paths` of them.
pub fn scan(
    g: &PointerGraph,
    anchor: usize,
    target: usize,
    max_depth: usize,
    max_offset: i16,
    max_paths: usize,
) -> (r: ScanResult)
    requires
        g.wf(),
    ensures
        r.paths@.len() <= max_paths,
        forall|j: int|
            0 <= j < r.paths@.len() ==> is_chain(
                g@,
                anchor as int,
                #[trigger] r.paths@[j]@,
                target as int,
                max_depth as int,
                max_offset,
            ),
        r.status != ScanStatus::LimitReached ==> forall|s: Seq<i16>|
            #[trigger] is_chain(g@, anchor as int, s, target as int, max_depth as int, max_offset)
                ==> exists|j: int| 0 <= j < r.paths@.len() && #[trigger] r.paths@[j]@ == s,
        r.status == ScanStatus::LimitReached <==> r.paths@.len() == max_paths,
        r.status == ScanStatus::NoPathFound <==> (r.paths@.len() == 0 && max_paths > 0),
{
    let mut paths: Vec<Vec<i16>> = Vec::new();
    let prefix: Vec<i16> = Vec::new();
    if max_offset < 0 {
        search(g, anchor, target, 0, 0, max_paths, &prefix, &mut paths);
        proof {
            assert forall|s: Seq<i16>|
                #![trigger is_chain(g@, anchor as int, s, target as int, max_depth as int, max_offset)]
                #![trigger is_chain(g@, anchor as int, s, target as int, 0, 0)]
                is_chain(g@, anchor as int, s, target as int, max_depth as int, max_offset)
                    <==> is_chain(g@, anchor as int, s, target as int, 0, 0) by {
                if s.len() > 0 {
                    assert(!within(s, max_offset)) by {
                        assert(!(-max_offset <= s[0] <= max_offset));
                    }
                }
            }
        }
    } else {
        search(g, anchor, target, max_depth, max_offset, max_paths, &prefix, &mut paths);
    }
    let ghost depth = if max_offset < 0 { 0int } else { max_depth as int };
    let ghost bound: i16 = if max_offset < 0 { 0 } else { max_offset };
    proof {
        reveal(sound);
        reveal(complete);
        assert forall|j: int| 0 <= j < paths@.len() implies is_chain(
            g@,
            anchor as int,
            #[trigger] paths@[j]@,
            target as int,
            depth,
            bound,
        ) by {
            assert(chain_after(paths@[j]@, prefix@, g@, anchor as int, target as int, depth, bound));
            assert(paths@[j]@.subrange(0, paths@[j]@.len() as int) =~= paths@[j]@);
        }
        if paths@.len() < max_paths {
            assert forall|s: Seq<i16>|
                #[trigger] is_chain(g@, anchor as int, s, target as int, depth, bound)
                    implies exists|j: int| 0 <= j < paths@.len() && #[trigger] paths@[j]@ == s by {
                assert(found(paths@, 0, prefix@, s));
                assert(prefix@ + s =~= s);
            }
            assert forall|s: Seq<i16>|
                #[trigger] is_chain(g@, anchor as int, s, target as int, max_depth as int, max_offset)
                    implies exists|j: int| 0 <= j < paths@.len() && #[trigger] paths@[j]@ == s by {
                if max_offset < 0 {
                    assert(is_chain(g@, anchor as int, s, target as int, 0, 0));
                }
                assert(is_chain(g@, anchor as int, s, target as int, depth, bound));
            }
        }
        assert forall|j: int| 0 <= j < paths@.len() implies is_chain(
            g@,
            anchor as int,
            #[trigger] paths@[j]@,
            target as int,
            max_depth as int,
            max_offset,
        ) by {
            assert(is_chain(g@, anchor as int, paths@[j]@, target as int, depth, bound));
        }
    }

    let status = if paths.len() >= max_paths {
        ScanStatus::LimitReached
    } else if paths.len() == 0 {
        ScanStatus::NoPathFound
    } else {
        ScanStatus::Found
    };
    assert(status != ScanStatus::LimitReached ==> paths@.len() < max_paths);
    let r = ScanResult { paths, status };
    assert(r.paths@ == paths@);
    r
}

/// A found chain leads from its anchor to its target: following it again on
/// the same graph resolves to that target.
pub proof fn lemma_found_chain_resolves(
    g: Seq<PointerEdge>,
    anchor: int,
    steps: Seq<i16>,
    target: int,
    max_depth: int,
    max_offset: i16,
)
    requires
        is_chain(g, anchor, steps, target, max_depth, max_offset),
    ensures
        follow(g, anchor, steps) == Some(target),
{
}

/// A chain stopped at `step`: the address reached there holds no recorded pointer.
#[derive(Clone, Copy, Debug, PartialEq, Eq, Structural)]
pub struct PathBrokenError {
    pub step: usize,
}

/// Follows `steps` from `anchor` over `g`, returning the address it leads to,
/// or the index of the first step whose dereference fails.
pub fn verify_path(g: &PointerGraph, anchor: usize, steps: &Vec<i16>) -> (r: Result<usize, PathBrokenError>)
    requires
        g.wf(),
    ensures
        r.is_ok() <==> follow(g@, anchor as int, steps@).is_some(),
        r.is_ok() ==> follow(g@, anchor as int, steps@) == Some(r->Ok_0 as int),
        r.is_err() ==> {
            let k = r->Err_0.step as int;
            &&& k < steps@.len()
            &&& follow(g@, anchor as int, steps@.take(k)).is_some()
            &&& follow(g@, anchor as int, steps@.take(k + 1)).is_none()
        },
{
    let mut cur = anchor;
    let mut k: usize = 0;
    assert(steps@.take(0) =~= Seq::<i16>::empty());
    while k < steps.len()
        invariant
            g.wf(),
            k <= steps@.len(),
            follow(g@, anchor as int, steps@.take(k as int)) == Some(cur as int),
        decreases steps@.len() - k,
    {
        let o = steps[k];
        let ghost pre = steps@.take(k as int);
        let ghost one = seq![o];
        proof {
            assert(steps@.take(k + 1) =~= pre + one);
            lemma_follow_append(g@, anchor as int, pre, one);
            assert(one.drop_first() =~= Seq::<i16>::empty());
            assert(one[0] == o);
        }
        let next = match wrap_add(cur, o) {
            None => {
                proof {
                    assert(deref(g@, cur + o).is_none());
                    lemma_broken_stays_broken(g@, anchor as int, steps@, k as int);
                }
                return Err(PathBrokenError { step: k });
            },
            Some(loc) => match g.deref(loc) {
                None => {
                    proof {
                        lemma_broken_stays_broken(g@, anchor as int, steps@, k as int);
                    }
                    return Err(PathBrokenError { step: k });
                },
                Some(t) => {
                    proof {
                        assert(loc as int == cur + o);
                        assert(follow(g@, t as int, one.drop_first()) == Some(t as int));
                        assert(follow(g@, cur as int, one) == Some(t as int));
                    }
                    t
                },
            },
        };
        cur = next;
        k = k + 1;
    }
    assert(steps@.take(steps@.len() as int) =~= steps@);
    Ok(cur)
}

proof fn lemma_broken_stays_broken(g: Seq<PointerEdge>, a: int, steps: Seq<i16>, k: int)
    requires
        0 <= k < steps.len(),
        follow(g, a, steps.take(k + 1)).is_none(),
    ensures
        follow(g, a, steps).is_none(),
{
    assert(steps =~= steps.take(k + 1) + steps.skip(k + 1));
    lemma_follow_append(g, a, steps.take(k + 1), steps.skip(k + 1));
}

} // verus!
