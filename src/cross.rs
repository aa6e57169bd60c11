use vstd::prelude::*;
use crate::candidate::Candidate;
use crate::config::MatchConfig;
use crate::engine::ClusterError;
use crate::index::{BucketIndex, NeighborCache, bucket_abs, bucket_key, bucket_of, probed};
use crate::matching::related;

verus! {

broadcast use vstd::std_specs::hash::group_hash_axioms;

/// Searching from candidate `a`, candidate `b` of another source is found:
/// its bucket is probed from the bucket of `a`, and it is the same signal as
/// `a` with `a` as reference.
pub open spec fn cross_pair(cs: Seq<Candidate>, cfg: MatchConfig, a: int, b: int) -> bool {
    &&& cs[a].source != cs[b].source
    &&& probed(
        bucket_of(cs[a].period as int, cfg.period_tol as int),
        bucket_of(cs[b].period as int, cfg.period_tol as int),
        cfg.harmonics,
        cfg.max_harmonic as int,
    )
    &&& related(cs[a], cs[b], cfg)
}

/// Candidate `i` takes part in at least one pair across sources, searching
/// from either side.
pub open spec fn cross_matched(cs: Seq<Candidate>, cfg: MatchConfig, i: int) -> bool {
    exists|j: int| 0 <= j < cs.len() && (#[trigger] cross_pair(cs, cfg, i, j) || cross_pair(cs, cfg, j, i))
}

/// The candidates found from candidate `a` in other sources.
fn cross_partners(cs: &Vec<Candidate>, cfg: &MatchConfig, index: &BucketIndex, nbs: &Vec<u64>, a: usize) -> (r: Vec<usize>)
    requires
        forall|b: u64| nbs@.contains(b) <==> probed(
            bucket_of(cs@[a as int].period as int, cfg.period_tol as int),
            b as int,
            cfg.harmonics,
            cfg.max_harmonic as int,
        ),
        index.indexes(cs@),
        index.tol == cfg.period_tol,
        a < cs@.len(),
    ensures
        forall|b: usize| #[trigger] r@.contains(b) <==> b < cs@.len() && cross_pair(cs@, *cfg, a as int, b as int),
{
    let ghost n = cs@.len() as int;
    assert(n == cs.len() as int);
    let ghost tol = cfg.period_tol;
    let ba = bucket_abs(cs[a].period, cfg.period_tol);
    let mut out: Vec<usize> = Vec::new();
    let mut t: usize = 0;
    while t < nbs.len()
        invariant
            index.indexes(cs@),
            index.tol == tol,
            tol == cfg.period_tol,
            a < n,
            n == cs@.len(),
            n <= usize::MAX,
            ba == bucket_of(cs@[a as int].period as int, tol as int),
            forall|b: u64| nbs@.contains(b) <==> probed(ba as int, b as int, cfg.harmonics, cfg.max_harmonic as int),
            t <= nbs@.len(),
            forall|b: usize| #[trigger] out@.contains(b) ==> b < n && cross_pair(cs@, *cfg, a as int, b as int),
            forall|s: int, b: int|
                0 <= s < t && 0 <= b < n && bucket_key(cs@[b], tol) == #[trigger] nbs@[s] && #[trigger] cross_pair(cs@, *cfg, a as int, b)
                    ==> out@.contains(b as usize),
        decreases nbs@.len() - t,
    {
        let nb = nbs[t];
        match index.buckets.get(&nb) {
            Some(members) => {
                let ghost ms = members@;
                let mut u: usize = 0;
                while u < members.len()
                    invariant
                        index.indexes(cs@),
                        index.tol == tol,
                        tol == cfg.period_tol,
                        a < n,
                        n == cs@.len(),
                        n <= usize::MAX,
                        ba == bucket_of(cs@[a as int].period as int, tol as int),
                        forall|b: u64| nbs@.contains(b) <==> probed(ba as int, b as int, cfg.harmonics, cfg.max_harmonic as int),
                        t < nbs@.len(),
                        nb == nbs@[t as int],
                        members@ == ms,
                        index.buckets@.contains_key(nb) && index.buckets@[nb]@ == ms,
                        u <= ms.len(),
                        forall|b: usize| #[trigger] out@.contains(b) ==> b < n && cross_pair(cs@, *cfg, a as int, b as int),
                        forall|s: int, b: int|
                            0 <= s < t && 0 <= b < n && bucket_key(cs@[b], tol) == #[trigger] nbs@[s] && #[trigger] cross_pair(cs@, *cfg, a as int, b)
                                ==> out@.contains(b as usize),
                        forall|v: int| 0 <= v < u && cross_pair(cs@, *cfg, a as int, #[trigger] ms[v] as int) ==> out@.contains(ms[v]),
                    decreases ms.len() - u,
                {
                    let b = members[u];
                    assert(index.buckets@[nb]@.contains(b));
                    assert(b < n && bucket_key(cs@[b as int], tol) == nb);
                    assert(nbs@.contains(nb));
                    let ghost prev = out@;
                    if cs[a].source != cs[b].source && cs[a].is_related(&cs[b], cfg) {
                        out.push(b);
                        assert(out@[out@.len() - 1] == b);
                    }
                    assert forall|c: usize| #[trigger] prev.contains(c) implies out@.contains(c) by {
                        let s = choose|s: int| 0 <= s < prev.len() && prev[s] == c;
                        assert(out@[s] == c);
                    }
                    assert forall|c: usize| #[trigger] out@.contains(c) implies c < n && cross_pair(cs@, *cfg, a as int, c as int) by {
                        if !prev.contains(c) {
                            assert(c == b);
                        }
                    }
                    u = u + 1;
                }
                assert forall|s: int, b: int|
                    0 <= s < t + 1 && 0 <= b < n && bucket_key(cs@[b], tol) == #[trigger] nbs@[s] && #[trigger] cross_pair(cs@, *cfg, a as int, b)
                        implies out@.contains(b as usize) by {
                    if s == t {
                        assert(index.buckets@[nb]@.contains(b as usize));
                        let v = choose|v: int| 0 <= v < ms.len() && ms[v] == b as usize;
                        assert(ms[v] as int == b);
                        assert(cross_pair(cs@, *cfg, a as int, ms[v] as int));
                    }
                }
            },
            None => {
                assert forall|s: int, b: int|
                    0 <= s < t + 1 && 0 <= b < n && bucket_key(cs@[b], tol) == #[trigger] nbs@[s] && #[trigger] cross_pair(cs@, *cfg, a as int, b)
                        implies out@.contains(b as usize) by {
                    if s == t {
                        assert(index.buckets@.contains_key(bucket_key(cs@[b], tol)));
                    }
                }
            },
        }
        t = t + 1;
    }
    assert forall|b: usize| b < n && cross_pair(cs@, *cfg, a as int, b as int) implies #[trigger] out@.contains(b) by {
        let k = bucket_key(cs@[b as int], tol);
        assert(k as int == bucket_of(cs@[b as int].period as int, tol as int));
        assert(nbs@.contains(k));
        let s = choose|s: int| 0 <= s < nbs@.len() && nbs@[s] == k;
        assert(bucket_key(cs@[b as int], tol) == nbs@[s]);
    }
    out
}

/// Marks the candidates that match a candidate of another source.
///
/// Each candidate is compared, as reference, with the candidates of other
/// sources in the buckets probed from its own; both sides of every match are
/// marked.
pub fn mark_cross_matches(cands: &Vec<Candidate>, cfg: &MatchConfig) -> (r: Result<Vec<bool>, ClusterError>)
    ensures
        cfg.period_tol == 0 <==> r == Err::<Vec<bool>, ClusterError>(ClusterError::ZeroPeriodTolerance),
        cfg.period_tol > 0 && cands@.len() == 0 <==> r == Err::<Vec<bool>, ClusterError>(
            ClusterError::NothingToCluster,
        ),
        r is Ok ==> r->Ok_0@.len() == cands@.len() && forall|i: int|
            0 <= i < cands@.len() ==> (#[trigger] r->Ok_0@[i] <==> cross_matched(cands@, *cfg, i)),
{
    if cfg.period_tol == 0 {
        return Err(ClusterError::ZeroPeriodTolerance);
    }
    if cands.len() == 0 {
        return Err(ClusterError::NothingToCluster);
    }
    let ghost cs = cands@;
    let ghost n = cs.len() as int;
    let index = BucketIndex::build(cands, cfg.period_tol);
    let mut marks: Vec<bool> = Vec::new();
    let mut i: usize = 0;
    while i < cands.len()
        invariant
            i <= cands.len(),
            marks@.len() == i,
            forall|j: int| 0 <= j < i ==> !#[trigger] marks@[j],
        decreases cands.len() - i,
    {
        marks.push(false);
        i = i + 1;
    }
    let mut cache = NeighborCache::new(cfg.harmonics, cfg.max_harmonic);
    let mut a: usize = 0;
    while a < cands.len()
        invariant
            cache.wf(),
            cache.harmonics == cfg.harmonics,
            cache.hmax == cfg.max_harmonic,
            cfg.period_tol > 0,
            cs == cands@,
            n == cs.len(),
            index.indexes(cs),
            index.tol == cfg.period_tol,
            a <= n,
            marks@.len() == n,
            forall|i: int|
                0 <= i < n ==> (#[trigger] marks@[i] <==> exists|j: int|
                    0 <= j < n && ((i < a && cross_pair(cs, *cfg, i, j)) || (j < a && cross_pair(cs, *cfg, j, i)))),
        decreases n - a,
    {
        let nbs = cache.neighbors(bucket_abs(cands[a].period, cfg.period_tol));
        let partners = cross_partners(cands, cfg, &index, &nbs, a);
        let ghost m0 = marks@;
        if partners.len() > 0 {
            marks.set(a, true);
            assert(partners@.contains(partners@[0]));
        }
        let mut u: usize = 0;
        while u < partners.len()
            invariant
                cs == cands@,
                n == cs.len(),
                a < n,
                marks@.len() == n,
                u <= partners@.len(),
                forall|b: usize| #[trigger] partners@.contains(b) <==> b < n && cross_pair(cs, *cfg, a as int, b as int),
                forall|i: int|
                    0 <= i < n ==> (#[trigger] marks@[i] <==> (m0[i] || (i == a && partners@.len() > 0) || exists|v: int|
                        0 <= v < u && partners@[v] as int == i)),
            decreases partners@.len() - u,
        {
            let b = partners[u];
            assert(partners@.contains(b));
            let ghost m1 = marks@;
            marks.set(b, true);
            assert forall|i: int|
                0 <= i < n implies (#[trigger] marks@[i] <==> (m0[i] || (i == a && partners@.len() > 0) || exists|v: int|
                    0 <= v < u + 1 && partners@[v] as int == i)) by {
                if i == b {
                    assert(partners@[u as int] as int == i);
                } else {
                    assert(marks@[i] == m1[i]);
                    if exists|v: int| 0 <= v < u + 1 && partners@[v] as int == i {
                        let v = choose|v: int| 0 <= v < u + 1 && partners@[v] as int == i;
                        assert(v < u);
                    }
                }
            }
            u = u + 1;
        }
        assert forall|i: int|
            0 <= i < n implies (#[trigger] marks@[i] <==> exists|j: int|
                0 <= j < n && ((i < a + 1 && cross_pair(cs, *cfg, i, j)) || (j < a + 1 && cross_pair(cs, *cfg, j, i)))) by {
            if marks@[i] {
                if m0[i] {
                    let j = choose|j: int|
                        0 <= j < n && ((i < a && cross_pair(cs, *cfg, i, j)) || (j < a && cross_pair(cs, *cfg, j, i)));
                    assert(0 <= j < n && ((i < a + 1 && cross_pair(cs, *cfg, i, j)) || (j < a + 1 && cross_pair(cs, *cfg, j, i))));
                } else if i == a && partners@.len() > 0 {
                    let b = partners@[0];
                    assert(partners@.contains(b));
                    assert(cross_pair(cs, *cfg, i, b as int));
                } else {
                    let v = choose|v: int| 0 <= v < partners@.len() && partners@[v] as int == i;
                    assert(partners@.contains(partners@[v]));
                    assert(cross_pair(cs, *cfg, a as int, i));
                }
            } else {
                assert forall|j: int| 0 <= j < n implies !((i < a + 1 && cross_pair(cs, *cfg, i, j)) || (j < a + 1 && cross_pair(cs, *cfg, j, i))) by {
                    if i < a && cross_pair(cs, *cfg, i, j) {
                        assert(m0[i]);
                    }
                    if j < a && cross_pair(cs, *cfg, j, i) {
                        assert(m0[i]);
                    }
                    if i == a && cross_pair(cs, *cfg, i, j) {
                        assert(partners@.contains(j as usize));
                    }
                    if j == a && cross_pair(cs, *cfg, j, i) {
                        assert(partners@.contains(i as usize));
                        let v = choose|v: int| 0 <= v < partners@.len() && partners@[v] == i as usize;
                        assert(partners@[v] as int == i);
                    }
                }
            }
        }
        a = a + 1;
    }
    assert forall|i: int| 0 <= i < n implies (#[trigger] marks@[i] <==> cross_matched(cs, *cfg, i)) by {
        if marks@[i] {
            let j = choose|j: int| 0 <= j < n && ((i < n && cross_pair(cs, *cfg, i, j)) || (j < n && cross_pair(cs, *cfg, j, i)));
            assert(cross_pair(cs, *cfg, i, j) || cross_pair(cs, *cfg, j, i));
        }
        if cross_matched(cs, *cfg, i) {
            let j = choose|j: int| 0 <= j < n && (#[trigger] cross_pair(cs, *cfg, i, j) || cross_pair(cs, *cfg, j, i));
            assert(0 <= j < n && ((i < n && cross_pair(cs, *cfg, i, j)) || (j < n && cross_pair(cs, *cfg, j, i))));
        }
    }
    Ok(marks)
}

} // verus!
