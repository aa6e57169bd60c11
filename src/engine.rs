use vstd::prelude::*;
use crate::candidate::{Candidate, acc_value, snr_rank, ranks_before};
use crate::config::MatchConfig;
use crate::index::{BucketIndex, NeighborCache, bucket_abs, bucket_key, bucket_of, harmonic_probe, in_divisor_range, in_multiple_range, near, probed};
use crate::matching::{abs_diff, close_at, lemma_equal_acc_no_correction, related};

verus! {

broadcast use {vstd::std_specs::hash::group_hash_axioms, vstd::seq_lib::group_to_multiset_ensures};

/// Pivot `p` claims candidate `q`: `q` lies in a bucket searched from the
/// bucket of `p`, comes from another source when only cross-source groups are
/// wanted, and is the same signal as `p` with `p` as reference.
pub open spec fn claims(cs: Seq<Candidate>, cfg: MatchConfig, p: int, q: int) -> bool {
    &&& p != q
    &&& probed(
        bucket_of(cs[p].period as int, cfg.period_tol as int),
        bucket_of(cs[q].period as int, cfg.period_tol as int),
        cfg.harmonics,
        cfg.max_harmonic as int,
    )
    &&& (cfg.cross_source_only ==> cs[p].source != cs[q].source)
    &&& related(cs[p], cs[q], cfg)
}

/// `owner` is the outcome of greedy pivot selection over `cs`: each
/// candidate names its pivot, a pivot names itself. A candidate is a pivot
/// exactly when no pivot ranked before it claims it; any other candidate
/// belongs to the first pivot, in rank order, that claims it.
pub open spec fn greedy_clustering(cs: Seq<Candidate>, cfg: MatchConfig, owner: Seq<usize>) -> bool {
    &&& owner.len() == cs.len()
    &&& forall|i: int| 0 <= i < cs.len() ==> #[trigger] owner[i] < cs.len()
    &&& forall|i: int|
        0 <= i < cs.len() ==> (#[trigger] owner[i] == i <==> forall|j: int|
            0 <= j < cs.len() && owner[j] == j && ranks_before(cs, j, i) ==> !claims(cs, cfg, j, i))
    &&& forall|i: int|
        0 <= i < cs.len() && #[trigger] owner[i] != i ==> {
            let p = owner[i] as int;
            &&& owner[p] == p
            &&& ranks_before(cs, p, i)
            &&& claims(cs, cfg, p, i)
            &&& forall|j: int|
                0 <= j < cs.len() && owner[j] == j && ranks_before(cs, j, p) ==> !claims(cs, cfg, j, i)
        }
}

/// Why a run of the engine was refused.
#[derive(Clone, Copy, Debug, PartialEq, Eq, Structural)]
pub enum ClusterError {
    /// The period tolerance must be positive.
    ZeroPeriodTolerance,
    /// No candidate was given.
    NothingToCluster,
}

/// State of a candidate during the greedy pass.
#[derive(Clone, Copy, Debug, PartialEq, Eq, Structural)]
enum Slot {
    Open,
    Pivot,
    Member(usize),
}

/// The invariant of the greedy pass, with the claims of pivot `x` still to
/// be made: no pivot claims an earlier pivot, each member belongs to the
/// first pivot that claims it, and every open candidate ranks after every
/// pivot and is claimed by no pivot other than `x`.
spec fn pass_state(cs: Seq<Candidate>, cfg: MatchConfig, st: Seq<Slot>, x: int) -> bool {
    &&& st.len() == cs.len()
    &&& forall|i: int, j: int|
        0 <= i < cs.len() && 0 <= j < cs.len() && st[i] == Slot::Pivot && st[j] == Slot::Pivot
            && #[trigger] ranks_before(cs, j, i) ==> !claims(cs, cfg, j, i)
    &&& forall|i: int|
        0 <= i < cs.len() && (#[trigger] st[i]) is Member ==> {
            let p = st[i]->Member_0 as int;
            &&& 0 <= p < cs.len()
            &&& st[p] == Slot::Pivot
            &&& ranks_before(cs, p, i)
            &&& claims(cs, cfg, p, i)
            &&& forall|j: int|
                0 <= j < cs.len() && st[j] == Slot::Pivot && ranks_before(cs, j, p) ==> !claims(
                    cs,
                    cfg,
                    j,
                    i,
                )
        }
    &&& forall|i: int, j: int|
        0 <= i < cs.len() && 0 <= j < cs.len() && st[i] == Slot::Open && st[j] == Slot::Pivot ==> #[trigger] ranks_before(
            cs,
            j,
            i,
        ) && (j != x ==> !claims(cs, cfg, j, i))
}

/// Lexicographic order of pairs, the order std gives tuples.
pub open spec fn pair_le(a: (u128, usize), b: (u128, usize)) -> bool {
    a.0 < b.0 || (a.0 == b.0 && a.1 <= b.1)
}

/// Relies on `slice::sort_unstable`: it keeps the elements and leaves them in
/// ascending order of the tuples' `Ord`, which compares the first fields and
/// then the second.
#[verifier::external_body]
fn sort_pairs(v: &mut Vec<(u128, usize)>)
    ensures
        final(v)@.to_multiset() == old(v)@.to_multiset(),
        forall|i: int, j: int| 0 <= i < j < final(v)@.len() ==> pair_le(#[trigger] final(v)@[i], #[trigger] final(v)@[j]),
{
    v.sort_unstable();
}

/// The candidates in pivot-selection order, as (rank, position) pairs.
fn rank_order(cs: &Vec<Candidate>) -> (r: Vec<(u128, usize)>)
    ensures
        r@.len() == cs@.len(),
        forall|s: int| 0 <= s < r@.len() ==> (#[trigger] r@[s]).1 < cs@.len() && r@[s].0 == snr_rank(cs@[r@[s].1 as int]),
        forall|i: int| 0 <= i < cs@.len() ==> r@.contains((snr_rank(#[trigger] cs@[i]) as u128, i as usize)),
        forall|s: int, t: int| 0 <= s < t < r@.len() ==> pair_le(#[trigger] r@[s], #[trigger] r@[t]),
{
    let mut v: Vec<(u128, usize)> = Vec::new();
    let mut i: usize = 0;
    while i < cs.len()
        invariant
            i <= cs.len(),
            v@.len() == i,
            forall|s: int| 0 <= s < i ==> #[trigger] v@[s] == (snr_rank(cs@[s]) as u128, s as usize),
        decreases cs.len() - i,
    {
        let key = cs[i].snr_rank();
        v.push((key, i));
        i = i + 1;
    }
    let ghost before = v@;
    assert forall|i: int| 0 <= i < cs@.len() implies before.contains((snr_rank(#[trigger] cs@[i]) as u128, i as usize)) by {
        assert(before[i] == (snr_rank(cs@[i]) as u128, i as usize));
    }
    sort_pairs(&mut v);
    assert(v@.len() == before.len()) by {
        assert(v@.len() == v@.to_multiset().len());
        assert(before.len() == before.to_multiset().len());
    }
    assert forall|i: int| 0 <= i < cs@.len() implies v@.contains((snr_rank(#[trigger] cs@[i]) as u128, i as usize)) by {
        let e = (snr_rank(cs@[i]) as u128, i as usize);
        assert(before.to_multiset().count(e) > 0);
        assert(v@.to_multiset().count(e) > 0);
    }
    assert forall|s: int| 0 <= s < v@.len() implies (#[trigger] v@[s]).1 < cs@.len() && v@[s].0 == snr_rank(cs@[v@[s].1 as int]) by {
        let e = v@[s];
        assert(v@.contains(e));
        assert(v@.to_multiset().count(e) > 0);
        assert(before.to_multiset().count(e) > 0);
        assert(before.contains(e));
        let t = choose|t: int| 0 <= t < before.len() && before[t] == e;
        assert(before[t] == (snr_rank(cs@[t]) as u128, t as usize));
    }
    v
}

/// Lets pivot `x` claim every open candidate that it claims, searching only
/// the buckets probed from its own.
fn claim_for(cs: &Vec<Candidate>, cfg: &MatchConfig, index: &BucketIndex, nbs: &Vec<u64>, st: &mut Vec<Slot>, x: usize)
    requires
        forall|b: u64| nbs@.contains(b) <==> probed(
            bucket_of(cs@[x as int].period as int, cfg.period_tol as int),
            b as int,
            cfg.harmonics,
            cfg.max_harmonic as int,
        ),
        index.indexes(cs@),
        index.tol == cfg.period_tol,
        x < cs@.len(),
        old(st)@[x as int] == Slot::Pivot,
        pass_state(cs@, *cfg, old(st)@, x as int),
    ensures
        pass_state(cs@, *cfg, final(st)@, -1),
        forall|i: int| 0 <= i < cs@.len() && old(st)@[i] != Slot::Open ==> #[trigger] final(st)@[i] == old(st)@[i],
        forall|i: int| 0 <= i < cs@.len() && #[trigger] final(st)@[i] == Slot::Open ==> old(st)@[i] == Slot::Open,
        forall|i: int| 0 <= i < cs@.len() && #[trigger] final(st)@[i] == Slot::Pivot ==> old(st)@[i] == Slot::Pivot,
{
    let ghost n = cs@.len() as int;
    assert(n == cs.len() as int);
    let ghost tol = cfg.period_tol;
    let bx = bucket_abs(cs[x].period, cfg.period_tol);
    let mut t: usize = 0;
    while t < nbs.len()
        invariant
            index.indexes(cs@),
            index.tol == tol,
            tol == cfg.period_tol,
            x < n,
            n == cs@.len(),
            n <= usize::MAX,
            bx == bucket_of(cs@[x as int].period as int, tol as int),
            forall|b: u64| nbs@.contains(b) <==> probed(bx as int, b as int, cfg.harmonics, cfg.max_harmonic as int),
            t <= nbs@.len(),
            st@[x as int] == Slot::Pivot,
            pass_state(cs@, *cfg, st@, x as int),
            forall|i: int| 0 <= i < n && old(st)@[i] != Slot::Open ==> #[trigger] st@[i] == old(st)@[i],
            forall|i: int| 0 <= i < n && #[trigger] st@[i] == Slot::Open ==> old(st)@[i] == Slot::Open,
            forall|i: int| 0 <= i < n && #[trigger] st@[i] == Slot::Pivot ==> old(st)@[i] == Slot::Pivot,
            forall|s: int, q: int|
                0 <= s < t && 0 <= q < n && #[trigger] st@[q] == Slot::Open && bucket_key(cs@[q], tol)
                    == #[trigger] nbs@[s] ==> !claims(cs@, *cfg, x as int, q),
        decreases nbs@.len() - t,
    {
        let nb = nbs[t];
        let found = index.buckets.get(&nb);
        match found {
            Some(members) => {
                let ghost ms = members@;
                assert(index.buckets@.contains_key(nb) && index.buckets@[nb]@ == ms);
                let mut u: usize = 0;
                while u < members.len()
                    invariant
                        index.indexes(cs@),
                        index.tol == tol,
                        tol == cfg.period_tol,
                        x < n,
                        n == cs@.len(),
                        n <= usize::MAX,
                        bx == bucket_of(cs@[x as int].period as int, tol as int),
                        nbs@.contains(nb),
                        forall|b: u64| nbs@.contains(b) <==> probed(bx as int, b as int, cfg.harmonics, cfg.max_harmonic as int),
                        t < nbs@.len(),
                        nb == nbs@[t as int],
                        members@ == ms,
                        index.buckets@.contains_key(nb) && index.buckets@[nb]@ == ms,
                        u <= ms.len(),
                        st@[x as int] == Slot::Pivot,
                        pass_state(cs@, *cfg, st@, x as int),
                        forall|i: int| 0 <= i < n && old(st)@[i] != Slot::Open ==> #[trigger] st@[i] == old(st)@[i],
                        forall|i: int| 0 <= i < n && #[trigger] st@[i] == Slot::Open ==> old(st)@[i] == Slot::Open,
                        forall|i: int| 0 <= i < n && #[trigger] st@[i] == Slot::Pivot ==> old(st)@[i] == Slot::Pivot,
            forall|i: int| 0 <= i < n && #[trigger] st@[i] == Slot::Pivot ==> old(st)@[i] == Slot::Pivot,
                        forall|s: int, q: int|
                            0 <= s < t && 0 <= q < n && #[trigger] st@[q] == Slot::Open && bucket_key(cs@[q], tol)
                                == #[trigger] nbs@[s] ==> !claims(cs@, *cfg, x as int, q),
                        forall|v: int|
                            0 <= v < u && st@[ms[v] as int] == Slot::Open ==> !claims(cs@, *cfg, x as int, #[trigger] ms[v] as int),
                    decreases ms.len() - u,
                {
                    let q = members[u];
                    let ghost prev = st@;
                    assert(index.buckets@[nb]@.contains(q));
                    assert(q < n && bucket_key(cs@[q as int], tol) == nb);
                    if q != x && st[q] == Slot::Open && (!cfg.cross_source_only || cs[q].source != cs[x].source)
                        && cs[x].is_related(&cs[q], cfg) {
                        assert(probed(bx as int, nb as int, cfg.harmonics, cfg.max_harmonic as int));
                        assert(claims(cs@, *cfg, x as int, q as int));
                        proof {
                            lemma_claim_step(cs@, *cfg, st@, x, q as int);
                        }
                        st.set(q, Slot::Member(x));
                    }
                    assert forall|v: int|
                        0 <= v < u + 1 && st@[ms[v] as int] == Slot::Open implies !claims(cs@, *cfg, x as int, #[trigger] ms[v] as int) by {
                        if v < u {
                            assert(index.buckets@[nb]@.contains(ms[v]));
                            assert(prev[ms[v] as int] == Slot::Open);
                        }
                    }
                    u = u + 1;
                }
                assert forall|s: int, q: int|
                    0 <= s < t + 1 && 0 <= q < n && #[trigger] st@[q] == Slot::Open && bucket_key(cs@[q], tol)
                        == #[trigger] nbs@[s] implies !claims(cs@, *cfg, x as int, q) by {
                    if s == t {
                        assert(index.buckets@[nb]@.contains(q as usize));
                        let v = choose|v: int| 0 <= v < ms.len() && ms[v] == q as usize;
                        assert(ms[v] as int == q);
                        assert(st@[ms[v] as int] == Slot::Open);
                    }
                }
            },
            None => {
                assert(!index.buckets@.contains_key(nb));
                assert forall|s: int, q: int|
                    0 <= s < t + 1 && 0 <= q < n && #[trigger] st@[q] == Slot::Open && bucket_key(cs@[q], tol)
                        == #[trigger] nbs@[s] implies !claims(cs@, *cfg, x as int, q) by {
                    if s == t {
                        assert(index.buckets@.contains_key(bucket_key(cs@[q], tol)));
                    }
                }
            },
        }
        t = t + 1;
    }
    assert forall|i: int, j: int|
        0 <= i < n && 0 <= j < n && st@[i] == Slot::Open && st@[j] == Slot::Pivot implies #[trigger] ranks_before(cs@, j, i)
            && (j != -1 ==> !claims(cs@, *cfg, j, i)) by {
        assert(ranks_before(cs@, j, i));
        if j != x {
            assert(!claims(cs@, *cfg, j, i));
        }
        if j == x && claims(cs@, *cfg, j, i) {
            let b = bucket_key(cs@[i], tol);
            assert(b as int == bucket_of(cs@[i].period as int, tol as int));
            assert(nbs@.contains(b));
            let s = choose|s: int| 0 <= s < nbs@.len() && nbs@[s] == b;
            assert(!claims(cs@, *cfg, x as int, i));
        }
    }
}

/// One claim keeps the invariant of the pass.
proof fn lemma_claim_step(cs: Seq<Candidate>, cfg: MatchConfig, prev: Seq<Slot>, x: usize, q: int)
    requires
        pass_state(cs, cfg, prev, x as int),
        x < cs.len(),
        0 <= q < cs.len(),
        prev[x as int] == Slot::Pivot,
        prev[q] == Slot::Open,
        claims(cs, cfg, x as int, q),
    ensures
        pass_state(cs, cfg, prev.update(q, Slot::Member(x)), x as int),
{
    let st = prev.update(q, Slot::Member(x));
    let n = cs.len();
    assert forall|i: int, j: int|
        0 <= i < n && 0 <= j < n && st[i] == Slot::Open && st[j] == Slot::Pivot
            implies #[trigger] ranks_before(cs, j, i) && (j != x as int ==> !claims(cs, cfg, j, i)) by {
        assert(prev[i] == Slot::Open && prev[j] == Slot::Pivot);
        assert(ranks_before(cs, j, i));
    }
    assert forall|i: int, j: int|
        0 <= i < n && 0 <= j < n && st[i] == Slot::Pivot && st[j] == Slot::Pivot
            && #[trigger] ranks_before(cs, j, i) implies !claims(cs, cfg, j, i) by {
        assert(prev[i] == Slot::Pivot && prev[j] == Slot::Pivot);
    }
    assert forall|i: int|
        0 <= i < n && (#[trigger] st[i]) is Member implies {
            let p = st[i]->Member_0 as int;
            &&& 0 <= p < n
            &&& st[p] == Slot::Pivot
            &&& ranks_before(cs, p, i)
            &&& claims(cs, cfg, p, i)
            &&& forall|j: int|
                0 <= j < n && st[j] == Slot::Pivot && ranks_before(cs, j, p) ==> !claims(cs, cfg, j, i)
        } by {
        if i == q {
            assert(st[x as int] == Slot::Pivot);
            assert(ranks_before(cs, x as int, q));
            assert forall|j: int|
                0 <= j < n && st[j] == Slot::Pivot && ranks_before(cs, j, x as int) implies !claims(cs, cfg, j, i) by {
                assert(prev[j] == Slot::Pivot);
                assert(ranks_before(cs, j, q));
            }
        } else {
            assert(prev[i] == st[i]);
            let p = st[i]->Member_0 as int;
            assert(prev[p] == Slot::Pivot);
            assert forall|j: int|
                0 <= j < n && st[j] == Slot::Pivot && ranks_before(cs, j, p) implies !claims(cs, cfg, j, i) by {
                assert(prev[j] == Slot::Pivot);
            }
        }
    }
}

/// Opening a new pivot `x`, ranked before every other open candidate, keeps
/// the invariant of the pass, with the claims of `x` to be made.
proof fn lemma_pivot_step(cs: Seq<Candidate>, cfg: MatchConfig, prev: Seq<Slot>, x: int)
    requires
        pass_state(cs, cfg, prev, -1),
        0 <= x < cs.len(),
        prev[x] == Slot::Open,
        forall|i: int| 0 <= i < cs.len() && i != x && prev[i] == Slot::Open ==> ranks_before(cs, x, i),
    ensures
        pass_state(cs, cfg, prev.update(x, Slot::Pivot), x),
{
    let st = prev.update(x, Slot::Pivot);
    let n = cs.len();
    assert forall|i: int, j: int|
        0 <= i < n && 0 <= j < n && st[i] == Slot::Open && st[j] == Slot::Pivot
            implies #[trigger] ranks_before(cs, j, i) && (j != x ==> !claims(cs, cfg, j, i)) by {
        assert(prev[i] == Slot::Open);
        if j != x {
            assert(prev[j] == Slot::Pivot);
            assert(ranks_before(cs, j, i));
        }
    }
    assert forall|i: int, j: int|
        0 <= i < n && 0 <= j < n && st[i] == Slot::Pivot && st[j] == Slot::Pivot
            && #[trigger] ranks_before(cs, j, i) implies !claims(cs, cfg, j, i) by {
        if i == x && j != x {
            assert(prev[j] == Slot::Pivot);
            assert(ranks_before(cs, j, x));
        } else if j == x && i != x {
            assert(prev[i] == Slot::Pivot);
            assert(ranks_before(cs, i, x));
        } else if i != x && j != x {
            assert(prev[i] == Slot::Pivot && prev[j] == Slot::Pivot);
        }
    }
    assert forall|i: int|
        0 <= i < n && (#[trigger] st[i]) is Member implies {
            let p = st[i]->Member_0 as int;
            &&& 0 <= p < n
            &&& st[p] == Slot::Pivot
            &&& ranks_before(cs, p, i)
            &&& claims(cs, cfg, p, i)
            &&& forall|j: int|
                0 <= j < n && st[j] == Slot::Pivot && ranks_before(cs, j, p) ==> !claims(cs, cfg, j, i)
        } by {
        assert(prev[i] == st[i]);
        let p = st[i]->Member_0 as int;
        assert(prev[p] == Slot::Pivot);
        assert(ranks_before(cs, p, x));
        assert forall|j: int|
            0 <= j < n && st[j] == Slot::Pivot && ranks_before(cs, j, p) implies !claims(cs, cfg, j, i) by {
            if j != x {
                assert(prev[j] == Slot::Pivot);
            }
        }
    }
}

/// `pivots` lists the pivots of `owner`, each once, in selection order.
pub open spec fn pivots_in_rank_order(cs: Seq<Candidate>, owner: Seq<usize>, pivots: Seq<usize>) -> bool {
    &&& forall|s: int| 0 <= s < pivots.len() ==> #[trigger] pivots[s] < cs.len() && owner[pivots[s] as int] == pivots[s]
    &&& forall|i: int| 0 <= i < cs.len() && #[trigger] owner[i] == i ==> pivots.contains(i as usize)
    &&& forall|s: int, t: int| 0 <= s < t < pivots.len() ==> ranks_before(cs, #[trigger] pivots[s] as int, #[trigger] pivots[t] as int)
}

/// Groups the candidates into clusters and picks one pivot for each.
///
/// Candidates are visited from the highest SNR down (an unknown SNR last,
/// ties in input order). An unclaimed candidate becomes a pivot and claims
/// every unclaimed candidate that it matches in the buckets searched from its
/// own. The result names, for each candidate, the pivot of its cluster; a
/// pivot names itself.
pub fn cluster(cands: &Vec<Candidate>, cfg: &MatchConfig) -> (r: Result<Vec<usize>, ClusterError>)
    ensures
        cfg.period_tol == 0 <==> r == Err::<Vec<usize>, ClusterError>(ClusterError::ZeroPeriodTolerance),
        cfg.period_tol > 0 && cands@.len() == 0 <==> r == Err::<Vec<usize>, ClusterError>(
            ClusterError::NothingToCluster,
        ),
        r is Ok ==> greedy_clustering(cands@, *cfg, r->Ok_0@),
{
    match cluster_with_pivots(cands, cfg) {
        Ok(res) => Ok(res.0),
        Err(e) => Err(e),
    }
}

/// As `cluster`, and also the pivots in the order they were selected.
pub fn cluster_with_pivots(cands: &Vec<Candidate>, cfg: &MatchConfig) -> (r: Result<(Vec<usize>, Vec<usize>), ClusterError>)
    ensures
        cfg.period_tol == 0 <==> r == Err::<(Vec<usize>, Vec<usize>), ClusterError>(ClusterError::ZeroPeriodTolerance),
        cfg.period_tol > 0 && cands@.len() == 0 <==> r == Err::<(Vec<usize>, Vec<usize>), ClusterError>(
            ClusterError::NothingToCluster,
        ),
        r is Ok ==> greedy_clustering(cands@, *cfg, r->Ok_0.0@),
        r is Ok ==> pivots_in_rank_order(cands@, r->Ok_0.0@, r->Ok_0.1@),
{
    if cfg.period_tol == 0 {
        return Err(ClusterError::ZeroPeriodTolerance);
    }
    if cands.len() == 0 {
        return Err(ClusterError::NothingToCluster);
    }
    let ghost cs = cands@;
    let ghost n = cs.len() as int;
    let order = rank_order(cands);
    let index = BucketIndex::build(cands, cfg.period_tol);
    let mut st: Vec<Slot> = Vec::new();
    let mut i: usize = 0;
    while i < cands.len()
        invariant
            i <= cands.len(),
            st@.len() == i,
            forall|j: int| 0 <= j < i ==> #[trigger] st@[j] == Slot::Open,
        decreases cands.len() - i,
    {
        st.push(Slot::Open);
        i = i + 1;
    }
    let mut cache = NeighborCache::new(cfg.harmonics, cfg.max_harmonic);
    let mut picked: Vec<usize> = Vec::new();
    let mut r: usize = 0;
    while r < order.len()
        invariant
            forall|s: int| 0 <= s < picked@.len() ==> #[trigger] picked@[s] < n && st@[picked@[s] as int] == Slot::Pivot,
            forall|i: int| 0 <= i < n && #[trigger] st@[i] == Slot::Pivot ==> picked@.contains(i as usize),
            forall|s: int, t: int| 0 <= s < t < picked@.len() ==> ranks_before(cs, #[trigger] picked@[s] as int, #[trigger] picked@[t] as int),
            cache.wf(),
            cache.harmonics == cfg.harmonics,
            cache.hmax == cfg.max_harmonic,
            cfg.period_tol > 0,
            cs == cands@,
            n == cs.len(),
            index.indexes(cs),
            index.tol == cfg.period_tol,
            order@.len() == n,
            forall|s: int| 0 <= s < n ==> (#[trigger] order@[s]).1 < n && order@[s].0 == snr_rank(cs[order@[s].1 as int]),
            forall|i: int| 0 <= i < n ==> order@.contains((snr_rank(#[trigger] cs[i]) as u128, i as usize)),
            forall|s: int, t: int| 0 <= s < t < n ==> pair_le(#[trigger] order@[s], #[trigger] order@[t]),
            r <= n,
            pass_state(cs, *cfg, st@, -1),
            forall|s: int| 0 <= s < r ==> st@[(#[trigger] order@[s]).1 as int] != Slot::Open,
        decreases n - r,
    {
        let x = order[r].1;
        if st[x] == Slot::Open {
            proof {
                assert forall|i: int| 0 <= i < n && i != x && st@[i] == Slot::Open implies ranks_before(cs, x as int, i) by {
                    let e = (snr_rank(cs[i]) as u128, i as usize);
                    assert(order@.contains(e));
                    let s = choose|s: int| 0 <= s < n && order@[s] == e;
                    assert(order@[s].1 as int == i);
                    if s < r {
                        assert(st@[order@[s].1 as int] != Slot::Open);
                    }
                    assert(s != r);
                    assert(pair_le(order@[r as int], order@[s]));
                }
                lemma_pivot_step(cs, *cfg, st@, x as int);
                assert forall|s: int| 0 <= s < picked@.len() implies ranks_before(cs, #[trigger] picked@[s] as int, x as int) by {
                    assert(st@[picked@[s] as int] == Slot::Pivot);
                }
            }
            let ghost st0 = st@;
            let ghost pk0 = picked@;
            st.set(x, Slot::Pivot);
            picked.push(x);
            let ghost before = st@;
            let nbs = cache.neighbors(bucket_abs(cands[x].period, cfg.period_tol));
            claim_for(cands, cfg, &index, &nbs, &mut st, x);
            assert forall|s: int| 0 <= s < r + 1 implies st@[(#[trigger] order@[s]).1 as int] != Slot::Open by {
                assert(before[order@[s].1 as int] != Slot::Open);
            }
            assert forall|s: int| 0 <= s < picked@.len() implies #[trigger] picked@[s] < n && st@[picked@[s] as int] == Slot::Pivot by {
                if s < pk0.len() {
                    assert(pk0[s] == picked@[s]);
                    assert(st0[pk0[s] as int] == Slot::Pivot);
                    assert(before[picked@[s] as int] == Slot::Pivot);
                }
            }
            assert forall|i: int| 0 <= i < n && #[trigger] st@[i] == Slot::Pivot implies picked@.contains(i as usize) by {
                assert(before[i] == Slot::Pivot);
                if i == x {
                    assert(picked@[pk0.len() as int] == x);
                } else {
                    assert(st0[i] == Slot::Pivot);
                    assert(pk0.contains(i as usize));
                    let s = choose|s: int| 0 <= s < pk0.len() && pk0[s] == i as usize;
                    assert(picked@[s] == i as usize);
                }
            }
            assert forall|s: int, t: int| 0 <= s < t < picked@.len() implies ranks_before(cs, #[trigger] picked@[s] as int, #[trigger] picked@[t] as int) by {
                if t < pk0.len() {
                    assert(pk0[s] == picked@[s] && pk0[t] == picked@[t]);
                } else {
                    assert(pk0[s] == picked@[s]);
                }
            }
        }
        r = r + 1;
    }
    let mut owner: Vec<usize> = Vec::new();
    let mut k: usize = 0;
    while k < cands.len()
        invariant
            cs == cands@,
            n == cs.len(),
            k <= n,
            st@.len() == n,
            owner@.len() == k,
            forall|j: int| 0 <= j < k ==> #[trigger] owner@[j] == match st@[j] {
                Slot::Member(p) => p,
                _ => j as usize,
            },
        decreases n - k,
    {
        let o = match st[k] {
            Slot::Member(p) => p,
            _ => k,
        };
        owner.push(o);
        k = k + 1;
    }
    proof {
        assert forall|i: int| 0 <= i < n implies #[trigger] st@[i] != Slot::Open by {
            let e = (snr_rank(cs[i]) as u128, i as usize);
            assert(order@.contains(e));
            let s = choose|s: int| 0 <= s < n && order@[s] == e;
            assert(st@[order@[s].1 as int] != Slot::Open);
        }
        lemma_finish(cs, *cfg, st@, owner@);
        assert forall|i: int| 0 <= i < n && #[trigger] owner@[i] == i implies picked@.contains(i as usize) by {
            assert(st@[i] == Slot::Pivot);
        }
        assert forall|s: int| 0 <= s < picked@.len() implies #[trigger] picked@[s] < n && owner@[picked@[s] as int] == picked@[s] by {
            assert(st@[picked@[s] as int] == Slot::Pivot);
        }
    }
    Ok((owner, picked))
}

/// The state at the end of the pass, read as an owner list, is a greedy
/// clustering.
proof fn lemma_finish(cs: Seq<Candidate>, cfg: MatchConfig, st: Seq<Slot>, owner: Seq<usize>)
    requires
        pass_state(cs, cfg, st, -1),
        cs.len() <= usize::MAX,
        owner.len() == cs.len(),
        forall|i: int| 0 <= i < cs.len() ==> #[trigger] st[i] != Slot::Open,
        forall|j: int| 0 <= j < cs.len() ==> #[trigger] owner[j] == match st[j] {
            Slot::Member(p) => p,
            _ => j as usize,
        },
    ensures
        greedy_clustering(cs, cfg, owner),
        forall|i: int| 0 <= i < cs.len() ==> (#[trigger] owner[i] == i <==> st[i] == Slot::Pivot),
{
    let n = cs.len();
    assert forall|i: int| 0 <= i < n implies (#[trigger] owner[i] == i <==> st[i] == Slot::Pivot) by {
        if st[i] is Member {
            assert(ranks_before(cs, st[i]->Member_0 as int, i));
        }
    }
    assert forall|i: int| 0 <= i < n implies #[trigger] owner[i] < n by {
        assert(owner[i] == i || st[i] is Member);
    }
    assert forall|i: int|
        0 <= i < n implies (#[trigger] owner[i] == i <==> forall|j: int|
            0 <= j < n && owner[j] == j && ranks_before(cs, j, i) ==> !claims(cs, cfg, j, i)) by {
        if owner[i] == i {
            assert forall|j: int| 0 <= j < n && owner[j] == j && ranks_before(cs, j, i) implies !claims(cs, cfg, j, i) by {
                assert(st[j] == Slot::Pivot && st[i] == Slot::Pivot);
            }
        } else {
            let p = st[i]->Member_0 as int;
            assert(owner[p] == p);
        }
    }
    assert forall|i: int|
        0 <= i < n && #[trigger] owner[i] != i implies {
            let p = owner[i] as int;
            &&& owner[p] == p
            &&& ranks_before(cs, p, i)
            &&& claims(cs, cfg, p, i)
            &&& forall|j: int|
                0 <= j < n && owner[j] == j && ranks_before(cs, j, p) ==> !claims(cs, cfg, j, i)
        } by {
        assert(st[i] is Member);
        let p = owner[i] as int;
        assert(owner[p] == p);
        assert forall|j: int| 0 <= j < n && owner[j] == j && ranks_before(cs, j, p) implies !claims(cs, cfg, j, i) by {
            assert(st[j] == Slot::Pivot);
        }
    }
}

/// Every candidate is a pivot or belongs to exactly one cluster: each names
/// a single candidate, which is a pivot (itself, for a pivot) and which
/// claims it.
pub proof fn lemma_each_candidate_has_one_pivot(cs: Seq<Candidate>, cfg: MatchConfig, owner: Seq<usize>)
    requires
        greedy_clustering(cs, cfg, owner),
    ensures
        forall|i: int|
            0 <= i < cs.len() ==> {
                let p = #[trigger] owner[i] as int;
                &&& 0 <= p < cs.len()
                &&& owner[p] == p
                &&& (p != i ==> claims(cs, cfg, p, i))
            },
{
}

/// The pivot of every cluster has an SNR at least that of each member (an
/// unknown SNR counting lowest), and comes first among equals.
pub proof fn lemma_pivot_has_highest_snr(cs: Seq<Candidate>, cfg: MatchConfig, owner: Seq<usize>)
    requires
        greedy_clustering(cs, cfg, owner),
    ensures
        forall|i: int|
            0 <= i < cs.len() && #[trigger] owner[i] != i ==> snr_rank(cs[owner[i] as int]) <= snr_rank(cs[i])
                && ranks_before(cs, owner[i] as int, i),
{
}

/// Position of a candidate in the selection order, as a number.
spec fn rank_measure(cs: Seq<Candidate>, i: int) -> int {
    snr_rank(cs[i]) * cs.len() + i
}

proof fn lemma_rank_measure(cs: Seq<Candidate>, j: int, i: int)
    requires
        0 <= j < cs.len(),
        0 <= i < cs.len(),
        ranks_before(cs, j, i),
    ensures
        0 <= rank_measure(cs, j) < rank_measure(cs, i),
{
    let n = cs.len() as int;
    let rj = snr_rank(cs[j]);
    let ri = snr_rank(cs[i]);
    assert(rj >= 0 && ri >= 0);
    if rj < ri {
        assert(rj * n + j < ri * n + i) by (nonlinear_arith)
            requires rj < ri, 0 <= j < n, 0 <= i, rj >= 0;
    }
    assert(rj * n >= 0) by (nonlinear_arith)
        requires rj >= 0, n >= 0;
}

proof fn lemma_agree_at(cs: Seq<Candidate>, cfg: MatchConfig, o1: Seq<usize>, o2: Seq<usize>, i: int)
    requires
        greedy_clustering(cs, cfg, o1),
        greedy_clustering(cs, cfg, o2),
        0 <= i < cs.len(),
    ensures
        o1[i] == o2[i],
    decreases rank_measure(cs, i),
{
    let n = cs.len() as int;
    assert forall|j: int| 0 <= j < n && ranks_before(cs, j, i) implies o1[j] == o2[j] by {
        lemma_rank_measure(cs, j, i);
        lemma_agree_at(cs, cfg, o1, o2, j);
    }
    assert((o1[i] == i) == (o2[i] == i)) by {
        if o1[i] == i && o2[i] != i {
            let p = o2[i] as int;
            assert(o1[p] == p);
        }
        if o2[i] == i && o1[i] != i {
            let p = o1[i] as int;
            assert(o2[p] == p);
        }
    }
    if o1[i] != i {
        let p1 = o1[i] as int;
        let p2 = o2[i] as int;
        assert(o2[p1] == p1);
        assert(o1[p2] == p2);
        if p1 != p2 {
            if ranks_before(cs, p1, p2) {
                assert(!claims(cs, cfg, p1, i));
            } else {
                assert(ranks_before(cs, p2, p1));
                assert(!claims(cs, cfg, p2, i));
            }
        }
    }
}

/// The clustering is determined by the candidates and the configuration
/// alone: two runs on the same input give the same pivots and the same
/// cluster of every candidate.
pub proof fn lemma_clustering_is_deterministic(cs: Seq<Candidate>, cfg: MatchConfig, o1: Seq<usize>, o2: Seq<usize>)
    requires
        greedy_clustering(cs, cfg, o1),
        greedy_clustering(cs, cfg, o2),
    ensures
        o1 == o2,
{
    assert forall|i: int| 0 <= i < o1.len() implies o1[i] == o2[i] by {
        lemma_agree_at(cs, cfg, o1, o2, i);
    }
    assert(o1 =~= o2);
}

/// The pivots of a clustering, and the other candidates, each in increasing
/// order.
pub fn split_pivots(owner: &Vec<usize>) -> (r: (Vec<usize>, Vec<usize>))
    ensures
        forall|s: int| 0 <= s < r.0@.len() ==> #[trigger] r.0@[s] < owner@.len() && owner@[r.0@[s] as int] == r.0@[s],
        forall|s: int| 0 <= s < r.1@.len() ==> #[trigger] r.1@[s] < owner@.len() && owner@[r.1@[s] as int] != r.1@[s],
        forall|s: int, t: int| 0 <= s < t < r.0@.len() ==> r.0@[s] < r.0@[t],
        forall|s: int, t: int| 0 <= s < t < r.1@.len() ==> r.1@[s] < r.1@[t],
        forall|i: usize| #![trigger r.0@.contains(i)] #![trigger r.1@.contains(i)] i < owner@.len() ==> r.0@.contains(i) || r.1@.contains(i),
{
    let mut piv: Vec<usize> = Vec::new();
    let mut rest: Vec<usize> = Vec::new();
    let mut i: usize = 0;
    while i < owner.len()
        invariant
            i <= owner@.len(),
            forall|s: int| 0 <= s < piv@.len() ==> #[trigger] piv@[s] < i && owner@[piv@[s] as int] == piv@[s],
            forall|s: int| 0 <= s < rest@.len() ==> #[trigger] rest@[s] < i && owner@[rest@[s] as int] != rest@[s],
            forall|s: int, t: int| 0 <= s < t < piv@.len() ==> piv@[s] < piv@[t],
            forall|s: int, t: int| 0 <= s < t < rest@.len() ==> rest@[s] < rest@[t],
            forall|j: usize| #![trigger piv@.contains(j)] #![trigger rest@.contains(j)] j < i ==> piv@.contains(j) || rest@.contains(j),
        decreases owner@.len() - i,
    {
        let ghost p0 = piv@;
        let ghost r0 = rest@;
        if owner[i] == i {
            piv.push(i);
            assert(piv@[piv@.len() - 1] == i);
        } else {
            rest.push(i);
            assert(rest@[rest@.len() - 1] == i);
        }
        assert forall|j: usize| #![trigger piv@.contains(j)] #![trigger rest@.contains(j)] j < i + 1 implies piv@.contains(j) || rest@.contains(j) by {
            if j < i {
                if p0.contains(j) {
                    let s = choose|s: int| 0 <= s < p0.len() && p0[s] == j;
                    assert(piv@[s] == j);
                } else {
                    assert(r0.contains(j));
                    let s = choose|s: int| 0 <= s < r0.len() && r0[s] == j;
                    assert(rest@[s] == j);
                }
            }
        }
        i = i + 1;
    }
    (piv, rest)
}

proof fn lemma_bucket_bounds(p: int, t: int)
    requires
        t > 0,
        p >= 0,
    ensures
        (p / t) * t <= p < (p / t + 1) * t,
{
    vstd::arithmetic::div_mod::lemma_fundamental_div_mod(p, t);
    vstd::arithmetic::div_mod::lemma_mod_bound(p, t);
    assert((p / t + 1) * t == (p / t) * t + t) by (nonlinear_arith);
    assert((p / t) * t == t * (p / t)) by (nonlinear_arith);
}

/// `x * t < y * t` with `t > 0` gives `x < y`.
proof fn lemma_cancel_lt(x: int, y: int, t: int)
    requires
        t > 0,
        x * t < y * t,
    ensures
        x < y,
{
    if x >= y {
        assert(x * t >= y * t) by (nonlinear_arith)
            requires x >= y, t > 0;
    }
}

/// A period `k` times another: the buckets lie in the multiple range.
proof fn lemma_multiple_bucket(pa: int, pb: int, t: int, k: int)
    requires
        t > 0,
        k >= 1,
        pa >= 0,
        pb >= 0,
        k * pa - t <= pb <= k * pa + t,
    ensures
        k * (pa / t) - 1 <= pb / t <= k * (pa / t + 1) + 1,
{
    let ba = pa / t;
    let bb = pb / t;
    lemma_bucket_bounds(pa, t);
    lemma_bucket_bounds(pb, t);
    assert(k * pa >= (k * ba) * t) by (nonlinear_arith)
        requires k >= 1, pa >= ba * t;
    assert((k * ba - 1) * t == (k * ba) * t - t) by (nonlinear_arith);
    lemma_cancel_lt(k * ba - 1, bb + 1, t);
    assert(k * pa < (k * (ba + 1)) * t) by (nonlinear_arith)
        requires k >= 1, pa < (ba + 1) * t;
    assert((k * (ba + 1) + 1) * t == (k * (ba + 1)) * t + t) by (nonlinear_arith);
    lemma_cancel_lt(bb, k * (ba + 1) + 1, t);
}

/// A period `1/k` times another: the buckets lie in the divisor range.
proof fn lemma_divisor_bucket(pa: int, pb: int, t: int, k: int)
    requires
        t > 0,
        k >= 1,
        pa >= 0,
        pb >= 0,
        pa - t <= k * pb <= pa + t,
    ensures
        (pa / t - 1) / k <= pb / t <= (pa / t + 2) / k,
{
    let ba = pa / t;
    let bb = pb / t;
    lemma_bucket_bounds(pa, t);
    lemma_bucket_bounds(pb, t);
    assert(k * pb < (k * (bb + 1)) * t) by (nonlinear_arith)
        requires k >= 1, pb < (bb + 1) * t;
    assert((ba - 1) * t == ba * t - t) by (nonlinear_arith);
    lemma_cancel_lt(ba - 1, k * (bb + 1), t);
    let lo = (ba - 1) / k;
    vstd::arithmetic::div_mod::lemma_fundamental_div_mod(ba - 1, k);
    vstd::arithmetic::div_mod::lemma_mod_bound(ba - 1, k);
    assert(lo * k <= ba - 1) by (nonlinear_arith)
        requires ba - 1 == k * lo + (ba - 1) % k, (ba - 1) % k >= 0;
    assert(lo * k < (bb + 1) * k) by (nonlinear_arith)
        requires lo * k <= ba - 1, ba - 1 < k * (bb + 1);
    lemma_cancel_lt(lo, bb + 1, k);
    assert(k * pb >= (k * bb) * t) by (nonlinear_arith)
        requires k >= 1, pb >= bb * t;
    assert((ba + 2) * t == ba * t + t + t) by (nonlinear_arith);
    assert((ba + 1) * t == ba * t + t) by (nonlinear_arith);
    assert((k * bb) * t < (ba + 2) * t);
    lemma_cancel_lt(k * bb, ba + 2, t);
    let hi = (ba + 2) / k;
    vstd::arithmetic::div_mod::lemma_fundamental_div_mod(ba + 2, k);
    vstd::arithmetic::div_mod::lemma_mod_bound(ba + 2, k);
    assert(bb * k < (hi + 1) * k) by (nonlinear_arith)
        requires k * bb < ba + 2, ba + 2 == k * hi + (ba + 2) % k, (ba + 2) % k < k;
    lemma_cancel_lt(bb, hi + 1, k);
}

/// The probed buckets hold every uncorrected match: when `p` and `q` have
/// the same acceleration, `p` claims `q` exactly when they are different
/// candidates, the sources allow the pair, and `q` matches `p`. In
/// particular a period close to `k` times, or `1/k` times, another for an
/// enabled `k` is always in a probed bucket.
pub proof fn lemma_claims_without_correction(cs: Seq<Candidate>, cfg: MatchConfig, p: int, q: int)
    requires
        0 <= p < cs.len(),
        0 <= q < cs.len(),
        cfg.period_tol > 0,
        acc_value(cs[p]) == acc_value(cs[q]),
    ensures
        claims(cs, cfg, p, q) == (p != q && (cfg.cross_source_only ==> cs[p].source != cs[q].source) && related(
            cs[p],
            cs[q],
            cfg,
        )),
{
    lemma_equal_acc_no_correction(cs[p], cs[q], cfg);
    if related(cs[p], cs[q], cfg) {
        let pa = cs[p].period as int;
        let pb = cs[q].period as int;
        let t = cfg.period_tol as int;
        let ba = bucket_of(pa, t);
        let bb = bucket_of(pb, t);
        if close_at(pa, pb, t, 1) {
            assert(abs_diff(pa, pb) <= t);
            lemma_multiple_bucket(pb, pa, t, 1);
            lemma_multiple_bucket(pa, pb, t, 1);
            assert(near(ba, bb));
        } else {
            let k = choose|k: int| 2 <= k <= cfg.max_harmonic && #[trigger] close_at(pa, pb, t, k);
            if abs_diff(k * pa, pb) <= t {
                lemma_multiple_bucket(pa, pb, t, k);
                assert(in_multiple_range(ba, bb, k));
            } else {
                lemma_divisor_bucket(pa, pb, t, k);
                assert(in_divisor_range(ba, bb, k));
            }
            assert(harmonic_probe(ba, bb, k));
        }
    }
}

/// With no acceleration difference, the greedy result matches the plain
/// greedy rule: no pivot matches a later-ranked pivot, and a non-pivot
/// belongs to the first pivot that matches it (pairs from one source left
/// out in cross-source mode).
pub proof fn lemma_greedy_without_correction(cs: Seq<Candidate>, cfg: MatchConfig, owner: Seq<usize>, j: int, i: int)
    requires
        greedy_clustering(cs, cfg, owner),
        cfg.period_tol > 0,
        0 <= j < cs.len(),
        0 <= i < cs.len(),
        j != i,
        acc_value(cs[j]) == acc_value(cs[i]),
        cfg.cross_source_only ==> cs[j].source != cs[i].source,
        owner[j] == j,
        ranks_before(cs, j, i),
    ensures
        owner[i] == i ==> !related(cs[j], cs[i], cfg),
        owner[i] != i && related(cs[j], cs[i], cfg) ==> owner[i] == j || ranks_before(cs, owner[i] as int, j),
{
    lemma_claims_without_correction(cs, cfg, j, i);
    if owner[i] != i && related(cs[j], cs[i], cfg) && owner[i] != j {
        let p = owner[i] as int;
        if !ranks_before(cs, p, j) {
            assert(ranks_before(cs, j, p));
        }
    }
}

} // verus!
