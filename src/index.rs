use vstd::prelude::*;
use std::collections::HashMap;
use crate::candidate::Candidate;
use crate::matching::abs_diff;

verus! {

broadcast use vstd::std_specs::hash::group_hash_axioms;

/// Bucket of a period: `floor(p / tol)`.
pub open spec fn bucket_of(p: int, tol: int) -> int {
    p / tol
}

/// `b` is at most one bucket away from `c`.
pub open spec fn near(c: int, b: int) -> bool {
    abs_diff(c, b) <= 1
}

/// A period in bucket `b0`, times `k`, falls in a bucket of
/// `k b0 - 1 ..= k (b0 + 1) + 1` (a tolerance either way included).
pub open spec fn in_multiple_range(b0: int, b: int, k: int) -> bool {
    k * b0 - 1 <= b && b <= k * (b0 + 1) + 1
}

/// A period in bucket `b0`, divided by `k`, falls in a bucket of
/// `floor((b0 - 1) / k) ..= floor((b0 + 2) / k)` (a tolerance either way
/// included).
pub open spec fn in_divisor_range(b0: int, b: int, k: int) -> bool {
    (b0 - 1) / k <= b && b <= (b0 + 2) / k
}

pub open spec fn harmonic_probe(b0: int, b: int, k: int) -> bool {
    in_multiple_range(b0, b, k) || in_divisor_range(b0, b, k)
}

/// The buckets searched for partners of a candidate in bucket `b0`: its own
/// bucket and the two beside it, and, with harmonics, for each factor
/// `2..=hmax`, every bucket that a period `k` times, or `1/k` times, a
/// period of bucket `b0` can reach within the tolerance.
pub open spec fn probed(b0: int, b: int, harmonics: bool, hmax: int) -> bool {
    near(b0, b) || (harmonics && exists|k: int| 2 <= k <= hmax && #[trigger] harmonic_probe(b0, b, k))
}

/// Bucket of a period for an absolute tolerance.
pub fn bucket_abs(p: u64, ptol: u64) -> (r: u64)
    requires
        ptol > 0,
    ensures
        r == bucket_of(p as int, ptol as int),
{
    p / ptol
}

fn contains_bucket(v: &Vec<u64>, b: u64) -> (r: bool)
    ensures
        r == v@.contains(b),
{
    let mut i: usize = 0;
    while i < v.len()
        invariant
            i <= v.len(),
            forall|j: int| 0 <= j < i ==> v@[j] != b,
        decreases v.len() - i,
    {
        if v[i] == b {
            return true;
        }
        i = i + 1;
    }
    false
}

fn push_unique(v: &mut Vec<u64>, b: u64)
    ensures
        forall|x: u64| #[trigger] final(v)@.contains(x) <==> (old(v)@.contains(x) || x == b),
        old(v)@.no_duplicates() ==> final(v)@.no_duplicates(),
{
    if !contains_bucket(v, b) {
        v.push(b);
        assert(forall|x: u64| old(v)@.contains(x) ==> final(v)@.contains(x)) by {
            assert forall|x: u64| old(v)@.contains(x) implies final(v)@.contains(x) by {
                let j = choose|j: int| 0 <= j < old(v)@.len() && old(v)@[j] == x;
                assert(final(v)@[j] == x);
            }
        }
        assert(final(v)@[final(v)@.len() - 1] == b);
    }
}

/// Adds the buckets `c - 1`, `c`, `c + 1` that exist.
fn push_near(v: &mut Vec<u64>, c: u128)
    ensures
        forall|x: u64| #[trigger] final(v)@.contains(x) <==> (old(v)@.contains(x) || near(c as int, x as int)),
        old(v)@.no_duplicates() ==> final(v)@.no_duplicates(),
{
    if c >= 1 && c - 1 <= u64::MAX as u128 {
        push_unique(v, (c - 1) as u64);
    }
    if c <= u64::MAX as u128 {
        push_unique(v, c as u64);
    }
    if c < u64::MAX as u128 {
        push_unique(v, (c + 1) as u64);
    }
}

/// Adds the buckets `lo ..= hi` that exist.
fn push_range(v: &mut Vec<u64>, lo: u128, hi: u128)
    ensures
        forall|x: u64| #[trigger] final(v)@.contains(x) <==> (old(v)@.contains(x) || (lo <= x && x <= hi)),
        old(v)@.no_duplicates() ==> final(v)@.no_duplicates(),
{
    let top: u128 = if hi > u64::MAX as u128 { u64::MAX as u128 } else { hi };
    if lo > top {
        return;
    }
    let mut c: u128 = lo;
    loop
        invariant_except_break
            forall|x: u64| #[trigger] v@.contains(x) <==> (old(v)@.contains(x) || (lo <= x && x < c)),
        invariant
            lo <= c <= top,
            top <= u64::MAX,
            top <= hi,
            old(v)@.no_duplicates() ==> v@.no_duplicates(),
        ensures
            old(v)@.no_duplicates() ==> v@.no_duplicates(),
            forall|x: u64| #[trigger] v@.contains(x) <==> (old(v)@.contains(x) || (lo <= x && x <= top)),
        decreases top - c,
    {
        push_unique(v, c as u64);
        if c == top {
            break;
        }
        c = c + 1;
    }
}

/// The buckets to search for partners of a candidate in bucket `b0`, each
/// once.
pub fn neighbor_buckets(b0: u64, harmonics: bool, hmax: u32) -> (r: Vec<u64>)
    ensures
        forall|b: u64| r@.contains(b) <==> probed(b0 as int, b as int, harmonics, hmax as int),
        r@.no_duplicates(),
{
    let mut out: Vec<u64> = Vec::new();
    push_near(&mut out, b0 as u128);
    if !harmonics || hmax < 2 {
        return out;
    }
    let mut k: u32 = 2;
    loop
        invariant_except_break
            forall|b: u64| #[trigger] out@.contains(b) <==> (near(b0 as int, b as int) || exists|j: int| 2 <= j < k && #[trigger] harmonic_probe(b0 as int, b as int, j)),
        invariant
            harmonics,
            2 <= k <= hmax,
            out@.no_duplicates(),
        ensures
            out@.no_duplicates(),
            forall|b: u64| out@.contains(b) <==> (near(b0 as int, b as int) || exists|j: int| 2 <= j <= hmax && #[trigger] harmonic_probe(b0 as int, b as int, j)),
        decreases hmax - k,
    {
        assert(k as int * b0 as int <= 0xffff_ffff * 0xffff_ffff_ffff_ffff) by (nonlinear_arith)
            requires k <= 0xffff_ffff, b0 <= 0xffff_ffff_ffff_ffff;
        let kb: u128 = k as u128 * b0 as u128;
        let up_lo: u128 = if kb > 0 { kb - 1 } else { 0 };
        let up_hi: u128 = kb + k as u128 + 1;
        assert(up_hi == k as int * (b0 as int + 1) + 1) by (nonlinear_arith)
            requires up_hi == kb + k + 1, kb == k * b0;
        let down_lo: u128 = if b0 == 0 { 0 } else { ((b0 - 1) / k as u64) as u128 };
        let down_hi: u128 = (b0 as u128 + 2) / k as u128;
        let ghost before = out@;
        push_range(&mut out, up_lo, up_hi);
        let ghost mid = out@;
        push_range(&mut out, down_lo, down_hi);
        assert forall|b: u64| out@.contains(b) <==> (near(b0 as int, b as int) || exists|j: int| 2 <= j <= k && #[trigger] harmonic_probe(b0 as int, b as int, j)) by {
            if b0 == 0 {
                assert((b0 as int - 1) / (k as int) == -1) by (nonlinear_arith)
                    requires b0 == 0, k >= 2;
            }
            let in_up = up_lo <= b && b <= up_hi;
            let in_down = down_lo <= b && b <= down_hi;
            assert(in_multiple_range(b0 as int, b as int, k as int) == in_up);
            assert(in_divisor_range(b0 as int, b as int, k as int) == in_down);
            if in_up {
                assert(mid.contains(b));
            }
            if before.contains(b) {
                assert(mid.contains(b));
            }
            if exists|j: int| 2 <= j <= k && #[trigger] harmonic_probe(b0 as int, b as int, j) {
                let j = choose|j: int| 2 <= j <= k && #[trigger] harmonic_probe(b0 as int, b as int, j);
                if j < k {
                    assert(before.contains(b));
                }
            }
            if out@.contains(b) && !before.contains(b) {
                if mid.contains(b) {
                    assert(in_up);
                } else {
                    assert(in_down);
                }
                assert(harmonic_probe(b0 as int, b as int, k as int));
            }
        }
        if k == hmax {
            break;
        }
        k = k + 1;
    }
    out
}

/// Candidates grouped by the bucket of their period.
pub struct BucketIndex {
    pub tol: u64,
    pub buckets: HashMap<u64, Vec<usize>>,
}

/// Key of the bucket of a candidate's period.
pub open spec fn bucket_key(c: Candidate, tol: u64) -> u64 {
    (c.period / tol) as u64
}

/// `m` holds exactly the first `n` candidates of `cs`, each under the key of
/// its bucket.
pub open spec fn holds_first(m: Map<u64, Vec<usize>>, cs: Seq<Candidate>, tol: u64, n: int) -> bool {
    &&& forall|b: u64, q: usize|
        m.contains_key(b) && #[trigger] m[b]@.contains(q) ==> q < n && bucket_key(cs[q as int], tol) == b
    &&& forall|q: int|
        0 <= q < n ==> m.contains_key(#[trigger] bucket_key(cs[q], tol)) && m[bucket_key(cs[q], tol)]@.contains(
            q as usize,
        )
}

impl BucketIndex {
    /// The index holds exactly the candidates of `cs`, each under the bucket
    /// of its period.
    pub open spec fn indexes(&self, cs: Seq<Candidate>) -> bool {
        &&& self.tol > 0
        &&& holds_first(self.buckets@, cs, self.tol, cs.len() as int)
    }

    /// Builds the index of `cs` for tolerance `tol`.
    pub fn build(cs: &Vec<Candidate>, tol: u64) -> (r: BucketIndex)
        requires
            tol > 0,
        ensures
            r.tol == tol,
            r.indexes(cs@),
    {
        let mut buckets: HashMap<u64, Vec<usize>> = HashMap::new();
        let mut i: usize = 0;
        while i < cs.len()
            invariant
                i <= cs.len(),
                tol > 0,
                holds_first(buckets@, cs@, tol, i as int),
            decreases cs.len() - i,
        {
            let b = bucket_abs(cs[i].period, tol);
            assert(b == bucket_key(cs@[i as int], tol));
            let ghost old_map = buckets@;
            let removed = buckets.remove(&b);
            let mut members: Vec<usize> = match removed {
                Some(v) => v,
                None => Vec::new(),
            };
            assert(old_map.contains_key(b) ==> members@ == old_map[b]@);
            assert(!old_map.contains_key(b) ==> members@.len() == 0);
            let ghost old_members = members@;
            members.push(i);
            buckets.insert(b, members);
            assert(buckets@ == old_map.insert(b, members));
            assert(buckets@[b]@ == old_members.push(i));
            assert forall|bb: u64, q: usize|
                buckets@.contains_key(bb) && #[trigger] buckets@[bb]@.contains(q) implies q < i + 1
                    && bucket_key(cs@[q as int], tol) == bb by {
                if bb == b && q != i {
                    let j = choose|j: int| 0 <= j < buckets@[bb]@.len() && buckets@[bb]@[j] == q;
                    assert(old_members[j] == q);
                    assert(old_map[b]@.contains(q));
                }
                if bb != b {
                    assert(old_map[bb]@.contains(q));
                }
            }
            assert forall|q: int|
                0 <= q < i + 1 implies buckets@.contains_key(#[trigger] bucket_key(cs@[q], tol))
                    && buckets@[bucket_key(cs@[q], tol)]@.contains(q as usize) by {
                let bq = bucket_key(cs@[q], tol);
                if q == i {
                    assert(buckets@[b]@[old_members.len() as int] == q as usize);
                } else if bq == b {
                    let j = choose|j: int| 0 <= j < old_members.len() && old_members[j] == q as usize;
                    assert(buckets@[b]@[j] == q as usize);
                } else {
                    assert(old_map[bq]@.contains(q as usize));
                }
            }
            i = i + 1;
        }
        BucketIndex { tol, buckets }
    }
}

fn copy_buckets(v: &Vec<u64>) -> (r: Vec<u64>)
    ensures
        r@ == v@,
{
    let mut out: Vec<u64> = Vec::new();
    let mut i: usize = 0;
    while i < v.len()
        invariant
            i <= v@.len(),
            out@ == v@.subrange(0, i as int),
        decreases v@.len() - i,
    {
        out.push(v[i]);
        i = i + 1;
    }
    assert(v@.subrange(0, v@.len() as int) =~= v@);
    out
}

/// Neighbour bucket lists already computed in a run, by bucket. The
/// harmonic switch and order are fixed for the run.
pub struct NeighborCache {
    pub harmonics: bool,
    pub hmax: u32,
    pub lists: HashMap<u64, Vec<u64>>,
}

impl NeighborCache {
    /// Every stored list holds exactly the buckets probed from its key.
    pub open spec fn wf(&self) -> bool {
        forall|b0: u64, b: u64|
            #![trigger self.lists@[b0]@.contains(b)]
            self.lists@.contains_key(b0) ==> (self.lists@[b0]@.contains(b) <==> probed(
                b0 as int,
                b as int,
                self.harmonics,
                self.hmax as int,
            ))
    }

    pub fn new(harmonics: bool, hmax: u32) -> (r: NeighborCache)
        ensures
            r.wf(),
            r.harmonics == harmonics,
            r.hmax == hmax,
    {
        NeighborCache { harmonics, hmax, lists: HashMap::new() }
    }

    /// The buckets probed from `b0`, computed once per bucket.
    pub fn neighbors(&mut self, b0: u64) -> (r: Vec<u64>)
        requires
            old(self).wf(),
        ensures
            final(self).wf(),
            final(self).harmonics == old(self).harmonics,
            final(self).hmax == old(self).hmax,
            forall|b: u64| r@.contains(b) <==> probed(b0 as int, b as int, old(self).harmonics, old(self).hmax as int),
    {
        match self.lists.get(&b0) {
            Some(v) => {
                let r = copy_buckets(v);
                assert forall|b: u64| r@.contains(b) <==> probed(b0 as int, b as int, self.harmonics, self.hmax as int) by {
                    assert(self.lists@[b0]@.contains(b) == r@.contains(b));
                }
                r
            },
            None => {
                let v = neighbor_buckets(b0, self.harmonics, self.hmax);
                let stored = copy_buckets(&v);
                let ghost before = self.lists@;
                self.lists.insert(b0, stored);
                assert forall|k: u64, b: u64| #![trigger self.lists@[k]@.contains(b)]
                    self.lists@.contains_key(k) implies (self.lists@[k]@.contains(b) <==> probed(
                        k as int,
                        b as int,
                        self.harmonics,
                        self.hmax as int,
                    )) by {
                    if k != b0 {
                        assert(before.contains_key(k) && self.lists@[k] == before[k]);
                        assert(before[k]@.contains(b) == self.lists@[k]@.contains(b));
                    }
                }
                v
            },
        }
    }
}

} // verus!
