use vstd::prelude::*;
use crate::candidate::{Candidate, acc_value};
use crate::config::MatchConfig;

verus! {

/// Speed of light in nanometres per second: the unit of an acceleration
/// (micrometres per second squared) times a duration (milliseconds).
pub const SPEED_OF_LIGHT_NM_PER_S: u64 = 299_792_458_000_000_000;

pub open spec fn abs_diff(x: int, y: int) -> int {
    if x >= y {
        x - y
    } else {
        y - x
    }
}

/// A DM or acceleration gate: no tolerance lets every pair through; with a
/// tolerance both values must be known and within it.
pub open spec fn dim_gate(x: Option<i64>, y: Option<i64>, tol: Option<u64>) -> bool {
    match tol {
        None => true,
        Some(t) => match (x, y) {
            (Some(a), Some(b)) => abs_diff(a as int, b as int) <= t as int,
            _ => false,
        },
    }
}

/// `c - (acc_b - acc_a) * tobs`: the corrected frequency of `b` is its
/// frequency times this over `c`.
pub open spec fn correction_denominator(a: Candidate, b: Candidate, cfg: MatchConfig) -> int {
    SPEED_OF_LIGHT_NM_PER_S as int - (acc_value(b) - acc_value(a)) * cfg.tobs_ms as int
}

/// Period of `b` in the acceleration frame of `a`, rounded down
/// (meaningful when the denominator is positive).
pub open spec fn corrected_period(a: Candidate, b: Candidate, cfg: MatchConfig) -> int {
    (b.period as int * SPEED_OF_LIGHT_NM_PER_S as int) / correction_denominator(a, b, cfg)
}

/// `pa` is within `tol` of `k` times `pb`, or `k` times `pa` is within `tol` of `pb`.
pub open spec fn close_at(pa: int, pb: int, tol: int, k: int) -> bool {
    abs_diff(pa, k * pb) <= tol || abs_diff(k * pa, pb) <= tol
}

/// Direct match, or, with harmonics, a match at a factor `2..=hmax`.
pub open spec fn periods_close(pa: int, pb: int, tol: int, harmonics: bool, hmax: int) -> bool {
    close_at(pa, pb, tol, 1) || (harmonics && exists|k: int| 2 <= k <= hmax && #[trigger] close_at(pa, pb, tol, k))
}

/// `b` is the same signal as `a`, with `a` as reference.
pub open spec fn related(a: Candidate, b: Candidate, cfg: MatchConfig) -> bool {
    &&& dim_gate(a.dm, b.dm, cfg.dm_tol)
    &&& dim_gate(a.acc, b.acc, cfg.acc_tol)
    &&& correction_denominator(a, b, cfg) > 0
    &&& periods_close(
        a.period as int,
        corrected_period(a, b, cfg),
        cfg.period_tol as int,
        cfg.harmonics,
        cfg.max_harmonic as int,
    )
}

/// Whether two optional values pass a gate of tolerance `tol`.
pub fn dim_match_abs(a: Option<i64>, b: Option<i64>, tol: &Option<u64>) -> (r: bool)
    ensures
        r == dim_gate(a, b, *tol),
{
    match tol {
        None => true,
        Some(t) => match (a, b) {
            (Some(x), Some(y)) => {
                let d: i128 = x as i128 - y as i128;
                let ad: i128 = if d >= 0 { d } else { -d };
                ad <= *t as i128
            },
            _ => false,
        },
    }
}

fn abs_diff_u128(x: u128, y: u128) -> (r: u128)
    ensures
        r == abs_diff(x as int, y as int),
{
    if x >= y {
        x - y
    } else {
        y - x
    }
}

/// `close_at` for one factor `k >= 1`.
fn close_at_factor(pa: u64, pb: u128, tol: u64, k: u32) -> (r: bool)
    requires
        k >= 1,
    ensures
        r == close_at(pa as int, pb as int, tol as int, k as int),
{
    let direct = if pb <= pa as u128 + tol as u128 {
        assert(k as int * pb as int <= 0xffff_ffff * 0x2_0000_0000_0000_0000) by (nonlinear_arith)
            requires k <= 0xffff_ffff, pb <= 0x2_0000_0000_0000_0000;
        abs_diff_u128(pa as u128, k as u128 * pb) <= tol as u128
    } else {
        assert(k as int * pb as int >= pb as int) by (nonlinear_arith)
            requires k >= 1, pb >= 0;
        false
    };
    assert(k as int * pa as int <= 0xffff_ffff * 0xffff_ffff_ffff_ffff) by (nonlinear_arith)
        requires k <= 0xffff_ffff, pa <= 0xffff_ffff_ffff_ffff;
    let ka: u128 = k as u128 * pa as u128;
    direct || abs_diff_u128(ka, pb) <= tol as u128
}

/// Period comparison with an absolute tolerance and optional harmonics:
/// `|p1 - p2| <= ptol`, or, with harmonics, `|p1 - k p2| <= ptol` or
/// `|k p1 - p2| <= ptol` for some `k` in `2..=hmax`.
pub fn periods_match_abs(p1: u64, p2: u128, ptol: u64, harmonics: bool, hmax: u32) -> (r: bool)
    ensures
        r == periods_close(p1 as int, p2 as int, ptol as int, harmonics, hmax as int),
{
    if close_at_factor(p1, p2, ptol, 1) {
        return true;
    }
    if !harmonics {
        return false;
    }
    if hmax < 2 {
        return false;
    }
    let mut k: u32 = 2;
    loop
        invariant
            harmonics,
            2 <= k <= hmax,
            forall|j: int| 2 <= j < k ==> !close_at(p1 as int, p2 as int, ptol as int, j),
        ensures
            forall|j: int| 2 <= j <= hmax ==> !close_at(p1 as int, p2 as int, ptol as int, j),
        decreases hmax - k,
    {
        if close_at_factor(p1, p2, ptol, k) {
            assert(2 <= k as int <= hmax as int && close_at(p1 as int, p2 as int, ptol as int, k as int));
            return true;
        }
        if k == hmax {
            break;
        }
        k = k + 1;
    }
    assert(forall|j: int| 2 <= j <= hmax ==> !#[trigger] close_at(p1 as int, p2 as int, ptol as int, j));
    false
}

impl Candidate {
    /// Whether `other` is the same signal as `self`, with `self` as the
    /// reference: both gates pass, and the period of `other`, corrected to the
    /// acceleration of `self`, is close to the period of `self`.
    pub fn is_related(&self, other: &Candidate, cfg: &MatchConfig) -> (r: bool)
        ensures
            r == related(*self, *other, *cfg),
    {
        if !dim_match_abs(self.dm, other.dm, &cfg.dm_tol) {
            return false;
        }
        if !dim_match_abs(self.acc, other.acc, &cfg.acc_tol) {
            return false;
        }
        let acc_a: i64 = match self.acc {
            Some(a) => a,
            None => 0,
        };
        let acc_b: i64 = match other.acc {
            Some(a) => a,
            None => 0,
        };
        let dacc: i128 = acc_b as i128 - acc_a as i128;
        let tobs: i128 = cfg.tobs_ms as i128;
        assert(-0x2_0000_0000_0000_0000 * 0xffff_ffff <= dacc * tobs <= 0x2_0000_0000_0000_0000
            * 0xffff_ffff) by (nonlinear_arith)
            requires
                -0x2_0000_0000_0000_0000 <= dacc <= 0x2_0000_0000_0000_0000,
                0 <= tobs <= 0xffff_ffff,
        ;
        let den: i128 = SPEED_OF_LIGHT_NM_PER_S as i128 - dacc * tobs;
        assert(den == correction_denominator(*self, *other, *cfg));
        if den <= 0 {
            return false;
        }
        assert(other.period as int * SPEED_OF_LIGHT_NM_PER_S as int <= 0xffff_ffff_ffff_ffff
            * 299_792_458_000_000_000) by (nonlinear_arith)
            requires other.period <= 0xffff_ffff_ffff_ffff;
        let num: u128 = other.period as u128 * SPEED_OF_LIGHT_NM_PER_S as u128;
        let pc: u128 = num / (den as u128);
        assert(pc <= num) by (nonlinear_arith)
            requires pc == num / (den as u128), den >= 1, num >= 0;
        periods_match_abs(self.period, pc, cfg.period_tol, cfg.harmonics, cfg.max_harmonic)
    }
}

/// With equal accelerations no correction applies: the corrected period of
/// `b` is its own period.
pub proof fn lemma_equal_acc_no_correction(a: Candidate, b: Candidate, cfg: MatchConfig)
    requires
        acc_value(a) == acc_value(b),
    ensures
        correction_denominator(a, b, cfg) == SPEED_OF_LIGHT_NM_PER_S as int,
        corrected_period(a, b, cfg) == b.period as int,
{
    assert((acc_value(b) - acc_value(a)) * cfg.tobs_ms as int == 0);
    vstd::arithmetic::div_mod::lemma_div_by_multiple(b.period as int, SPEED_OF_LIGHT_NM_PER_S as int);
}

/// Every candidate matches itself, whatever the tolerances, provided it
/// carries the values that the active gates compare.
pub proof fn lemma_self_match(c: Candidate, cfg: MatchConfig)
    requires
        cfg.dm_tol.is_some() ==> c.dm.is_some(),
        cfg.acc_tol.is_some() ==> c.acc.is_some(),
    ensures
        related(c, c, cfg),
{
    lemma_equal_acc_no_correction(c, c, cfg);
    assert(close_at(c.period as int, c.period as int, cfg.period_tol as int, 1));
}

/// Widening the DM tolerance never breaks a match.
pub proof fn lemma_dm_gate_monotone(a: Candidate, b: Candidate, cfg: MatchConfig, low: u64, high: u64)
    requires
        low < high,
        related(a, b, MatchConfig { dm_tol: Some(low), ..cfg }),
    ensures
        related(a, b, MatchConfig { dm_tol: Some(high), ..cfg }),
{
}

/// With a DM gate, a pair in which one side has no DM never matches.
pub proof fn lemma_missing_dm_fails_closed(a: Candidate, b: Candidate, cfg: MatchConfig)
    requires
        cfg.dm_tol.is_some(),
        a.dm.is_none() || b.dm.is_none(),
    ensures
        !related(a, b, cfg),
        !related(b, a, cfg),
{
}

/// Without an acceleration difference to reconcile, matching does not depend
/// on which candidate is the reference: `a` close to `k` times `b` is `b`
/// times `k` close to `a`, for every factor in the enabled range.
pub proof fn lemma_match_symmetric(a: Candidate, b: Candidate, cfg: MatchConfig)
    requires
        acc_value(a) == acc_value(b),
    ensures
        related(a, b, cfg) == related(b, a, cfg),
{
    lemma_equal_acc_no_correction(a, b, cfg);
    lemma_equal_acc_no_correction(b, a, cfg);
    let pa = a.period as int;
    let pb = b.period as int;
    let t = cfg.period_tol as int;
    assert forall|k: int| close_at(pa, pb, t, k) == close_at(pb, pa, t, k) by {}
    assert(close_at(pa, pb, t, 1) == close_at(pb, pa, t, 1));
    if periods_close(pa, pb, t, cfg.harmonics, cfg.max_harmonic as int) {
        if !close_at(pa, pb, t, 1) {
            let k = choose|k: int| 2 <= k <= cfg.max_harmonic && #[trigger] close_at(pa, pb, t, k);
            assert(close_at(pb, pa, t, k));
        }
    }
    if periods_close(pb, pa, t, cfg.harmonics, cfg.max_harmonic as int) {
        if !close_at(pb, pa, t, 1) {
            let k = choose|k: int| 2 <= k <= cfg.max_harmonic && #[trigger] close_at(pb, pa, t, k);
            assert(close_at(pa, pb, t, k));
        }
    }
}

} // verus!
