use vstd::prelude::*;

verus! {

/// Period unit: femtoseconds per second.
pub const FS_PER_SECOND: u64 = 1_000_000_000_000_000;

/// Scale of the DM, acceleration and SNR fields: millionths of the unit
/// (pc cm^-3, m s^-2 and plain SNR respectively).
pub const MICRO_UNITS: u64 = 1_000_000;

/// Largest SNR rank key; an unknown SNR gets this rank and sorts last.
pub const UNKNOWN_SNR_RANK: u128 = 18_446_744_073_709_551_616;

/// One detection.
///
/// - `period`: fundamental period in femtoseconds;
/// - `dm`: dispersion measure in millionths of pc cm^-3, if known;
/// - `acc`: trial acceleration in micrometres per second squared, if known
///   (an unknown acceleration counts as zero when periods are reconciled);
/// - `snr`: signal-to-noise ratio in millionths, `None` when not finite;
/// - `source`: which input the detection came from;
/// - `nh`: harmonic number reported by the search.
#[derive(Clone, Copy, Debug, PartialEq, Eq, Structural)]
pub struct Candidate {
    pub period: u64,
    pub dm: Option<i64>,
    pub acc: Option<i64>,
    pub snr: Option<i64>,
    pub source: usize,
    pub nh: u32,
}

/// The acceleration used when reconciling periods.
pub open spec fn acc_value(c: Candidate) -> int {
    match c.acc {
        Some(a) => a as int,
        None => 0,
    }
}

/// Sort key of a candidate: a higher SNR gives a smaller key, an unknown SNR
/// the largest.
pub open spec fn snr_rank(c: Candidate) -> int {
    match c.snr {
        Some(s) => i64::MAX as int - s as int,
        None => UNKNOWN_SNR_RANK as int,
    }
}

/// Candidate `i` of `cs` comes before candidate `j` in pivot selection:
/// higher SNR first, unknown SNR last, ties in input order.
pub open spec fn ranks_before(cs: Seq<Candidate>, i: int, j: int) -> bool {
    snr_rank(cs[i]) < snr_rank(cs[j]) || (snr_rank(cs[i]) == snr_rank(cs[j]) && i < j)
}

impl Candidate {
    /// Builds a candidate; a non-positive period is rejected.
    pub fn new(period: u64, dm: Option<i64>, acc: Option<i64>, snr: Option<i64>, source: usize, nh: u32) -> (r: Option<Candidate>)
        ensures
            period == 0 ==> r.is_none(),
            period > 0 ==> r == Some(Candidate { period, dm, acc, snr, source, nh }),
    {
        if period == 0 {
            None
        } else {
            Some(Candidate { period, dm, acc, snr, source, nh })
        }
    }

    /// The period rounded to the nearest millisecond (halves round up).
    pub fn period_ms(&self) -> (r: u64)
        ensures
            r == (self.period as int + 500_000_000_000) / 1_000_000_000_000,
    {
        let half: u64 = 500_000_000_000;
        let unit: u64 = 1_000_000_000_000;
        (self.period / unit) + (if self.period % unit >= half { 1u64 } else { 0u64 })
    }

    /// Pulse width: the period divided by two to the power of the harmonic
    /// number, rounded down.
    pub fn pulse_width(&self) -> (r: u64)
        ensures
            r == self.period as int / pow2(self.nh as nat),
    {
        let mut w: u64 = self.period;
        let mut i: u32 = 0;
        while i < self.nh && w > 0
            invariant
                i <= self.nh,
                w == self.period as int / pow2(i as nat),
            decreases self.nh - i,
        {
            proof {
                lemma_div_pow2_step(self.period as int, i as nat);
            }
            w = w / 2;
            i = i + 1;
        }
        proof {
            if w == 0 && i < self.nh {
                lemma_div_pow2_zero(self.period as int, i as nat, self.nh as nat);
            }
        }
        w
    }

    /// Position of this candidate in pivot selection: smaller comes first.
    pub fn snr_rank(&self) -> (r: u128)
        ensures
            r == snr_rank(*self),
    {
        match self.snr {
            Some(s) => (i64::MAX as i128 - s as i128) as u128,
            None => UNKNOWN_SNR_RANK,
        }
    }
}

pub open spec fn pow2(n: nat) -> int
    decreases n,
{
    if n == 0 {
        1
    } else {
        2 * pow2((n - 1) as nat)
    }
}

proof fn lemma_pow2_pos(n: nat)
    ensures
        pow2(n) > 0,
    decreases n,
{
    if n > 0 {
        lemma_pow2_pos((n - 1) as nat);
    }
}

proof fn lemma_div_pow2_step(p: int, i: nat)
    requires
        p >= 0,
    ensures
        (p / pow2(i)) / 2 == p / pow2(i + 1),
{
    lemma_pow2_pos(i);
    assert(pow2(i + 1) == 2 * pow2(i));
    vstd::arithmetic::div_mod::lemma_div_denominator(p, pow2(i), 2);
    assert(pow2(i) * 2 == pow2(i + 1)) by (nonlinear_arith)
        requires pow2(i + 1) == 2 * pow2(i);
}

proof fn lemma_div_pow2_zero(p: int, i: nat, n: nat)
    requires
        p >= 0,
        i <= n,
        p / pow2(i) == 0,
    ensures
        p / pow2(n) == 0,
    decreases n - i,
{
    if i < n {
        lemma_div_pow2_step(p, i);
        lemma_div_pow2_zero(p, i + 1, n);
    }
}

} // verus!
