use vstd::prelude::*;

verus! {

/// Default largest harmonic factor.
pub const DEFAULT_MAX_HARMONIC: u32 = 16;

/// Default observation span, in milliseconds (ten minutes).
pub const DEFAULT_TOBS_MS: u32 = 600_000;

/// Tolerances and switches that every comparison of a run shares.
///
/// - `period_tol`: largest accepted period difference, in femtoseconds;
/// - `dm_tol`, `acc_tol`: largest accepted DM and acceleration differences,
///   in the units of `Candidate`; with `None` that gate always passes;
/// - `harmonics`, `max_harmonic`: whether periods whose ratio is an integer
///   factor up to `max_harmonic` also match;
/// - `tobs_ms`: observation span used to reconcile trial accelerations;
/// - `cross_source_only`: only candidates from different sources may be
///   grouped together.
#[derive(Clone, Copy, Debug, PartialEq, Eq, Structural)]
pub struct MatchConfig {
    pub period_tol: u64,
    pub dm_tol: Option<u64>,
    pub acc_tol: Option<u64>,
    pub harmonics: bool,
    pub max_harmonic: u32,
    pub tobs_ms: u32,
    pub cross_source_only: bool,
}

/// Why a configuration was refused.
#[derive(Clone, Copy, Debug, PartialEq, Eq, Structural)]
pub enum ConfigError {
    /// The period tolerance must be positive.
    ZeroPeriodTolerance,
}

impl MatchConfig {
    pub open spec fn valid(self) -> bool {
        self.period_tol > 0
    }

    /// Checks and builds a configuration.
    pub fn new(
        period_tol: u64,
        dm_tol: Option<u64>,
        acc_tol: Option<u64>,
        harmonics: bool,
        max_harmonic: u32,
        tobs_ms: u32,
        cross_source_only: bool,
    ) -> (r: Result<MatchConfig, ConfigError>)
        ensures
            period_tol == 0 <==> r == Err::<MatchConfig, ConfigError>(ConfigError::ZeroPeriodTolerance),
            period_tol > 0 ==> r == Ok::<MatchConfig, ConfigError>(
                MatchConfig {
                    period_tol,
                    dm_tol,
                    acc_tol,
                    harmonics,
                    max_harmonic,
                    tobs_ms,
                    cross_source_only,
                },
            ),
    {
        if period_tol == 0 {
            Err(ConfigError::ZeroPeriodTolerance)
        } else {
            Ok(MatchConfig { period_tol, dm_tol, acc_tol, harmonics, max_harmonic, tobs_ms, cross_source_only })
        }
    }
}

/// Acquisition parameters of one input: FFT length in samples and sampling
/// time in nanoseconds.
#[derive(Clone, Copy, Debug, PartialEq, Eq, Structural)]
pub struct Acquisition {
    pub fft_size: u64,
    pub tsamp_ns: u64,
}

/// Why the inputs give no observation span.
#[derive(Clone, Copy, Debug, PartialEq, Eq, Structural)]
pub enum AcquisitionError {
    /// No input was given.
    NoInputs,
    /// Two inputs differ in FFT length or sampling time.
    Inconsistent,
    /// The span does not fit the configuration's millisecond field.
    SpanTooLong,
}

/// Observation span in milliseconds, rounded down: FFT length times
/// sampling time.
pub open spec fn span_ms(a: Acquisition) -> int {
    (a.fft_size as int * a.tsamp_ns as int) / 1_000_000
}

/// The observation span shared by all inputs. Every input must have the
/// acquisition parameters of the first, since the acceleration correction
/// depends on them.
pub fn common_tobs(inputs: &Vec<Acquisition>) -> (r: Result<u32, AcquisitionError>)
    ensures
        inputs@.len() == 0 <==> r == Err::<u32, AcquisitionError>(AcquisitionError::NoInputs),
        inputs@.len() > 0 && (exists|i: int| 0 <= i < inputs@.len() && #[trigger] inputs@[i] != inputs@[0])
            <==> r == Err::<u32, AcquisitionError>(AcquisitionError::Inconsistent),
        inputs@.len() > 0 && (forall|i: int| 0 <= i < inputs@.len() ==> #[trigger] inputs@[i] == inputs@[0]) ==> (
        if span_ms(inputs@[0]) <= u32::MAX {
            r == Ok::<u32, AcquisitionError>(span_ms(inputs@[0]) as u32)
        } else {
            r == Err::<u32, AcquisitionError>(AcquisitionError::SpanTooLong)
        }),
{
    if inputs.len() == 0 {
        return Err(AcquisitionError::NoInputs);
    }
    let first = inputs[0];
    let mut i: usize = 1;
    while i < inputs.len()
        invariant
            1 <= i <= inputs@.len(),
            first == inputs@[0],
            forall|j: int| 0 <= j < i ==> #[trigger] inputs@[j] == inputs@[0],
        decreases inputs@.len() - i,
    {
        if inputs[i].fft_size != first.fft_size || inputs[i].tsamp_ns != first.tsamp_ns {
            assert(inputs@[i as int] != inputs@[0]);
            return Err(AcquisitionError::Inconsistent);
        }
        i = i + 1;
    }
    assert(first.fft_size as int * first.tsamp_ns as int <= 0xffff_ffff_ffff_ffff * 0xffff_ffff_ffff_ffff) by (nonlinear_arith)
        requires first.fft_size <= 0xffff_ffff_ffff_ffff, first.tsamp_ns <= 0xffff_ffff_ffff_ffff;
    let span: u128 = (first.fft_size as u128 * first.tsamp_ns as u128) / 1_000_000;
    if span > u32::MAX as u128 {
        Err(AcquisitionError::SpanTooLong)
    } else {
        Ok(span as u32)
    }
}

} // verus!
