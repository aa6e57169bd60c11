use candy_picker::candidate::Candidate;
use candy_picker::config::MatchConfig;
use candy_picker::matching::{dim_match_abs, periods_match_abs};

const S: u64 = 1_000_000_000_000_000;
const MICRO: i64 = 1_000_000;

fn cand(period: u64, snr: i64) -> Candidate {
    Candidate { period, dm: None, acc: None, snr: Some(snr), source: 0, nh: 0 }
}

fn cfg(tol: u64, harmonics: bool) -> MatchConfig {
    MatchConfig::new(tol, None, None, harmonics, 16, 600_000, false).unwrap()
}

#[test]
fn close_periods_match_directly() {
    let a = cand(S, 10 * MICRO);
    let b = cand(S + S / 1_000_000, 20 * MICRO);
    let c = cfg(S / 100_000, false);
    assert!(a.is_related(&b, &c));
    assert!(b.is_related(&a, &c));
}

#[test]
fn harmonic_match_at_factor_two() {
    let a = cand(S / 2, 10 * MICRO);
    let b = cand(1_000_000_500_000_000, 20 * MICRO);
    let on = cfg(S / 100_000, true);
    let off = cfg(S / 100_000, false);
    assert!(a.is_related(&b, &on));
    assert!(b.is_related(&a, &on));
    assert!(!a.is_related(&b, &off));
}

#[test]
fn harmonic_limit_is_respected() {
    let a = cand(S, 1);
    let b = cand(3 * S, 1);
    let two = MatchConfig::new(S / 100_000, None, None, true, 2, 600_000, false).unwrap();
    let three = MatchConfig::new(S / 100_000, None, None, true, 3, 600_000, false).unwrap();
    assert!(!a.is_related(&b, &two));
    assert!(a.is_related(&b, &three));
}

#[test]
fn missing_dm_fails_closed() {
    let mut a = cand(S, 1);
    a.dm = Some(50 * MICRO);
    let b = cand(S, 1);
    let c = MatchConfig::new(S / 100_000, Some((MICRO / 10) as u64), None, false, 16, 600_000, false).unwrap();
    assert!(!a.is_related(&b, &c));
    assert!(!b.is_related(&a, &c));
    let open = cfg(S / 100_000, false);
    assert!(a.is_related(&b, &open));
}

#[test]
fn dm_gate_widening_keeps_match() {
    let mut a = cand(S, 1);
    let mut b = cand(S, 1);
    a.dm = Some(50 * MICRO);
    b.dm = Some(50 * MICRO + 150_000);
    let low = MatchConfig::new(S / 100_000, Some(100_000), None, false, 16, 600_000, false).unwrap();
    let mid = MatchConfig::new(S / 100_000, Some(150_000), None, false, 16, 600_000, false).unwrap();
    let high = MatchConfig::new(S / 100_000, Some(200_000), None, false, 16, 600_000, false).unwrap();
    assert!(!a.is_related(&b, &low));
    assert!(a.is_related(&b, &mid));
    assert!(a.is_related(&b, &high));
}

#[test]
fn acceleration_gate() {
    let mut a = cand(S, 1);
    let mut b = cand(S, 1);
    a.acc = Some(0);
    b.acc = Some(MICRO);
    let tight = MatchConfig::new(S / 100_000, None, Some(500_000), false, 16, 0, false).unwrap();
    let loose = MatchConfig::new(S / 100_000, None, Some(2_000_000), false, 16, 0, false).unwrap();
    assert!(!a.is_related(&b, &tight));
    assert!(a.is_related(&b, &loose));
    b.acc = None;
    assert!(!a.is_related(&b, &loose));
}

#[test]
fn self_match_holds() {
    let mut c = cand(123_456_789_012_345, 7);
    c.dm = Some(12);
    c.acc = Some(-300 * MICRO);
    let strict = MatchConfig::new(1, Some(0), Some(0), true, 16, 600_000, false).unwrap();
    assert!(c.is_related(&c, &strict));
    let lax = cfg(S, false);
    assert!(c.is_related(&c, &lax));
}

#[test]
fn acceleration_correction_finds_match() {
    let mut a = cand(1_000_010_000_000_000, 10 * MICRO);
    let mut b = cand(S, 5 * MICRO);
    a.acc = Some(0);
    b.acc = Some(5 * MICRO);
    let corrected = MatchConfig::new(S / 1_000_000, None, None, false, 16, 600_000, false).unwrap();
    let uncorrected = MatchConfig::new(S / 1_000_000, None, None, false, 16, 0, false).unwrap();
    assert!(a.is_related(&b, &corrected));
    assert!(!a.is_related(&b, &uncorrected));
}

#[test]
fn symmetry_with_equal_accelerations() {
    let a = cand(S, 1);
    let b = cand(2 * S + 3, 1);
    let c = cfg(10, true);
    assert_eq!(a.is_related(&b, &c), b.is_related(&a, &c));
    assert!(a.is_related(&b, &c));
}

#[test]
fn periods_match_abs_cases() {
    assert!(periods_match_abs(100, 105, 5, false, 8));
    assert!(!periods_match_abs(100, 106, 5, false, 8));
    assert!(periods_match_abs(100, 301, 1, true, 3));
    assert!(periods_match_abs(301, 100, 1, true, 3));
    assert!(!periods_match_abs(100, 401, 1, true, 3));
    assert!(!periods_match_abs(100, 201, 1, true, 1));
}

#[test]
fn dim_match_abs_cases() {
    assert!(dim_match_abs(None, None, &None));
    assert!(dim_match_abs(Some(1), None, &None));
    assert!(!dim_match_abs(Some(1), None, &Some(5)));
    assert!(!dim_match_abs(None, None, &Some(5)));
    assert!(dim_match_abs(Some(1), Some(6), &Some(5)));
    assert!(!dim_match_abs(Some(1), Some(7), &Some(5)));
    assert!(dim_match_abs(Some(i64::MIN), Some(i64::MIN), &Some(0)));
    assert!(!dim_match_abs(Some(i64::MIN), Some(i64::MAX), &Some(u64::MAX - 1)));
}

#[test]
fn config_rejects_zero_period_tolerance() {
    assert!(MatchConfig::new(0, None, None, true, 16, 600_000, false).is_err());
    let c = MatchConfig::new(5, Some(1), None, true, 4, 1000, true).unwrap();
    assert_eq!(c.period_tol, 5);
    assert_eq!(c.dm_tol, Some(1));
    assert_eq!(c.max_harmonic, 4);
    assert!(c.cross_source_only);
}

#[test]
fn candidate_derived_values() {
    assert!(Candidate::new(0, None, None, None, 0, 0).is_none());
    let c = Candidate::new(1_234_500_000_000_000, None, None, Some(3), 2, 3).unwrap();
    assert_eq!(c.period_ms(), 1235);
    assert_eq!(c.pulse_width(), 1_234_500_000_000_000 / 8);
    let d = Candidate::new(1_234_499_999_999_999, None, None, None, 0, 70).unwrap();
    assert_eq!(d.period_ms(), 1234);
    assert_eq!(d.pulse_width(), 0);
    assert_eq!(d.snr_rank(), 1u128 << 64);
    assert_eq!(c.snr_rank(), (i64::MAX - 3) as u128);
}

#[test]
fn reference_matters_when_accelerations_differ() {
    let mut a = cand(1_000_600_776_086_553, 1);
    let mut b = cand(S, 1);
    a.acc = Some(0);
    b.acc = Some(300 * MICRO);
    let c = MatchConfig::new(1, None, None, false, 16, 600_000, false).unwrap();
    assert!(a.is_related(&b, &c));
    assert!(!b.is_related(&a, &c));
}
