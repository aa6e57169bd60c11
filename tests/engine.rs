use candy_picker::candidate::Candidate;
use candy_picker::config::{Acquisition, AcquisitionError, MatchConfig, common_tobs};
use candy_picker::cross::mark_cross_matches;
use candy_picker::engine::{ClusterError, cluster, cluster_with_pivots, split_pivots};
use candy_picker::index::{BucketIndex, bucket_abs, neighbor_buckets};

const S: u64 = 1_000_000_000_000_000;
const MICRO: i64 = 1_000_000;

fn cand(period: u64, snr: Option<i64>, source: usize) -> Candidate {
    Candidate { period, dm: None, acc: Some(0), snr, source, nh: 0 }
}

fn cfg(tol: u64, harmonics: bool) -> MatchConfig {
    MatchConfig::new(tol, None, None, harmonics, 16, 600_000, false).unwrap()
}

#[test]
fn two_close_candidates_one_pivot() {
    let cs = vec![cand(S, Some(5 * MICRO), 0), cand(S + S / 1_000_000, Some(9 * MICRO), 0)];
    let owner = cluster(&cs, &cfg(S / 100_000, false)).unwrap();
    assert_eq!(owner, vec![1, 1]);
    let (piv, rest) = split_pivots(&owner);
    assert_eq!(piv, vec![1]);
    assert_eq!(rest, vec![0]);
}

#[test]
fn harmonic_pair_clusters() {
    let cs = vec![cand(S / 2, Some(3), 0), cand(1_000_000_500_000_000, Some(4), 0)];
    let owner = cluster(&cs, &cfg(S / 100_000, true)).unwrap();
    assert_eq!(owner, vec![1, 1]);
    let apart = cluster(&cs, &cfg(S / 100_000, false)).unwrap();
    assert_eq!(apart, vec![0, 1]);
}

#[test]
fn missing_dm_keeps_candidates_apart() {
    let mut a = cand(S, Some(10), 0);
    a.dm = Some(50 * MICRO);
    let b = cand(S, Some(20), 0);
    let c = MatchConfig::new(S / 100_000, Some(100_000), None, false, 16, 600_000, false).unwrap();
    let owner = cluster(&vec![a, b], &c).unwrap();
    assert_eq!(owner, vec![0, 1]);
}

#[test]
fn non_transitive_chain_goes_to_strongest() {
    let tol = S / 100_000;
    let a = cand(S, Some(10 * MICRO), 0);
    let b = cand(S + 8 * tol / 10, Some(20 * MICRO), 0);
    let c = cand(S + 16 * tol / 10, Some(5 * MICRO), 0);
    let conf = cfg(tol, false);
    assert!(a.is_related(&b, &conf) && b.is_related(&c, &conf) && !a.is_related(&c, &conf));
    let owner = cluster(&vec![a, b, c], &conf).unwrap();
    assert_eq!(owner, vec![1, 1, 1]);
}

#[test]
fn acceleration_corrected_pair_clusters() {
    let mut a = cand(1_000_010_000_000_000, Some(10), 0);
    let mut b = cand(S, Some(5), 0);
    a.acc = Some(0);
    b.acc = Some(5 * MICRO);
    let tol = 7_000_000_000;
    let conf = MatchConfig::new(tol, None, None, false, 16, 600_000, false).unwrap();
    assert_eq!(cluster(&vec![a, b], &conf).unwrap(), vec![0, 0]);
    let naive = MatchConfig::new(tol, None, None, false, 16, 0, false).unwrap();
    assert_eq!(cluster(&vec![a, b], &naive).unwrap(), vec![0, 1]);
}

#[test]
fn correction_beyond_adjacent_buckets_is_not_searched() {
    let mut a = cand(1_000_010_000_000_000, Some(10), 0);
    let mut b = cand(S, Some(5), 0);
    a.acc = Some(0);
    b.acc = Some(5 * MICRO);
    let conf = MatchConfig::new(S / 1_000_000, None, None, false, 16, 600_000, false).unwrap();
    assert!(a.is_related(&b, &conf));
    assert_eq!(cluster(&vec![a, b], &conf).unwrap(), vec![0, 1]);
}

#[test]
fn empty_input_is_an_error() {
    let none: Vec<Candidate> = Vec::new();
    assert_eq!(cluster(&none, &cfg(10, false)), Err(ClusterError::NothingToCluster));
    let malformed: Vec<Candidate> = [0u64, 0u64]
        .iter()
        .filter_map(|p| Candidate::new(*p, None, None, Some(1), 0, 0))
        .collect();
    assert_eq!(cluster(&malformed, &cfg(10, false)), Err(ClusterError::NothingToCluster));
    let bad = MatchConfig { period_tol: 0, ..cfg(10, false) };
    assert_eq!(cluster(&vec![cand(S, None, 0)], &bad), Err(ClusterError::ZeroPeriodTolerance));
}

#[test]
fn unknown_snr_sorts_last_and_ties_keep_order() {
    let cs = vec![cand(S, None, 0), cand(S + 1, Some(1), 0), cand(S + 2, Some(1), 0)];
    let owner = cluster(&cs, &cfg(10, false)).unwrap();
    assert_eq!(owner, vec![1, 1, 1]);
}

#[test]
fn every_candidate_has_one_pivot_of_highest_snr() {
    let tol = S / 1_000;
    let mut cs = Vec::new();
    for i in 0..40u64 {
        let snr = ((i * 37) % 23) as i64;
        cs.push(cand(S + (i % 7) * tol / 3 + (i / 7) * 5 * tol, Some(snr), (i % 3) as usize));
    }
    let conf = cfg(tol, true);
    let owner = cluster(&cs, &conf).unwrap();
    for i in 0..cs.len() {
        let p = owner[i];
        assert_eq!(owner[p], p);
        if p != i {
            assert!(cs[p].snr.unwrap() >= cs[i].snr.unwrap());
            assert!(cs[p].is_related(&cs[i], &conf));
        }
    }
    for i in 0..cs.len() {
        if owner[i] == i {
            for j in 0..cs.len() {
                if owner[j] == j && j != i && cs[j].snr_rank() < cs[i].snr_rank() {
                    assert!(!cs[j].is_related(&cs[i], &conf));
                }
            }
        }
    }
}

#[test]
fn clustering_twice_gives_same_result() {
    let tol = S / 1_000;
    let cs: Vec<Candidate> = (0..30u64)
        .map(|i| cand(S / 2 + (i % 5) * tol / 2 + (i % 2) * S / 2, Some((i % 4) as i64), 0))
        .collect();
    let conf = cfg(tol, true);
    let first = cluster(&cs, &conf).unwrap();
    let second = cluster(&cs, &conf).unwrap();
    assert_eq!(first, second);
}

#[test]
fn cross_source_only_skips_same_source() {
    let cs = vec![cand(S, Some(3), 0), cand(S + 1, Some(2), 0), cand(S + 2, Some(1), 1)];
    let conf = MatchConfig::new(10, None, None, false, 16, 600_000, true).unwrap();
    assert_eq!(cluster(&cs, &conf).unwrap(), vec![0, 1, 0]);
}

#[test]
fn cross_matches_mark_both_sides() {
    let cs = vec![
        cand(S, Some(3), 0),
        cand(S + 1, Some(2), 0),
        cand(S + 2, Some(1), 1),
        cand(3 * S, Some(1), 1),
    ];
    let conf = cfg(10, false);
    assert_eq!(mark_cross_matches(&cs, &conf).unwrap(), vec![true, true, true, false]);
    let single = vec![cand(S, Some(3), 0), cand(S + 1, Some(2), 0)];
    assert_eq!(mark_cross_matches(&single, &conf).unwrap(), vec![false, false]);
    let none: Vec<Candidate> = Vec::new();
    assert_eq!(mark_cross_matches(&none, &conf), Err(ClusterError::NothingToCluster));
}

#[test]
fn buckets_and_neighbours() {
    assert_eq!(bucket_abs(105, 10), 10);
    assert_eq!(bucket_abs(9, 10), 0);
    let mut plain = neighbor_buckets(10, false, 16);
    plain.sort();
    assert_eq!(plain, vec![9, 10, 11]);
    let mut h = neighbor_buckets(10, true, 2);
    h.sort();
    assert_eq!(h, vec![4, 5, 6, 9, 10, 11, 19, 20, 21, 22, 23]);
    let mut z = neighbor_buckets(0, true, 3);
    z.sort();
    assert_eq!(z, vec![0, 1, 2, 3, 4]);
}

#[test]
fn index_groups_by_bucket() {
    let cs = vec![cand(15, None, 0), cand(25, None, 0), cand(19, None, 0)];
    let index = BucketIndex::build(&cs, 10);
    assert_eq!(index.buckets.get(&1), Some(&vec![0, 2]));
    assert_eq!(index.buckets.get(&2), Some(&vec![1]));
    assert_eq!(index.buckets.get(&0), None);
}

#[test]
fn observation_span_from_acquisitions() {
    let a = Acquisition { fft_size: 8_388_608, tsamp_ns: 76_000 };
    assert_eq!(common_tobs(&vec![a, a]), Ok(637_534));
    let b = Acquisition { fft_size: 8_388_608, tsamp_ns: 64_000 };
    assert_eq!(common_tobs(&vec![a, b]), Err(AcquisitionError::Inconsistent));
    assert_eq!(common_tobs(&Vec::new()), Err(AcquisitionError::NoInputs));
    let huge = Acquisition { fft_size: u64::MAX, tsamp_ns: 1_000_000 };
    assert_eq!(common_tobs(&vec![huge]), Err(AcquisitionError::SpanTooLong));
}

#[test]
fn exact_harmonic_is_found_in_probed_buckets() {
    let cs = vec![cand(S / 4, Some(9), 0), cand(S, Some(3), 0)];
    let conf = cfg(S / 100_000, true);
    assert!(cs[0].is_related(&cs[1], &conf));
    assert_eq!(cluster(&cs, &conf).unwrap(), vec![0, 0]);
    let off_centre = vec![cand(S / 4 + 9_000_000_000, Some(9), 0), cand(S + 36_000_000_000, Some(3), 0)];
    assert_eq!(cluster(&off_centre, &conf).unwrap(), vec![0, 0]);
    let divided = vec![cand(S, Some(9), 0), cand(S / 7, Some(3), 0)];
    assert_eq!(cluster(&divided, &conf).unwrap(), vec![0, 0]);
}

#[test]
fn pivots_come_in_selection_order() {
    let cs = vec![
        cand(S, Some(2), 0),
        cand(2 * S + S / 3, Some(7), 0),
        cand(3 * S + S / 5, None, 0),
        cand(S + 1, Some(1), 0),
        cand(5 * S + S / 7, Some(7), 0),
    ];
    let (owner, pivots) = cluster_with_pivots(&cs, &cfg(10, false)).unwrap();
    assert_eq!(owner, vec![0, 1, 2, 0, 4]);
    assert_eq!(pivots, vec![1, 4, 0, 2]);
    assert_eq!(cluster_with_pivots(&Vec::new(), &cfg(10, false)), Err(ClusterError::NothingToCluster));
}
