use interactive_graphs::histogram::{bucket_of, Histogram, BUCKETS};

fn floor_of(slot: usize, sub: usize) -> u64 {
    (1u64 << (slot - 1)) + (sub as u64) * (1u64 << (slot - 5))
}

#[test]
fn bucket_of_known_values() {
    assert_eq!(bucket_of(17), (5, 1));
    assert_eq!(bucket_of(1000), (10, 15));
    assert_eq!(bucket_of(1024), (10, 0));
    assert_eq!(bucket_of(1025), (11, 0));
    assert_eq!(bucket_of(3000), (12, 7));
    assert_eq!(bucket_of(1u64 << 63), (63, 0));
}

#[test]
fn bucket_floor_is_within_one_sub_slot() {
    let mut l: u64 = 17;
    while l < 70_000 {
        if !l.is_power_of_two() {
            let (slot, sub) = bucket_of(l);
            let f = floor_of(slot, sub);
            let width = 1u64 << (slot - 5);
            assert!(f <= l && l < f + width, "latency {}", l);
        }
        l += 1;
    }
}

#[test]
fn new_histogram_is_empty() {
    let h = Histogram::new();
    assert_eq!(h.total(), 0);
    assert_eq!(h.count(10, 15), 0);
    assert!(h.report().is_empty());
}

#[test]
fn record_counts_in_bucket() {
    let mut h = Histogram::new();
    h.record(1000);
    h.record(1001);
    h.record(3000);
    assert_eq!(h.total(), 3);
    assert_eq!(h.count(10, 15), 2);
    assert_eq!(h.count(12, 7), 1);
    assert_eq!(h.count(12, 6), 0);
}

#[test]
fn report_lists_buckets_with_samples_above() {
    let mut h = Histogram::new();
    h.record(1000);
    h.record(3000);
    let r = h.report();
    assert_eq!(r.len(), 24);
    assert_eq!(r[0], (992, 1));
    assert_eq!(r[1], (1024, 1));
    assert_eq!(r[23], (2816, 1));
    assert!(r.iter().all(|&(_, above)| above == 1));
}

#[test]
fn report_reconstructs_median_within_a_sub_slot() {
    let mut h = Histogram::new();
    for l in 1000u64..2000 {
        h.record(l);
    }
    let total = h.total();
    assert_eq!(total, 1000);
    let r = h.report();
    let (median, _) = *r.iter().find(|&&(_, above)| (above as f64) / (total as f64) <= 0.5).unwrap();
    assert_eq!(median, 1472);
    assert!((median as i64 - 1500).abs() <= 64);
    let (p90, _) = *r.iter().find(|&&(_, above)| (above as f64) / (total as f64) <= 0.1).unwrap();
    assert!((p90 as i64 - 1900).abs() <= 64, "p90 {}", p90);
}

#[test]
fn bucket_count_is_sixty_four_by_sixteen() {
    assert_eq!(BUCKETS, 64 * 16);
}
