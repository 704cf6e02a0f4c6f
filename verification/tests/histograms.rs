use telemetry_core::histogram::Histogram;

fn total(h: &Histogram) -> u64 {
    h.snapshot().iter().map(|(_, c)| *c).sum()
}

#[test]
fn invalid_configurations_are_refused() {
    assert!(Histogram::new(8, 8).is_none());
    assert!(Histogram::new(9, 8).is_none());
    assert!(Histogram::new(2, 65).is_none());
    assert!(Histogram::new(21, 64).is_none());
    assert!(Histogram::new(2, 10).is_some());
    assert!(Histogram::new(7, 64).is_some());
}

#[test]
fn bucket_table_length_matches_configuration() {
    // (w - p + 1) * 2^p buckets.
    let h = Histogram::new(2, 10).unwrap();
    assert_eq!(h.snapshot().len(), (10 - 2 + 1) * 4);
    let h = Histogram::new(7, 64).unwrap();
    assert_eq!(h.snapshot().len(), (64 - 7 + 1) * 128);
}

#[test]
fn recording_increases_total_by_one() {
    let mut h = Histogram::new(2, 10).unwrap();
    assert_eq!(total(&h), 0);
    h.record(5);
    assert_eq!(total(&h), 1);
    h.record(900);
    assert_eq!(total(&h), 2);
    h.record(0);
    assert_eq!(total(&h), 3);
}

#[test]
fn repeated_values_accumulate_in_one_bucket() {
    let mut h = Histogram::new(2, 10).unwrap();
    h.record(37);
    let first = h.snapshot();
    let hot = first.iter().position(|&(_, c)| c == 1).unwrap();
    h.record(37);
    h.record(37);
    let after = h.snapshot();
    assert_eq!(after[hot].1, 3);
    let other: u64 = after
        .iter()
        .enumerate()
        .filter(|(i, _)| *i != hot)
        .map(|(_, &(_, c))| c)
        .sum();
    assert_eq!(other, 0);
}

#[test]
fn small_values_get_width_one_buckets() {
    // Below 2^(p+1) every value indexes its own bucket.
    let mut h = Histogram::new(2, 10).unwrap();
    h.record(0);
    h.record(5);
    h.record(7);
    let snap = h.snapshot();
    assert_eq!(snap[0], (0, 1));
    assert_eq!(snap[5], (5, 1));
    assert_eq!(snap[7], (7, 1));
}

#[test]
fn larger_values_share_log_linear_buckets() {
    // With p = 2, the range [8, 16) splits into four buckets of width 2;
    // 8 and 9 share one bucket, 10 starts the next.
    let mut h = Histogram::new(2, 10).unwrap();
    h.record(8);
    h.record(9);
    h.record(10);
    let snap = h.snapshot();
    assert_eq!(snap[8], (8, 2));
    assert_eq!(snap[9], (10, 1));
}

#[test]
fn boundary_value_lands_in_top_bucket() {
    // 2^w - 1 is the top of the configured range: counted, not dropped.
    let mut h = Histogram::new(2, 10).unwrap();
    h.record((1 << 10) - 1);
    let snap = h.snapshot();
    assert_eq!(snap.last().unwrap().1, 1);
    assert_eq!(total(&h), 1);
}

#[test]
fn out_of_range_values_clamp_into_top_bucket() {
    let mut h = Histogram::new(2, 10).unwrap();
    h.record(1 << 10);
    h.record(u64::MAX);
    let snap = h.snapshot();
    assert_eq!(snap.last().unwrap().1, 2);
    assert_eq!(total(&h), 2);
}

#[test]
fn snapshot_boundaries_are_increasing_and_start_at_zero() {
    let h = Histogram::new(2, 10).unwrap();
    let snap = h.snapshot();
    assert_eq!(snap[0].0, 0);
    for w in snap.windows(2) {
        assert!(w[0].0 < w[1].0);
    }
}

#[test]
fn observation_count_tracks_records() {
    let mut h = Histogram::new(2, 10).unwrap();
    assert_eq!(h.observation_count(), 0);
    for v in [0u64, 1, 7, 8, 500, 1023, 4096] {
        h.record(v);
    }
    assert_eq!(h.observation_count(), 7);
}

#[test]
fn every_bucket_boundary_maps_back_into_its_bucket() {
    let mut h = Histogram::new(2, 10).unwrap();
    let boundaries: Vec<u64> = h.snapshot().iter().map(|&(b, _)| b).collect();
    for b in &boundaries {
        h.record(*b);
    }
    for (i, &(_, count)) in h.snapshot().iter().enumerate() {
        assert_eq!(count, 1, "bucket {i} should hold exactly its own boundary");
    }
}

#[test]
fn full_width_histogram_accepts_any_value() {
    let mut h = Histogram::new(7, 64).unwrap();
    h.record(0);
    h.record(u64::MAX);
    assert_eq!(total(&h), 2);
    let snap = h.snapshot();
    assert_eq!(snap.last().unwrap().1, 1);
}
