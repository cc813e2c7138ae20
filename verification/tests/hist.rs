use jsonl_peek::binary64::Binary64;
use jsonl_peek::hist::Histogram;

fn number(x: f64) -> Binary64 {
    Binary64::from_bits(x.to_bits())
}

fn quantile(h: &Histogram, q: f64) -> Option<u64> {
    h.quantile(number(q))
}

#[test]
fn empty_histogram_reports_nothing() {
    let h = Histogram::new();
    assert_eq!(h.count(), 0);
    assert_eq!(h.min(), None);
    assert_eq!(h.max(), None);
    assert_eq!(h.mean(), None);
    assert_eq!(quantile(&h, 0.5), None);
}

#[test]
fn small_values_are_exact() {
    let mut h = Histogram::new();
    for v in 0..16u64 {
        h.record(v);
    }
    assert_eq!(h.count(), 16);
    assert_eq!(h.min(), Some(0));
    assert_eq!(h.max(), Some(15));
    assert_eq!(quantile(&h, 0.0), Some(0));
    assert_eq!(quantile(&h, 1.0), Some(15));
    assert_eq!(quantile(&h, 0.5), Some(7));
}

#[test]
fn bucket_indices_are_monotonic_and_consistent() {
    let mut previous = 0usize;
    for v in 0..5000u64 {
        let idx = Histogram::bucket_of(v);
        assert!(idx >= previous, "bucket index went backwards at {}", v);
        previous = idx;
        let (lo, hi) = Histogram::bucket_range(idx);
        assert!(lo <= v && v < hi, "value {} not inside bucket {:?}", v, (lo, hi));
    }
}

#[test]
fn extreme_values_do_not_panic() {
    let mut h = Histogram::new();
    h.record(0);
    h.record(u64::MAX);
    let idx = Histogram::bucket_of(u64::MAX);
    let (lo, hi) = Histogram::bucket_range(idx);
    assert!(lo < u64::MAX, "last bucket should still start below the top");
    assert_eq!(hi, u64::MAX, "the top bucket saturates instead of overflowing");
    assert_eq!(h.max(), Some(u64::MAX));
    assert_eq!(quantile(&h, 1.0), Some(u64::MAX));
    assert_eq!(quantile(&h, 0.0), Some(0));
}

#[test]
fn quantiles_stay_within_three_percent() {
    let mut h = Histogram::new();
    for v in 1..=100_000u64 {
        h.record(v);
    }
    assert_eq!(h.count(), 100_000);
    assert_eq!(h.mean(), Some(number(50_000.5)));
    for &(q, expected) in &[(0.5, 50_000.0), (0.9, 90_000.0), (0.99, 99_000.0)] {
        let got = quantile(&h, q).unwrap() as f64;
        let error = (got - expected).abs() / expected;
        assert!(error < 0.03, "q={} got={} expected={}", q, got, expected);
    }
    assert_eq!(quantile(&h, 1.0), Some(100_000));
}

#[test]
fn single_value_repeated() {
    let mut h = Histogram::new();
    for _ in 0..1000 {
        h.record(4096);
    }
    assert_eq!(quantile(&h, 0.5), Some(4096));
    assert_eq!(quantile(&h, 0.99), Some(4096));
    assert_eq!(h.mean(), Some(number(4096.0)));
}

#[test]
fn a_default_histogram_is_empty() {
    let h = Histogram::default();
    assert_eq!(h.count(), 0);
    assert_eq!(h.sum(), 0);
}

#[test]
fn the_sum_does_not_wrap() {
    let mut h = Histogram::new();
    h.record(u64::MAX);
    h.record(u64::MAX);
    assert_eq!(h.sum(), 2 * u128::from(u64::MAX));
    assert_eq!(h.mean(), Some(number(18446744073709551615.0)));
}

#[test]
fn the_first_sixteen_buckets_hold_one_value() {
    for v in 0..16u64 {
        assert_eq!(Histogram::bucket_of(v), v as usize);
        assert_eq!(Histogram::bucket_range(v as usize), (v, v + 1));
    }
    assert_eq!(Histogram::bucket_of(16), 16);
    assert_eq!(Histogram::bucket_range(16), (16, 17));
    assert_eq!(Histogram::bucket_range(Histogram::bucket_of(100)), (100, 104));
}

#[test]
fn quantiles_beyond_the_ends_are_the_extremes() {
    let mut h = Histogram::new();
    for v in [1000u64, 2000, 3000] {
        h.record(v);
    }
    assert_eq!(quantile(&h, -1.0), Some(1000));
    assert_eq!(quantile(&h, 7.5), Some(3000));
    assert_eq!(quantile(&h, f64::NEG_INFINITY), Some(1000));
    assert_eq!(quantile(&h, f64::INFINITY), Some(3000));
    assert_eq!(quantile(&h, -0.0), Some(1000));
}

#[test]
fn a_quantile_is_the_middle_of_its_bucket() {
    let mut h = Histogram::new();
    for v in [1000u64, 2000, 3000] {
        h.record(v);
    }
    let (lo, hi) = Histogram::bucket_range(Histogram::bucket_of(2000));
    assert_eq!((lo, hi), (1984, 2048));
    assert_eq!(quantile(&h, 0.5), Some(2016));
}

#[test]
fn no_number_asks_for_the_first_sample() {
    let mut h = Histogram::new();
    h.record(5);
    h.record(6);
    assert_eq!(quantile(&h, f64::NAN), Some(5));
}

#[test]
fn quantiles_grow_with_the_share() {
    let mut h = Histogram::new();
    for v in 0..2000u64 {
        h.record((v * 7919) % 100_003);
    }
    let mut last = h.min().unwrap();
    for percent in 0..=100u32 {
        let value = quantile(&h, f64::from(percent) / 100.0).unwrap();
        assert!(last <= value && value <= h.max().unwrap());
        last = value;
    }
}
