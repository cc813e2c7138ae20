use jsonl_peek::rng::{Reservoir, SplitMix64};

#[test]
fn generator_is_deterministic_and_seed_sensitive() {
    let a: Vec<u64> = (0..5).map(|_| SplitMix64::new(7).next_u64()).collect();
    assert!(a.windows(2).all(|w| w[0] == w[1]), "same seed, same first draw");

    let mut r1 = SplitMix64::new(42);
    let mut r2 = SplitMix64::new(42);
    let mut r3 = SplitMix64::new(43);
    let s1: Vec<u64> = (0..8).map(|_| r1.next_u64()).collect();
    let s2: Vec<u64> = (0..8).map(|_| r2.next_u64()).collect();
    let s3: Vec<u64> = (0..8).map(|_| r3.next_u64()).collect();
    assert_eq!(s1, s2);
    assert_ne!(s1, s3);
    assert_eq!(s1.len(), s1.iter().collect::<std::collections::HashSet<_>>().len());
}

#[test]
fn below_stays_in_range_and_covers_it() {
    let mut rng = SplitMix64::new(1);
    let mut hits = [0u32; 6];
    for _ in 0..60_000 {
        let v = rng.below(6);
        assert!(v < 6);
        hits[v as usize] += 1;
    }
    // With 60k draws over 6 buckets, every bucket should be near 10k.
    for (face, &n) in hits.iter().enumerate() {
        assert!(
            (8_500..11_500).contains(&n),
            "face {} came up {} times, distribution looks broken",
            face,
            n
        );
    }
    assert_eq!(rng.below(1), 0);
}

#[test]
fn reservoir_keeps_everything_when_stream_is_short() {
    let mut r = Reservoir::new(10, 99);
    for i in 0..4u64 {
        r.offer(i, || i * 2);
    }
    assert_eq!(r.seen(), 4);
    assert_eq!(r.len(), 4);
    assert!(!r.is_empty());
    assert_eq!(r.into_sorted(), vec![(0, 0), (1, 2), (2, 4), (3, 6)]);
}

#[test]
fn reservoir_is_capped_sorted_and_reproducible() {
    let run = |seed: u64| -> Vec<u64> {
        let mut r = Reservoir::new(5, seed);
        for i in 0..1000u64 {
            r.offer(i, || i);
        }
        r.into_sorted().into_iter().map(|(_, v)| v).collect()
    };
    let a = run(2024);
    assert_eq!(a.len(), 5);
    assert!(a.windows(2).all(|w| w[0] < w[1]), "output must be in file order");
    assert_eq!(a, run(2024), "same seed must reproduce the sample");
    assert_ne!(a, run(2025));
}

#[test]
fn reservoir_is_unbiased() {
    // Every one of the 20 positions should be picked roughly equally often
    // when sampling 2 out of 20, over many independent runs.
    let mut counts = [0u32; 20];
    for seed in 0..4000u64 {
        let mut r = Reservoir::new(2, seed);
        for i in 0..20u64 {
            r.offer(i, || i);
        }
        for (idx, _) in r.into_sorted() {
            counts[idx as usize] += 1;
        }
    }
    let expected = 4000.0 * 2.0 / 20.0; // 400
    for (idx, &n) in counts.iter().enumerate() {
        let error = (f64::from(n) - expected).abs() / expected;
        assert!(error < 0.25, "position {} picked {} times, expected ~{}", idx, n, expected);
    }
}

#[test]
fn zero_capacity_reservoir_is_inert() {
    let mut r: Reservoir<u64> = Reservoir::new(0, 5);
    for i in 0..100u64 {
        r.offer(i, || panic!("must never materialise an item"));
    }
    assert_eq!(r.seen(), 100);
    assert!(r.is_empty());
    assert!(r.into_sorted().is_empty());
}

#[test]
fn the_generator_follows_its_published_outputs() {
    let mut rng = SplitMix64::new(1234567);
    let drawn: Vec<u64> = (0..5).map(|_| rng.next_u64()).collect();
    assert_eq!(
        drawn,
        vec![
            6457827717110365317,
            3203168211198807973,
            9817491932198370423,
            4593380528125082431,
            16408922859458223821,
        ]
    );
}

#[test]
fn items_are_made_only_when_retained() {
    let mut made = 0u32;
    let mut r = Reservoir::new(3, 11);
    for i in 0..500u64 {
        r.offer(i, || {
            made += 1;
            i
        });
    }
    assert_eq!(r.len(), 3);
    assert!(made >= 3 && made < 100, "{} items were made", made);
}

#[test]
fn items_with_equal_indices_keep_their_slots() {
    let mut r = Reservoir::new(4, 0);
    for (i, name) in [(2u64, "c"), (1, "a"), (2, "d"), (1, "b")] {
        r.offer(i, || name);
    }
    assert_eq!(r.into_sorted(), vec![(1, "a"), (1, "b"), (2, "c"), (2, "d")]);
}

#[test]
fn different_seeds_draw_differently() {
    let mut first: Vec<u64> = (0..1000u64).map(|seed| SplitMix64::new(seed).next_u64()).collect();
    first.sort();
    first.dedup();
    assert_eq!(first.len(), 1000);
    let (mut a, mut b) = (SplitMix64::new(1), SplitMix64::new(u64::MAX));
    for _ in 0..1000 {
        assert_ne!(a.next_u64(), b.next_u64());
    }
}

#[test]
fn draws_do_not_repeat() {
    let mut r = SplitMix64::new(0);
    let mut draws: Vec<u64> = (0..10_000).map(|_| r.next_u64()).collect();
    draws.sort();
    draws.dedup();
    assert_eq!(draws.len(), 10_000);
}
