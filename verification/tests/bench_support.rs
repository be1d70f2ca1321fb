use padagonia::bench_support::Rng;

#[test]
fn splitmix_matches_reference_values() {
    let mut rng = Rng::new(0);
    assert_eq!(rng.next(), 0xe220a8397b1dcdaf);
    assert_eq!(rng.next(), 0x6e789e6aa1b965f4);
}

#[test]
fn same_seed_same_sequence() {
    let mut a = Rng::new(42);
    let mut b = Rng::new(42);
    for _ in 0..10 {
        assert_eq!(a.next(), b.next());
    }
}

#[test]
fn bounded_draws_stay_below_max() {
    let mut rng = Rng::new(7);
    assert_eq!(rng.next_usize(0), 0);
    for _ in 0..100 {
        assert!(rng.next_usize(3) < 3);
    }
    let mut a = Rng::new(9);
    let mut b = Rng::new(9);
    assert_eq!(a.next_high_bits() as u64, b.next() >> 32);
}
