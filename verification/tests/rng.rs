use engine::rng::Rng;

#[test]
fn same_seed_produces_same_sequence() {
    let mut a = Rng::from_seed(42);
    let mut b = Rng::from_seed(42);

    for _ in 0..32 {
        assert_eq!(a.next_u32(), b.next_u32());
    }
}

#[test]
fn zero_seed_is_non_degenerate() {
    let mut rng = Rng::from_seed(0);
    // The first several values should be nonzero and varied.
    let first = rng.next_u32();
    assert_ne!(first, 0);

    let second = rng.next_u32();
    assert_ne!(second, first);
}

#[test]
fn below_stays_in_range() {
    let mut rng = Rng::from_seed(7);
    for _ in 0..256 {
        let value = rng.below(10);
        assert!(value < 10);
    }
}

#[test]
fn between_stays_inside_the_closed_range() {
    let mut rng = Rng::from_seed(11);
    for _ in 0..256 {
        let value = rng.between(5, 8);
        assert!((5..=8).contains(&value));
    }
}

#[test]
fn between_with_equal_bounds_returns_the_bound() {
    let mut rng = Rng::from_seed(3);
    for _ in 0..16 {
        assert_eq!(rng.between(4, 4), 4);
    }
}

#[test]
fn below_one_is_always_zero() {
    let mut rng = Rng::from_seed(5);
    for _ in 0..16 {
        assert_eq!(rng.below(1), 0);
    }
}

#[test]
fn different_seeds_give_different_first_values() {
    let mut a = Rng::from_seed(1);
    let mut b = Rng::from_seed(2);
    let first_a: Vec<u32> = (0..4).map(|_| a.next_u32()).collect();
    let first_b: Vec<u32> = (0..4).map(|_| b.next_u32()).collect();
    assert_ne!(first_a, first_b);
}

#[test]
fn zero_seed_follows_the_plus_plus_scrambler() {
    let mut rng = Rng::from_seed(0);
    assert_eq!(rng.next_u32(), 257);
    assert_eq!(rng.next_u32(), 262144);
}
