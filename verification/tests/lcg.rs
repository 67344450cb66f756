use fleet_holographic::lcg::Lcg;

#[test]
fn test_lcg_determinism() {
    let mut rng1 = Lcg::new(42);
    let mut rng2 = Lcg::new(42);

    for _ in 0..100 {
        assert_eq!(rng1.next(), rng2.next());
    }
}

#[test]
fn test_lcg_f64_range() {
    let mut rng = Lcg::new(42);
    for _ in 0..1000 {
        let val = (rng.next_bits() as f64) / (u64::MAX as f64);
        assert!(val >= 0.0 && val < 1.0, "f64 should be in [0, 1): got {}", val);
    }
}

#[test]
fn lcg_first_states_from_seed_42() {
    let mut rng = Lcg::new(42);
    assert_eq!(rng.next(), 10481999410520546993);
    assert_eq!(rng.next(), 4159066171780167020);
    assert_eq!(rng.next(), 7615522811268512075);
}

#[test]
fn lcg_next_bits_clears_the_sign_bit() {
    let mut rng = Lcg::new(42);
    // the first state, 10481999410520546993, has its sign bit set
    assert_eq!(rng.next_bits(), 1258627373665771185);
    assert_eq!(rng.next_bits(), 4159066171780167020);
    let mut other = Lcg::new(7);
    for _ in 0..1000 {
        assert!(other.next_bits() < (1u64 << 63));
    }
}

#[test]
fn lcg_wraps_at_the_top_of_the_range() {
    let mut rng = Lcg::new(u64::MAX);
    let expected = u64::MAX
        .wrapping_mul(6364136223846793005)
        .wrapping_add(1442695040888963407);
    assert_eq!(rng.next(), expected);
    assert_eq!(expected, 13525302890751722018);
}

#[test]
fn lcg_next_bits_advances_like_next() {
    let mut a = Lcg::new(123);
    let mut b = Lcg::new(123);
    for _ in 0..50 {
        assert_eq!(a.next_bits(), b.next() & 0x7FFF_FFFF_FFFF_FFFF);
    }
}
