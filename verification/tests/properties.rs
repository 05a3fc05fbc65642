use pcgrng::PCG32;

#[test]
fn determinism_same_seed() {
    let mut a = PCG32::seed(123, 456);
    let mut b = PCG32::seed(123, 456);
    for _ in 0..100 {
        assert_eq!(a.next_u32(), b.next_u32());
    }
}

#[test]
fn stream_separation() {
    let mut a = PCG32::seed(42, 1);
    let mut b = PCG32::seed(42, 2);
    for _ in 0..10_000 {
        assert_ne!(a.next_u32(), b.next_u32());
    }
}

#[test]
fn bounded_stays_in_range_and_looks_uniform() {
    let mut rng = PCG32::seed(7, 11);
    let mut counts = [0u32; 20];
    for _ in 0..10_000 {
        let v = rng.i32_in_range(-7, 13);
        assert!(-7 <= v && v < 13);
        counts[(v + 7) as usize] += 1;
    }
    // 10,000 draws over 20 buckets: each bucket should be near 500.
    for count in counts.iter() {
        assert!(400 <= *count && *count <= 620);
    }
}

#[test]
fn bounded_reference_values() {
    let mut rng = PCG32::seed(7, 11);
    let expected = [1, 3, 5, -7, 4, -2, -7, 11];
    for e in expected.iter() {
        assert_eq!(rng.i32_in_range(-7, 13), *e);
    }
}

#[test]
fn bounded_reversed_pair_wraps() {
    // high < low wraps to a huge span instead of failing.
    let mut rng = PCG32::seed(1, 2);
    let expected = [257813422, 1540837984, -1303955876, 1948028926];
    for e in expected.iter() {
        assert_eq!(rng.i32_in_range(5, 3), *e);
    }
}

#[test]
fn u64_composes_two_u32_draws() {
    let mut a = PCG32::seed(42, 54);
    let mut b = PCG32::seed(42, 54);
    for _ in 0..10 {
        let w = a.next_u64();
        let hi = b.next_u32();
        let lo = b.next_u32();
        assert_eq!(w, ((hi as u64) << 32) | (lo as u64));
    }
}

#[test]
fn u63_is_below_two_to_63() {
    let mut rng = PCG32::seed(42, 54);
    let expected: [u64; 3] = [
        2403799288179586057,
        4187559511987516051,
        4585922587509219438,
    ];
    for e in expected.iter() {
        let v = rng.next_u63();
        assert_eq!(v, *e);
        assert!(v < 1u64 << 63);
    }
}

#[test]
fn advance_composes_with_wrapping_sum() {
    let cases: [(i64, i64); 4] = [
        (1000, -1),
        (i64::MAX, 5),
        (-3, -9),
        (123456789, 987654321),
    ];
    for (a, b) in cases.iter() {
        let mut split = PCG32::seed(5, 6);
        let mut joined = PCG32::seed(5, 6);
        split.advance(*a);
        split.advance(*b);
        joined.advance(a.wrapping_add(*b));
        assert_eq!(split.state, joined.state);
        assert_eq!(split.seq, joined.seq);
    }
}

#[test]
fn advance_skips_exactly() {
    let mut jumped = PCG32::seed(0, 0);
    jumped.advance(1000);
    let mut stepped = PCG32::seed(0, 0);
    for _ in 0..1000 {
        stepped.next_u32();
    }
    assert_eq!(jumped.state, stepped.state);
    assert_eq!(jumped.next_u32(), 1894123721);
}

#[test]
fn reseed_discards_prior_state() {
    let mut rng = PCG32::seed(99, 7);
    for _ in 0..17 {
        rng.next_u32();
    }
    rng.reseed(42, 54);
    assert_eq!(rng.next_u32(), 2707161783);
    // The derived stream selector is always odd.
    assert_eq!(rng.seq % 2, 1);
}
