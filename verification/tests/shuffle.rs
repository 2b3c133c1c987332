use neonwhite_seed_finder::dotnet::DotnetRandom;
use neonwhite_seed_finder::shuffle::{coefficients, get_shuffled_idxs};

/// The order as the float formula `floor(v / (2^31 - 1) * n)` computes it.
fn float_shuffle(num_levels: u8, seed: i32) -> Vec<u8> {
    let mut out: Vec<u8> = (0..num_levels).collect();
    let limit = if num_levels < 96 { num_levels as usize } else { 96 };
    for i in 0..limit {
        let (a, b) = coefficients(i);
        let numer = ((a * seed as u64 + b) % i32::MAX as u64) as f64;
        let j = (numer / i32::MAX as f64 * num_levels as f64) as i32;
        out.swap(i, j as usize);
    }
    out
}

#[test]
fn check_rngs() {
    let mut buf0 = Vec::with_capacity(96);
    let mut buf1 = Vec::with_capacity(96);
    for s in 0..1000000 {
        get_shuffled_idxs(96, s, &mut buf0);
        DotnetRandom::get_shuffled_idxs(96, s, &mut buf1);
        assert_eq!(buf0, buf1);
    }
}

#[test]
fn check_nagy() {
    let mut buf = Vec::with_capacity(96);
    // Absolution, The Clocktower, The Third Temple, Pop, Shield, Cleaner,
    // by their positions in White's rush
    let expected: Vec<u8> = vec![95, 32, 84, 56, 54, 35];
    get_shuffled_idxs(96, 58685, &mut buf);
    assert_eq!(buf[..expected.len()], expected[..]);
    let expected: Vec<u8> = (0..8).rev().collect();
    get_shuffled_idxs(8, 121166, &mut buf);
    assert_eq!(buf[..expected.len()], expected[..]);
}

#[test]
fn integer_formula_matches_float_formula() {
    let mut buf = Vec::new();
    for n in 0..=255u8 {
        for seed in [0, 1, 2, 7, 58685, 121166, 1000003, 161803398, 1873083033, 1990387876, i32::MAX - 1, i32::MAX] {
            get_shuffled_idxs(n, seed, &mut buf);
            assert_eq!(buf, float_shuffle(n, seed), "n = {n}, seed = {seed}");
        }
    }
    for seed in (0..i32::MAX).step_by(9_999_991) {
        get_shuffled_idxs(96, seed, &mut buf);
        assert_eq!(buf, float_shuffle(96, seed));
    }
}

#[test]
fn shuffle_is_a_permutation() {
    let mut buf = Vec::new();
    for seed in [0, 5, 99, 123456789] {
        get_shuffled_idxs(96, seed, &mut buf);
        let mut sorted = buf.clone();
        sorted.sort();
        assert_eq!(sorted, (0..96).collect::<Vec<u8>>());
    }
    get_shuffled_idxs(0, 17, &mut buf);
    assert!(buf.is_empty());
    get_shuffled_idxs(1, 17, &mut buf);
    assert_eq!(buf, vec![0]);
}

#[test]
fn coefficient_table_ends() {
    assert_eq!(coefficients(0), (1121899819, 1559595546));
    assert_eq!(coefficients(1), (630111683, 1755192844));
    assert_eq!(coefficients(95), (2017018019, 615731728));
}

#[test]
fn dotnet_known_outputs() {
    let mut r = DotnetRandom::with_seed(0);
    assert_eq!(r.next(), 1559595546);
    assert_eq!(r.next(), 1755192844);
    assert_eq!(r.next(), 1649316166);
    let mut r = DotnetRandom::with_seed(1);
    assert_eq!(r.next(), 534011718);
}

#[test]
fn dotnet_outputs_are_affine_in_the_seed() {
    for seed in [0, 1, 2, 1000, 65536, 161803398] {
        let mut r = DotnetRandom::with_seed(seed);
        for k in 0..96 {
            let (a, b) = coefficients(k);
            let expected = ((a * seed as u64 + b) % i32::MAX as u64) as i32;
            assert_eq!(r.next(), expected, "seed {seed}, output {k}");
        }
    }
}

#[test]
fn dotnet_set_seed_keeps_the_position() {
    let mut r = DotnetRandom::default();
    r.set_seed(42);
    let first: Vec<i32> = (0..10).map(|_| r.next()).collect();
    let mut fresh = DotnetRandom::with_seed(42);
    let again: Vec<i32> = (0..10).map(|_| fresh.next()).collect();
    assert_eq!(first, again);
    // seeding again refills the table but the generator goes on from where it was
    r.set_seed(42);
    let reseeded: Vec<i32> = (0..5).map(|_| r.next()).collect();
    assert_ne!(reseeded, first[..5].to_vec());
}

#[test]
fn dotnet_next_range_scales() {
    let mut r = DotnetRandom::with_seed(0);
    // 1559595546 * 96 / (2^31 - 1) = 69.71...
    assert_eq!(r.next_range(0, 96), 69);
    let mut r = DotnetRandom::with_seed(0);
    assert_eq!(r.next_range(10, 20), 10 + 7);
    let mut r = DotnetRandom::with_seed(0);
    // a negative width rounds toward zero
    assert_eq!(r.next_range(20, 10), 20 - 7);
    let mut r = DotnetRandom::with_seed(0);
    assert_eq!(r.next_range(5, 5), 5);
    let mut a = DotnetRandom::with_seed(77);
    let mut b = DotnetRandom::with_seed(77);
    for _ in 0..200 {
        let v = b.next();
        let expected = (v as f64 / i32::MAX as f64 * 1000.0) as i32 - 500;
        assert_eq!(a.next_range(-500, 500), expected);
    }
}

#[test]
fn dotnet_seeding_forgets_the_table() {
    // a generator that has already drawn, seeded again, matches a fresh one
    // seeded the same way and moved to the same position
    let mut used = DotnetRandom::with_seed(5);
    let mut other = DotnetRandom::with_seed(9000);
    for _ in 0..7 {
        used.next();
        other.next();
    }
    used.set_seed(7);
    other.set_seed(7);
    for _ in 0..100 {
        assert_eq!(used.next(), other.next());
    }
    // seeding twice with the same seed is seeding once
    let mut twice = DotnetRandom::with_seed(123);
    twice.set_seed(123);
    let mut once = DotnetRandom::with_seed(123);
    for _ in 0..100 {
        assert_eq!(twice.next(), once.next());
    }
}

#[test]
fn dotnet_outputs_stay_below_the_modulus() {
    for seed in [0, 1, 161803398, -1985680248, -1000000000] {
        let mut r = DotnetRandom::with_seed(seed);
        for _ in 0..1000 {
            let v = r.next();
            assert!(0 <= v && v < i32::MAX, "seed {seed}");
        }
    }
}

#[test]
fn dotnet_next_range_stays_in_range() {
    let mut r = DotnetRandom::with_seed(31337);
    for _ in 0..1000 {
        let v = r.next_range(-3, 0x10_0000 - 3);
        assert!(-3 <= v && v < 0x10_0000 - 3);
    }
}

#[test]
fn dotnet_shuffle_of_a_negative_seed() {
    let mut out = Vec::new();
    DotnetRandom::get_shuffled_idxs(200, -1985680248, &mut out);
    let mut sorted = out.clone();
    sorted.sort();
    assert_eq!(sorted, (0..200u8).collect::<Vec<u8>>());
}

#[test]
fn dotnet_next_range_wide_ranges() {
    let mut r = DotnetRandom::with_seed(4242);
    for _ in 0..1000 {
        let v = r.next_range(0, i32::MAX);
        assert!(0 <= v && v < i32::MAX);
        let v = r.next_range(-1_000_000_000, 1_000_000_000);
        assert!(-1_000_000_000 <= v && v < 1_000_000_000);
        let v = r.next_range(1_000_000_000, -1_000_000_000);
        assert!(-1_000_000_000 < v && v <= 1_000_000_000);
        assert_eq!(r.next_range(7, 7), 7);
    }
    // the first output for seed 0 is 1559595546, scaled to a width of 2^30
    let mut r = DotnetRandom::with_seed(0);
    let expected = (1559595546i64 * (1i64 << 30) / i32::MAX as i64) as i32;
    assert_eq!(r.next_range(0, 1 << 30), expected);
}
