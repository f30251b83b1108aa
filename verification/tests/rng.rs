use cow_core::rng::{chance_with, round_with, unit_sample, CowRng};

#[test]
fn below_zero_returns_zero() {
    let mut r = CowRng::from_seed(42);
    assert!(r.below(1) == 0);
}

#[test]
fn rnd_round_truncates_and_probably_rounds() {
    let mut r = CowRng::from_seed(7);
    // 2.3 as the ratio 23 / 10.
    let n = 10_000;
    let mut count3 = 0;
    for _ in 0..n {
        if r.rnd_round(23, 10) == 3 {
            count3 += 1;
        }
    }
    let frac = count3 as f64 / n as f64;
    assert!(frac > 0.27 && frac < 0.33, "frac={}", frac);
}

#[test]
fn rnd_round_integer_is_exact() {
    let mut r = CowRng::from_seed(1);
    for _ in 0..100 {
        assert_eq!(r.rnd_round(50, 10), 5);
        assert_eq!(r.rnd_round(-20, 10), -2);
    }
}

#[test]
fn reproducibility_same_seed_same_sequence() {
    let mut a = CowRng::from_seed(123);
    let mut b = CowRng::from_seed(123);
    for _ in 0..1000 {
        assert_eq!(a.below(100), b.below(100));
    }
}

#[test]
fn rnd_round_negative_rounds_toward_zero() {
    let mut r = CowRng::from_seed(3);
    for _ in 0..100 {
        assert_eq!(r.rnd_round(-23, 10), -2);
    }
}

#[test]
fn chance_extremes() {
    let mut r = CowRng::from_seed(8);
    for _ in 0..100 {
        assert!(r.chance(1, 1));
        assert!(!r.chance(0, 3));
    }
}

#[test]
fn gen_range_and_dir_offset_stay_in_range() {
    let mut r = CowRng::from_seed(5);
    for _ in 0..1000 {
        let x = r.gen_range(-3, 3);
        assert!((-3..=3).contains(&x));
        assert!(r.dir_offset() < 6);
    }
}

#[test]
fn shuffle_keeps_the_items() {
    let mut r = CowRng::from_seed(6);
    let mut v: Vec<u32> = (0..20).collect();
    r.shuffle(&mut v);
    let mut s = v.clone();
    s.sort();
    assert_eq!(s, (0..20).collect::<Vec<u32>>());
}

#[test]
fn gen_range_reaches_more_than_its_lower_end() {
    let mut r = CowRng::from_seed(9);
    let mut seen_high = false;
    for _ in 0..200 {
        if r.gen_range(0, 9) > 0 {
            seen_high = true;
        }
    }
    assert!(seen_high);
}

#[test]
fn shuffle_moves_items() {
    let mut r = CowRng::from_seed(6);
    let mut moved = false;
    for _ in 0..5 {
        let mut v: Vec<u32> = (0..20).collect();
        r.shuffle(&mut v);
        if v != (0..20).collect::<Vec<u32>>() {
            moved = true;
        }
    }
    assert!(moved);
}

#[test]
fn unit_sample_rounds_like_an_f32() {
    assert_eq!(unit_sample(0), 0);
    assert_eq!(unit_sample(12345), 12345);
    assert_eq!(unit_sample(u32::MAX), 1u64 << 32);
    assert_eq!(unit_sample((1u32 << 31) + 128), 1u64 << 31);
    assert_eq!(unit_sample((1u32 << 31) + 129), (1u64 << 31) + 256);
    assert_eq!(unit_sample((1u32 << 24) + 1), 1u64 << 24);
    assert_eq!(unit_sample((1u32 << 24) + 3), (1u64 << 24) + 4);
    for x in [0u32, 1, 7, 1 << 20, (1 << 24) + 5, 0x1234_5678, 0x8765_4321, u32::MAX] {
        let f = (x as f64 / 4294967296.0) as f32;
        assert_eq!(unit_sample(x) as f64 / 4294967296.0, f as f64);
    }
}

#[test]
fn chance_with_compares_the_rounded_sample() {
    assert!(chance_with(1, 2, (1u32 << 31) + 128));
    assert!(!chance_with(1, 2, (1u32 << 31) + 129));
    assert!(chance_with(0, 3, 0));
    assert!(!chance_with(0, 3, 1));
    assert!(chance_with(1, 1, u32::MAX));
}

#[test]
fn round_with_rounds_up_below_the_fraction() {
    assert_eq!(round_with(23, 10, 0), 3);
    assert_eq!(round_with(23, 10, u32::MAX), 2);
    assert_eq!(round_with(20, 10, 0), 2);
    assert_eq!(round_with(25, 10, (1u32 << 31) + 128), 2);
    assert_eq!(round_with(25, 10, (1u32 << 31) - 256), 3);
}
