use nanogpt_rs::ieee::{double_lt, is_nan_double, is_nan_single, single_lt};
use nanogpt_rs::rng::{splitmix64, Rng};

#[test]
fn seed_zero_gives_the_known_words() {
    let mut r = Rng::new(0);
    assert_eq!(r.next_u64(), 0x5317_5d61_490b_23df);
    assert_eq!(r.next_u64(), 0x61da_6f3d_c380_d507);
    assert_eq!(r.next_u64(), 0x5c0f_df91_ec9a_7bfc);
    assert_eq!(r.next_u64(), 0x02ee_bf8c_3bbe_5e1a);
}

#[test]
fn default_seed_gives_the_known_words() {
    let mut r = Rng::new(1337);
    assert_eq!(r.next_u64(), 0x7132_06e4_4a61_7596);
    assert_eq!(r.next_u64(), 0xef6f_be96_ee95_4d51);
    assert_eq!(r.next_u64(), 0xd259_bd66_9bf2_7209);
    assert_eq!(r.next_u64(), 0xb3cd_3e02_d4e6_9f36);
}

#[test]
fn splitmix_walks_on() {
    let mut x: u64 = 0;
    assert_eq!(splitmix64(&mut x), 0xe220_a839_7b1d_cdaf);
    assert_eq!(x, 0x9e37_79b9_7f4a_7c15);
    assert_eq!(splitmix64(&mut x), 0x6e78_9e6a_a1b9_65f4);
}

#[test]
fn uniform_singles_are_the_top_bits() {
    let mut r = Rng::new(1337);
    assert_eq!(r.uniform_f32(), 0x3ee2_640c);
    assert_eq!(r.uniform_f32(), 0x3f6f_6fbe);
    assert_eq!(r.uniform_f32(), 0x3f52_59bd);
}

#[test]
fn uniform_singles_match_the_division() {
    let mut a = Rng::new(99);
    let mut b = Rng::new(99);
    for _ in 0..2000 {
        let want = ((a.next_u64() >> 40) as f32) * (1.0 / 16_777_216.0);
        assert_eq!(b.uniform_f32(), want.to_bits());
    }
}

#[test]
fn uniform_doubles_match_the_division() {
    let mut a = Rng::new(99);
    let mut b = Rng::new(99);
    for _ in 0..2000 {
        let want = ((a.next_u64() >> 11) as f64) * (1.0 / 9_007_199_254_740_992.0);
        assert_eq!(b.uniform_f64(), want.to_bits());
    }
    let mut r = Rng::new(1337);
    assert_eq!(r.uniform_f64(), 0x3fdc_4c81_b912_985c);
}

#[test]
fn bounded_draws_match_the_double_product() {
    for n in [1usize, 2, 3, 10, 1000, 1 << 20, (1 << 40) + 7, usize::MAX] {
        let mut a = Rng::new(5);
        let mut b = Rng::new(5);
        for _ in 0..300 {
            let u = f64::from_bits(a.uniform_f64());
            let got = b.rand_below(n);
            assert_eq!(got, (u * n as f64) as usize);
            assert!(got < n);
        }
    }
    let mut r = Rng::new(1337);
    let v: Vec<usize> = (0..12).map(|_| r.rand_below(10)).collect();
    assert_eq!(v, vec![4, 9, 8, 7, 8, 8, 1, 7, 9, 9, 6, 5]);
}

#[test]
fn comparisons_of_patterns_are_those_of_floats() {
    let singles = [
        0.0f32,
        -0.0,
        1.0,
        -1.0,
        1e-45,
        -1e-45,
        f32::MAX,
        f32::MIN,
        f32::INFINITY,
        f32::NEG_INFINITY,
        f32::NAN,
        0.2,
    ];
    for a in singles {
        assert_eq!(is_nan_single(a.to_bits()), a.is_nan());
        for b in singles {
            assert_eq!(single_lt(a.to_bits(), b.to_bits()), a < b);
        }
    }
    let doubles = [0.0f64, -0.0, 1e9, 2.5, -2.5, f64::NAN, f64::INFINITY, 5e-324];
    for a in doubles {
        assert_eq!(is_nan_double(a.to_bits()), a.is_nan());
        for b in doubles {
            assert_eq!(double_lt(a.to_bits(), b.to_bits()), a < b);
        }
    }
}
