use photo_edit::number::{F32, F64};
use photo_edit::single::{
    from_int, is_below, one_minus, over, round_quotient, rounded_off, scale_index, take_share, times, truncated, Single,
};

fn f(v: f32) -> F32 {
    F32 { bits: v.to_bits() }
}

fn samples() -> Vec<f32> {
    vec![
        0.0, -0.0, 1.0, -1.0, 0.01, -0.01, 0.5, 1e-40, -1e-40, f32::MAX, f32::MIN, f32::INFINITY, f32::NEG_INFINITY,
        f32::NAN, 3.25, 0.333333,
    ]
}

#[test]
fn bit_patterns_order_like_numbers() {
    for &a in &samples() {
        assert_eq!(f(a).is_nan(), a.is_nan());
        assert_eq!(f(a).is_nonzero(), a != 0.0);
        if !a.is_nan() {
            assert_eq!(f32::from_bits(f(a).negated().bits), -a);
        }
        assert_eq!(f(a).negated().negated(), f(a));
        let wide = F64 { bits: (a as f64).to_bits() };
        assert_eq!(wide.is_nan(), a.is_nan());
        assert_eq!(wide.is_finite(), a.is_finite());
        for &b in &samples() {
            if !a.is_nan() && !b.is_nan() {
                assert_eq!(f(a).order() < f(b).order(), a < b);
                let other = F64 { bits: (b as f64).to_bits() };
                assert_eq!(wide.order() < other.order(), a < b);
            }
        }
    }
}

fn value(v: Single) -> f64 {
    v.m as f64 * (2f64).powi(v.e as i32)
}

#[test]
fn integers_and_quotients_round_like_singles() {
    for n in [0u64, 1, 2, 3, 255, 1080, 16777215, 16777216, 16777217, 16777219, 4294967295, u64::MAX] {
        assert_eq!(value(from_int(n)), n as f32 as f64, "{n}");
        for d in [1u64, 3, 7, 255, 1080, 1920, 65535] {
            if n < 1 << 24 {
                assert_eq!(value(round_quotient(n, d)), (n as f32 / d as f32) as f64, "{n}/{d}");
            }
        }
    }
}

#[test]
fn arithmetic_rounds_like_singles() {
    for n in [1u64, 3, 100, 719, 1080, 4000] {
        for d in [3u64, 7, 1080, 1920, 2047] {
            let q = over(from_int(n), from_int(d));
            let want = n as f32 / d as f32;
            assert_eq!(value(q), want as f64);
            for t in [1080u64, 1350, 1920] {
                let product = times(from_int(t), q);
                let real = t as f32 * want;
                assert_eq!(value(product), real as f64);
                assert_eq!(truncated(product), real as usize);
                assert_eq!(rounded_off(product), real.round() as usize);
            }
            assert_eq!(is_below(q, from_int(1)), want < 1.0);
            if want <= 1.0 {
                assert_eq!(value(one_minus(q)), (1.0 - want) as f64);
            }
        }
    }
}

#[test]
fn scaled_positions_match_singles() {
    for &x in &samples() {
        for n in [0usize, 1, 2, 7, 640, 1999, 16777217] {
            assert_eq!(scale_index(f(x), n), (x * n as f32).round() as usize, "{x} {n}");
        }
    }
    for i in 0..500 {
        let x = i as f32 / 499.0;
        assert_eq!(scale_index(f(x), 4032), (x * 4032.0).round() as usize);
    }
}

#[test]
fn shares_match_singles() {
    for p in 0..=255u8 {
        for m in 0..=255u8 {
            let want = (p as f32 * (1.0 - m as f32 / 255.0)) as u8;
            assert_eq!(take_share(p, m), want);
        }
        assert_eq!(take_share(p, 0), p);
        assert_eq!(take_share(p, 255), 0);
    }
}
