use photo_edit::blur::{blur_apply_masked, tap_position};
use photo_edit::hash::scramble;
use photo_edit::noise::{noise_add_masked, noise_hash, noise_unit, noise_units};
use photo_edit::pixels::{compare_pixels, mix};

fn reference(mut x: u32) -> u32 {
    x ^= x >> 16;
    x = x.wrapping_mul(0x7feb352d);
    x ^= x >> 15;
    x = x.wrapping_mul(0x846ca68b);
    x ^= x >> 16;
    x
}

#[test]
fn noise_numbers_come_from_the_hash() {
    for x in [0u32, 1, 99, 0x8000_0000, u32::MAX] {
        assert_eq!(scramble(x), reference(x));
        assert_eq!(noise_hash(x), reference(x));
        assert_eq!(noise_unit(x), reference(x) >> 8);
        assert_eq!(noise_unit(x) as f64 / 16777216.0, (reference(x) >> 8) as f64 / 16777216.0);
    }
}

#[test]
fn hashes_can_be_undone() {
    for x in [0u32, 1, 2, 0x7fff_ffff, 0x8000_0000, 0x1234_5678, u32::MAX] {
        let y = scramble(x);
        let d = y ^ (y >> 16);
        let c = d.wrapping_mul(0x43021123);
        let b = c ^ (c >> 15) ^ (c >> 30);
        let a = b.wrapping_mul(0x1d69e2a5);
        assert_eq!(a ^ (a >> 16), x);
    }
}

#[test]
fn grain_keys_follow_channels() {
    let base = reference(7 ^ reference(3));
    for c in 0..3u32 {
        assert_eq!(noise_units(7, 3, c, true), (reference(base) >> 8, reference(base ^ 0x68e31da4) >> 8));
        let key = base.wrapping_add(c.wrapping_mul(0x9e3779b9));
        assert_eq!(noise_units(7, 3, c, false), (reference(key) >> 8, reference(key ^ 0x68e31da4) >> 8));
    }
    assert_ne!(noise_units(7, 3, 0, false), noise_units(7, 3, 1, false));
}

#[test]
fn masked_grain_keeps_alpha() {
    let mut px = vec![10u8, 20, 30, 40, 10, 20, 30, 40];
    noise_add_masked(&mut px, &[255, 0], &[110, 120, 130, 140, 1, 2, 3, 4]);
    assert_eq!(px, vec![110, 120, 130, 40, 10, 20, 30, 40]);
}

#[test]
fn masked_blur_blends_all_channels() {
    let mut px = vec![10u8, 20, 30, 40, 10, 20, 30, 40];
    blur_apply_masked(&mut px, &[255, 128], &[110, 120, 130, 140, 110, 120, 130, 140]);
    let half = |a: u32, b: u32| ((a * 127 + b * 128 + 127) / 255) as u8;
    assert_eq!(px, vec![110, 120, 130, 140, half(10, 110), half(20, 120), half(30, 130), half(40, 140)]);
}

#[test]
fn taps_stay_on_the_line() {
    for v in 0..6usize {
        for taps in [1usize, 3, 9, 25] {
            for k in 0..taps {
                let want = (v as i64 + k as i64 - (taps / 2) as i64).clamp(0, 5) as usize;
                assert_eq!(tap_position(v, k, taps, 6), want);
            }
        }
    }
}

#[test]
fn mixing_stays_between() {
    assert_eq!(mix(10, 200, 0), 10);
    assert_eq!(mix(10, 200, 255), 200);
    assert_eq!(mix(0, 255, 128), 128);
    for m in 0..=255u8 {
        let v = mix(40, 90, m);
        assert!((40..=90).contains(&v));
    }
}

#[test]
fn pixel_costs() {
    let rgba = [0u8, 0, 0, 255, 10, 20, 30, 255, 0, 0, 0, 0];
    assert_eq!(compare_pixels(&rgba, 0, 1), 100 + 400 + 900);
    assert_eq!(compare_pixels(&rgba, 0, 0), 0);
}
