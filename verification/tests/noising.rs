//! Grain as the editor adds it: floating point sizes, from random numbers and
//! through masks of the library.

use photo_edit::noise::noise_units;

/// Adds grain in place, by amount 0..=100: its size is floating point.
fn noise_add(rgba: &mut [u8], width: usize, height: usize, amount: f32, gaussian: bool, monochromatic: bool, seed: u32) {
    if amount <= 0.0 {
        return;
    }
    let spread = amount / 100.0 * 127.5;
    for i in 0..width * height {
        let p = &mut rgba[i * 4..];
        for c in 0..3 {
            let (a, b) = noise_units(seed, i as u32, c as u32, monochromatic);
            let u1 = a as f32 * (1.0 / 16777216.0);
            let u2 = b as f32 * (1.0 / 16777216.0);
            let n = if gaussian {
                (-2.0 * (1.0 - u1).ln()).sqrt() * (std::f32::consts::TAU * u2).cos() * spread * (2.0 / 3.0)
            } else {
                (u1 * 2.0 - 1.0) * spread
            };
            p[c] = (p[c] as f32 + n).clamp(0.0, 255.0).round() as u8;
        }
    }
}

fn noise_add_masked(rgba: &mut [u8], mask: &[u8], width: usize, height: usize, amount: f32, gaussian: bool, monochromatic: bool, seed: u32) {
    if amount <= 0.0 {
        return;
    }
    let mut noisy = rgba.to_vec();
    noise_add(&mut noisy, width, height, amount, gaussian, monochromatic, seed);
    photo_edit::noise::noise_add_masked(rgba, mask, &noisy);
}

fn solid(w: usize, h: usize, v: u8) -> Vec<u8> {
    let mut d = Vec::with_capacity(w * h * 4);
    for _ in 0..w * h {
        d.extend_from_slice(&[v, v, v, 255]);
    }
    d
}

#[test]
fn noise_zero_amount_is_noop() {
    let mut img = solid(8, 8, 128);
    let orig = img.clone();
    noise_add(&mut img, 8, 8, 0.0, false, false, 0);
    assert_eq!(img, orig);
}

#[test]
fn deterministic_same_seed() {
    let mut a = solid(16, 16, 128);
    let mut b = a.clone();
    noise_add(&mut a, 16, 16, 30.0, true, false, 7);
    noise_add(&mut b, 16, 16, 30.0, true, false, 7);
    assert_eq!(a, b);
}

#[test]
fn different_seed_differs() {
    let mut a = solid(16, 16, 128);
    let mut b = a.clone();
    noise_add(&mut a, 16, 16, 30.0, false, false, 1);
    noise_add(&mut b, 16, 16, 30.0, false, false, 2);
    assert_ne!(a, b);
}

#[test]
fn noise_centers_on_zero_mean() {
    let mut img = solid(64, 64, 128);
    noise_add(&mut img, 64, 64, 50.0, true, false, 0);
    let sum: i64 = img.chunks_exact(4).map(|p| p[0] as i64 - 128).sum();
    let mean = sum as f32 / (64.0 * 64.0);
    assert!(mean.abs() < 2.0, "mean drift {mean}");
}

#[test]
fn gaussian_scales_variance_by_four_thirds_vs_uniform() {
    // Uniform on [-s, s] has variance s²/3; Box–Muller gaussian scaled by
    // 2/3 has variance (2s/3)² = 4s²/9. Ratio = 4/3.
    let mut g = solid(64, 64, 128);
    let mut u = g.clone();
    noise_add(&mut g, 64, 64, 60.0, true, false, 3);
    noise_add(&mut u, 64, 64, 60.0, false, false, 3);
    let var = |img: &[u8]| -> f32 {
        img.chunks_exact(4).map(|p| (p[0] as f32 - 128.0).powi(2)).sum::<f32>() / (64.0 * 64.0)
    };
    let ratio = var(&g) / var(&u);
    assert!((ratio - 4.0 / 3.0).abs() < 0.25, "variance ratio {ratio}");
}

#[test]
fn monochromatic_keeps_channels_equal() {
    let mut img = solid(16, 16, 100);
    noise_add(&mut img, 16, 16, 50.0, false, true, 0);
    assert!(img.chunks_exact(4).all(|p| p[0] == p[1] && p[1] == p[2]));
}

#[test]
fn color_noise_decorrelates_channels() {
    let mut img = solid(16, 16, 100);
    noise_add(&mut img, 16, 16, 50.0, false, false, 0);
    assert!(img.chunks_exact(4).any(|p| p[0] != p[1] || p[1] != p[2]));
}

#[test]
fn clamps_at_extremes() {
    let mut img = solid(8, 8, 250);
    noise_add(&mut img, 8, 8, 100.0, false, false, 0);
    assert!(img.chunks_exact(4).all(|p| p[0] <= 255 && p[1] <= 255 && p[2] <= 255));
    let mut img = solid(8, 8, 5);
    noise_add(&mut img, 8, 8, 100.0, false, false, 0);
    assert!(img.chunks_exact(4).all(|p| p[0] <= 255));
}

#[test]
fn masked_blends_toward_noisy() {
    let mut img = solid(8, 8, 128);
    let mut full = img.clone();
    noise_add(&mut full, 8, 8, 80.0, false, false, 0);
    let mask: Vec<u8> = (0..64).map(|i| if i < 32 { 255 } else { 0 }).collect();
    noise_add_masked(&mut img, &mask, 8, 8, 80.0, false, false, 0);
    for i in 0..64 {
        let got = &img[i * 4..i * 4 + 3];
        if i < 32 {
            assert_eq!(got, &full[i * 4..i * 4 + 3], "pixel {i} fully masked");
        } else {
            assert_eq!(got, &[128, 128, 128], "pixel {i} unmasked");
        }
    }
}
