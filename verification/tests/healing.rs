//! Healing as the editor does it: the library plans the spot, finds its source
//! and writes the pixels, and the membrane is solved in floating point.

use photo_edit::heal::{
    apply_healed, choose_source, coarsen_roles, grain_keys, heal_unit, plan_heal, ring_edges, HealMode, HealPlan,
    ANGLES, HOLE, OUTSIDE, RING,
};

/// Solves for smooth values over hole pixels, fixed to the ring values around
/// them, by relaxation in floating point. A coarser copy is solved first and
/// used as the starting point, so large spots settle in few passes.
fn heal_solve(value: &mut [f32], role: &[u8], w: usize, h: usize, depth: u32) {
    let mut iterations = 300;
    if w > 32 && h > 32 && depth < 16 {
        let cw = w.div_ceil(2);
        let ch = h.div_ceil(2);
        assert!(role.len() == w * h);
        let coarse_role = coarsen_roles(role, w, h);
        let mut coarse = vec![0f32; cw * ch * 4];
        for y in 0..ch {
            for x in 0..cw {
                let q = y * cw + x;
                let mut count = 0u32;
                let mut sum = [0f32; 4];
                for j in 0..2 {
                    for i in 0..2 {
                        let (fx, fy) = (x * 2 + i, y * 2 + j);
                        if fx >= w || fy >= h || coarse_role[q] == OUTSIDE || role[fy * w + fx] != coarse_role[q] {
                            continue;
                        }
                        count += 1;
                        for c in 0..4 {
                            sum[c] += value[(fy * w + fx) * 4 + c];
                        }
                    }
                }
                if count > 0 {
                    for c in 0..4 {
                        coarse[q * 4 + c] = sum[c] / count as f32;
                    }
                }
            }
        }
        heal_solve(&mut coarse, &coarse_role, cw, ch, depth + 1);
        for y in 0..h {
            for x in 0..w {
                let (p, q) = (y * w + x, (y / 2) * cw + x / 2);
                if role[p] == HOLE && coarse_role[q] == HOLE {
                    value[p * 4..p * 4 + 4].copy_from_slice(&coarse[q * 4..q * 4 + 4]);
                }
            }
        }
        iterations = 40;
    }
    const OMEGA: f32 = 1.8;
    for _ in 0..iterations {
        for y in 0..h {
            for x in 0..w {
                let p = y * w + x;
                if role[p] != HOLE {
                    continue;
                }
                let mut sum = [0f32; 4];
                let mut n = 0u32;
                for (nx, ny) in [(x.wrapping_sub(1), y), (x + 1, y), (x, y.wrapping_sub(1)), (x, y + 1)] {
                    if nx >= w || ny >= h {
                        continue;
                    }
                    let q = ny * w + nx;
                    if role[q] == OUTSIDE {
                        continue;
                    }
                    for c in 0..4 {
                        sum[c] += value[q * 4 + c];
                    }
                    n += 1;
                }
                if n == 0 {
                    continue;
                }
                for c in 0..4 {
                    value[p * 4 + c] += OMEGA * (sum[c] / n as f32 - value[p * 4 + c]);
                }
            }
        }
    }
}

/// Where source patches are looked for, nearest scale first: directions in
/// floating point.
fn source_offsets(plan: &HealPlan) -> Vec<(i64, i64)> {
    const FACTORS: [f64; 5] = [1.05, 1.35, 1.75, 2.25, 2.8];
    let mut offsets = Vec::with_capacity(FACTORS.len() * ANGLES);
    for factor in FACTORS {
        for a in 0..ANGLES {
            let angle = a as f64 * std::f64::consts::PI / 12.0;
            let dx = (angle.cos() * factor * plan.ww as f64).round() as i64;
            let dy = (angle.sin() * factor * plan.wh as f64).round() as i64;
            offsets.push((dx, dy));
        }
    }
    offsets
}

/// Fine detail around a spot, each ring pixel against the average of its
/// neighbors: a root mean square in floating point.
fn ring_detail(rgba: &[u8], plan: &HealPlan, w: usize, h: usize) -> [f64; 3] {
    let mut detail = [0f64; 3];
    for p in 0..plan.role.len() {
        if plan.role[p] != RING {
            continue;
        }
        let (ix, iy) = (plan.wx0 + p % plan.ww, plan.wy0 + p / plan.ww);
        for c in 0..3 {
            let mut around = 0.0;
            let mut n = 0u32;
            for (nx, ny) in [(ix.wrapping_sub(1), iy), (ix + 1, iy), (ix, iy.wrapping_sub(1)), (ix, iy + 1)] {
                if nx >= w || ny >= h {
                    continue;
                }
                around += rgba[(ny * w + nx) * 4 + c] as f64;
                n += 1;
            }
            if n > 0 {
                let d = rgba[(iy * w + ix) * 4 + c] as f64 - around / n as f64;
                detail[c] += d * d;
            }
        }
    }
    detail.map(|d| (d / plan.ring_count as f64).sqrt() * 0.9)
}

/// Heals the pixels under `coverage` (255 = full strength) by a membrane in
/// floating point. Returns false when there was nothing to heal. `opacity`
/// scales the blend, and `seed` drives the detail grain on smooth fills.
fn spot_heal(rgba: &mut [u8], coverage: &[u8], width: usize, height: usize, opacity: f32, mode: HealMode, seed: u32) -> bool {
    let Some(plan) = plan_heal(coverage, width, height) else {
        return false;
    };
    let source = choose_source(rgba, &plan, width, height, &source_offsets(&plan), mode);
    let edges = ring_edges(rgba, &plan, width, height, source);
    let mut value: Vec<f32> = edges.iter().map(|&e| e as f32).collect();
    let mut mean = [0f64; 4];
    for (i, &v) in value.iter().enumerate() {
        mean[i % 4] += v as f64;
    }
    for p in 0..plan.role.len() {
        if plan.role[p] == HOLE {
            for c in 0..4 {
                value[p * 4 + c] = (mean[c] / plan.ring_count as f64) as f32;
            }
        }
    }
    heal_solve(&mut value, &plan.role, plan.ww, plan.wh, 0);

    let detail = if source.is_none() { ring_detail(rgba, &plan, width, height) } else { [0.0; 3] };
    let mut healed = vec![0u8; plan.role.len() * 4];
    for p in 0..plan.role.len() {
        if plan.role[p] != HOLE {
            continue;
        }
        let i = (plan.wy0 + p / plan.ww) * width + plan.wx0 + p % plan.ww;
        let from = source.map(|(ox, oy)| (i as i64 + oy * width as i64 + ox) as usize);
        let amount = coverage[i] as f64 / 255.0 * opacity as f64;
        let mut grain = 0.0;
        if from.is_none() {
            let (k1, k2) = grain_keys(seed, i as u32);
            let u1 = heal_unit(k1) as f64 / 16777216.0;
            let u2 = heal_unit(k2) as f64 / 16777216.0;
            grain = (-2.0 * (1.0 - u1).ln()).sqrt() * (2.0 * std::f64::consts::PI * u2).cos();
        }
        for c in 0..4 {
            let old = rgba[i * 4 + c] as f64;
            let new = from.map_or(0.0, |s| rgba[s * 4 + c] as f64) + value[p * 4 + c] as f64
                + if c < 3 { grain * detail[c] } else { 0.0 };
            healed[p * 4 + c] = (old + (new - old) * amount).clamp(0.0, 255.0).round() as u8;
        }
    }
    apply_healed(rgba, &plan, width, height, &healed);
    true
}

fn solid(w: usize, h: usize, rgba: [u8; 4]) -> Vec<u8> {
    let mut v = Vec::with_capacity(w * h * 4);
    for _ in 0..w * h {
        v.extend_from_slice(&rgba);
    }
    v
}

fn dot_coverage(w: usize, h: usize, cx: usize, cy: usize, r: usize) -> Vec<u8> {
    let mut cov = vec![0u8; w * h];
    for y in cy.saturating_sub(r)..=(cy + r).min(h - 1) {
        for x in cx.saturating_sub(r)..=(cx + r).min(w - 1) {
            if (x as i64 - cx as i64).pow(2) + (y as i64 - cy as i64).pow(2) <= (r * r) as i64 {
                cov[y * w + x] = 255;
            }
        }
    }
    cov
}

#[test]
fn empty_coverage_is_noop() {
    let mut img = solid(16, 16, [10, 20, 30, 255]);
    let orig = img.clone();
    assert!(!spot_heal(&mut img, &vec![0u8; 256], 16, 16, 1.0, HealMode::ContentAware, 0));
    assert_eq!(img, orig);
}

#[test]
fn smooth_fill_removes_defect() {
    // Flat gray with a black defect; smooth fill should restore ~gray.
    let mut img = solid(48, 48, [128, 128, 128, 255]);
    for y in 20..28 {
        for x in 20..28 {
            let b = (y * 48 + x) * 4;
            img[b..b + 4].copy_from_slice(&[0, 0, 0, 255]);
        }
    }
    let cov = dot_coverage(48, 48, 23, 23, 6);
    assert!(spot_heal(&mut img, &cov, 48, 48, 1.0, HealMode::SmoothFill, 0));
    let b = (23 * 48 + 23) * 4;
    let v = img[b];
    assert!((v as i32 - 128).abs() < 20, "center healed to {v}");
}

#[test]
fn content_aware_continues_stripes() {
    // Vertical stripes; damage a stripe junction; content-aware should
    // find an intact stripe column and continue the pattern.
    let mut img = Vec::new();
    for _y in 0..64 {
        for x in 0..64 {
            let v = if x % 8 < 4 { 230 } else { 30 };
            img.extend_from_slice(&[v, v, v, 255]);
        }
    }
    // Black out a 10x10 block straddling a stripe boundary.
    for y in 24..34 {
        for x in 24..34 {
            let b = (y * 64 + x) * 4;
            img[b..b + 4].copy_from_slice(&[0, 0, 0, 255]);
        }
    }
    let cov = dot_coverage(64, 64, 29, 29, 7);
    assert!(spot_heal(&mut img, &cov, 64, 64, 1.0, HealMode::ContentAware, 0));
    // Healed pixels should be back near one of the two stripe levels.
    let mut ok = 0;
    let mut total = 0;
    for y in 24..34 {
        for x in 24..34 {
            let v = img[(y * 64 + x) * 4] as i32;
            total += 1;
            if (v - 230).abs() < 40 || (v - 30).abs() < 40 {
                ok += 1;
            }
        }
    }
    assert!(ok * 100 / total >= 80, "{ok}/{total} pixels near stripe levels");
}

#[test]
fn zero_opacity_leaves_pixels() {
    let mut img = solid(32, 32, [128, 128, 128, 255]);
    for y in 12..20 {
        for x in 12..20 {
            let b = (y * 32 + x) * 4;
            img[b..b + 4].copy_from_slice(&[0, 0, 0, 255]);
        }
    }
    let orig = img.clone();
    let cov = dot_coverage(32, 32, 15, 15, 6);
    spot_heal(&mut img, &cov, 32, 32, 0.0, HealMode::SmoothFill, 0);
    assert_eq!(img, orig);
}

#[test]
fn spot_at_edge_still_heals() {
    let mut img = solid(32, 32, [200, 200, 200, 255]);
    for y in 0..6 {
        for x in 0..6 {
            let b = (y * 32 + x) * 4;
            img[b..b + 4].copy_from_slice(&[0, 0, 0, 255]);
        }
    }
    let cov = dot_coverage(32, 32, 2, 2, 4);
    assert!(spot_heal(&mut img, &cov, 32, 32, 1.0, HealMode::SmoothFill, 0));
    let v = img[0];
    assert!((v as i32 - 200).abs() < 30, "corner healed to {v}");
}

#[test]
fn heal_partial_coverage_blends() {
    let mut full = solid(32, 32, [128, 128, 128, 255]);
    for y in 12..20 {
        for x in 12..20 {
            let b = (y * 32 + x) * 4;
            full[b..b + 4].copy_from_slice(&[0, 0, 0, 255]);
        }
    }
    let mut half = full.clone();
    let cov = dot_coverage(32, 32, 15, 15, 6);
    spot_heal(&mut full, &cov, 32, 32, 1.0, HealMode::SmoothFill, 0);
    let cov_half: Vec<u8> = cov.iter().map(|&v| v / 2).collect();
    spot_heal(&mut half, &cov_half, 32, 32, 1.0, HealMode::SmoothFill, 0);
    let b = (15 * 32 + 15) * 4;
    // Half-strength coverage should land between the defect (0) and the
    // full heal.
    assert!(half[b] > 10 && half[b] < full[b], "half={} full={}", half[b], full[b]);
}
