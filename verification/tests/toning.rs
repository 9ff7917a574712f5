//! Levels and curves as the editor applies them: floating point tables, applied
//! by the library.

use photo_edit::curves::{CurvePoint, CurvesSettings};
use photo_edit::levels::{levels_apply, levels_apply_masked, LevelRange, LevelsSettings};
use photo_edit::number::F64;

fn v(n: F64) -> f64 {
    f64::from_bits(n.bits)
}

fn n(v: f64) -> F64 {
    F64 { bits: v.to_bits() }
}

/// A level range in floating point.
#[derive(Clone, Copy, PartialEq)]
struct Range {
    black: f64,
    gamma: f64,
    white: f64,
    output_black: f64,
    output_white: f64,
}

impl From<&LevelRange> for Range {
    fn from(r: &LevelRange) -> Self {
        Range {
            black: v(r.black),
            gamma: v(r.gamma),
            white: v(r.white),
            output_black: v(r.output_black),
            output_white: v(r.output_white),
        }
    }
}

impl Range {
    /// The range with each value inside its limits: floating point comparison.
    fn normalized(&self) -> Self {
        fn clamp(n: f64, lo: f64, hi: f64, fallback: f64) -> f64 {
            if n.is_finite() { n.min(hi).max(lo) } else { fallback }
        }
        let mut r = *self;
        r.black = clamp(r.black, 0.0, 254.0, 0.0);
        r.white = clamp(r.white, r.black + 1.0, 255.0, 255.0);
        r.gamma = clamp(r.gamma, 0.1, 9.99, 1.0);
        r.output_black = clamp(r.output_black, 0.0, 255.0, 0.0);
        r.output_white = clamp(r.output_white, 0.0, 255.0, 255.0);
        r
    }

    /// Input and output in 0..=255: a floating point power.
    fn apply(&self, value: f64) -> f64 {
        let s = self.normalized();
        let input = ((value - s.black) / (s.white - s.black)).clamp(0.0, 1.0);
        s.output_black + input.powf(1.0 / s.gamma) * (s.output_white - s.output_black)
    }
}

/// Whether levels change nothing, by floating point equality.
fn levels_are_identity(settings: &LevelsSettings) -> bool {
    let neutral = Range::from(&LevelRange::default());
    settings.ranges.iter().all(|r| Range::from(r).normalized() == neutral)
}

/// A table entry: the nearest byte to a floating point value.
fn entry(v: f32) -> u8 {
    v.round().clamp(0.0, 255.0) as u8
}

/// Channel adjustment first, then the composite range: floating point powers.
fn levels_tables(settings: &LevelsSettings) -> [[u8; 256]; 3] {
    let mut tables = [[0u8; 256]; 3];
    let composite = Range::from(&settings.ranges[0]);
    for ch in 0..3 {
        let range = Range::from(&settings.ranges[ch + 1]);
        for (v, slot) in tables[ch].iter_mut().enumerate() {
            *slot = entry(composite.apply(range.apply(v as f64)) as f32);
        }
    }
    tables
}

/// Curve value at input x (0..=255) for one channel, by cubic Hermite
/// interpolation with limited slopes in floating point.
fn curve_value(curves: &CurvesSettings, x: f64, channel: usize) -> f64 {
    let p: Vec<(f64, f64)> = curves.channels[channel].iter().map(|q| (v(q.x), v(q.y))).collect();
    let i = p.iter().rposition(|q| q.0 <= x).unwrap_or(0).min(p.len() - 2);
    let d: Vec<f64> = p.windows(2).map(|w| (w[1].1 - w[0].1) / (w[1].0 - w[0].0)).collect();
    let slope = |j: usize| -> f64 {
        if j == 0 {
            return d[0];
        }
        if j == p.len() - 1 {
            return *d.last().unwrap();
        }
        if d[j - 1] * d[j] <= 0.0 {
            return 0.0;
        }
        2.0 / (1.0 / d[j - 1] + 1.0 / d[j])
    };
    let h = p[i + 1].0 - p[i].0;
    let t = ((x - p[i].0) / h).clamp(0.0, 1.0);
    let y = (2.0 * t * t * t - 3.0 * t * t + 1.0) * p[i].1
        + (t * t * t - 2.0 * t * t + t) * h * slope(i)
        + (-2.0 * t * t * t + 3.0 * t * t) * p[i + 1].1
        + (t * t * t - t * t) * h * slope(i + 1);
    y.clamp(0.0, 255.0)
}

/// Channel curve first, then the composite curve: floating point values.
fn curve_tables(curves: &CurvesSettings) -> [[u8; 256]; 3] {
    if !curves.is_valid() {
        return curve_tables(&CurvesSettings::default());
    }
    let mut tables = [[0u8; 256]; 3];
    for ch in 0..3 {
        for (v, slot) in tables[ch].iter_mut().enumerate() {
            *slot = entry(curve_value(curves, curve_value(curves, v as f64, ch + 1), 0) as f32);
        }
    }
    tables
}

fn stretched(black: f64, white: f64) -> LevelsSettings {
    let mut s = LevelsSettings::default();
    for c in 1..=3 {
        s.ranges[c].black = n(black);
        s.ranges[c].white = n(white);
    }
    s
}

fn settings(ch: usize, pts: Vec<(f64, f64)>) -> CurvesSettings {
    let mut s = CurvesSettings::default();
    s.channels[ch] = pts.into_iter().map(|(x, y)| CurvePoint { x: n(x), y: n(y) }).collect();
    s
}

#[test]
fn levels_identity_is_noop() {
    let s = LevelsSettings::default();
    assert!(levels_are_identity(&s));
    let tables = levels_tables(&s);
    let mut px = vec![10u8, 128, 250, 255, 0, 0, 0, 0];
    levels_apply(&mut px, &tables);
    assert_eq!(&px[..4], &[10, 128, 250, 255]);
    assert_eq!(&px[4..], &[0, 0, 0, 0]); // fully transparent untouched
}

#[test]
fn endpoint_stretch() {
    let tables = levels_tables(&stretched(50.0, 200.0));
    let mut px = vec![50u8, 125, 200, 255, 10, 220, 128, 255];
    levels_apply(&mut px, &tables);
    assert_eq!(px[0], 0); // black point -> 0
    assert_eq!(px[2], 255); // white point -> 255
    assert!((px[1] as i32 - 128).abs() <= 1); // mid maps linearly
    assert_eq!(px[3], 255); // alpha untouched
    assert_eq!(px[4], 0); // below black clamps
    assert_eq!(px[5], 255); // above white clamps
}

#[test]
fn gamma_midtones() {
    let mut r = LevelRange::default();
    r.gamma = n(2.0);
    let out = Range::from(&r).apply(128.0);
    assert!((out - 181.0).abs() < 1.5);
}

#[test]
fn masked_apply_blends() {
    let tables = levels_tables(&stretched(0.0, 128.0));
    // two identical pixels, mask 255 on first, 0 on second
    let mut px = vec![64u8, 64, 64, 255, 64, 64, 64, 255];
    levels_apply_masked(&mut px, &[255u8, 0], &tables);
    assert_eq!(px[0], 128); // stretched
    assert_eq!(px[4], 64); // untouched
}

#[test]
fn curves_identity_is_noop() {
    let s = CurvesSettings::default();
    assert!(s.is_valid());
    assert!(s.is_identity());
    let tables = curve_tables(&s);
    let mut px = vec![10u8, 128, 250, 255];
    levels_apply(&mut px, &tables);
    assert_eq!(&px, &[10, 128, 250, 255]);
}

#[test]
fn collinear_points_are_identity() {
    let s = settings(0, vec![(0.0, 0.0), (64.0, 64.0), (200.0, 200.0), (255.0, 255.0)]);
    assert!(s.is_identity());
    for x in [0.0, 31.5, 128.0, 254.0] {
        assert!((curve_value(&s, x, 0) - x).abs() < 0.5, "value({x}) = {}", curve_value(&s, x, 0));
    }
}

#[test]
fn midpoint_lifts_midtones() {
    let s = settings(0, vec![(0.0, 0.0), (128.0, 192.0), (255.0, 255.0)]);
    assert!((curve_value(&s, 128.0, 0) - 192.0).abs() < 1e-9);
    assert!(curve_value(&s, 64.0, 0) > 96.0 && curve_value(&s, 64.0, 0) < 192.0);
    // Endpoints pinned.
    assert_eq!(curve_value(&s, 0.0, 0), 0.0);
    assert_eq!(curve_value(&s, 255.0, 0), 255.0);
}

#[test]
fn no_overshoot_between_handles() {
    // Sharp peak: secant signs flip, so tangents at the peak go to 0 and
    // the segment 32..64 must decrease monotonically, never overshooting.
    let s = settings(0, vec![(0.0, 0.0), (32.0, 255.0), (64.0, 0.0), (255.0, 255.0)]);
    let mut prev = curve_value(&s, 32.0, 0);
    for x in 33..=64 {
        let v = curve_value(&s, x as f64, 0);
        assert!(v <= prev + 1e-9, "not monotone at {x}: {prev} -> {v}");
        assert!(v >= 0.0);
        prev = v;
    }
}

#[test]
fn composite_applies_after_channel() {
    // R channel halves everything; composite identity.
    let s = settings(1, vec![(0.0, 0.0), (255.0, 128.0)]);
    let tables = curve_tables(&s);
    assert!((tables[0][255] as f64 - 128.0).abs() <= 1.0);
    assert_eq!(tables[1][255], 255); // G untouched
    // Composite maps 0 -> 128 (floor lift); R channel identity.
    let s = settings(0, vec![(0.0, 128.0), (255.0, 255.0)]);
    let tables = curve_tables(&s);
    assert!((tables[0][0] as f64 - 128.0).abs() <= 1.0);
}

#[test]
fn apply_matches_value() {
    let s = settings(0, vec![(0.0, 0.0), (100.0, 180.0), (255.0, 255.0)]);
    let tables = curve_tables(&s);
    let mut px = vec![100u8, 30, 220, 255];
    levels_apply(&mut px, &tables);
    for (ch, &v) in [100.0f64, 30.0, 220.0].iter().enumerate() {
        let direct = curve_value(&s, curve_value(&s, v, ch + 1), 0).round() as i32;
        assert!((px[ch] as i32 - direct).abs() <= 1);
    }
    assert_eq!(px[3], 255);
}

#[test]
fn invalid_falls_back_to_identity() {
    let s = settings(0, vec![(10.0, 0.0), (255.0, 255.0)]);
    assert!(!s.is_valid());
    let tables = curve_tables(&s);
    for (v, &t) in tables[0].iter().enumerate() {
        assert_eq!(t as f32, v as f32);
    }
}
