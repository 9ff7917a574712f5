use photo_edit::levels::{
    auto_settings, histogram, histogram_display_scale, levels_apply, levels_apply_masked, AutoMode, LevelRange,
    LevelsSettings,
};

fn tables(f: impl Fn(usize, usize) -> u8) -> [[u8; 256]; 3] {
    let mut t = [[0u8; 256]; 3];
    for c in 0..3 {
        for v in 0..256 {
            t[c][v] = f(c, v);
        }
    }
    t
}

#[test]
fn auto_contrast_shared_interval() {
    let mut hist = [[0u64; 256]; 4];
    // R: 10..200, G: 30..220, B: 5..250 (uniform)
    for i in 10..=200 { hist[1][i] = 1; }
    for i in 30..=220 { hist[2][i] = 1; }
    for i in 5..=250 { hist[3][i] = 1; }
    let s = auto_settings(&hist, AutoMode::Contrast);
    // shared interval = min of lows, max of highs
    let (black, white) = s.composite.unwrap();
    assert!((black as f64 - 5.0).abs() < 2.0);
    assert!((white as f64 - 250.0).abs() < 2.0);
    assert_eq!(s.red, None); // channels untouched
}

#[test]
fn auto_color_per_channel() {
    let mut hist = [[0u64; 256]; 4];
    for i in 10..=200 { hist[1][i] = 1; }
    for i in 30..=220 { hist[2][i] = 1; }
    for i in 5..=250 { hist[3][i] = 1; }
    let s = auto_settings(&hist, AutoMode::Color);
    assert!((s.red.unwrap().0 as f64 - 10.0).abs() < 2.0);
    assert!((s.green.unwrap().1 as f64 - 220.0).abs() < 2.0);
    assert!((s.blue.unwrap().0 as f64 - 5.0).abs() < 2.0);
    assert_eq!(s.composite, None); // composite untouched
}

#[test]
fn histogram_counts() {
    // 2 opaque pixels: (255,0,0) and (0,255,0)
    let data = [255u8, 0, 0, 255, 0, 255, 0, 255];
    let h = histogram(&data);
    assert_eq!(h[1][255], 1);
    assert_eq!(h[2][255], 1);
    assert_eq!(h[3][0], 2);
    assert!((h[0][255] as f64 / 3.0 - 2.0 / 3.0).abs() < 1e-9);
}

#[test]
fn display_scale_caps_spike() {
    let mut bins = [1u64; 256];
    bins[0] = 10_000; // solid-color spike at the edge
    let scale = histogram_display_scale(&bins);
    // interior 95th percentile is 1.0, cap = 4.0
    assert_eq!(scale, 4);
}

#[test]
fn tables_change_colors_of_visible_pixels() {
    let t = tables(|c, v| if c == 0 { 255 - v as u8 } else { (v / 2) as u8 });
    let mut px = vec![10u8, 128, 250, 255, 10, 128, 250, 0, 5, 6];
    levels_apply(&mut px, &t);
    assert_eq!(px, vec![245, 64, 125, 255, 10, 128, 250, 0, 5, 6]);
}

#[test]
fn identity_tables_keep_the_image() {
    let t = tables(|_, v| v as u8);
    let src: Vec<u8> = (0..=255).collect();
    let mut px = src.clone();
    levels_apply(&mut px, &t);
    assert_eq!(px, src);
}

#[test]
fn masked_tables_blend() {
    // A white point of 128 doubles the values, rounded to nearest.
    let t = tables(|_, v| ((v as f64 / 128.0).clamp(0.0, 1.0) * 255.0).round() as u8);
    let mut px = vec![64u8, 64, 64, 255, 64, 64, 64, 255, 64, 64, 64, 255];
    levels_apply_masked(&mut px, &[255u8, 0, 128], &t);
    assert_eq!(px[0], 128); // stretched
    assert_eq!(px[4], 64); // untouched
    assert_eq!(px[8], ((64u32 * 127 + 128 * 128 + 127) / 255) as u8);
    assert_eq!(px[11], 255);
}

#[test]
fn transparent_pixels_do_not_count() {
    let h = histogram(&[9, 9, 9, 0, 9, 9, 9, 1, 7]);
    assert_eq!(h[1][9], 1);
    assert_eq!(h[0][9], 3);
    assert_eq!(h[1].iter().sum::<u64>(), 1);
}

#[test]
fn endpoints_cut_a_thousandth() {
    let mut hist = [[0u64; 256]; 4];
    for c in 1..4 {
        hist[c][0] = 1;
        hist[c][50] = 500;
        hist[c][100] = 498;
        hist[c][255] = 1;
    }
    // One of a thousand is not more than a thousandth.
    let s = auto_settings(&hist, AutoMode::ColorNeutral);
    assert_eq!((s.red, s.green, s.blue), (Some((50, 100)), Some((50, 100)), Some((50, 100))));
    hist[1][0] = 2;
    assert_eq!(auto_settings(&hist, AutoMode::Color).red, Some((0, 100)));
}

#[test]
fn flat_channels_have_no_endpoints() {
    let mut hist = [[0u64; 256]; 4];
    let none = auto_settings(&hist, AutoMode::Contrast);
    assert_eq!(none.composite, None);
    hist[1][80] = 10;
    assert_eq!(auto_settings(&hist, AutoMode::Color).red, None);
    hist[2][10] = 5;
    hist[2][20] = 5;
    assert_eq!(auto_settings(&hist, AutoMode::Contrast).composite, Some((10, 20)));
}

#[test]
fn display_scale_edges() {
    assert_eq!(histogram_display_scale(&[0u64; 256]), 0);
    let mut ends = [0u64; 256];
    ends[255] = 77;
    assert_eq!(histogram_display_scale(&ends), 77);
    let mut bins = [0u64; 256];
    for i in 1..=20 {
        bins[i] = i as u64;
    }
    // Rank 18 of the values 1 to 20 is 19; the peak is below four times that.
    assert_eq!(histogram_display_scale(&bins), 20);
    bins[0] = 1000;
    assert_eq!(histogram_display_scale(&bins), 76);
    bins[0] = u64::MAX;
    assert_eq!(histogram_display_scale(&bins), 76);
}

#[test]
fn display_rank_matches_the_percentile() {
    for len in 1..=254usize {
        let rank = ((len - 1) as f64 * 0.95) as usize;
        let mut bins = [0u64; 256];
        for i in 0..len {
            bins[i + 1] = (i + 1) as u64;
        }
        bins[0] = u64::MAX;
        assert_eq!(histogram_display_scale(&bins), 4 * (rank + 1) as u64, "{len}");
    }
}

#[test]
fn default_ranges_are_neutral() {
    let r = LevelRange::default();
    let v = [r.black, r.gamma, r.white, r.output_black, r.output_white].map(|x| f64::from_bits(x.bits));
    assert_eq!(v, [0.0, 1.0, 255.0, 0.0, 255.0]);
    assert!(LevelsSettings::default().ranges.iter().all(|x| *x == r));
}
