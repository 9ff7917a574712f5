use photo_edit::ops::{
    box_blur_gray, box_blur_rgba, crop, darken, erase_masked, extract_masked, feather_mask, invert_mask, mask_tint,
    rotate_90,
};

fn px(r: u8, g: u8, b: u8) -> [u8; 4] {
    [r, g, b, 255]
}

#[test]
fn rotate_90_four_turns_is_identity() {
    let src: Vec<u8> = (0..2 * 3 * 4).map(|i| i as u8).collect();
    let (out, w, h) = rotate_90(&src, 2, 3, 4);
    assert_eq!((w, h), (2, 3));
    assert_eq!(out, src);
}

#[test]
fn rotate_90_one_turn_swaps_dims_and_maps_corners() {
    // 2x1 image: [red, green] -> 1x2 column, red on top (clockwise)
    let src = [px(255, 0, 0), px(0, 255, 0)].concat();
    let (out, w, h) = rotate_90(&src, 2, 1, 1);
    assert_eq!((w, h), (1, 2));
    assert_eq!(&out[0..4], &px(255, 0, 0));
    assert_eq!(&out[4..8], &px(0, 255, 0));
}

#[test]
fn crop_extracts_region() {
    let mut src = vec![0u8; 4 * 4 * 4];
    src[(1 * 4 + 2) * 4] = 99; // pixel at (x=2, y=1)
    let out = crop(&src, 4, 2, 1, 1, 1);
    assert_eq!(out[0], 99);
}

#[test]
fn turns_add_up() {
    let src: Vec<u8> = (0..3 * 2 * 4).map(|i| i as u8).collect();
    for a in 0..5u8 {
        for b in 0..5u8 {
            let (once, w, h) = rotate_90(&src, 3, 2, a);
            let (twice, w, h) = rotate_90(&once, w, h, b);
            let (direct, dw, dh) = rotate_90(&src, 3, 2, a + b);
            assert_eq!((w, h), (dw, dh));
            assert_eq!(twice, direct);
        }
    }
}

#[test]
fn turned_corners() {
    // 2x2: A B / C D
    let src = [px(1, 0, 0), px(2, 0, 0), px(3, 0, 0), px(4, 0, 0)].concat();
    let reds = |v: &[u8]| v.chunks_exact(4).map(|p| p[0]).collect::<Vec<u8>>();
    assert_eq!(reds(&rotate_90(&src, 2, 2, 1).0), vec![3, 1, 4, 2]);
    assert_eq!(reds(&rotate_90(&src, 2, 2, 2).0), vec![4, 3, 2, 1]);
    assert_eq!(reds(&rotate_90(&src, 2, 2, 3).0), vec![2, 4, 1, 3]);
}

#[test]
fn crop_is_clamped_to_the_image() {
    let src: Vec<u8> = (0..3 * 3 * 4).map(|i| i as u8).collect();
    let out = crop(&src, 3, 2, 1, 5, 5);
    assert_eq!(out, [&src[5 * 4..6 * 4], &src[8 * 4..9 * 4]].concat());
    assert!(crop(&src, 3, 3, 0, 1, 1).is_empty());
    assert!(crop(&src, 0, 0, 0, 1, 1).is_empty());
    assert_eq!(crop(&src, 3, 0, 0, 3, 3), src);
}

#[test]
fn extraction_scales_alpha_exactly() {
    for alpha in 0..=255u8 {
        for m in 0..=255u8 {
            let out = extract_masked(&[1, 2, 3, alpha], &[m]);
            let a = m as f32 / 255.0;
            assert_eq!(out[3], (alpha as f32 * a).min(255.0) as u8, "{alpha} {m}");
            assert_eq!(&out[..3], &[1, 2, 3]);
        }
    }
}

#[test]
fn extraction_stops_at_the_end_of_the_mask() {
    let out = extract_masked(&[1, 2, 3, 200, 4, 5, 6, 200], &[0]);
    assert_eq!(out, vec![1, 2, 3, 0, 4, 5, 6, 200]);
}

#[test]
fn erasing_matches_single_precision() {
    for alpha in 0..=255u8 {
        for m in 0..=255u8 {
            let mut px = [9, 8, 7, alpha];
            erase_masked(&mut px, &[m]);
            let a = m as f32 / 255.0;
            assert_eq!(px[3], (alpha as f32 * (1.0 - a)).min(255.0) as u8, "{alpha} {m}");
            assert_eq!(&px[..3], &[9, 8, 7]);
        }
    }
}

#[test]
fn darkening_looks_up_colors_only() {
    let shade: Vec<u8> = (0..256).map(|v| (v as f32 * 0.7) as u8).collect();
    let mut data = vec![100, 200, 10, 250, 7];
    darken(&mut data, &shade);
    assert_eq!(data, vec![70, 140, 7, 250, 7]);
}

fn reference_blur(src: &[u8], w: usize, h: usize, radius: usize) -> Vec<u8> {
    let r = radius as i64;
    let line = |v: Vec<i64>| -> Vec<i64> {
        let n = v.len() as i64;
        (0..n)
            .map(|x| {
                let (left, right) = ((x - r).max(0), (x + r).min(n - 1));
                let sum: i64 = (left..=right).map(|i| v[i as usize]).sum();
                sum / (right - left + 1)
            })
            .collect()
    };
    let rows: Vec<Vec<i64>> = (0..h).map(|y| line((0..w).map(|x| src[y * w + x] as i64).collect())).collect();
    let cols: Vec<Vec<i64>> = (0..w).map(|x| line((0..h).map(|y| rows[y][x]).collect())).collect();
    (0..w * h).map(|p| cols[p % w][p / w] as u8).collect()
}

#[test]
fn box_blur_averages_the_box() {
    let (w, h) = (7usize, 5usize);
    let src: Vec<u8> = (0..w * h).map(|i| (i * 53 % 251) as u8).collect();
    for r in [0usize, 1, 2, 3, 6, 7, 20] {
        let mut dst = vec![0u8; w * h];
        box_blur_gray(&src, &mut dst, w, h, r);
        assert_eq!(dst, reference_blur(&src, w, h, r), "radius {r}");
    }
}

#[test]
fn box_blur_of_rgba_blurs_each_channel() {
    let (w, h) = (6usize, 4usize);
    let src: Vec<u8> = (0..w * h * 4).map(|i| (i * 31 % 256) as u8).collect();
    let mut data = src.clone();
    box_blur_rgba(&mut data, w, h, 2);
    for c in 0..4 {
        let plane: Vec<u8> = src.iter().skip(c).step_by(4).copied().collect();
        let got: Vec<u8> = data.iter().skip(c).step_by(4).copied().collect();
        assert_eq!(got, reference_blur(&plane, w, h, 2));
    }
    let mut same = src.clone();
    box_blur_rgba(&mut same, w, h, 0);
    assert_eq!(same, src);
}

#[test]
fn blurred_line_has_known_values() {
    // (10 + 20) / 2, (10 + 20 + 30) / 3 and (20 + 30) / 2.
    let mut dst = vec![0u8; 3];
    box_blur_gray(&[10, 20, 30], &mut dst, 3, 1, 1);
    assert_eq!(dst, vec![15, 20, 25]);
    let mut column = vec![0u8; 4];
    box_blur_gray(&[0, 0, 0, 255], &mut column, 1, 4, 2);
    assert_eq!(column, vec![0, 63, 63, 85]);
}

#[test]
fn flat_images_are_not_changed_by_a_blur() {
    let mut pair = vec![0u8; 2];
    box_blur_gray(&[100, 100], &mut pair, 2, 1, 1);
    assert_eq!(pair, vec![100, 100]);
    for (w, h) in [(1usize, 1usize), (2, 1), (5, 3), (4, 9)] {
        for r in [1usize, 2, 3, 8] {
            let mut dst = vec![0u8; w * h];
            box_blur_gray(&vec![201; w * h], &mut dst, w, h, r);
            assert_eq!(dst, vec![201; w * h]);
            let flat: Vec<u8> = (0..w * h).flat_map(|_| [9, 255, 0, 127]).collect();
            let mut data = flat.clone();
            box_blur_rgba(&mut data, w, h, r);
            assert_eq!(data, flat);
        }
    }
}

#[test]
fn channels_blur_like_masks() {
    let (w, h, r) = (5usize, 4usize, 1usize);
    let src: Vec<u8> = (0..w * h * 4).map(|i| (i * 97 % 253) as u8).collect();
    let mut data = src.clone();
    box_blur_rgba(&mut data, w, h, r);
    for c in 0..4 {
        let plane: Vec<u8> = src.iter().skip(c).step_by(4).copied().collect();
        let mut mask = vec![0u8; w * h];
        box_blur_gray(&plane, &mut mask, w, h, r);
        assert_eq!(data.iter().skip(c).step_by(4).copied().collect::<Vec<u8>>(), mask);
    }
}

#[test]
fn feather_of_one_pixel_leaves_the_mask() {
    let mut mask = vec![0, 255, 0, 255];
    feather_mask(&mut mask, 2, 2, 1);
    assert_eq!(mask, vec![0, 255, 0, 255]);
    let mut soft = vec![0u8; 25];
    soft[12] = 255;
    feather_mask(&mut soft, 5, 5, 2);
    assert!(soft[12] < 255 && soft[0] > 0 || soft[6] > 0);
}

#[test]
fn masks_invert_and_tint() {
    assert_eq!(invert_mask(&[0, 100, 255]), vec![255, 155, 0]);
    assert_eq!(mask_tint(&[0, 255, 2]), vec![0, 0, 0, 0, 10, 132, 255, 85, 10, 132, 255, 0]);
}
