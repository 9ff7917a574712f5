use photo_edit::wand::wand_mask;

fn solid(w: usize, h: usize, rgba: [u8; 4]) -> Vec<u8> {
    let mut v = Vec::with_capacity(w * h * 4);
    for _ in 0..w * h {
        v.extend_from_slice(&rgba);
    }
    v
}

#[test]
fn solid_image_selects_everything() {
    let img = solid(8, 8, [100, 150, 200, 255]);
    let (mask, count) = wand_mask(&img, 8, 8, 3, 3, 0, 32, true);
    assert_eq!(count, 64);
    assert!(mask.iter().all(|&m| m == 255));
}

#[test]
fn out_of_bounds_seed_selects_nothing() {
    let img = solid(4, 4, [0, 0, 0, 255]);
    let (_, count) = wand_mask(&img, 4, 4, 9, 9, 0, 32, true);
    assert_eq!(count, 0);
}

#[test]
fn contiguous_stops_at_barrier() {
    // 8x4: left half red, right half blue.
    let mut img = Vec::new();
    for _y in 0..4 {
        for x in 0..8 {
            if x < 4 {
                img.extend_from_slice(&[255, 0, 0, 255]);
            } else {
                img.extend_from_slice(&[0, 0, 255, 255]);
            }
        }
    }
    let (mask, count) = wand_mask(&img, 8, 4, 1, 1, 0, 32, true);
    assert_eq!(count, 16);
    assert!(mask[..4 * 8].iter().enumerate().all(|(i, &m)| (m == 255) == (i % 8 < 4)));
}

#[test]
fn non_contiguous_finds_disconnected_matches() {
    // Red pixels at opposite corners, blue elsewhere.
    let mut img = solid(8, 8, [0, 0, 255, 255]);
    for &(x, y) in &[(0usize, 0usize), (7, 7)] {
        let b = (y * 8 + x) * 4;
        img[b..b + 4].copy_from_slice(&[255, 0, 0, 255]);
    }
    let (mask, count) = wand_mask(&img, 8, 8, 0, 0, 0, 32, false);
    assert_eq!(count, 2);
    assert_eq!(mask[0], 255);
    assert_eq!(mask[7 * 8 + 7], 255);
    // Contiguous from the same seed finds only one.
    let (_, count) = wand_mask(&img, 8, 8, 0, 0, 0, 32, true);
    assert_eq!(count, 1);
}

#[test]
fn tolerance_boundary_is_inclusive() {
    // Reference 100; pixel at 100+32 matches at tolerance 32 but not 31.
    let mut img = solid(2, 1, [100, 100, 100, 255]);
    img[4] = 132;
    img[5] = 100;
    img[6] = 100;
    let (_, count) = wand_mask(&img, 2, 1, 0, 0, 0, 32, true);
    assert_eq!(count, 2);
    let (_, count) = wand_mask(&img, 2, 1, 0, 0, 0, 31, true);
    assert_eq!(count, 1);
}

#[test]
fn alpha_participates_in_match() {
    // Same RGB, alpha differs by more than tolerance: no match.
    let mut img = solid(2, 1, [50, 50, 50, 255]);
    img[7] = 200;
    let (_, count) = wand_mask(&img, 2, 1, 0, 0, 0, 32, true);
    assert_eq!(count, 1);
}

#[test]
fn sample_radius_averages_reference() {
    // Seed on a black pixel whose 3x3 neighborhood is mostly white:
    // the averaged reference (~227) is far from the seed itself (0),
    // so a moderate tolerance selects the white neighbors, not the seed.
    let mut img = solid(3, 3, [255, 255, 255, 255]);
    img[16..20].copy_from_slice(&[0, 0, 0, 255]); // center pixel
    let (mask, _) = wand_mask(&img, 3, 3, 1, 1, 1, 40, false);
    assert_eq!(mask[4], 0); // seed itself no longer matches
    assert_eq!(mask[0], 255); // far corner still matches the average
}

#[test]
fn contiguous_is_part_of_all_matches() {
    let (w, h) = (9usize, 7usize);
    let mut img = Vec::new();
    for i in 0..w * h {
        let v = ((i * 37) % 5 * 20) as u8;
        img.extend_from_slice(&[v, v, v, 255]);
    }
    let (near, n) = wand_mask(&img, w, h, 4, 3, 0, 20, true);
    let (all, m) = wand_mask(&img, w, h, 4, 3, 0, 20, false);
    assert!(n <= m);
    assert!(near.iter().zip(&all).all(|(&a, &b)| a <= b));
    assert_eq!(near[3 * w + 4], 255);
    assert_eq!(near.iter().filter(|&&v| v != 0).count(), n);
    assert_eq!(all.iter().filter(|&&v| v != 0).count(), m);
}

#[test]
fn larger_tolerance_selects_more() {
    let img: Vec<u8> = (0..8u8).flat_map(|v| [v * 10, 0, 0, 255]).collect();
    let (a, _) = wand_mask(&img, 8, 1, 0, 0, 0, 15, true);
    let (b, _) = wand_mask(&img, 8, 1, 0, 0, 0, 45, true);
    assert_eq!(a, vec![255, 255, 0, 0, 0, 0, 0, 0]);
    assert_eq!(b, vec![255, 255, 255, 255, 255, 0, 0, 0]);
}

#[test]
fn flood_goes_around_corners() {
    // A spiral of matching pixels is followed to its end.
    let map = ["#####", "....#", "###.#", "#...#", "#####"];
    let mut img = Vec::new();
    for row in map {
        for c in row.chars() {
            let v = if c == '#' { 200 } else { 0 };
            img.extend_from_slice(&[v, v, v, 255]);
        }
    }
    let (mask, count) = wand_mask(&img, 5, 5, 0, 0, 0, 10, true);
    assert_eq!(count, 17);
    assert_eq!(mask[2 * 5 + 2], 255);
    assert_eq!(mask[1 * 5 + 1], 0);
}

#[test]
fn negative_tolerance_selects_nothing() {
    let img = solid(3, 3, [1, 2, 3, 255]);
    assert_eq!(wand_mask(&img, 3, 3, 1, 1, 0, -1, true).1, 0);
    assert_eq!(wand_mask(&img, 3, 3, 1, 1, 0, i32::MIN, false).1, 0);
}

#[test]
fn reference_is_the_rounded_mean() {
    // Mean of 0 and 1 rounds up to 1.
    let img = vec![0, 0, 0, 255, 1, 1, 1, 255];
    let (mask, count) = wand_mask(&img, 2, 1, 0, 0, 5, 0, false);
    assert_eq!(count, 1);
    assert_eq!(mask, vec![0, 255]);
}

#[test]
fn full_tolerance_selects_all_pixels() {
    let img: Vec<u8> = (0..4 * 15).map(|i| if i % 3 == 0 { 255 } else { (i * 71 % 256) as u8 }).collect();
    for radius in [0usize, 1, 9] {
        for contiguous in [false, true] {
            let (mask, count) = wand_mask(&img, 5, 3, 3, 1, radius, 255, contiguous);
            assert_eq!(count, 15);
            assert_eq!(mask, vec![255; 15]);
        }
    }
}
