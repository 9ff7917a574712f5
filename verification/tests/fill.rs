use photo_edit::fill::{content_fill, Rng};

fn solid(w: usize, h: usize, px: [u8; 4]) -> Vec<u8> {
    let mut d = Vec::with_capacity(w * h * 4);
    for _ in 0..w * h {
        d.extend_from_slice(&px);
    }
    d
}

#[test]
fn empty_mask_is_noop() {
    let mut img = solid(16, 16, [10, 20, 30, 255]);
    let orig = img.clone();
    assert!(content_fill(&mut img, &vec![0u8; 256], 16, 16));
    assert_eq!(img, orig);
}

#[test]
fn fills_hole_from_surroundings() {
    let mut img = solid(32, 32, [200, 100, 50, 255]);
    let mut mask = vec![0u8; 32 * 32];
    for y in 12..20 {
        for x in 12..20 {
            mask[y * 32 + x] = 255;
            img[(y * 32 + x) * 4] = 0;
            img[(y * 32 + x) * 4 + 1] = 0;
            img[(y * 32 + x) * 4 + 2] = 0;
        }
    }
    assert!(content_fill(&mut img, &mask, 32, 32));
    for y in 12..20 {
        for x in 12..20 {
            let p = &img[(y * 32 + x) * 4..];
            assert_eq!(&p[..3], &[200, 100, 50], "pixel {x},{y} filled");
        }
    }
}

#[test]
fn continues_stripes_across_hole() {
    // Horizontal stripes; an 8-row hole should come back striped.
    let (w, h) = (48, 48);
    let mut img = Vec::with_capacity(w * h * 4);
    for y in 0..h {
        let v = if (y / 4) % 2 == 0 { 220 } else { 30 };
        for _ in 0..w {
            img.extend_from_slice(&[v, v, v, 255]);
        }
    }
    let mut mask = vec![0u8; w * h];
    for y in 20..28 {
        for x in 8..40 {
            mask[y * w + x] = 255;
        }
    }
    assert!(content_fill(&mut img, &mask, w, h));
    let mut agree = 0;
    let mut total = 0;
    for y in 21..27 {
        let want = if (y / 4) % 2 == 0 { 220 } else { 30 };
        for x in 10..38 {
            total += 1;
            let got = img[(y * w + x) * 4];
            if (got as i32 - want as i32).abs() < 40 {
                agree += 1;
            }
        }
    }
    assert!(agree * 100 / total > 70, "stripe agreement {agree}/{total}");
}

#[test]
fn deterministic_across_runs() {
    let mut a = solid(32, 32, [128, 128, 128, 255]);
    let mut b = a.clone();
    let mut mask = vec![0u8; 32 * 32];
    for y in 10..22 {
        for x in 10..22 {
            mask[y * 32 + x] = 255;
        }
    }
    content_fill(&mut a, &mask, 32, 32);
    content_fill(&mut b, &mask, 32, 32);
    assert_eq!(a, b);
}

#[test]
fn transparent_surroundings_are_not_donors() {
    // Hole whose entire neighborhood is transparent: fills from a random
    // opaque donor (or stays if none) but never copies transparency.
    let mut img = solid(16, 16, [90, 90, 90, 0]);
    for y in 0..2 {
        for x in 0..2 {
            img[(y * 16 + x) * 4..][..4].copy_from_slice(&[10, 200, 30, 255]);
        }
    }
    let mut mask = vec![0u8; 16 * 16];
    mask[8 * 16 + 8] = 255;
    // Donors need a full 5x5 known patch; the only opaque pixels are at
    // the corner edge, so there are no valid donors → returns false.
    assert!(!content_fill(&mut img, &mask, 16, 16));
    assert_eq!(img[(8 * 16 + 8) * 4 + 3], 0);
}

#[test]
fn full_mask_returns_false() {
    let mut img = solid(8, 8, [1, 2, 3, 255]);
    assert!(!content_fill(&mut img, &vec![255u8; 64], 8, 8));
}

#[test]
fn random_sequence_has_known_values() {
    let mut rng = Rng(0x6d2b79f5);
    assert_eq!(rng.next(), 0x6d2b79f5u32.wrapping_mul(1664525).wrapping_add(1013904223));
    let mut zero = Rng(0);
    assert_eq!(zero.next(), 1013904223);
    assert_eq!(zero.next(), 1196435762);
}

#[test]
fn unselected_pixels_and_opaque_copies() {
    // Every selected pixel becomes a copy of some unselected opaque pixel, and
    // nothing else changes.
    let (w, h) = (12usize, 9usize);
    let mut img = Vec::new();
    for i in 0..w * h {
        img.extend_from_slice(&[(i * 7 % 256) as u8, (i * 13 % 256) as u8, (i * 29 % 256) as u8, 255]);
    }
    img[(4 * w + 1) * 4 + 3] = 0;
    let orig = img.clone();
    let mut mask = vec![0u8; w * h];
    for y in 2..5 {
        for x in 7..10 {
            mask[y * w + x] = 1;
        }
    }
    assert!(content_fill(&mut img, &mask, w, h));
    for p in 0..w * h {
        let got = &img[p * 4..p * 4 + 4];
        if mask[p] == 0 {
            assert_eq!(got, &orig[p * 4..p * 4 + 4]);
        } else {
            let found = (0..w * h).any(|q| mask[q] == 0 && orig[q * 4 + 3] == 255 && &orig[q * 4..q * 4 + 4] == got);
            assert!(found, "pixel {p}");
        }
    }
}

#[test]
fn small_images_fill_from_single_pixels() {
    // Below 5x5 a donor needs no patch around it.
    let mut img = vec![10, 20, 30, 255, 1, 1, 1, 255];
    assert!(content_fill(&mut img, &[0, 9], 2, 1));
    assert_eq!(img, vec![10, 20, 30, 255, 10, 20, 30, 255]);
}

#[test]
fn empty_image_has_nothing_to_fill() {
    let mut img: Vec<u8> = Vec::new();
    assert!(content_fill(&mut img, &[], 0, 0));
}

#[test]
fn selection_surrounded_by_transparency_is_filled() {
    // The hole touches transparent pixels only, so the fill starts from the
    // first open pixel rather than from the boundary.
    let (w, h) = (16usize, 16usize);
    let mut img = solid(w, h, [5, 6, 7, 255]);
    let mut mask = vec![0u8; w * h];
    for y in 9..14 {
        for x in 9..14 {
            img[(y * w + x) * 4 + 3] = 0;
        }
    }
    mask[11 * w + 11] = 255;
    assert!(content_fill(&mut img, &mask, w, h));
    assert_eq!(&img[(11 * w + 11) * 4..(11 * w + 11) * 4 + 4], &[5, 6, 7, 255]);
    assert_eq!(img[(9 * w + 9) * 4 + 3], 0);
}

#[test]
fn selected_and_transparent_pixels_have_no_influence() {
    let (w, h) = (14usize, 12usize);
    let image = |selected: u8, clear: u8| -> (Vec<u8>, Vec<u8>) {
        let mut img = Vec::new();
        let mut mask = vec![0u8; w * h];
        for p in 0..w * h {
            img.extend_from_slice(&[(p * 11 % 256) as u8, (p * 3 % 256) as u8, (p * 17 % 256) as u8, 255]);
            if (5..8).contains(&(p % w)) && (4..7).contains(&(p / w)) {
                mask[p] = 255;
                img[4 * p..4 * p + 4].copy_from_slice(&[selected, selected / 2, 7, selected]);
            }
        }
        img[4 * (w + 1)..4 * (w + 1) + 4].copy_from_slice(&[clear, 3, clear, 0]);
        (img, mask)
    };
    let (mut a, mask) = image(0, 9);
    let (mut b, _) = image(200, 90);
    assert!(content_fill(&mut a, &mask, w, h));
    assert!(content_fill(&mut b, &mask, w, h));
    for p in 0..w * h {
        if mask[p] != 0 {
            assert_eq!(&a[4 * p..4 * p + 4], &b[4 * p..4 * p + 4]);
        }
    }
}
