use photo_edit::heal::{
    apply_healed, choose_source, coarsen_roles, coverage_bounds, grain_keys, heal_hash, heal_score, heal_unit, plan_heal,
    ring_edges, HealMode, HOLE, OUTSIDE, RING,
};

fn dot(w: usize, h: usize, cells: &[(usize, usize)]) -> Vec<u8> {
    let mut cov = vec![0u8; w * h];
    for &(x, y) in cells {
        cov[y * w + x] = 255;
    }
    cov
}

#[test]
fn hash_has_known_values() {
    fn reference(mut x: u32) -> u32 {
        x ^= x >> 16;
        x = x.wrapping_mul(0x7feb352d);
        x ^= x >> 15;
        x = x.wrapping_mul(0x846ca68b);
        x ^= x >> 16;
        x
    }
    for x in [0u32, 1, 2, 77, 0xdeadbeef, u32::MAX] {
        assert_eq!(heal_hash(x), reference(x));
        assert_eq!(heal_unit(x), reference(x) >> 8);
        let (a, b) = grain_keys(5, x);
        assert_eq!(a, reference(5 ^ reference(x)));
        assert_eq!(b, a ^ 0x68e31da4);
    }
    assert_eq!(heal_hash(0), 0);
}

#[test]
fn bounds_touch_the_coverage() {
    assert_eq!(coverage_bounds(&[0; 12], 4, 3), None);
    assert_eq!(coverage_bounds(&dot(4, 3, &[(1, 2)]), 4, 3), Some((1, 2, 2, 3)));
    assert_eq!(coverage_bounds(&dot(5, 4, &[(3, 0), (1, 3)]), 5, 4), Some((1, 0, 4, 4)));
    assert_eq!(coverage_bounds(&[], 0, 7), None);
}

#[test]
fn plan_surrounds_the_spot_with_a_ring() {
    let cov = dot(12, 12, &[(5, 5)]);
    let plan = plan_heal(&cov, 12, 12).unwrap();
    assert_eq!((plan.wx0, plan.wy0, plan.ww, plan.wh), (3, 3, 5, 5));
    assert_eq!(plan.ring_count, 24);
    assert_eq!(plan.role[2 * 5 + 2], HOLE);
    assert!(plan.role.iter().enumerate().all(|(i, &r)| r == if i == 12 { HOLE } else { RING }));
}

#[test]
fn ring_is_clipped_to_the_image_and_leaves_corners_out() {
    let cov = dot(20, 20, &[(0, 0), (9, 0)]);
    let plan = plan_heal(&cov, 20, 20).unwrap();
    assert_eq!((plan.wx0, plan.wy0, plan.ww, plan.wh), (0, 0, 12, 3));
    let at = |x: usize, y: usize| plan.role[y * 12 + x];
    assert_eq!(at(0, 0), HOLE);
    assert_eq!(at(2, 2), RING);
    assert_eq!(at(3, 0), OUTSIDE);
    assert_eq!(at(7, 2), RING);
    assert_eq!(plan.ring_count, plan.role.iter().filter(|&&r| r == RING).count());
}

#[test]
fn large_spots_get_wider_rings() {
    let mut cov = vec![0u8; 200 * 200];
    for y in 60..100 {
        for x in 60..140 {
            cov[y * 200 + x] = 1;
        }
    }
    let plan = plan_heal(&cov, 200, 200).unwrap();
    // 80 / 8 = 10 pixels on each side.
    assert_eq!((plan.wx0, plan.wy0, plan.ww, plan.wh), (50, 50, 100, 60));
}

#[test]
fn nothing_to_heal_without_coverage_or_ring() {
    assert!(plan_heal(&[0; 9], 3, 3).is_none());
    assert!(plan_heal(&[1; 9], 3, 3).is_none());
    for bits in 1..63u32 {
        let cov: Vec<u8> = (0..6).map(|p| (bits >> p & 1) as u8).collect();
        assert!(plan_heal(&cov, 3, 2).is_some());
    }
}

fn striped(w: usize, h: usize) -> Vec<u8> {
    let mut img = Vec::new();
    for _ in 0..h {
        for x in 0..w {
            let v = if x % 8 < 4 { 230 } else { 30 };
            img.extend_from_slice(&[v, v, v, 255]);
        }
    }
    img
}

#[test]
fn score_compares_rings() {
    let img = striped(64, 64);
    let plan = plan_heal(&dot(64, 64, &[(30, 30), (31, 30)]), 64, 64).unwrap();
    assert_eq!((plan.ww, plan.wh), (6, 5));
    assert_eq!(heal_score(&img, &plan, 64, 64, 8, 0), Some(0));
    assert_eq!(heal_score(&img, &plan, 64, 64, 0, 5), Some(0));
    // Overlap with the spot, and leaving the image.
    assert_eq!(heal_score(&img, &plan, 64, 64, 5, 4), None);
    assert_eq!(heal_score(&img, &plan, 64, 64, 60, 0), None);
    assert_eq!(heal_score(&img, &plan, 64, 64, i64::MIN, i64::MAX), None);
    // Half a stripe off: each ring pixel differs by 200 in three channels.
    let off = heal_score(&img, &plan, 64, 64, 12, 0).unwrap();
    assert_eq!(off, plan.ring_count as u128 * 3 * 200 * 200);
}

#[test]
fn best_source_is_refined_and_nearest_wins_ties() {
    let img = striped(64, 64);
    let plan = plan_heal(&dot(64, 64, &[(30, 30)]), 64, 64).unwrap();
    // Both candidates are one pixel off; the first wins the tie and is moved
    // by one pixel to fit exactly.
    let mut offsets = vec![(1000i64, 1000i64); 24];
    offsets[3] = (9, 0);
    offsets.push((-9, 0));
    assert_eq!(choose_source(&img, &plan, 64, 64, &offsets, HealMode::ContentAware), Some((8, -3)));
    assert_eq!(choose_source(&img, &plan, 64, 64, &offsets, HealMode::SmoothFill), None);
    // Proximity match looks at two scales only.
    let far = [vec![(1000i64, 0i64); 48], vec![(8, 0)]].concat();
    assert_eq!(choose_source(&img, &plan, 64, 64, &far, HealMode::ProximityMatch), None);
    assert_eq!(choose_source(&img, &plan, 64, 64, &far, HealMode::ContentAware), Some((8, 0)));
}

#[test]
fn farther_scales_are_weighted() {
    // The second scale fits slightly better, but not by enough.
    let mut img = vec![100u8; 60 * 20 * 4];
    let set = |img: &mut Vec<u8>, x0: usize, v: u8| {
        for y in 0..20 {
            for x in x0..x0 + 12 {
                img[(y * 60 + x) * 4] = v;
            }
        }
    };
    set(&mut img, 22, 110);
    set(&mut img, 44, 91);
    let plan = plan_heal(&dot(60, 20, &[(5, 10)]), 60, 20).unwrap();
    let mut offsets = vec![(1000i64, 0i64); 25];
    offsets[0] = (22, 0);
    offsets[24] = (44, 0);
    // 100 * 1.0 against 81 * 1.1 and 81 * 1.6.
    assert_eq!(choose_source(&img, &plan, 60, 20, &offsets, HealMode::ContentAware).unwrap().0 > 30, true);
    assert_eq!(choose_source(&img, &plan, 60, 20, &offsets, HealMode::ProximityMatch).unwrap().0 < 30, true);
}

#[test]
fn edges_are_differences_on_the_ring() {
    let img: Vec<u8> = (0..8 * 8).flat_map(|i| [i as u8, 2, 3, 255]).collect();
    let plan = plan_heal(&dot(8, 8, &[(2, 2)]), 8, 8).unwrap();
    let plain = ring_edges(&img, &plan, 8, 8, None);
    assert_eq!(plain.len(), 4 * plan.role.len());
    assert_eq!(&plain[0..4], &[0, 2, 3, 255]);
    assert_eq!(&plain[(2 * 5 + 2) * 4..(2 * 5 + 2) * 4 + 4], &[0, 0, 0, 0]);
    let diff = ring_edges(&img, &plan, 8, 8, Some((3, 3)));
    assert_eq!(&diff[0..4], &[-27, 0, 0, 0]);
}

#[test]
fn healed_pixels_replace_the_hole_only() {
    let src = vec![50u8; 6 * 6 * 4];
    let cov = dot(6, 6, &[(2, 3)]);
    let plan = plan_heal(&cov, 6, 6).unwrap();
    let healed: Vec<u8> = (0..plan.role.len() * 4).map(|i| i as u8).collect();
    let mut img = src.clone();
    apply_healed(&mut img, &plan, 6, 6, &healed);
    let q = (3 - plan.wy0) * plan.ww + (2 - plan.wx0);
    for p in 0..36 {
        let got = &img[p * 4..p * 4 + 4];
        if p == 3 * 6 + 2 {
            assert_eq!(got, &healed[q * 4..q * 4 + 4]);
        } else {
            assert_eq!(got, &src[p * 4..p * 4 + 4]);
        }
    }
}

#[test]
fn coarse_roles_prefer_the_ring() {
    let role = [OUTSIDE, HOLE, HOLE, RING, OUTSIDE, HOLE];
    // 3x2 becomes 2x1.
    assert_eq!(coarsen_roles(&role, 3, 2), vec![RING, HOLE]);
    assert_eq!(coarsen_roles(&[OUTSIDE, OUTSIDE, OUTSIDE, OUTSIDE], 2, 2), vec![OUTSIDE]);
    assert!(coarsen_roles(&[], 0, 3).is_empty());
}

#[test]
fn own_pixels_heal_to_themselves() {
    let src: Vec<u8> = (0..6 * 6 * 4).map(|i| (i * 5) as u8).collect();
    let plan = plan_heal(&dot(6, 6, &[(2, 3), (3, 3)]), 6, 6).unwrap();
    let mut own: Vec<u8> = Vec::new();
    for p in 0..plan.role.len() {
        let i = (plan.wy0 + p / plan.ww) * 6 + plan.wx0 + p % plan.ww;
        own.extend_from_slice(&src[i * 4..i * 4 + 4]);
    }
    let mut img = src.clone();
    apply_healed(&mut img, &plan, 6, 6, &own);
    assert_eq!(img, src);
}

#[test]
fn equal_pixels_leave_no_difference() {
    let img = [10u8, 20, 30, 40].repeat(100);
    let plan = plan_heal(&dot(10, 10, &[(2, 2)]), 10, 10).unwrap();
    assert!(ring_edges(&img, &plan, 10, 10, Some((5, 5))).iter().all(|v| *v == 0));
    for (p, px) in ring_edges(&img, &plan, 10, 10, None).chunks(4).enumerate() {
        assert!(px == [10, 20, 30, 40] || px == [0; 4], "pixel {p}");
    }
}
