use photo_edit::clone::clone_stamp;

fn gradient(w: usize, h: usize) -> Vec<u8> {
    let mut d = Vec::with_capacity(w * h * 4);
    for y in 0..h {
        for x in 0..w {
            d.extend_from_slice(&[x as u8, y as u8, 100, 255]);
        }
    }
    d
}

fn disc(w: usize, h: usize, cx: usize, cy: usize, r: usize) -> Vec<u8> {
    let mut cov = vec![0u8; w * h];
    for y in 0..h {
        for x in 0..w {
            let d2 = (x as i64 - cx as i64).pow(2) + (y as i64 - cy as i64).pow(2);
            if (d2 as f64) <= (r as f64).powi(2) {
                cov[y * w + x] = 255;
            }
        }
    }
    cov
}

#[test]
fn copies_from_offset() {
    let mut img = gradient(32, 32);
    let cov = disc(32, 32, 20, 20, 3);
    clone_stamp(&mut img, 32, 32, &cov, -10, -10);
    // Center of the disc copies (10,10) = [10,10,100,255].
    let p = &img[(20 * 32 + 20) * 4..];
    assert_eq!(&p[..4], &[10, 10, 100, 255]);
    // Outside the disc is untouched.
    let q = &img[(5 * 32 + 20) * 4..];
    assert_eq!(&q[..4], &[20, 5, 100, 255]);
}

#[test]
fn zero_coverage_is_noop() {
    let mut img = gradient(16, 16);
    let orig = img.clone();
    clone_stamp(&mut img, 16, 16, &vec![0u8; 256], 5, 5);
    assert_eq!(img, orig);
}

#[test]
fn clone_partial_coverage_blends() {
    let mut img = gradient(16, 16);
    let mut cov = vec![0u8; 256];
    cov[8 * 16 + 8] = 128;
    clone_stamp(&mut img, 16, 16, &cov, 2, 0);
    let p = &img[(8 * 16 + 8) * 4..];
    let want = ((8u32 * 127 + 10u32 * 128 + 127) / 255) as u8;
    assert_eq!(p[0], want);
}

#[test]
fn clamps_source_at_edges() {
    let mut img = gradient(16, 16);
    let cov = disc(16, 16, 2, 2, 2);
    clone_stamp(&mut img, 16, 16, &cov, -50, -50);
    // Every covered pixel clamps to source (0,0) = [0,0,100,255].
    let p = &img[(2 * 16 + 2) * 4..];
    assert_eq!(&p[..4], &[0, 0, 100, 255]);
}

#[test]
fn overlapping_stamps_read_original() {
    // A stamp whose source area overlaps its own coverage must copy the
    // pre-stroke pixels, not progressively cloned ones.
    let mut img = gradient(32, 32);
    let cov = disc(32, 32, 16, 16, 8);
    clone_stamp(&mut img, 32, 32, &cov, 2, 0);
    // (18,16) is inside the disc AND is the source for (16,16): both must
    // read the original gradient, so (16,16) = original (18,16) = [18,16,..].
    let p = &img[(16 * 32 + 16) * 4..];
    assert_eq!(&p[..4], &[18, 16, 100, 255]);
}

#[test]
fn full_offset_past_the_far_edge_clamps() {
    let mut img = gradient(4, 4);
    let cov = vec![255u8; 16];
    clone_stamp(&mut img, 4, 4, &cov, i32::MAX, i32::MAX);
    for p in img.chunks_exact(4) {
        assert_eq!(p, &[3, 3, 100, 255]);
    }
}

#[test]
fn bytes_behind_the_last_pixel_stay() {
    let mut img = vec![1, 2, 3, 4, 9, 8, 7];
    clone_stamp(&mut img, 1, 1, &[255], 5, 5);
    assert_eq!(img, vec![1, 2, 3, 4, 9, 8, 7]);
}
