use photo_edit::raw::{
    apply_orientation, decode_raw, finish_import, flip_horizontal, flip_vertical, import_developed, is_raw_lowercase,
    is_raw_name, quantize, transpose, Developed, RawOutcome, RAW_EXTENSIONS,
};
use rawler::decoders::Orientation;

fn px(r: u8, g: u8, b: u8) -> [u8; 4] {
    [r, g, b, 255]
}

#[test]
fn raw_name_detection() {
    assert!(is_raw_name("IMG_0001.CR2"));
    assert!(is_raw_name("photo.dng"));
    assert!(is_raw_name("A.RAW".replace(".RAW", ".arw").as_str()));
    assert!(!is_raw_name("photo.jpg"));
    assert!(!is_raw_name("video.mp4"));
}

#[test]
fn flip_horizontal_mirrors() {
    let src = [px(1, 0, 0), px(2, 0, 0)].concat();
    let out = flip_horizontal(&src, 2, 1);
    assert_eq!(&out[0..4], &px(2, 0, 0));
    assert_eq!(&out[4..8], &px(1, 0, 0));
}

#[test]
fn flip_vertical_mirrors() {
    let src = [px(1, 0, 0), px(1, 0, 0), px(2, 0, 0), px(2, 0, 0)].concat();
    let out = flip_vertical(&src, 2, 2);
    assert_eq!(&out[0..4], &px(2, 0, 0));
    assert_eq!(&out[12..16], &px(1, 0, 0));
}

#[test]
fn transpose_swaps_dims() {
    // 2x1: [A B] -> 1x2: [A; B]
    let src = [px(1, 0, 0), px(2, 0, 0)].concat();
    let (out, w, h) = transpose(&src, 2, 1);
    assert_eq!((w, h), (1, 2));
    assert_eq!(&out[0..4], &px(1, 0, 0));
    assert_eq!(&out[4..8], &px(2, 0, 0));
}

#[test]
fn orientation_rotate90_matches_exif() {
    // EXIF 6 (Rotate90) = transpose + flip... verify via to_flips mapping:
    // Rotate90 → (true, false, true): flip vertical then transpose.
    // 2x1 [A B] -> flip_v (no-op, h=1) -> transpose -> 1x2 [A; B]
    let src = [px(9, 0, 0), px(5, 0, 0)].concat();
    let (out, w, h) = apply_orientation(src, 2, 1, Orientation::Rotate90.to_u16());
    assert_eq!((w, h), (1, 2));
    assert_eq!(&out[0..4], &px(9, 0, 0));
    assert_eq!(&out[4..8], &px(5, 0, 0));
}

#[test]
fn garbage_bytes_error_not_panic() {
    assert!(decode_raw(b"not a raw file").is_err());
}

#[test]
fn empty_bytes_error_not_panic() {
    assert!(decode_raw(&[]).is_err());
}

#[test]
fn every_raw_extension_is_known() {
    for ext in RAW_EXTENSIONS {
        assert!(is_raw_name(&format!("x.{}", ext.to_uppercase())));
        assert!(is_raw_lowercase(&format!("x.{ext}")));
        assert!(!is_raw_name(ext));
        assert!(!is_raw_lowercase(&format!("x.{}", ext.to_uppercase())));
    }
    // The dot belongs to the ending.
    assert!(!is_raw_name("xdng"));
    assert!(is_raw_name(".dng"));
    assert!(!is_raw_name("x.dng.jpg"));
}

#[test]
fn names_beyond_ascii_are_lowercased() {
    assert!(is_raw_name("ÄÖ.NEF"));
    assert!(!is_raw_name("ÄÖ.NEFÄ"));
}

#[test]
fn every_orientation_maps_its_corners() {
    // 2x3 image with a distinct red value for each pixel.
    let src: Vec<u8> = (0..6u8).flat_map(|v| [v, 0, 0, 255]).collect();
    let reds = |v: &[u8]| v.chunks_exact(4).map(|p| p[0]).collect::<Vec<u8>>();
    let expect: [(u16, Vec<u8>, (usize, usize)); 10] = [
        (0, vec![0, 1, 2, 3, 4, 5], (2, 3)),
        (1, vec![0, 1, 2, 3, 4, 5], (2, 3)),
        (2, vec![1, 0, 3, 2, 5, 4], (2, 3)),
        (3, vec![5, 4, 3, 2, 1, 0], (2, 3)),
        (4, vec![4, 5, 2, 3, 0, 1], (2, 3)),
        (5, vec![0, 2, 4, 1, 3, 5], (3, 2)),
        (6, vec![4, 2, 0, 5, 3, 1], (3, 2)),
        (7, vec![5, 3, 1, 4, 2, 0], (3, 2)),
        (8, vec![1, 3, 5, 0, 2, 4], (3, 2)),
        (9, vec![0, 1, 2, 3, 4, 5], (2, 3)),
    ];
    for (code, want, size) in expect {
        let (out, w, h) = apply_orientation(src.clone(), 2, 3, code);
        assert_eq!(reds(&out), want, "code {code}");
        assert_eq!((w, h), size);
        let flips = Orientation::from_u16(code).to_flips();
        assert_eq!(flips.0, size == (3, 2));
    }
}

#[test]
fn flipping_twice_is_identity() {
    let src: Vec<u8> = (0..3 * 5 * 4).map(|v| v as u8).collect();
    assert_eq!(flip_horizontal(&flip_horizontal(&src, 3, 5), 3, 5), src);
    assert_eq!(flip_vertical(&flip_vertical(&src, 3, 5), 3, 5), src);
    let (t, w, h) = transpose(&src, 3, 5);
    assert_eq!(transpose(&t, w, h), (src, 3, 5));
}

#[test]
fn quantizing_matches_single_precision() {
    let mut samples = vec![0.0f32, -0.0, 1.0, 0.5, -1.0, 2.0, f32::NAN, f32::INFINITY, f32::NEG_INFINITY, 1e-40, 1e30];
    for i in 0..2000 {
        samples.push(i as f32 / 1999.0);
        samples.push((i as f32 + 0.5) / 255.0);
    }
    for v in samples {
        let want = (v * 255.0).round().clamp(0.0, 255.0) as u8;
        assert_eq!(quantize(v.to_bits()), want, "{v}");
    }
}

#[test]
fn developed_photos_become_rgba() {
    let bits = |v: f32| v.to_bits();
    let gray = Developed::Monochrome { width: 2, height: 1, gray: vec![bits(0.0), bits(1.0)] };
    assert_eq!(import_developed(&gray, 2), Some((vec![255, 255, 255, 255, 0, 0, 0, 255], 2, 1)));
    let rgb = Developed::ThreeColor { width: 1, height: 1, rgb: vec![[bits(0.2), bits(0.4), bits(2.0)]] };
    assert_eq!(import_developed(&rgb, 1), Some((vec![51, 102, 255, 255], 1, 1)));
    let four = Developed::FourColor {
        width: 1,
        height: 2,
        rgbe: vec![[bits(1.0), bits(0.0), bits(0.0), bits(0.5)], [bits(0.0), bits(1.0), bits(0.0), bits(0.5)]],
    };
    assert_eq!(import_developed(&four, 6), Some((vec![0, 255, 0, 255, 255, 0, 0, 255], 2, 1)));
    let short = Developed::Monochrome { width: 2, height: 2, gray: vec![0] };
    assert_eq!(import_developed(&short, 1), None);
    let huge = Developed::Monochrome { width: usize::MAX, height: 2, gray: vec![0] };
    assert_eq!(import_developed(&huge, 1), None);
}

#[test]
fn import_errors_name_the_step() {
    let why = || "why".to_string();
    assert_eq!(finish_import(&RawOutcome::Unsupported(why())), Err("unsupported RAW: why".to_string()));
    assert_eq!(finish_import(&RawOutcome::DecodeFailed(why())), Err("RAW decode failed: why".to_string()));
    assert_eq!(finish_import(&RawOutcome::DevelopFailed(why())), Err("RAW develop failed: why".to_string()));
    let short = Developed::Monochrome { width: 2, height: 2, gray: vec![0] };
    assert_eq!(
        finish_import(&RawOutcome::Developed(short, 1)),
        Err("RAW develop failed: samples do not match the size".to_string())
    );
    let one = Developed::Monochrome { width: 1, height: 1, gray: vec![0] };
    assert_eq!(finish_import(&RawOutcome::Developed(one, 0)), Ok((vec![0, 0, 0, 255], 1, 1)));
    assert!(decode_raw(b"not a raw file").unwrap_err().starts_with("unsupported RAW: "));
}

#[test]
fn short_files_are_not_supported() {
    for n in 0..4 {
        for start in [b"II*\0", b"MM\0*", b"FUJI", b"\0MRM", b"ARRI"] {
            assert!(decode_raw(&start[..n]).unwrap_err().starts_with("unsupported RAW: "));
        }
    }
}

/// A DNG file with one uncompressed image of 16-bit samples: its photometric
/// code, sizes, samples per pixel, orientation and samples, and further tags of
/// 32-bit numbers.
fn dng(photometric: u32, w: u32, h: u32, cpp: u32, orientation: u32, samples: &[u16], more: &[(u16, Vec<u32>)]) -> Vec<u8> {
    let mut tags: Vec<(u16, u16, Vec<u32>)> = vec![
        (254, 4, vec![0]),
        (256, 4, vec![w]),
        (257, 4, vec![h]),
        (258, 3, vec![16; cpp as usize]),
        (259, 3, vec![1]),
        (262, 3, vec![photometric]),
        (273, 4, vec![0]),
        (274, 3, vec![orientation]),
        (277, 3, vec![cpp]),
        (278, 4, vec![h]),
        (279, 4, vec![samples.len() as u32 * 2]),
        (33422, 1, vec![0, 1, 1, 2]),
        (50706, 1, vec![1, 4, 0, 0]),
    ];
    tags.extend(more.iter().map(|(tag, values)| (*tag, 4, values.clone())));
    tiff(tags, samples)
}

/// A TIFF file with these tags, each with its type and values, and the samples
/// behind them.
fn tiff(mut tags: Vec<(u16, u16, Vec<u32>)>, samples: &[u16]) -> Vec<u8> {
    tags.sort();
    let start = 8 + 2 + 12 * tags.len() + 4;
    let size = |t: u16| match t {
        1 | 2 | 7 => 1usize,
        3 => 2,
        _ => 4,
    };
    let long: usize = tags.iter().map(|t| size(t.1) * t.2.len()).filter(|n| *n > 4).sum();
    let strip = start + long;
    let mut out = vec![b'I', b'I', 42, 0, 8, 0, 0, 0];
    out.extend((tags.len() as u16).to_le_bytes());
    let mut tail: Vec<u8> = Vec::new();
    for (tag, kind, values) in &tags {
        let values = if *tag == 273 { vec![strip as u32] } else { values.clone() };
        let mut bytes: Vec<u8> = values.iter().flat_map(|v| v.to_le_bytes()[..size(*kind)].to_vec()).collect();
        out.extend(tag.to_le_bytes());
        out.extend(kind.to_le_bytes());
        out.extend((values.len() as u32).to_le_bytes());
        if bytes.len() > 4 {
            out.extend(((start + tail.len()) as u32).to_le_bytes());
            tail.extend(bytes);
        } else {
            bytes.resize(4, 0);
            out.extend(bytes);
        }
    }
    out.extend([0; 4]);
    out.extend(tail);
    out.extend(samples.iter().flat_map(|v| v.to_le_bytes()));
    out
}

const LINEAR: u32 = 34892;
const FILTERS: u32 = 32803;

#[test]
fn linear_photos_are_imported() {
    let samples = [0u16, 65535, 0, 65535, 65535, 0];
    let gray = |values: [u8; 6]| -> Vec<u8> { values.iter().flat_map(|v| px(*v, *v, *v)).collect() };
    assert_eq!(decode_raw(&dng(LINEAR, 3, 2, 1, 1, &samples, &[])), Ok((gray([0, 255, 0, 255, 255, 0]), 3, 2)));
    assert_eq!(decode_raw(&dng(LINEAR, 3, 2, 1, 3, &samples, &[])), Ok((gray([0, 255, 255, 0, 255, 0]), 3, 2)));
    assert_eq!(decode_raw(&dng(LINEAR, 3, 2, 1, 6, &samples, &[])), Ok((gray([255, 0, 255, 255, 0, 0]), 2, 3)));
    let color: Vec<u16> = (0..3 * 4 * 2).map(|_| 0).collect();
    assert_eq!(decode_raw(&dng(LINEAR, 4, 2, 3, 1, &color, &[])), Ok((px(0, 0, 0).repeat(8), 4, 2)));
}

#[test]
fn recommended_parts_are_cut_out() {
    let samples = [0u16, 65535, 0, 65535, 65535, 0];
    let crop = [(50719u16, vec![1, 0]), (50720, vec![2, 1])];
    let want = [px(255, 255, 255), px(0, 0, 0)].concat();
    assert_eq!(decode_raw(&dng(LINEAR, 3, 2, 1, 1, &samples, &crop)), Ok((want, 2, 1)));
    let narrow = [(50719u16, vec![1, 0]), (50720, vec![0, 2])];
    assert_eq!(decode_raw(&dng(LINEAR, 3, 2, 3, 1, &[0; 18], &narrow)), Ok((vec![], 0, 2)));
}

#[test]
fn filtered_photos_are_imported() {
    let (rgba, w, h) = decode_raw(&dng(FILTERS, 8, 6, 1, 1, &[65535; 48], &[])).unwrap();
    assert_eq!((w, h), (8, 6));
    assert_eq!(rgba.len(), 4 * 48);
    for p in rgba.chunks(4) {
        assert_eq!(p[3], 255);
        assert!(p[0] > 0 && p[1] > 0 && p[2] > 0);
    }
    let active = [(50829u16, vec![0, 1, 6, 7])];
    let (_, w, h) = decode_raw(&dng(FILTERS, 8, 6, 1, 1, &[0; 48], &active)).unwrap();
    assert_eq!((w, h), (6, 6));
}

#[test]
fn layouts_that_cannot_be_developed_are_errors() {
    let bad = Err("RAW develop failed: the layout of the image is not supported".to_string());
    assert_eq!(decode_raw(&dng(1, 8, 6, 1, 1, &[0; 48], &[])), bad);
    assert_eq!(decode_raw(&dng(FILTERS, 4, 4, 1, 1, &[0; 16], &[])), bad);
    assert_eq!(decode_raw(&dng(LINEAR, 4, 4, 2, 1, &[0; 32], &[])), bad);
    let daylight = [(50778u16, vec![21]), (50721, vec![1, 0, 0, 0])];
    assert_eq!(decode_raw(&dng(LINEAR, 4, 4, 1, 1, &[0; 16], &daylight)), bad);
}

#[test]
fn broken_files_are_decoding_errors() {
    // No decoder knows this photometric code.
    let failed = decode_raw(&dng(2, 4, 4, 1, 1, &[0; 16], &[])).unwrap_err();
    assert!(failed.starts_with("RAW decode failed: "), "{failed}");
}

fn ascii(tag: u16, text: &str) -> (u16, u16, Vec<u32>) {
    (tag, 2, text.bytes().chain([0]).map(|b| b as u32).collect())
}

#[test]
fn errors_name_the_step_whatever_they_say() {
    // The decoder for this make needs a model: it is not found, though the
    // error is one of decoding.
    let no_model = decode_raw(&tiff(vec![ascii(271, "KODAK")], &[0; 16])).unwrap_err();
    assert!(no_model.starts_with("unsupported RAW: Failed to decode image"), "{no_model}");
    // The decoder is found and does not support the compression.
    let camera = || vec![ascii(271, "Eastman Kodak Company"), ascii(272, "Kodak DC120 ZOOM Digital Camera")];
    let mut tags = camera();
    tags.extend([(259, 3, vec![9]), (273, 4, vec![0]), (33422, 1, vec![0, 1, 1, 2])]);
    let compression = decode_raw(&tiff(tags, &[0; 16])).unwrap_err();
    assert!(compression.starts_with("RAW decode failed: Error: KDC"), "{compression}");
    // Notes of the maker that are too short make the decoder panic.
    let mut tags = camera();
    tags.push((37500, 7, vec![1; 6]));
    let notes = decode_raw(&tiff(tags, &[0; 16])).unwrap_err();
    assert!(notes.starts_with("RAW decode failed: Failed to decode image, possibly corrupt image: Caught a panic"), "{notes}");
}
