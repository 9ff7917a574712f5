use photo_edit::layout::{is_developable, Area, Calibration, Frame, Mosaic};

fn frame(width: usize, height: usize) -> Frame {
    Frame {
        width,
        height,
        components: 1,
        samples: width * height,
        active: None,
        crop: None,
        split: None,
        quarter: false,
    }
}

fn levels() -> Calibration {
    Calibration { black: 1, white: 1, daylight: Some(9), other: None }
}

fn bayer() -> Mosaic {
    Mosaic::Filters {
        width: 2,
        height: 2,
        pattern: vec![0, 1, 1, 2],
        distinct: 3,
        rgb: true,
        bayer: true,
        planes: vec![0, 1, 2],
    }
}

fn four_colors(planes: Vec<u8>) -> Mosaic {
    Mosaic::Filters { width: 2, height: 2, pattern: vec![0, 1, 3, 2], distinct: 4, rgb: false, bayer: true, planes }
}

fn xtrans() -> Mosaic {
    Mosaic::Filters {
        width: 6,
        height: 6,
        pattern: vec![1; 36],
        distinct: 3,
        rgb: true,
        bayer: false,
        planes: vec![0, 1, 2],
    }
}

fn area(x: usize, y: usize, w: usize, h: usize) -> Option<Area> {
    Some(Area { x, y, w, h })
}

#[test]
fn filters_need_room() {
    assert!(is_developable(&frame(6, 6), &levels(), &bayer()));
    assert!(!is_developable(&frame(5, 6), &levels(), &bayer()));
    assert!(!is_developable(&frame(6, 5), &levels(), &bayer()));
    assert!(is_developable(&frame(2, 2), &levels(), &four_colors(vec![0, 1, 2, 3])));
    assert!(!is_developable(&frame(1, 2), &levels(), &four_colors(vec![0, 1, 2, 3])));
    assert!(is_developable(&frame(1, 1), &levels(), &xtrans()));
}

#[test]
fn filters_need_known_colors() {
    assert!(!is_developable(&frame(8, 8), &levels(), &four_colors(vec![0, 1, 2])));
    assert!(!is_developable(&frame(8, 8), &levels(), &four_colors(vec![0, 1, 2, 4])));
    let unknown = Mosaic::Filters {
        width: 2,
        height: 2,
        pattern: vec![0, 1, 1, 3],
        distinct: 3,
        rgb: true,
        bayer: true,
        planes: vec![0, 1, 2],
    };
    assert!(!is_developable(&frame(8, 8), &levels(), &unknown));
    let two = Mosaic::Filters {
        width: 2,
        height: 2,
        pattern: vec![0, 1, 1, 0],
        distinct: 2,
        rgb: false,
        bayer: true,
        planes: vec![0, 1],
    };
    assert!(!is_developable(&frame(8, 8), &levels(), &two));
}

#[test]
fn samples_must_fill_the_image() {
    assert!(!is_developable(&Frame { samples: 63, ..frame(8, 8) }, &levels(), &bayer()));
    assert!(is_developable(&frame(0, 8), &levels(), &Mosaic::Linear));
    assert!(!is_developable(&Frame { components: 3, ..frame(0, 8) }, &levels(), &bayer()));
    assert!(is_developable(&Frame { components: 3, ..frame(8, 0) }, &levels(), &bayer()));
    assert!(!is_developable(&Frame { components: 2, samples: 128, ..frame(8, 8) }, &levels(), &Mosaic::Linear));
    assert!(is_developable(&Frame { components: 3, samples: 192, ..frame(8, 8) }, &levels(), &Mosaic::Linear));
    assert!(is_developable(&Frame { components: 4, samples: 256, ..frame(8, 8) }, &levels(), &Mosaic::Linear));
    let huge = Frame { width: usize::MAX, height: 2, ..frame(8, 8) };
    assert!(!is_developable(&huge, &levels(), &Mosaic::Linear));
}

#[test]
fn gray_images_are_not_developed() {
    assert!(!is_developable(&frame(8, 8), &levels(), &Mosaic::Gray));
    assert!(is_developable(&frame(8, 8), &levels(), &Mosaic::Linear));
}

#[test]
fn levels_and_matrices_have_lengths() {
    let with = |black, white, daylight, other| Calibration { black, white, daylight, other };
    let f = frame(8, 8);
    assert!(!is_developable(&f, &with(0, 1, None, None), &bayer()));
    assert!(!is_developable(&f, &with(1, 0, None, None), &bayer()));
    assert!(is_developable(&f, &with(0, 1, None, None), &Mosaic::Linear));
    assert!(!is_developable(&f, &with(0, 0, None, None), &Mosaic::Linear));
    assert!(is_developable(&f, &with(1, 1, Some(12), Some(4)), &bayer()));
    assert!(!is_developable(&f, &with(1, 1, Some(10), None), &bayer()));
    assert!(!is_developable(&f, &with(1, 1, Some(15), None), &bayer()));
    assert!(is_developable(&f, &with(1, 1, None, Some(9)), &bayer()));
    assert!(!is_developable(&f, &with(1, 1, None, Some(12)), &bayer()));
}

#[test]
fn areas_lie_in_the_image() {
    let at = |active, crop| Frame { active, crop, ..frame(20, 10) };
    let ok = |f: Frame| is_developable(&f, &levels(), &bayer());
    assert!(ok(at(area(2, 1, 16, 8), None)));
    assert!(ok(at(area(2, 1, 16, 8), area(4, 2, 10, 6))));
    assert!(!ok(at(area(6, 1, 16, 8), None)));
    assert!(!ok(at(area(2, 1, 16, 8), area(1, 1, 10, 6))));
    assert!(ok(at(None, area(5, 2, 15, 8))));
    assert!(!ok(at(None, area(6, 2, 15, 8))));
    assert!(ok(at(None, area(5, 2, 0, 8))));
    assert!(!ok(at(area(2, 1, 5, 8), None)));
}

#[test]
fn gray_areas_need_a_width() {
    let ok = |x, y, w, h| is_developable(&Frame { crop: area(x, y, w, h), ..frame(20, 10) }, &levels(), &Mosaic::Linear);
    assert!(ok(5, 2, 15, 8));
    assert!(!ok(5, 2, 16, 8));
    assert!(!ok(5, 2, 15, 9));
    assert!(!ok(5, 2, 0, 8));
    assert!(ok(5, 2, 30, 0));
    assert!(ok(7, 7, 20, 10));
}

#[test]
fn areas_are_halved_for_images_of_half_the_width() {
    let at = |crop| Frame { components: 3, samples: 600, active: area(2, 4, 41, 30), crop, ..frame(20, 10) };
    let ok = |f: Frame| is_developable(&f, &levels(), &Mosaic::Linear);
    assert!(ok(at(area(12, 4, 30, 20))));
    assert!(!ok(at(area(14, 4, 30, 20))));
    assert!(!ok(at(area(12, 6, 30, 20))));
    assert!(ok(at(area(12, 4, 30, 21))));
    assert!(!ok(at(area(12, 4, 30, 22))));
    assert!(!ok(at(None)));
    let whole = Frame { components: 3, samples: 600, active: area(2, 4, 40, 20), ..frame(20, 10) };
    assert!(ok(whole));
}

#[test]
fn diagonal_sensors_are_turned() {
    let at = |split, quarter, active, crop| Frame { split: Some(split), quarter, active, crop, ..frame(20, 10) };
    let ok = |f: Frame| is_developable(&f, &levels(), &bayer());
    assert!(ok(at(12, false, None, None)));
    assert!(ok(at(21, false, None, None)));
    assert!(ok(at(12, true, None, None)));
    assert!(!ok(at(0x100_0000, false, None, None)));
    assert!(!ok(at(12, false, area(2, 1, 16, 8), None)));
    // 12 and 8 times the square root of two are 16.9 and 11.3.
    assert!(ok(at(12, false, None, area(2, 1, 14, 10))));
    assert!(!ok(at(12, false, None, area(2, 1, 15, 10))));
    assert!(!ok(at(12, false, None, area(2, 1, 14, 11))));
    assert!(ok(at(12, false, None, area(3, 4, 16, 11))));
    // Split below the side, the image keeps no rows: 14 times the root is 19.7.
    assert!(ok(at(14, true, None, area(2, 0, 17, 0))));
    assert!(!ok(at(14, true, None, area(2, 0, 18, 0))));
    assert!(!ok(at(14, true, None, area(0, 0, 17, 1))));
    // 8 and 2 times the root are 11.3 and 2.8, and 11 is half of the width.
    let half = |crop| Frame { split: Some(8), quarter: true, crop, ..frame(22, 10) };
    assert!(ok(half(area(2, 0, 18, 4))));
    assert!(ok(half(area(4, 0, 19, 4))));
    assert!(!ok(half(area(4, 0, 20, 4))));
}
