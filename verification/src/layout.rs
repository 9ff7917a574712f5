//! The layout of a RAW image as plain values, and which layouts can be
//! developed.
use crate::single::{from_int, truncated, Single};
use vstd::prelude::*;

verus! {

/// A rectangle of pixels.
#[derive(Clone, Copy, Debug)]
pub struct Area {
    pub x: usize,
    pub y: usize,
    pub w: usize,
    pub h: usize,
}

/// Sizes and areas of a RAW image.
#[derive(Debug)]
pub struct Frame {
    pub width: usize,
    pub height: usize,
    /// Samples of a pixel.
    pub components: usize,
    /// Samples that are there.
    pub samples: usize,
    /// The part of the sensor that gets light.
    pub active: Option<Area>,
    /// The recommended part.
    pub crop: Option<Area>,
    /// Where the rows of a sensor that is mounted diagonally are split.
    pub split: Option<usize>,
    /// Whether such a sensor is turned by another quarter.
    pub quarter: bool,
}

/// Numbers of levels and of matrix entries of a RAW image.
#[derive(Debug)]
pub struct Calibration {
    pub black: usize,
    pub white: usize,
    /// Entries of the color matrix for the standard daylight.
    pub daylight: Option<usize>,
    /// Entries of the first color matrix for another light.
    pub other: Option<usize>,
}

/// How samples are to be understood.
#[derive(Debug)]
pub enum Mosaic {
    /// Brightness alone.
    Gray,
    /// Samples behind color filters in a repeating pattern.
    Filters {
        /// Size of the pattern.
        width: usize,
        height: usize,
        /// Colors of the pattern.
        pattern: Vec<u8>,
        /// Number of different colors.
        distinct: usize,
        /// Whether the colors are red, green and blue.
        rgb: bool,
        /// Whether this is a Bayer pattern; else it is an X-Trans one.
        bayer: bool,
        /// The color of each plane.
        planes: Vec<u8>,
    },
    /// Colors that are there at each pixel.
    Linear,
}

/// Whether a list holds only values up to `top`.
pub open spec fn all_up_to(list: Seq<u8>, top: int) -> bool {
    forall|i: int| 0 <= i < list.len() ==> #[trigger] list[i] <= top
}

/// Whether each value of a list is also in another.
pub open spec fn all_among(list: Seq<u8>, others: Seq<u8>) -> bool {
    forall|i: int| 0 <= i < list.len() ==> others.contains(#[trigger] list[i])
}

/// The part of the sensor that is developed.
pub open spec fn region(f: Frame) -> (int, int, int, int) {
    match f.active {
        Some(a) => (a.x as int, a.y as int, a.w as int, a.h as int),
        None => (0, 0, f.width as int, f.height as int),
    }
}

/// Whether the image has the samples of all pixels, in a number that can be
/// held in memory as numbers of four bytes. Only with filters it needs a width.
pub open spec fn is_filled(f: Frame, m: Mosaic) -> bool {
    &&& f.components == 1 || f.components == 3 || f.components == 4
    &&& m is Filters ==> 1 <= f.width
    &&& f.samples as int / f.components as int == f.width * f.height
    &&& 4 * f.samples <= isize::MAX
    &&& 16 * (f.width * f.height) <= isize::MAX
}

/// Whether the colors between the filters can be interpolated.
pub open spec fn is_interpolable(m: Mosaic, w: int, h: int) -> bool {
    m matches Mosaic::Filters { width, height, pattern, distinct, rgb, bayer, planes } && {
        &&& width <= 48 && height <= 48
        &&& if rgb && bayer {
            all_up_to(pattern@, 2) && 6 <= w && 6 <= h
        } else if distinct == 4 && bayer {
            all_up_to(pattern@, 5) && planes@.len() == 4 && all_among(pattern@, planes@) && 2 <= w && 2 <= h
        } else {
            rgb && !bayer && all_up_to(pattern@, 2) && 1 <= w && 1 <= h
        }
    }
}

/// Whether the image is turned after its colors were interpolated.
pub open spec fn is_diagonal(f: Frame, m: Mosaic) -> bool {
    &&& f.components == 1
    &&& f.split is Some
    &&& m matches Mosaic::Filters { rgb, bayer, .. } && rgb && bayer
}

/// The side of a sensor that is mounted diagonally.
pub open spec fn diagonal_side(f: Frame) -> int {
    if f.quarter {
        f.height as int
    } else {
        f.width as int
    }
}

/// Whether `d` is the whole part of `v` times the square root of two.
pub open spec fn is_root(d: int, v: int) -> bool {
    0 <= d && d * d <= 2 * (v * v) < (d + 1) * (d + 1)
}

/// The whole part of `v` times the square root of two.
pub open spec fn times_root(v: int) -> int {
    choose|d: int| is_root(d, v)
}

/// The sides of the part that is cut out of a turned sensor.
pub open spec fn turned_sides(f: Frame) -> (int, int) {
    let t = f.split->0 as int;
    (times_root(t), times_root(crate::pixels::max_of(diagonal_side(f) - t, 0)))
}

/// Whether a sensor that is mounted diagonally can be turned: its sides are
/// known exactly, and the turned image can be held in memory.
pub open spec fn is_turnable(f: Frame) -> bool {
    &&& f.split is Some && f.split->0 <= 0xff_ffff && diagonal_side(f) <= 0xff_ffff
    &&& 12 * (turned_sides(f).0 * turned_sides(f).1) <= isize::MAX
}

/// Whether levels can be corrected.
pub open spec fn has_levels(c: Calibration, m: Mosaic) -> bool {
    match m {
        Mosaic::Gray => false,
        Mosaic::Filters { .. } => 1 <= c.black && 1 <= c.white,
        Mosaic::Linear => 1 <= c.black || 1 <= c.white,
    }
}

/// Whether colors can be calibrated: by up to four rows of three entries for
/// the standard daylight, else by three rows for another light, else not at
/// all.
pub open spec fn has_matrix(c: Calibration) -> bool {
    match c.daylight {
        Some(n) => n as int % 3 == 0 && n <= 12,
        None => match c.other {
            Some(n) => n == 9,
            None => true,
        },
    }
}

/// Whether the samples are interpolated between filters.
pub open spec fn is_interpolated(f: Frame, m: Mosaic) -> bool {
    m is Filters && f.components == 1
}

/// The size of the developed image before a part is cut out.
pub open spec fn developed_size(f: Frame, m: Mosaic) -> (int, int) {
    if is_diagonal(f, m) {
        let (a, b) = turned_sides(f);
        (crate::pixels::max_of(a, b), crate::pixels::min_of(a, b))
    } else if is_interpolated(f, m) {
        (region(f).2, region(f).3)
    } else {
        (f.width as int, f.height as int)
    }
}

/// Half of an index in single precision, rounded down.
pub open spec fn halved(n: int) -> int {
    let (m, e) = crate::single::rounded(n, 1);
    crate::pixels::min_of(crate::single::whole((m, e - 1)), usize::MAX as int)
}

/// Whether an area can be cut out of an image of this size. An area of the same
/// size is the image, wherever it starts. An image of one sample for each pixel
/// needs a width to cut, others need one to cut from.
pub open spec fn can_cut(gray: bool, x: int, y: int, w: int, h: int, dw: int, dh: int) -> bool {
    ||| w == dw && h == dh
    ||| gray && 1 <= w && h == 0
    ||| (if gray { 1 <= w } else { 1 <= dw }) && x + w <= dw && y + h <= dh
}

/// Whether the recommended part, or else the active one, can be cut out of the
/// developed image. It lies in the active part, and where the image has half
/// the width of that one, all its numbers are halved.
pub open spec fn has_crop(f: Frame, m: Mosaic) -> bool {
    let crop = if f.crop is Some { f.crop } else { f.active };
    crop matches Some(c) ==> {
        let gray = f.components == 1 && !(m is Filters);
        let (rx, ry, rw, rh) = region(f);
        let (dw, dh) = developed_size(f, m);
        &&& f.active is Some ==> rx <= c.x && ry <= c.y && c.w <= rw && c.h <= rh
        &&& if dw == rw / 2 {
            can_cut(gray, halved(c.x - rx), halved(c.y - ry), halved(c.w as int), halved(c.h as int), dw, dh)
        } else {
            can_cut(gray, c.x - rx, c.y - ry, c.w as int, c.h as int, dw, dh)
        }
    }
}

/// Whether an image with this layout can be developed. This leaves out images
/// that lack samples, filters, levels or a matrix that developing needs, and
/// areas that do not lie in the image.
pub open spec fn developable(f: Frame, c: Calibration, m: Mosaic) -> bool {
    let (rx, ry, rw, rh) = region(f);
    &&& is_filled(f, m)
    &&& has_levels(c, m)
    &&& has_matrix(c)
    &&& is_interpolated(f, m) ==> {
        &&& !(f.active is Some && f.split is Some)
        &&& rx + rw <= f.width && ry + rh <= f.height
        &&& is_interpolable(m, rw, rh)
    }
    &&& is_diagonal(f, m) ==> is_turnable(f)
    &&& has_crop(f, m)
}

/// Whether a list holds only values up to `top`.
fn holds_up_to(list: &Vec<u8>, top: u8) -> (r: bool)
    ensures
        r == all_up_to(list@, top as int),
{
    let mut i: usize = 0;
    while i < list.len()
        invariant
            i <= list.len(),
            forall|j: int| 0 <= j < i ==> #[trigger] list@[j] <= top,
        decreases list.len() - i,
    {
        if list[i] > top {
            assert(list@[i as int] > top);
            return false;
        }
        i = i + 1;
    }
    true
}

/// Whether a value is in a list.
fn is_among(list: &Vec<u8>, v: u8) -> (r: bool)
    ensures
        r == list@.contains(v),
{
    let mut i: usize = 0;
    while i < list.len()
        invariant
            i <= list.len(),
            forall|j: int| 0 <= j < i ==> #[trigger] list@[j] != v,
        decreases list.len() - i,
    {
        if list[i] == v {
            assert(list@[i as int] == v);
            return true;
        }
        i = i + 1;
    }
    false
}

/// Whether each value of a list is also in another.
fn are_among(list: &Vec<u8>, others: &Vec<u8>) -> (r: bool)
    ensures
        r == all_among(list@, others@),
{
    let mut i: usize = 0;
    while i < list.len()
        invariant
            i <= list.len(),
            forall|j: int| 0 <= j < i ==> others@.contains(#[trigger] list@[j]),
        decreases list.len() - i,
    {
        if !is_among(others, list[i]) {
            assert(!others@.contains(list@[i as int]));
            return false;
        }
        i = i + 1;
    }
    true
}

/// Whether the image has the samples of all pixels.
fn check_filled(f: &Frame, m: &Mosaic) -> (r: bool)
    ensures
        r == is_filled(*f, *m),
{
    let limit: u128 = isize::MAX as u128;
    if !(f.components == 1 || f.components == 3 || f.components == 4) {
        return false;
    }
    if matches!(m, Mosaic::Filters { .. }) && f.width < 1 {
        return false;
    }
    match f.width.checked_mul(f.height) {
        Some(n) => f.samples / f.components == n && 4 * (f.samples as u128) <= limit && 16 * (n as u128) <= limit,
        None => false,
    }
}

/// The part of the sensor that is developed.
fn region_of(f: &Frame) -> (r: Area)
    ensures
        (r.x as int, r.y as int, r.w as int, r.h as int) == region(*f),
{
    match f.active {
        Some(a) => a,
        None => Area { x: 0, y: 0, w: f.width, h: f.height },
    }
}

/// Whether the colors between the filters can be interpolated.
fn check_interpolable(m: &Mosaic, w: usize, h: usize) -> (r: bool)
    ensures
        r == is_interpolable(*m, w as int, h as int),
{
    match m {
        Mosaic::Filters { width, height, pattern, distinct, rgb, bayer, planes } => {
            *width <= 48 && *height <= 48 && (if *rgb && *bayer {
                holds_up_to(pattern, 2) && 6 <= w && 6 <= h
            } else if *distinct == 4 && *bayer {
                holds_up_to(pattern, 5) && planes.len() == 4 && are_among(pattern, planes) && 2 <= w && 2 <= h
            } else {
                *rgb && !*bayer && holds_up_to(pattern, 2) && 1 <= w && 1 <= h
            })
        },
        _ => false,
    }
}

/// Whether the image is turned after its colors were interpolated.
fn check_diagonal(f: &Frame, m: &Mosaic) -> (r: bool)
    ensures
        r == is_diagonal(*f, *m),
{
    match (f.split, m) {
        (Some(_), Mosaic::Filters { rgb, bayer, .. }) => f.components == 1 && *rgb && *bayer,
        _ => false,
    }
}

proof fn lemma_root_is_unique(a: int, b: int, v: int)
    requires
        is_root(a, v),
        is_root(b, v),
    ensures
        a == b,
{
    if a < b {
        assert((a + 1) * (a + 1) <= b * b) by (nonlinear_arith)
            requires
                0 <= a < b,
        ;
    }
    if b < a {
        assert((b + 1) * (b + 1) <= a * a) by (nonlinear_arith)
            requires
                0 <= b < a,
        ;
    }
}

/// The whole part of `v` times the square root of two, by bisection.
fn scale_by_root(v: usize) -> (r: usize)
    requires
        v <= 0xff_ffff,
    ensures
        r == times_root(v as int),
        r <= 0x200_0000,
{
    let n: u64 = v as u64;
    assert(n * n <= 0xff_ffff * 0xff_ffff) by (nonlinear_arith)
        requires
            0 <= n <= 0xff_ffff,
    ;
    let square: u64 = 2 * (n * n);
    let mut low: u64 = 0;
    let mut high: u64 = 0x200_0000;
    assert(0x200_0000int * 0x200_0000 > 2 * (0xff_ffff * 0xff_ffff));
    while high - low > 1
        invariant
            low < high <= 0x200_0000,
            low * low <= square,
            square < high * high,
        decreases high - low,
    {
        let mid: u64 = low + (high - low) / 2;
        assert(mid * mid <= 0x200_0000 * 0x200_0000) by (nonlinear_arith)
            requires
                0 <= mid <= 0x200_0000,
        ;
        if mid * mid <= square {
            low = mid;
        } else {
            high = mid;
        }
    }
    proof {
        assert(is_root(low as int, v as int));
        lemma_root_is_unique(low as int, times_root(v as int), v as int);
    }
    low as usize
}

/// The sides of the part that is cut out of a turned sensor.
fn sides_after_turn(f: &Frame, t: usize) -> (r: (usize, usize))
    requires
        f.split == Some(t),
        t <= 0xff_ffff,
        diagonal_side(*f) <= 0xff_ffff,
    ensures
        (r.0 as int, r.1 as int) == turned_sides(*f),
        r.0 <= 0x200_0000,
        r.1 <= 0x200_0000,
{
    let s: usize = if f.quarter { f.height } else { f.width };
    (scale_by_root(t), scale_by_root(if s >= t { s - t } else { 0 }))
}

/// Whether a sensor that is mounted diagonally can be turned.
fn check_turnable(f: &Frame) -> (r: bool)
    ensures
        r == is_turnable(*f),
{
    let s: usize = if f.quarter { f.height } else { f.width };
    match f.split {
        Some(t) => {
            if t > 0xff_ffff || s > 0xff_ffff {
                return false;
            }
            let (a, b): (usize, usize) = sides_after_turn(f, t);
            assert(a * b <= 0x200_0000 * 0x200_0000) by (nonlinear_arith)
                requires
                    0 <= a <= 0x200_0000,
                    0 <= b <= 0x200_0000,
            ;
            12 * (a as u128 * b as u128) <= isize::MAX as u128
        },
        None => false,
    }
}

/// The size of the developed image before a part is cut out.
fn size_of_developed(f: &Frame, m: &Mosaic) -> (r: (usize, usize))
    requires
        is_diagonal(*f, *m) ==> is_turnable(*f),
    ensures
        (r.0 as int, r.1 as int) == developed_size(*f, *m),
{
    if check_diagonal(f, m) {
        if let Some(t) = f.split {
            let (a, b): (usize, usize) = sides_after_turn(f, t);
            return if a >= b { (a, b) } else { (b, a) };
        }
    }
    if f.components == 1 && matches!(m, Mosaic::Filters { .. }) {
        let reg: Area = region_of(f);
        (reg.w, reg.h)
    } else {
        (f.width, f.height)
    }
}

/// Half of an index in single precision, rounded down.
fn halve(n: usize) -> (r: usize)
    ensures
        r == halved(n as int),
{
    let v: Single = from_int(n as u64);
    truncated(Single { m: v.m, e: v.e - 1 })
}

/// Whether an area can be cut out of an image of this size.
fn check_cut(gray: bool, c: Area, dw: usize, dh: usize) -> (r: bool)
    ensures
        r == can_cut(gray, c.x as int, c.y as int, c.w as int, c.h as int, dw as int, dh as int),
{
    if c.w == dw && c.h == dh {
        return true;
    }
    if gray && 1 <= c.w && c.h == 0 {
        return true;
    }
    let wide: bool = if gray { 1 <= c.w } else { 1 <= dw };
    wide && c.w <= dw && c.x <= dw - c.w && c.h <= dh && c.y <= dh - c.h
}

/// Whether the recommended part can be cut out of the developed image.
fn check_crop(f: &Frame, m: &Mosaic) -> (r: bool)
    requires
        is_diagonal(*f, *m) ==> is_turnable(*f),
    ensures
        r == has_crop(*f, *m),
{
    let c: Area = match f.crop {
        Some(c) => c,
        None => match f.active {
            Some(a) => a,
            None => {
                return true;
            },
        },
    };
    let reg: Area = region_of(f);
    if f.active.is_some() && !(reg.x <= c.x && reg.y <= c.y && c.w <= reg.w && c.h <= reg.h) {
        return false;
    }
    let gray: bool = f.components == 1 && !matches!(m, Mosaic::Filters { .. });
    let (dw, dh): (usize, usize) = size_of_developed(f, m);
    let (x, y): (usize, usize) = (c.x - reg.x, c.y - reg.y);
    let part: Area = if dw == reg.w / 2 {
        Area { x: halve(x), y: halve(y), w: halve(c.w), h: halve(c.h) }
    } else {
        Area { x, y, w: c.w, h: c.h }
    };
    check_cut(gray, part, dw, dh)
}

/// Whether an image with this layout can be developed.
pub fn is_developable(f: &Frame, c: &Calibration, m: &Mosaic) -> (r: bool)
    ensures
        r == developable(*f, *c, *m),
{
    if !check_filled(f, m) {
        return false;
    }
    let levels: bool = match m {
        Mosaic::Gray => false,
        Mosaic::Filters { .. } => 1 <= c.black && 1 <= c.white,
        Mosaic::Linear => 1 <= c.black || 1 <= c.white,
    };
    let matrix: bool = match c.daylight {
        Some(n) => n % 3 == 0 && n <= 12,
        None => match c.other {
            Some(n) => n == 9,
            None => true,
        },
    };
    if !levels || !matrix {
        return false;
    }
    if f.components == 1 && matches!(m, Mosaic::Filters { .. }) {
        let reg: Area = region_of(f);
        if f.active.is_some() && f.split.is_some() {
            return false;
        }
        if reg.w > f.width || reg.x > f.width - reg.w || reg.h > f.height || reg.y > f.height - reg.h {
            return false;
        }
        if !check_interpolable(m, reg.w, reg.h) {
            return false;
        }
    }
    if check_diagonal(f, m) && !check_turnable(f) {
        return false;
    }
    check_crop(f, m)
}

/// An image without areas can be developed where it has the samples of all its
/// pixels, levels, a matrix of a known size or none, and filters between which
/// colors can be interpolated, with room for that.
pub proof fn plain_images_need_their_samples(f: Frame, c: Calibration, m: Mosaic)
    requires
        f.active is None && f.crop is None && f.split is None,
    ensures
        developable(f, c, m) <==> {
            &&& f.components == 1 || f.components == 3 || f.components == 4
            &&& f.samples as int / f.components as int == f.width * f.height
            &&& 4 * f.samples <= isize::MAX && 16 * (f.width * f.height) <= isize::MAX
            &&& c.daylight matches Some(n) ==> n == 0 || n == 3 || n == 6 || n == 9 || n == 12
            &&& c.daylight is None && c.other is Some ==> c.other->0 == 9
            &&& match m {
                Mosaic::Gray => false,
                Mosaic::Linear => c.black > 0 || c.white > 0,
                Mosaic::Filters { width, height, pattern, distinct, rgb, bayer, planes } => {
                    &&& f.width > 0 && c.black > 0 && c.white > 0
                    &&& f.components == 1 ==> width <= 48 && height <= 48 && {
                        ||| rgb && bayer && f.width >= 6 && f.height >= 6 && forall|i: int|
                            0 <= i < pattern@.len() ==> #[trigger] pattern@[i] < 3
                        ||| !rgb && bayer && distinct == 4 && f.width >= 2 && f.height >= 2 && planes@.len() == 4 && forall|i: int|
                            0 <= i < pattern@.len() ==> #[trigger] pattern@[i] < 6 && planes@.contains(pattern@[i])
                        ||| rgb && !bayer && f.height >= 1 && forall|i: int|
                            0 <= i < pattern@.len() ==> #[trigger] pattern@[i] < 3
                    }
                },
            }
        },
{
    if let Mosaic::Filters { pattern, planes, .. } = m {
        assert(all_up_to(pattern@, 5) && all_among(pattern@, planes@) <==> forall|i: int|
            0 <= i < pattern@.len() ==> #[trigger] pattern@[i] < 6 && planes@.contains(pattern@[i])) by {
            if all_up_to(pattern@, 5) && all_among(pattern@, planes@) {
                assert forall|i: int| 0 <= i < pattern@.len() implies #[trigger] pattern@[i] < 6 && planes@.contains(
                    pattern@[i],
                ) by {
                    assert(pattern@[i] <= 5);
                }
            }
        }
        assert(all_up_to(pattern@, 2) <==> forall|i: int| 0 <= i < pattern@.len() ==> #[trigger] pattern@[i] < 3);
    }
}

/// A recommended part is cut out where it lies in the image or has its size; of
/// gray images it must be wide, and may also have no rows.
pub proof fn parts_lie_in_the_image(f: Frame, c: Calibration, m: Mosaic, part: Area)
    requires
        f.active is None && f.split is None,
        f.crop == Some(part),
        f.width > 0,
    ensures
        ({
            let gray = f.components == 1 && !(m is Filters);
            let inside = part.x + part.w <= f.width && part.y + part.h <= f.height;
            developable(f, c, m) <==> developable((Frame { crop: None, ..f }), c, m) && {
                ||| part.w == f.width && part.h == f.height
                ||| inside && (gray ==> part.w > 0)
                ||| gray && part.w > 0 && part.h == 0
            }
        }),
{
}

/// Filters are developed in the active part alone, which lies in the image, and
/// a recommended part lies in the active one.
pub proof fn active_parts_hold_the_others(f: Frame, c: Calibration, m: Mosaic, active: Area)
    requires
        f.active == Some(active),
        developable(f, c, m),
    ensures
        f.crop matches Some(part) ==> active.x <= part.x && active.y <= part.y && part.w <= active.w && part.h <= active.h,
        f.components == 1 && m is Filters ==> {
            &&& active.x + active.w <= f.width && active.y + active.h <= f.height
            &&& f.split is None
            &&& f.crop matches Some(part) ==> part.w == active.w && part.h == active.h || part.x + part.w <= active.x + active.w
                && part.y + part.h <= active.y + active.h
        },
{
}

/// The diagonal of a square has as many whole pixels as its side times the
/// square root of two.
pub proof fn diagonals_are_rounded_down(v: int)
    requires
        0 <= v,
    ensures
        0 <= times_root(v),
        times_root(v) * times_root(v) <= 2 * (v * v) < (times_root(v) + 1) * (times_root(v) + 1),
{
    assert(0 <= 2 * (v * v)) by (nonlinear_arith);
    let d = lemma_root_exists(v, 0);
    assert(is_root(d, v));
    assert(is_root(times_root(v), v));
}

proof fn lemma_root_exists(v: int, d: int) -> (r: int)
    requires
        0 <= d,
        d * d <= 2 * (v * v),
    ensures
        is_root(r, v),
    decreases 2 * (v * v) - d * d,
{
    if (d + 1) * (d + 1) <= 2 * (v * v) {
        assert(d * d < (d + 1) * (d + 1)) by (nonlinear_arith)
            requires
                0 <= d,
        ;
        lemma_root_exists(v, d + 1)
    } else {
        d
    }
}

/// Half of an index that single precision holds is rounded down.
pub proof fn halves_are_rounded_down(n: int)
    requires
        0 <= n <= 0x100_0000,
    ensures
        halved(n) == n / 2,
{
    let (m, e) = crate::single::rounded(n, 1);
    if n == 0 {
        crate::single::whole_parts_are_rounded_down(0, -1);
        crate::single::lemma_p2_adds(1, 1);
        let (t, x) = (crate::single::whole((0int, -1int)), crate::single::p2(1));
        assert(t == 0) by (nonlinear_arith)
            requires
                t * x <= 0,
                0 < (t + 1) * x,
                1 <= x,
        ;
    } else {
        crate::single::lemma_small_integers_are_exact(n);
        crate::single::lemma_p2_adds(1, e + 199);
        crate::single::lemma_p2_adds(1, 1);
        crate::single::lemma_p2_adds(0, 0);
        vstd::arithmetic::power2::lemma2_to64();
        vstd::arithmetic::power2::lemma_pow2_pos(200);
        let (y, z) = (crate::single::p2(e + 199), crate::single::p2(200));
        assert(crate::single::p2(e + 200) == 2 * y);
        let k = n / 2;
        assert(2 * (m * y) == n * z) by (nonlinear_arith)
            requires
                m * (2 * y) == n * z,
        ;
        assert(k * z <= m * y && m * y < (k + 1) * z) by (nonlinear_arith)
            requires
                2 * (m * y) == n * z,
                2 * k <= n < 2 * k + 2,
                1 <= z,
        ;
        crate::single::lemma_whole_at_least((m, e - 1), k);
        crate::single::lemma_whole_at_most((m, e - 1), k);
    }
}

/// A recommended part of filters with an active part is cut out where it lies in
/// the active part, touching its edges or not, or has its size.
pub proof fn parts_lie_in_the_active_one(f: Frame, c: Calibration, m: Mosaic, active: Area, part: Area)
    requires
        f.active == Some(active),
        f.crop == Some(part),
        f.split is None,
        f.components == 1,
        m is Filters,
    ensures
        developable(f, c, m) <==> developable((Frame { crop: None, ..f }), c, m) && {
            &&& active.x <= part.x && active.y <= part.y && part.w <= active.w && part.h <= active.h
            &&& {
                ||| part.w == active.w && part.h == active.h
                ||| part.x + part.w <= active.x + active.w && part.y + part.h <= active.y + active.h
            }
        },
{
}

} // verus!
