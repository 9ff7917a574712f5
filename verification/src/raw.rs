//! RAW photo import.
//!
//! Decode path: raw bytes, developed to floating-point RGB by rawler, then
//! 8-bit RGBA with the orientation of the photo applied.
use crate::layout::{is_developable, Area, Calibration, Frame, Mosaic};
use crate::number::F32;
use crate::single::scale_index;
use crate::text::{has_prefix, has_suffix, to_lowercase};
use rawler::decoders::{Orientation, RawDecodeParams};
use rawler::imgop::develop::{Intermediate, RawDevelop};
use rawler::imgop::sensor::SensorType;
use rawler::imgop::xyz::Illuminant;
use rawler::rawimage::{RawImage, RawImageData, RawPhotometricInterpretation};
use rawler::rawsource::RawSource;
use rawler::RawlerError;
use vstd::prelude::*;

verus! {

/// File name extensions of RAW photos.
pub const RAW_EXTENSIONS: [&'static str; 11] = [
    "dng", "cr2", "cr3", "nef", "nrw", "arw", "orf", "rw2", "raf", "pef", "srw",
];

/// Whether a lowercase file name ends with a dot and a RAW extension.
pub open spec fn has_raw_extension(name: Seq<char>) -> bool {
    exists|i: int|
        0 <= i < RAW_EXTENSIONS.len() && crate::text::ends_with(name, seq!['.'] + #[trigger] RAW_EXTENSIONS[i]@)
}

/// Whether a lowercase file name is that of a RAW photo.
pub fn is_raw_lowercase(name: &str) -> (r: bool)
    ensures
        r == has_raw_extension(name@),
{
    proof {
        reveal_strlit(".");
    }
    let mut i: usize = 0;
    while i < 11
        invariant
            i <= 11,
            "."@ == seq!['.'],
            forall|j: int|
                0 <= j < i ==> !crate::text::ends_with(name@, seq!['.'] + #[trigger] RAW_EXTENSIONS[j]@),
        decreases 11 - i,
    {
        let mut suffix: String = ".".to_string();
        suffix.append(RAW_EXTENSIONS[i]);
        if has_suffix(name, suffix.as_str()) {
            assert(crate::text::ends_with(name@, seq!['.'] + RAW_EXTENSIONS[i as int]@));
            return true;
        }
        i = i + 1;
    }
    false
}

/// Whether a file name is that of a RAW photo, in upper or lower case.
pub fn is_raw_name(name: &str) -> (r: bool)
    ensures
        r == has_raw_extension(crate::text::lowercase(name@)),
        crate::text::all_ascii(name@) ==> r == has_raw_extension(crate::text::ascii_lowercase(name@)),
{
    let n: String = to_lowercase(name);
    is_raw_lowercase(n.as_str())
}

/// How pixels of an image are moved.
#[derive(Clone, Copy, PartialEq, Eq, Structural, Debug)]
pub enum Flip {
    /// Left and right are swapped.
    Horizontal,
    /// Top and bottom are swapped.
    Vertical,
    /// Columns become rows.
    Transpose,
}

/// Index of the pixel that becomes pixel `q` of the moved image.
pub open spec fn flip_source(flip: Flip, w: int, h: int, q: int) -> int {
    match flip {
        Flip::Horizontal => crate::pixels::cell(w, w - 1 - q % w, q / w),
        Flip::Vertical => crate::pixels::cell(w, q % w, h - 1 - q / w),
        Flip::Transpose => crate::pixels::cell(w, q / h, q % h),
    }
}

/// Size of the moved image.
pub open spec fn flipped_size(flip: Flip, w: int, h: int) -> (int, int) {
    if flip == Flip::Transpose {
        (h, w)
    } else {
        (w, h)
    }
}

/// The moved image. Bytes behind the last pixel are 0.
pub open spec fn flipped(src: Seq<u8>, w: int, h: int, flip: Flip) -> Seq<u8> {
    Seq::new(
        src.len(),
        |b: int|
            if b < 4 * (w * h) {
                src[4 * flip_source(flip, w, h, b / 4) + b % 4]
            } else {
                0
            },
    )
}

proof fn lemma_flip_source(flip: Flip, w: int, h: int, q: int)
    requires
        0 <= w,
        0 <= h,
        0 <= q < w * h,
    ensures
        0 < w,
        0 < h,
        0 <= q % w < w,
        0 <= q / w < h,
        0 <= q % h < h,
        0 <= q / h < w,
        0 <= flip_source(flip, w, h, q) < w * h,
{
    vstd::arithmetic::mul::lemma_mul_is_commutative(w, h);
    crate::pixels::lemma_coords(w, h, q);
    crate::pixels::lemma_coords(h, w, q);
    match flip {
        Flip::Horizontal => crate::pixels::lemma_cell(w, h, w - 1 - q % w, q / w),
        Flip::Vertical => crate::pixels::lemma_cell(w, h, q % w, h - 1 - q / w),
        Flip::Transpose => crate::pixels::lemma_cell(w, h, q / h, q % h),
    }
}

/// Moving the pixels of an image twice in the same way gives it back.
pub proof fn flipping_twice_restores(src: Seq<u8>, w: int, h: int, flip: Flip)
    requires
        0 <= w,
        0 <= h,
        src.len() == 4 * (w * h),
    ensures
        flipped(flipped(src, w, h, flip), flipped_size(flip, w, h).0, flipped_size(flip, w, h).1, flip) == src,
{
    let (ow, oh) = flipped_size(flip, w, h);
    vstd::arithmetic::mul::lemma_mul_is_commutative(w, h);
    let once = flipped(src, w, h, flip);
    let twice = flipped(once, ow, oh, flip);
    assert forall|b: int| 0 <= b < src.len() implies twice[b] == src[b] by {
        let q = b / 4;
        lemma_flip_source(flip, ow, oh, q);
        let m = flip_source(flip, ow, oh, q);
        lemma_flip_source(flip, w, h, m);
        assert((4 * m + b % 4) / 4 == m && (4 * m + b % 4) % 4 == b % 4);
        crate::pixels::lemma_coords(w, h, q);
        crate::pixels::lemma_coords(ow, oh, q);
        match flip {
            Flip::Horizontal => crate::pixels::lemma_cell(w, h, w - 1 - q % w, q / w),
            Flip::Vertical => crate::pixels::lemma_cell(w, h, q % w, h - 1 - q / w),
            Flip::Transpose => crate::pixels::lemma_cell(h, w, q / w, q % w),
        }
    }
    assert(twice =~= src);
}

/// Moves the pixels of an image.
fn flip_image(src: &[u8], w: usize, h: usize, flip: Flip) -> (out: Vec<u8>)
    requires
        4 * (w * h) <= src.len(),
    ensures
        out@ == flipped(src@, w as int, h as int, flip),
{
    let ghost (gw, gh) = (w as int, h as int);
    let ghost want = flipped(src@, gw, gh, flip);
    let n: usize = w * h;
    let len: usize = src.len();
    let mut out: Vec<u8> = Vec::new();
    let mut q: usize = 0;
    while q < n
        invariant
            q <= n,
            n == w * h,
            gw == w,
            gh == h,
            4 * n <= src.len(),
            want == flipped(src@, gw, gh, flip),
            out@ == want.take(4 * q),
        decreases n - q,
    {
        proof {
            lemma_flip_source(flip, gw, gh, q as int);
        }
        let (x, y): (usize, usize) = match flip {
            Flip::Horizontal => (w - 1 - q % w, q / w),
            Flip::Vertical => (q % w, h - 1 - q / w),
            Flip::Transpose => (q / h, q % h),
        };
        proof {
            crate::pixels::lemma_cell(gw, gh, x as int, y as int);
        }
        let i: usize = (y * w + x) * 4;
        out.push(src[i]);
        out.push(src[i + 1]);
        out.push(src[i + 2]);
        out.push(src[i + 3]);
        assert(out@ =~= want.take(4 * (q + 1)));
        q = q + 1;
    }
    let mut b: usize = 4 * n;
    while b < len
        invariant
            4 * n <= b <= len,
            n == gw * gh,
            len == src.len(),
            want == flipped(src@, gw, gh, flip),
            out@ == want.take(b as int),
        decreases len - b,
    {
        out.push(0);
        assert(out@ =~= want.take(b + 1));
        b = b + 1;
    }
    assert(out@ =~= want);
    out
}

/// Swaps left and right.
pub fn flip_horizontal(src: &[u8], w: usize, h: usize) -> (out: Vec<u8>)
    requires
        4 * (w * h) <= src.len(),
    ensures
        out@ == flipped(src@, w as int, h as int, Flip::Horizontal),
{
    flip_image(src, w, h, Flip::Horizontal)
}

/// Swaps top and bottom.
pub fn flip_vertical(src: &[u8], w: usize, h: usize) -> (out: Vec<u8>)
    requires
        4 * (w * h) <= src.len(),
    ensures
        out@ == flipped(src@, w as int, h as int, Flip::Vertical),
{
    flip_image(src, w, h, Flip::Vertical)
}

/// Turns columns into rows. Returns the pixels with the swapped size.
pub fn transpose(src: &[u8], w: usize, h: usize) -> (r: (Vec<u8>, usize, usize))
    requires
        4 * (w * h) <= src.len(),
    ensures
        r.0@ == flipped(src@, w as int, h as int, Flip::Transpose),
        r.1 == h,
        r.2 == w,
{
    (flip_image(src, w, h, Flip::Transpose), h, w)
}

/// How the orientation with this TIFF code is undone: whether to transpose,
/// and whether to swap left and right, or top and bottom, before that.
pub open spec fn flips_of(code: u16) -> (bool, bool, bool) {
    if code == 2 {
        (false, true, false)
    } else if code == 3 {
        (false, true, true)
    } else if code == 4 {
        (false, false, true)
    } else if code == 5 {
        (true, false, false)
    } else if code == 6 {
        (true, false, true)
    } else if code == 7 {
        (true, true, true)
    } else if code == 8 {
        (true, true, false)
    } else {
        (false, false, false)
    }
}

/// Calls `Orientation::from_u16` and `Orientation::to_flips` of rawler. Codes 2
/// to 8 have the flips that `flips_of` lists; every other code has none.
#[verifier::external_body]
fn orientation_flips(code: u16) -> (r: (bool, bool, bool))
    ensures
        r == flips_of(code),
{
    Orientation::from_u16(code).to_flips()
}

/// The image with a flip applied if it is asked for.
pub open spec fn flipped_if(src: Seq<u8>, w: int, h: int, flip: Flip, wanted: bool) -> Seq<u8> {
    if wanted {
        flipped(src, w, h, flip)
    } else {
        src
    }
}

/// The image with an orientation undone: flips first, then the transpose.
pub open spec fn oriented(src: Seq<u8>, w: int, h: int, code: u16) -> Seq<u8> {
    let (t, x, y) = flips_of(code);
    flipped_if(
        flipped_if(flipped_if(src, w, h, Flip::Horizontal, x), w, h, Flip::Vertical, y),
        w,
        h,
        Flip::Transpose,
        t,
    )
}

/// Size of the image with an orientation undone.
pub open spec fn oriented_size(w: int, h: int, code: u16) -> (int, int) {
    if flips_of(code).0 {
        (h, w)
    } else {
        (w, h)
    }
}

/// Undoes the orientation with this TIFF code; the flips must be applied
/// before the transpose.
pub fn apply_orientation(rgba: Vec<u8>, w: usize, h: usize, code: u16) -> (r: (Vec<u8>, usize, usize))
    requires
        4 * (w * h) <= rgba.len(),
    ensures
        r.0@ == oriented(rgba@, w as int, h as int, code),
        (r.1 as int, r.2 as int) == oriented_size(w as int, h as int, code),
{
    let (do_transpose, flip_x, flip_y) = orientation_flips(code);
    let mut px: Vec<u8> = rgba;
    let len: usize = px.len();
    if flip_x {
        px = flip_horizontal(px.as_slice(), w, h);
    }
    assert(px.len() == len);
    if flip_y {
        px = flip_vertical(px.as_slice(), w, h);
    }
    assert(px.len() == len);
    if do_transpose {
        transpose(px.as_slice(), w, h)
    } else {
        (px, w, h)
    }
}

/// The orientations that stand for quarter turns are undone by quarter turns.
pub proof fn turned_orientations_are_turns(src: Seq<u8>, w: int, h: int)
    requires
        0 <= w,
        0 <= h,
        src.len() == 4 * (w * h),
    ensures
        oriented(src, w, h, 6) == crate::ops::turned(src, w, h, 1),
        oriented(src, w, h, 3) == crate::ops::turned(src, w, h, 2),
        oriented(src, w, h, 8) == crate::ops::turned(src, w, h, 3),
        oriented(src, w, h, 1) == src,
{
    vstd::arithmetic::mul::lemma_mul_is_commutative(w, h);
    let a = flipped(src, w, h, Flip::Horizontal);
    let b = flipped(src, w, h, Flip::Vertical);
    assert forall|i: int| 0 <= i < src.len() implies oriented(src, w, h, 6)[i] == crate::ops::turned(src, w, h, 1)[i]
        && oriented(src, w, h, 8)[i] == crate::ops::turned(src, w, h, 3)[i] && oriented(src, w, h, 3)[i]
        == crate::ops::turned(src, w, h, 2)[i] by {
        let q = i / 4;
        lemma_flip_source(Flip::Transpose, w, h, q);
        let m = flip_source(Flip::Transpose, w, h, q);
        crate::pixels::lemma_cell(w, h, q / h, q % h);
        lemma_flip_source(Flip::Vertical, w, h, m);
        lemma_flip_source(Flip::Horizontal, w, h, m);
        assert((4 * m + i % 4) / 4 == m && (4 * m + i % 4) % 4 == i % 4);
        lemma_flip_source(Flip::Vertical, w, h, q);
        let v = flip_source(Flip::Vertical, w, h, q);
        crate::pixels::lemma_cell(w, h, q % w, h - 1 - q / w);
        lemma_flip_source(Flip::Horizontal, w, h, v);
        assert((4 * v + i % 4) / 4 == v && (4 * v + i % 4) % 4 == i % 4);
    }
    assert(oriented(src, w, h, 6) =~= crate::ops::turned(src, w, h, 1));
    assert(oriented(src, w, h, 3) =~= crate::ops::turned(src, w, h, 2));
    assert(oriented(src, w, h, 8) =~= crate::ops::turned(src, w, h, 3));
}

/// A RAW file in memory.
#[verifier::external_type_specification]
#[verifier::external_body]
pub struct ExRawSource(RawSource);

/// The sensor data of a RAW file.
#[verifier::external_type_specification]
#[verifier::external_body]
pub struct ExRawImage(RawImage);

/// A developed photo.
#[verifier::external_type_specification]
#[verifier::external_body]
pub struct ExIntermediate(Intermediate);

/// Why rawler gave up.
#[verifier::external_type_specification]
#[verifier::external_body]
pub struct ExRawlerError(RawlerError);

/// A developed photo as plain values: samples by their bit patterns, row by
/// row.
#[derive(Debug)]
pub enum Developed {
    /// One sample for each pixel.
    Monochrome { width: usize, height: usize, gray: Vec<u32> },
    /// Red, green and blue.
    ThreeColor { width: usize, height: usize, rgb: Vec<[u32; 3]> },
    /// Red, green, blue and a fourth color.
    FourColor { width: usize, height: usize, rgbe: Vec<[u32; 4]> },
}

impl Developed {
    /// Size of the photo.
    pub open spec fn size(self) -> (int, int) {
        match self {
            Developed::Monochrome { width, height, .. } => (width as int, height as int),
            Developed::ThreeColor { width, height, .. } => (width as int, height as int),
            Developed::FourColor { width, height, .. } => (width as int, height as int),
        }
    }

    /// Number of pixels that are there.
    pub open spec fn count(self) -> int {
        match self {
            Developed::Monochrome { gray, .. } => gray@.len() as int,
            Developed::ThreeColor { rgb, .. } => rgb@.len() as int,
            Developed::FourColor { rgbe, .. } => rgbe@.len() as int,
        }
    }

    /// Sample of color `c` of pixel `p`.
    pub open spec fn sample(self, p: int, c: int) -> u32 {
        match self {
            Developed::Monochrome { gray, .. } => gray@[p],
            Developed::ThreeColor { rgb, .. } => rgb@[p][c],
            Developed::FourColor { rgbe, .. } => rgbe@[p][c],
        }
    }

    /// Byte `b` of the photo as RGBA: samples in the unit interval become
    /// bytes, and each pixel is opaque.
    pub open spec fn byte(self, b: int) -> u8 {
        if b % 4 == 3 {
            255
        } else {
            quantized(self.sample(b / 4, b % 4))
        }
    }

    /// The photo as RGBA.
    pub open spec fn rgba(self) -> Seq<u8> {
        Seq::new((4 * self.count()) as nat, |b: int| self.byte(b))
    }
}

/// The byte nearest to a sample times 255, from 0 to 255. NaN gives 0.
pub open spec fn quantized(bits: u32) -> u8 {
    crate::pixels::min_of(crate::single::scaled(F32 { bits }, 255), 255) as u8
}

/// The byte nearest to a sample times 255.
pub fn quantize(bits: u32) -> (r: u8)
    ensures
        r == quantized(bits),
{
    let v: usize = scale_index(F32 { bits }, 255);
    if v > 255 {
        255
    } else {
        v as u8
    }
}

/// The bytes that a source holds.
pub uninterp spec fn source_bytes(source: RawSource) -> Seq<u8>;

/// Calls `RawSource::new_from_slice` of rawler, which copies the bytes: the
/// source holds them.
#[verifier::external_body]
fn open_source(bytes: &[u8]) -> (r: RawSource)
    ensures
        source_bytes(r) == bytes@,
{
    RawSource::new_from_slice(bytes)
}

/// The text of an error of rawler.
pub uninterp spec fn error_message(error: RawlerError) -> Seq<char>;

/// Formats an error of rawler by its `Display`.
#[verifier::external_body]
fn error_text(error: &RawlerError) -> (r: String)
    ensures
        r@ == error_message(*error),
{
    format!("{error}")
}

/// Whether the text of an error tells that a decoder panicked.
pub open spec fn tells_of_panic(text: Seq<char>) -> bool {
    crate::text::begins_with(
        text,
        "Failed to decode image, possibly corrupt image: Caught a panic while decoding."@,
    )
}

/// Whether the text of an error tells that a decoder panicked.
fn is_panic_text(text: &str) -> (r: bool)
    ensures
        r == tells_of_panic(text@),
{
    has_prefix(text, "Failed to decode image, possibly corrupt image: Caught a panic while decoding.")
}

/// Whether rawler finds a decoder for a file with these bytes. `None` where it
/// panics while it looks for one.
pub uninterp spec fn decoder_lookup(bytes: Seq<u8>) -> Option<bool>;

/// Calls `rawler::decode` for the first image of the file, which looks for a
/// decoder and lets it read the image, and gives an error of its own, told by
/// its text, where one of the two panics. So an image comes from a decoder that
/// was found, any other error means that looking for one came to an end, and the
/// one for a panic does not come where no decoder was found. Less than four
/// bytes are too few for any decoder. Nothing else is claimed of the outcome:
/// decoders read environment variables.
#[verifier::external_body]
fn read_raw(source: &RawSource) -> (r: Result<RawImage, RawlerError>)
    ensures
        r is Ok ==> decoder_lookup(source_bytes(*source)) == Some(true),
        r matches Err(e) && tells_of_panic(error_message(e)) ==> decoder_lookup(source_bytes(*source)) != Some(false),
        r matches Err(e) && !tells_of_panic(error_message(e)) ==> decoder_lookup(source_bytes(*source)) is Some,
        source_bytes(*source).len() < 4 ==> r is Err && !tells_of_panic(error_message(r->Err_0)),
{
    rawler::decode(source, &RawDecodeParams { image_index: 0 })
}

/// Calls `rawler::get_decoder`, and drops the decoder. Whether there is one
/// depends on the bytes alone; less than four bytes are too few for any.
#[verifier::external_body]
fn find_decoder(source: &RawSource) -> (r: Result<(), RawlerError>)
    requires
        decoder_lookup(source_bytes(*source)) is Some,
    ensures
        decoder_lookup(source_bytes(*source)) == Some(r is Ok),
        source_bytes(*source).len() < 4 ==> r is Err,
{
    match rawler::get_decoder(source) {
        Ok(_) => Ok(()),
        Err(e) => Err(e),
    }
}

/// Sizes and areas that an image of rawler has.
pub uninterp spec fn image_frame(image: RawImage) -> Frame;

/// Reads the sizes and areas of an image of rawler off its fields, and the hint
/// on a turned sensor by `Camera::find_hint`.
#[verifier::external_body]
fn frame_of(image: &RawImage) -> (r: Frame)
    ensures
        r == image_frame(*image),
{
    let samples = match &image.data {
        RawImageData::Integer(d) => d.len(),
        RawImageData::Float(d) => d.len(),
    };
    let active = image.active_area.map(|a| Area { x: a.p.x, y: a.p.y, w: a.d.w, h: a.d.h });
    let crop = image.crop_area.map(|a| Area { x: a.p.x, y: a.p.y, w: a.d.w, h: a.d.h });
    let quarter = image.camera.find_hint("fuji_rotate_90cw");
    let (width, height, components, split) = (image.width, image.height, image.cpp, image.fuji_rotation_width);
    Frame { width, height, components, samples, active, crop, split, quarter }
}

/// Numbers of levels and of matrix entries that an image of rawler has.
pub uninterp spec fn image_calibration(image: RawImage) -> Calibration;

/// Reads the numbers of levels of an image of rawler off its fields, and those
/// of matrix entries by `RawImage::color_matrix_find_first`, for the lights that
/// developing looks for.
#[verifier::external_body]
fn calibration_of(image: &RawImage) -> (r: Calibration)
    ensures
        r == image_calibration(*image),
{
    let lights = [
        Illuminant::A, Illuminant::B, Illuminant::C, Illuminant::D50, Illuminant::D55, Illuminant::D75,
        Illuminant::Daylight, Illuminant::Flash,
    ];
    let daylight = image.color_matrix_find_first([Illuminant::D65]).map(|m| m.1.len());
    let other = image.color_matrix_find_first(lights).map(|m| m.1.len());
    Calibration { black: image.blacklevel.levels.len(), white: image.whitelevel.0.len(), daylight, other }
}

/// How the samples of an image of rawler are to be understood.
pub uninterp spec fn image_mosaic(image: RawImage) -> Mosaic;

/// Takes the photometric interpretation of an image of rawler apart, and reads
/// its filters by `CFA::flat_pattern`, `CFA::unique_colors` and `CFA::is_rgb`.
#[verifier::external_body]
fn mosaic_of(image: &RawImage) -> (r: Mosaic)
    ensures
        r == image_mosaic(*image),
{
    match &image.photometric {
        RawPhotometricInterpretation::BlackIsZero => Mosaic::Gray,
        RawPhotometricInterpretation::LinearRaw => Mosaic::Linear,
        RawPhotometricInterpretation::Cfa(c) => {
            let bayer = match c.sensor { SensorType::Bayer => true, SensorType::Xtrans => false };
            let planes = c.colors.colors.iter().map(|x| *x as u8).collect();
            let (pattern, distinct, rgb) = (c.cfa.flat_pattern(), c.cfa.unique_colors(), c.cfa.is_rgb());
            Mosaic::Filters { width: c.cfa.width, height: c.cfa.height, pattern, distinct, rgb, bayer, planes }
        },
    }
}

/// Whether an image can be developed.
pub open spec fn image_developable(image: RawImage) -> bool {
    crate::layout::developable(image_frame(image), image_calibration(image), image_mosaic(image))
}

/// Calls `RawDevelop::develop_intermediate` of rawler with the default steps. It
/// does not panic on images with a layout that can be developed. Nothing is
/// claimed of the outcome: neither the image nor the photo can be looked into
/// here.
#[verifier::external_body]
fn develop(image: &RawImage) -> Result<Intermediate, RawlerError>
    requires
        image_developable(*image),
{
    RawDevelop::default().develop_intermediate(image)
}

/// Calls `Orientation::to_u16` of rawler on the orientation of the image. The
/// result is a TIFF orientation code, or 0 where it is unknown.
#[verifier::external_body]
fn orientation_code(image: &RawImage) -> (r: u16)
    ensures
        r <= 8,
{
    image.orientation.to_u16()
}

/// Takes an `Intermediate` of rawler apart: its variant, width and height stay,
/// and each sample becomes its bit pattern. Nothing is claimed of the values,
/// since the photo cannot be looked into here.
#[verifier::external_body]
fn unpack(photo: Intermediate) -> Developed {
    match photo {
        Intermediate::Monochrome(p) => {
            let data = p.data.iter().map(|v| v.to_bits()).collect();
            Developed::Monochrome { width: p.width, height: p.height, gray: data }
        },
        Intermediate::ThreeColor(p) => {
            let data = p.data.iter().map(|v| v.map(|x| x.to_bits())).collect();
            Developed::ThreeColor { width: p.width, height: p.height, rgb: data }
        },
        Intermediate::FourColor(p) => {
            let data = p.data.iter().map(|v| v.map(|x| x.to_bits())).collect();
            Developed::FourColor { width: p.width, height: p.height, rgbe: data }
        },
    }
}

/// The samples of a developed photo as RGBA bytes.
fn to_rgba(photo: &Developed) -> (out: Vec<u8>)
    requires
        4 * photo.count() <= usize::MAX,
    ensures
        out@ == photo.rgba(),
{
    let n: usize = match photo {
        Developed::Monochrome { gray, .. } => gray.len(),
        Developed::ThreeColor { rgb, .. } => rgb.len(),
        Developed::FourColor { rgbe, .. } => rgbe.len(),
    };
    let mut out: Vec<u8> = Vec::new();
    let mut p: usize = 0;
    while p < n
        invariant
            p <= n,
            n == photo.count(),
            out@ == photo.rgba().take(4 * p),
        decreases n - p,
    {
        let (r, g, b): (u8, u8, u8) = match photo {
            Developed::Monochrome { gray, .. } => {
                let v: u8 = quantize(gray[p]);
                (v, v, v)
            },
            Developed::ThreeColor { rgb, .. } => (quantize(rgb[p][0]), quantize(rgb[p][1]), quantize(rgb[p][2])),
            Developed::FourColor { rgbe, .. } => (quantize(rgbe[p][0]), quantize(rgbe[p][1]), quantize(rgbe[p][2])),
        };
        out.push(r);
        out.push(g);
        out.push(b);
        out.push(255);
        assert(out@ =~= photo.rgba().take(4 * (p + 1))) by {
            assert((4 * p) % 4 == 0 && (4 * p) / 4 == p);
            assert((4 * p + 1) % 4 == 1 && (4 * p + 1) / 4 == p);
            assert((4 * p + 2) % 4 == 2 && (4 * p + 2) / 4 == p);
            assert((4 * p + 3) % 4 == 3);
        }
        p = p + 1;
    }
    assert(out@ =~= photo.rgba());
    out
}

/// Whether a developed photo has a sample for each of its pixels, and its RGBA
/// bytes can be indexed.
pub open spec fn is_complete(photo: Developed) -> bool {
    photo.count() == photo.size().0 * photo.size().1 && 4 * photo.count() <= usize::MAX
}

/// A developed photo as RGBA with its orientation undone. `None` for a photo
/// whose samples do not match its size.
pub fn import_developed(photo: &Developed, code: u16) -> (r: Option<(Vec<u8>, usize, usize)>)
    ensures
        match r {
            Some((rgba, w, h)) => {
                &&& is_complete(*photo)
                &&& rgba@ == oriented(photo.rgba(), photo.size().0, photo.size().1, code)
                &&& (w as int, h as int) == oriented_size(photo.size().0, photo.size().1, code)
            },
            None => !is_complete(*photo),
        },
{
    let (w, h, n): (usize, usize, usize) = match photo {
        Developed::Monochrome { width, height, gray } => (*width, *height, gray.len()),
        Developed::ThreeColor { width, height, rgb } => (*width, *height, rgb.len()),
        Developed::FourColor { width, height, rgbe } => (*width, *height, rgbe.len()),
    };
    match w.checked_mul(h) {
        Some(m) => {
            if m != n || n > usize::MAX / 4 {
                return None;
            }
        },
        None => {
            return None;
        },
    }
    Some(apply_orientation(to_rgba(photo), w, h, code))
}

/// How far the import of a RAW file came.
#[derive(Debug)]
pub enum RawOutcome {
    /// Files of this kind are not supported.
    Unsupported(String),
    /// The decoder failed.
    DecodeFailed(String),
    /// Developing failed.
    DevelopFailed(String),
    /// The photo was developed; its orientation has this TIFF code.
    Developed(Developed, u16),
}

/// The message of a step that failed, and why.
fn message(step: &str, why: &str) -> (r: String)
    ensures
        r@ == step@ + why@,
{
    let mut m: String = step.to_string();
    m.append(why);
    m
}

/// Whether `r` is the result of an import that came this far.
pub open spec fn is_result_of(outcome: RawOutcome, r: Result<(Vec<u8>, usize, usize), String>) -> bool {
    match outcome {
        RawOutcome::Unsupported(why) => r matches Err(e) && e@ == "unsupported RAW: "@ + why@,
        RawOutcome::DecodeFailed(why) => r matches Err(e) && e@ == "RAW decode failed: "@ + why@,
        RawOutcome::DevelopFailed(why) => r matches Err(e) && e@ == "RAW develop failed: "@ + why@,
        RawOutcome::Developed(photo, code) => if is_complete(photo) {
            r matches Ok((rgba, w, h)) && {
                &&& rgba@ == oriented(photo.rgba(), photo.size().0, photo.size().1, code)
                &&& (w as int, h as int) == oriented_size(photo.size().0, photo.size().1, code)
            }
        } else {
            r matches Err(e) && e@ == "RAW develop failed: "@ + "samples do not match the size"@
        },
    }
}

/// The result of an import: the pixels of a developed photo, or a message with
/// the step that failed.
pub fn finish_import(outcome: &RawOutcome) -> (r: Result<(Vec<u8>, usize, usize), String>)
    ensures
        is_result_of(*outcome, r),
{
    match outcome {
        RawOutcome::Unsupported(why) => Err(message("unsupported RAW: ", why.as_str())),
        RawOutcome::DecodeFailed(why) => Err(message("RAW decode failed: ", why.as_str())),
        RawOutcome::DevelopFailed(why) => Err(message("RAW develop failed: ", why.as_str())),
        RawOutcome::Developed(photo, code) => match import_developed(photo, *code) {
            Some(pixels) => Ok(pixels),
            None => Err(message("RAW develop failed: ", "samples do not match the size")),
        },
    }
}

/// Whether an import comes this far with an image for which developing gave
/// this: the message is that of the error, and the samples and the orientation
/// are those of the photo and of the image.
spec fn follows_developing(image: RawImage, developed: Result<Intermediate, RawlerError>, outcome: RawOutcome) -> bool {
    match developed {
        Err(e) => outcome matches RawOutcome::DevelopFailed(why) && why@ == error_message(e),
        Ok(photo) => outcome matches RawOutcome::Developed(samples, code) && call_ensures(unpack, (photo,), samples)
            && call_ensures(orientation_code, (&image,), code),
    }
}

/// Whether an import comes this far with a source for which reading gave this
/// error: it is not supported where there is no decoder for it, and else it was
/// not decoded.
spec fn follows_error(source: RawSource, error: RawlerError, outcome: RawOutcome) -> bool {
    if decoder_lookup(source_bytes(source)) == Some(false) {
        exists|found: Result<(), RawlerError>| #[trigger]
            call_ensures(find_decoder, (&source,), found) && (outcome matches RawOutcome::Unsupported(why) && why@
                == error_message(found->Err_0))
    } else {
        outcome matches RawOutcome::DecodeFailed(why) && why@ == error_message(error)
    }
}

/// Whether an import comes this far with a source for which reading gave this:
/// an image with a layout that cannot be developed is not developed, and any
/// other is.
spec fn follows_reading(source: RawSource, read: Result<RawImage, RawlerError>, outcome: RawOutcome) -> bool {
    match read {
        Err(e) => follows_error(source, e, outcome),
        Ok(image) => if image_developable(image) {
            exists|developed: Result<Intermediate, RawlerError>| #[trigger]
                call_ensures(develop, (&image,), developed) && follows_developing(image, developed, outcome)
        } else {
            outcome matches RawOutcome::DevelopFailed(why) && why@ == "the layout of the image is not supported"@
        },
    }
}

/// Whether the import of a file may come this far: rawler read a source with
/// its bytes, and the outcome follows from what that gave.
pub closed spec fn may_come_to(bytes: &[u8], outcome: RawOutcome) -> bool {
    exists|source: RawSource, read: Result<RawImage, RawlerError>| #[trigger]
        call_ensures(read_raw, (&source,), read) && source_bytes(source) == bytes@ && follows_reading(
            source,
            read,
            outcome,
        )
}

/// What an error from reading a source means: that there is no decoder for it,
/// or that the decoder failed.
fn explain_error(source: &RawSource, error: &RawlerError) -> (r: RawOutcome)
    requires
        call_ensures(read_raw, (source,), Err::<RawImage, RawlerError>(*error)),
    ensures
        follows_error(*source, *error, r),
        source_bytes(*source).len() < 4 ==> r is Unsupported,
{
    let why: String = error_text(error);
    if is_panic_text(why.as_str()) {
        return RawOutcome::DecodeFailed(why);
    }
    match find_decoder(source) {
        Err(e) => RawOutcome::Unsupported(error_text(&e)),
        Ok(_) => RawOutcome::DecodeFailed(why),
    }
}

/// What rawler makes of a file.
fn run_import(bytes: &[u8]) -> (r: RawOutcome)
    ensures
        may_come_to(bytes, r),
        r is Unsupported <==> decoder_lookup(bytes@) == Some(false),
        r matches RawOutcome::Developed(_, code) ==> code <= 8,
        bytes@.len() < 4 ==> r is Unsupported,
{
    let source: RawSource = open_source(bytes);
    match read_raw(&source) {
        Err(e) => explain_error(&source, &e),
        Ok(image) => {
            let code: u16 = orientation_code(&image);
            if !is_developable(&frame_of(&image), &calibration_of(&image), &mosaic_of(&image)) {
                return RawOutcome::DevelopFailed("the layout of the image is not supported".to_string());
            }
            match develop(&image) {
                Err(e) => RawOutcome::DevelopFailed(error_text(&e)),
                Ok(photo) => RawOutcome::Developed(unpack(photo), code),
            }
        },
    }
}

/// Decode + develop a RAW file into orientation-corrected RGBA pixels.
///
/// What the photo looks like is up to rawler. The result is what
/// `finish_import` makes of how far rawler came. A file is not supported where
/// rawler finds no decoder for it, such as for less than four bytes.
pub fn decode_raw(bytes: &[u8]) -> (r: Result<(Vec<u8>, usize, usize), String>)
    ensures
        exists|outcome: RawOutcome|
            {
                &&& #[trigger] is_result_of(outcome, r)
                &&& may_come_to(bytes, outcome)
                &&& outcome is Unsupported <==> decoder_lookup(bytes@) == Some(false)
                &&& outcome matches RawOutcome::Developed(_, code) ==> code <= 8
                &&& bytes@.len() < 4 ==> outcome is Unsupported
            },
{
    let outcome: RawOutcome = run_import(bytes);
    finish_import(&outcome)
}

/// The pixels of a finished import fill its size.
pub proof fn imported_pixels_fill_their_size(photo: Developed, code: u16)
    requires
        is_complete(photo),
    ensures
        oriented(photo.rgba(), photo.size().0, photo.size().1, code).len() == 4 * (oriented_size(
            photo.size().0,
            photo.size().1,
            code,
        ).0 * oriented_size(photo.size().0, photo.size().1, code).1),
{
    vstd::arithmetic::mul::lemma_mul_is_commutative(photo.size().0, photo.size().1);
}

/// A horizontal flip moves each pixel to the opposite place of its row, a
/// vertical one to that of its column, and a transpose exchanges its
/// coordinates.
pub proof fn flips_move_pixels(src: Seq<u8>, w: int, h: int, x: int, y: int, c: int)
    requires
        4 * (w * h) <= src.len(),
        0 <= x < w,
        0 <= y < h,
        0 <= c < 4,
    ensures
        flipped(src, w, h, Flip::Horizontal).len() == src.len(),
        flipped(src, w, h, Flip::Vertical).len() == src.len(),
        flipped(src, w, h, Flip::Transpose).len() == src.len(),
        flipped(src, w, h, Flip::Horizontal)[4 * (y * w + w - 1 - x) + c] == src[4 * (y * w + x) + c],
        flipped(src, w, h, Flip::Vertical)[4 * ((h - 1 - y) * w + x) + c] == src[4 * (y * w + x) + c],
        flipped(src, w, h, Flip::Transpose)[4 * (x * h + y) + c] == src[4 * (y * w + x) + c],
        forall|flip: Flip, b: int| 4 * (w * h) <= b < src.len() ==> #[trigger] flipped(src, w, h, flip)[b] == 0,
{
    vstd::arithmetic::mul::lemma_mul_is_commutative(w, h);
    crate::pixels::lemma_cell(w, h, x, y);
    assert(0 <= w * h);
    crate::pixels::lemma_cell(w, h, w - 1 - x, y);
    crate::pixels::lemma_cell(w, h, x, h - 1 - y);
    crate::pixels::lemma_cell(h, w, y, x);
    let (i, j, k) = (y * w + w - 1 - x, (h - 1 - y) * w + x, x * h + y);
    assert((4 * i + c) / 4 == i && (4 * i + c) % 4 == c);
    assert((4 * j + c) / 4 == j && (4 * j + c) % 4 == c);
    assert((4 * k + c) / 4 == k && (4 * k + c) % 4 == c);
}

/// The orientations with the codes 2 and 4 are undone by a flip, the one with
/// the code 5 by a transpose, and the one with the code 7 by moving each pixel
/// to the opposite place of that. Codes that stand for none change nothing.
pub proof fn mirrored_orientations_are_flips(src: Seq<u8>, w: int, h: int, code: u16, x: int, y: int, c: int)
    requires
        src.len() == 4 * (w * h),
        0 <= x < w,
        0 <= y < h,
        0 <= c < 4,
    ensures
        oriented(src, w, h, code).len() == src.len(),
        code < 5 || 8 < code ==> oriented_size(w, h, code) == (w, h),
        5 <= code <= 8 ==> oriented_size(w, h, code) == (h, w),
        code == 0 || code == 1 || 8 < code ==> oriented(src, w, h, code) == src,
        code == 2 ==> oriented(src, w, h, code)[4 * (y * w + w - 1 - x) + c] == src[4 * (y * w + x) + c],
        code == 4 ==> oriented(src, w, h, code)[4 * ((h - 1 - y) * w + x) + c] == src[4 * (y * w + x) + c],
        code == 5 ==> oriented(src, w, h, code)[4 * (x * h + y) + c] == src[4 * (y * w + x) + c],
        code == 7 ==> oriented(src, w, h, code)[4 * ((w - 1 - x) * h + h - 1 - y) + c] == src[4 * (y * w + x) + c],
{
    flips_move_pixels(src, w, h, x, y, c);
    if code == 7 {
        let a = flipped(src, w, h, Flip::Horizontal);
        let b = flipped(a, w, h, Flip::Vertical);
        flips_move_pixels(a, w, h, w - 1 - x, y, c);
        flips_move_pixels(b, w, h, w - 1 - x, h - 1 - y, c);
    }
}

/// A developed photo becomes opaque pixels of the bytes of its first three
/// samples, or of its only one.
pub proof fn samples_become_opaque_pixels(photo: Developed, p: int)
    requires
        0 <= p < photo.count(),
    ensures
        photo.rgba().len() == 4 * photo.count(),
        photo.rgba()[4 * p + 3] == 255,
        photo matches Developed::Monochrome { gray, .. } ==> photo.rgba()[4 * p] == quantized(gray@[p]) && photo.rgba()[4 * p
            + 1] == quantized(gray@[p]) && photo.rgba()[4 * p + 2] == quantized(gray@[p]),
        photo matches Developed::ThreeColor { rgb, .. } ==> photo.rgba()[4 * p] == quantized(rgb@[p][0]) && photo.rgba()[4 * p
            + 1] == quantized(rgb@[p][1]) && photo.rgba()[4 * p + 2] == quantized(rgb@[p][2]),
        photo matches Developed::FourColor { rgbe, .. } ==> photo.rgba()[4 * p] == quantized(rgbe@[p][0]) && photo.rgba()[4 * p
            + 1] == quantized(rgbe@[p][1]) && photo.rgba()[4 * p + 2] == quantized(rgbe@[p][2]),
{
    assert((4 * p) / 4 == p && (4 * p) % 4 == 0);
    assert((4 * p + 1) / 4 == p && (4 * p + 1) % 4 == 1);
    assert((4 * p + 2) / 4 == p && (4 * p + 2) % 4 == 2);
    assert((4 * p + 3) / 4 == p && (4 * p + 3) % 4 == 3);
}

/// A name is that of a RAW photo where it ends with a dot and one of the eleven
/// extensions, and only there.
pub proof fn raw_names_end_with_an_extension(name: Seq<char>)
    ensures
        has_raw_extension(name) <==> {
            let ends = |ext: Seq<char>| crate::text::ends_with(name, seq!['.'] + ext);
            ||| ends("dng"@)
            ||| ends("cr2"@)
            ||| ends("cr3"@)
            ||| ends("nef"@)
            ||| ends("nrw"@)
            ||| ends("arw"@)
            ||| ends("orf"@)
            ||| ends("rw2"@)
            ||| ends("raf"@)
            ||| ends("pef"@)
            ||| ends("srw"@)
        },
{
    assert(RAW_EXTENSIONS[0]@ == "dng"@ && RAW_EXTENSIONS[1]@ == "cr2"@ && RAW_EXTENSIONS[2]@ == "cr3"@);
    assert(RAW_EXTENSIONS[3]@ == "nef"@ && RAW_EXTENSIONS[4]@ == "nrw"@ && RAW_EXTENSIONS[5]@ == "arw"@);
    assert(RAW_EXTENSIONS[6]@ == "orf"@ && RAW_EXTENSIONS[7]@ == "rw2"@ && RAW_EXTENSIONS[8]@ == "raf"@);
    assert(RAW_EXTENSIONS[9]@ == "pef"@ && RAW_EXTENSIONS[10]@ == "srw"@);
}

/// An error of an import names the step that failed, and then says why.
pub proof fn import_errors_name_the_step(outcome: &RawOutcome, r: Result<(Vec<u8>, usize, usize), String>)
    requires
        call_ensures(finish_import, (outcome,), r),
    ensures
        *outcome matches RawOutcome::Unsupported(why) ==> r is Err && (r->Err_0)@ == "unsupported RAW: "@ + why@,
        *outcome matches RawOutcome::DecodeFailed(why) ==> r is Err && (r->Err_0)@ == "RAW decode failed: "@ + why@,
        *outcome matches RawOutcome::DevelopFailed(why) ==> r is Err && (r->Err_0)@ == "RAW develop failed: "@ + why@,
        r is Ok ==> (r->Ok_0).0@.len() == 4 * ((r->Ok_0).1 * (r->Ok_0).2),
{
    if let RawOutcome::Developed(photo, code) = *outcome {
        if is_complete(photo) {
            imported_pixels_fill_their_size(photo, code);
        }
    }
}

/// The byte of a sample is nearest to 255 times it: at most a half away, and one
/// part in `2^24` of it. Samples from one on give 255, and negative ones, as NaN,
/// give 0.
pub proof fn bytes_are_nearest_to_samples(bits: u32)
    ensures
        bits > 0x7f80_0000 ==> quantized(bits) == 0,
        bits == 0x7f80_0000 ==> quantized(bits) == 255,
        0x3f80_0000 <= bits <= 0x4780_0000 ==> quantized(bits) == 255,
        0x2d00_0000 <= bits <= 0x3f80_0000 ==> ({
            let z = crate::single::p2(200);
            let exact = 255 * crate::single::scaled_value(crate::single::parts_of(F32 { bits }));
            let got = quantized(bits) * z;
            0x200_0000 * (got - exact) <= 0x100_0000 * z + 2 * exact && 0x200_0000 * (exact - got) <= 0x100_0000 * z + 2 * exact
        }),
{
    if 0x2d00_0000 <= bits <= 0x4780_0000 {
        let x = F32 { bits };
        let v = crate::single::parts_of(x);
        let z = crate::single::p2(200);
        vstd::arithmetic::power2::lemma_pow2_pos(200);
        vstd::arithmetic::power2::lemma2_to64();
        let value = crate::single::scaled_value(v);
        let frac = bits as int % 0x80_0000;
        let field = bits as int / 0x80_0000;
        assert(v == (0x80_0000 + frac, field - 150));
        let y = crate::single::p2(v.1 + 200);
        if bits <= 0x3f80_0000 {
            if field < 127 {
                crate::single::lemma_p2_adds(127 - field, field + 50);
                crate::single::lemma_p2_adds(177, 23);
                crate::single::lemma_p2_least(127 - field);
                let g = crate::single::p2(127 - field);
                assert(value <= z) by (nonlinear_arith)
                    requires
                        value == v.0 * y,
                        v.0 <= 0x100_0000,
                        2 <= g,
                        g * y == crate::single::p2(177),
                        crate::single::p2(177) * 0x80_0000 == z,
                        1 <= y,
                ;
            } else {
                crate::single::lemma_p2_adds(177, 23);
                assert(value == z) by (nonlinear_arith)
                    requires
                        value == 0x80_0000 * y,
                        y == crate::single::p2(177),
                        crate::single::p2(177) * 0x80_0000 == z,
                ;
            }
        }
        if bits >= 0x3f80_0000 {
            crate::single::lemma_p2_adds(field - 127, 177);
            crate::single::lemma_p2_adds(177, 23);
            let g = crate::single::p2(field - 127);
            assert(value >= z) by (nonlinear_arith)
                requires
                    value == v.0 * y,
                    v.0 >= 0x80_0000,
                    1 <= g,
                    g * crate::single::p2(177) == y,
                    crate::single::p2(177) * 0x80_0000 == z,
                    1 <= crate::single::p2(177),
            ;
            assert(g <= 0x1_0000);
            assert(value <= 0x2_0000 * z) by (nonlinear_arith)
                requires
                    value == v.0 * y,
                    0 <= v.0 <= 0x100_0000,
                    1 <= g <= 0x1_0000,
                    g * crate::single::p2(177) == y,
                    crate::single::p2(177) * 0x80_0000 == z,
                    1 <= crate::single::p2(177),
            ;
        }
        crate::single::scaled_positions_are_nearest(x, 255);
        let s = crate::single::scaled(x, 255);
        if bits <= 0x3f80_0000 {
            assert(s <= 255) by (nonlinear_arith)
                requires
                    0x200_0000 * (s * z - 255 * value) <= 0x100_0000 * z + 2 * (255 * value),
                    value <= z,
                    1 <= z,
            ;
            assert(0 <= s) by (nonlinear_arith)
                requires
                    0x200_0000 * (255 * value - s * z) <= 0x100_0000 * z + 2 * (255 * value),
                    0 <= value,
                    1 <= z,
            ;
        }
        if bits >= 0x3f80_0000 {
            assert(s >= 255) by (nonlinear_arith)
                requires
                    0x200_0000 * (255 * value - s * z) <= 0x100_0000 * z + 2 * (255 * value),
                    value >= z,
                    1 <= z,
            ;
        }
    }
}

/// A developed photo is imported where it has as many samples, or triples or
/// quadruples of them, as pixels, in the size that its orientation gives it.
pub proof fn complete_photos_are_imported(photo: &Developed, code: u16, r: Option<(Vec<u8>, usize, usize)>)
    requires
        call_ensures(import_developed, (photo, code), r),
    ensures
        ({
            let (w, h, n) = match *photo {
                Developed::Monochrome { width, height, gray } => (width as int, height as int, gray@.len() as int),
                Developed::ThreeColor { width, height, rgb } => (width as int, height as int, rgb@.len() as int),
                Developed::FourColor { width, height, rgbe } => (width as int, height as int, rgbe@.len() as int),
            };
            &&& r is Some <==> n == w * h && 4 * n <= usize::MAX
            &&& r matches Some(image) ==> image.0@.len() == 4 * n
            &&& r is Some && 5 <= code <= 8 ==> (r->0).1 == h && (r->0).2 == w
            &&& r is Some && !(5 <= code <= 8) ==> (r->0).1 == w && (r->0).2 == h
        }),
{
}

} // verus!
