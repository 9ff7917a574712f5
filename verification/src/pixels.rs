//! Raster addressing and the shared 8-bit blend.
//!
//! A raster of `width` by `height` cells is stored row by row: cell `(x, y)`
//! has index `y * width + x`. An RGBA buffer holds four bytes for each cell.
use vstd::prelude::*;

verus! {

/// Index of the cell `(x, y)` in a raster of the given width.
pub open spec fn cell(width: int, x: int, y: int) -> int {
    y * width + x
}

/// The four bytes of pixel `p` in an RGBA buffer.
pub open spec fn pixel(rgba: Seq<u8>, p: int) -> Seq<u8> {
    rgba.subrange(4 * p, 4 * p + 4)
}

/// `v` moved into the range from `lo` to `hi`.
pub open spec fn clamped(v: int, lo: int, hi: int) -> int {
    if v < lo {
        lo
    } else if v > hi {
        hi
    } else {
        v
    }
}

/// The smaller of two integers.
pub open spec fn min_of(a: int, b: int) -> int {
    if a <= b {
        a
    } else {
        b
    }
}

/// The larger of two integers.
pub open spec fn max_of(a: int, b: int) -> int {
    if a >= b {
        a
    } else {
        b
    }
}

/// `a` moved toward `b` by the fraction `m / 255`, rounded to nearest.
pub open spec fn blend(a: int, b: int, m: int) -> int {
    (a * (255 - m) + b * m + 127) / 255
}

/// A cell inside the raster has an index inside the raster, from which its
/// coordinates can be read back.
pub proof fn lemma_cell(width: int, height: int, x: int, y: int)
    requires
        0 <= x < width,
        0 <= y < height,
    ensures
        0 <= cell(width, x, y) < width * height,
        cell(width, x, y) % width == x,
        cell(width, x, y) / width == y,
        y * width + width <= width * height,
        0 <= y * width,
{
    assert(0 <= y * width) by (nonlinear_arith)
        requires
            0 <= y,
            0 < width,
    ;
    assert(y * width + width <= width * height) by (nonlinear_arith)
        requires
            y + 1 <= height,
            0 < width,
    ;
    vstd::arithmetic::div_mod::lemma_fundamental_div_mod_converse(y * width + x, width, y, x);
}

/// Every index of the raster is that of one cell.
pub proof fn lemma_coords(width: int, height: int, p: int)
    requires
        0 <= p < width * height,
        0 <= width,
    ensures
        0 < width,
        0 <= p % width < width,
        0 <= p / width < height,
        cell(width, p % width, p / width) == p,
{
    assert(0 < width) by (nonlinear_arith)
        requires
            0 < width * height,
            0 <= width,
    ;
    vstd::arithmetic::div_mod::lemma_fundamental_div_mod(p, width);
    vstd::arithmetic::mul::lemma_mul_is_commutative(width, p / width);
    assert(0 <= p / width < height) by (nonlinear_arith)
        requires
            0 <= p < width * height,
            0 < width,
            p == (p / width) * width + p % width,
            0 <= p % width < width,
    ;
}

/// Whether `v` lies in the range from `lo` up to but without `hi`.
pub open spec fn between(lo: int, v: int, hi: int) -> bool {
    lo <= v < hi
}

/// Ranges with the same numbers, of which there are some, are the same.
pub proof fn lemma_range(a: int, b: int, c: int, d: int)
    requires
        a < b,
        forall|v: int| a <= v < b <==> #[trigger] between(c, v, d),
    ensures
        a == c,
        b == d,
{
    assert(between(c, a, d));
    assert(between(c, b - 1, d));
    assert(!between(c, a - 1, d));
    assert(!between(c, b, d));
}

/// A cell has the coordinates from which its index was made.
pub proof fn lemma_row_of(width: int, p: int, x: int, y: int)
    requires
        0 <= x < width,
        p == y * width + x,
    ensures
        p % width == x,
        p / width == y,
{
    vstd::arithmetic::div_mod::lemma_fundamental_div_mod_converse(p, width, y, x);
}

/// The blend of two bytes is a byte.
pub proof fn lemma_blend_bounds(a: int, b: int, m: int)
    requires
        0 <= a <= 255,
        0 <= b <= 255,
        0 <= m <= 255,
    ensures
        0 <= a * (255 - m) <= 255 * 255,
        0 <= b * m <= 255 * 255,
        a * (255 - m) + b * m <= 255 * 255,
        0 <= blend(a, b, m) <= 255,
{
    assert(0 <= a * (255 - m) <= 255 * (255 - m)) by (nonlinear_arith)
        requires
            0 <= a <= 255,
            0 <= m <= 255,
    ;
    assert(0 <= b * m <= 255 * m) by (nonlinear_arith)
        requires
            0 <= b <= 255,
            0 <= m <= 255,
    ;
}

/// Weight 0 keeps the first value, weight 255 gives the second, and every
/// weight gives a value between the two.
pub proof fn blend_stays_between(a: int, b: int, m: int)
    requires
        0 <= a <= 255,
        0 <= b <= 255,
        0 <= m <= 255,
    ensures
        blend(a, b, 0) == a,
        blend(a, b, 255) == b,
        min_of(a, b) <= blend(a, b, m) <= max_of(a, b),
{
    assert(a * (255 - m) + b * m == 255 * a + (b - a) * m) by (nonlinear_arith);
    if a <= b {
        assert(0 <= (b - a) * m <= 255 * (b - a)) by (nonlinear_arith)
            requires
                0 <= b - a,
                0 <= m <= 255,
        ;
    } else {
        assert(255 * (b - a) <= (b - a) * m <= 0) by (nonlinear_arith)
            requires
                b - a <= 0,
                0 <= m <= 255,
        ;
    }
}

/// Blends two bytes by the weight `m`.
pub fn mix(a: u8, b: u8, m: u8) -> (r: u8)
    ensures
        r == blend(a as int, b as int, m as int),
{
    proof {
        lemma_blend_bounds(a as int, b as int, m as int);
    }
    ((a as u32 * (255 - m as u32) + b as u32 * m as u32 + 127) / 255) as u8
}

/// Squared difference of two pixels, summed over the four channels.
pub open spec fn pixel_cost(pixels: Seq<u8>, a: int, b: int) -> int {
    let d0 = pixels[4 * a] - pixels[4 * b];
    let d1 = pixels[4 * a + 1] - pixels[4 * b + 1];
    let d2 = pixels[4 * a + 2] - pixels[4 * b + 2];
    let d3 = pixels[4 * a + 3] - pixels[4 * b + 3];
    d0 * d0 + d1 * d1 + d2 * d2 + d3 * d3
}

/// Squared difference of two bytes.
fn channel_cost(a: u8, b: u8) -> (r: u64)
    ensures
        r == (a - b) * (a - b),
        r <= 65025,
{
    let d: u64 = if a >= b {
        (a - b) as u64
    } else {
        (b - a) as u64
    };
    assert(d * d <= 255 * 255 && (a - b) * (a - b) == d * d) by (nonlinear_arith)
        requires
            d <= 255,
            d == a - b || d == b - a,
    ;
    d * d
}

/// Squared difference of the pixels `a` and `b`, summed over the channels.
pub fn compare_pixels(rgba: &[u8], a: usize, b: usize) -> (r: u64)
    requires
        4 * a + 4 <= rgba.len(),
        4 * b + 4 <= rgba.len(),
    ensures
        r == pixel_cost(rgba@, a as int, b as int),
        r <= 260100,
{
    let (i, j): (usize, usize) = (4 * a, 4 * b);
    channel_cost(rgba[i], rgba[j]) + channel_cost(rgba[i + 1], rgba[j + 1]) + channel_cost(rgba[i + 2], rgba[j + 2])
        + channel_cost(rgba[i + 3], rgba[j + 3])
}

/// The first `channels` bytes of each whole pixel blended toward those of
/// `other` by the mask.
pub open spec fn blended_through(rgba: Seq<u8>, mask: Seq<u8>, other: Seq<u8>, channels: int) -> Seq<u8> {
    Seq::new(
        rgba.len(),
        |b: int|
            if b < rgba.len() as int / 4 * 4 && b % 4 < channels {
                blend(rgba[b] as int, other[b] as int, mask[b / 4] as int) as u8
            } else {
                rgba[b]
            },
    )
}

/// Where the mask is 0 nothing changes, and where it is 255 the blended bytes
/// are those of the other image.
pub proof fn mask_blends_between_images(rgba: Seq<u8>, mask: Seq<u8>, other: Seq<u8>, channels: int, b: int)
    requires
        0 <= b < rgba.len(),
        rgba.len() <= other.len(),
        rgba.len() as int / 4 <= mask.len(),
    ensures
        b / 4 < rgba.len() as int / 4 && mask[b / 4] == 0 ==> blended_through(rgba, mask, other, channels)[b] == rgba[b],
        b / 4 < rgba.len() as int / 4 && b % 4 < channels && mask[b / 4] == 255 ==> blended_through(
            rgba,
            mask,
            other,
            channels,
        )[b] == other[b],
        b % 4 >= channels ==> blended_through(rgba, mask, other, channels)[b] == rgba[b],
{
    if b / 4 < rgba.len() as int / 4 {
        blend_stays_between(rgba[b] as int, other[b] as int, mask[b / 4] as int);
    }
}

/// Blends the first `channels` bytes of each pixel toward those of `other` by
/// the mask.
pub fn blend_masked(rgba: &mut [u8], mask: &[u8], other: &[u8], channels: usize)
    requires
        old(rgba).len() as int / 4 <= mask.len(),
        old(rgba).len() <= other.len(),
    ensures
        final(rgba)@ == blended_through(old(rgba)@, mask@, other@, channels as int),
{
    let ghost src = rgba@;
    let n: usize = rgba.len() / 4 * 4;
    let mut b: usize = 0;
    while b < n
        invariant
            b <= n,
            n == src.len() as int / 4 * 4,
            n <= rgba.len(),
            src.len() as int / 4 <= mask.len(),
            src.len() <= other.len(),
            rgba@.len() == src.len(),
            forall|i: int| 0 <= i < b ==> #[trigger] rgba@[i] == blended_through(src, mask@, other@, channels as int)[i],
            forall|i: int| b <= i < src.len() ==> #[trigger] rgba@[i] == src[i],
        decreases n - b,
    {
        if b % 4 < channels {
            proof {
                lemma_blend_bounds(src[b as int] as int, other@[b as int] as int, mask@[b as int / 4] as int);
            }
            rgba[b] = mix(rgba[b], other[b], mask[b / 4]);
        }
        b = b + 1;
    }
}

/// A blend is nearest to the mean of its two values, weighted by 255 minus the
/// weight and by the weight, and exchanging both exchanges nothing.
pub proof fn blend_is_the_nearest_mean(a: int, b: int, m: int)
    requires
        0 <= a <= 255,
        0 <= b <= 255,
        0 <= m <= 255,
    ensures
        -127 <= 255 * blend(a, b, m) - (a * (255 - m) + b * m) <= 127,
        blend(b, a, 255 - m) == blend(a, b, m),
        a == b ==> blend(a, b, m) == a,
{
    assert(b * (255 - (255 - m)) == b * m && a * (255 - m) + a * m == 255 * a) by (nonlinear_arith);
}

/// An image that is blended through a mask has its length; each of the blended
/// bytes is nearest to the mean of the two images' bytes, weighted by the mask,
/// and each other byte stays.
pub proof fn blended_bytes_are_weighted_means(rgba: Seq<u8>, mask: Seq<u8>, other: Seq<u8>, channels: int, p: int, c: int)
    requires
        0 <= p < rgba.len() as int / 4,
        0 <= c < 4,
        rgba.len() <= other.len(),
        rgba.len() as int / 4 <= mask.len(),
    ensures
        blended_through(rgba, mask, other, channels).len() == rgba.len(),
        c < channels ==> -127 <= 255 * blended_through(rgba, mask, other, channels)[4 * p + c] - (rgba[4 * p + c] * (255
            - mask[p]) + other[4 * p + c] * mask[p]) <= 127,
        c >= channels ==> blended_through(rgba, mask, other, channels)[4 * p + c] == rgba[4 * p + c],
        forall|b: int|
            rgba.len() as int / 4 * 4 <= b < rgba.len() ==> #[trigger] blended_through(rgba, mask, other, channels)[b]
                == rgba[b],
{
    let b = 4 * p + c;
    assert(b / 4 == p && b % 4 == c);
    lemma_blend_bounds(rgba[b] as int, other[b] as int, mask[p] as int);
    blend_is_the_nearest_mean(rgba[b] as int, other[b] as int, mask[p] as int);
}

/// The cost of two pixels is the same either way, 0 only for equal pixels, and
/// that of pixels which differ in one channel alone is the square of the
/// difference there.
pub proof fn costs_are_sums_of_squares(pixels: Seq<u8>, a: int, b: int, c: int)
    requires
        0 <= c < 4,
    ensures
        pixel_cost(pixels, a, b) == pixel_cost(pixels, b, a),
        pixel_cost(pixels, a, b) == 0 <==> forall|k: int| 0 <= k < 4 ==> #[trigger] pixels[4 * a + k] == pixels[4 * b + k],
        pixel_cost(pixels, a, b) >= (pixels[4 * a + c] - pixels[4 * b + c]) * (pixels[4 * a + c] - pixels[4 * b + c]),
        (forall|k: int| 0 <= k < 4 && k != c ==> #[trigger] pixels[4 * a + k] == pixels[4 * b + k]) ==> pixel_cost(pixels, a, b)
            == (pixels[4 * a + c] - pixels[4 * b + c]) * (pixels[4 * a + c] - pixels[4 * b + c]),
        pixel_cost(pixels, a, b) == (pixels[4 * a] - pixels[4 * b]) * (pixels[4 * a] - pixels[4 * b]) + (pixels[4 * a + 1]
            - pixels[4 * b + 1]) * (pixels[4 * a + 1] - pixels[4 * b + 1]) + (pixels[4 * a + 2] - pixels[4 * b + 2]) * (
        pixels[4 * a + 2] - pixels[4 * b + 2]) + (pixels[4 * a + 3] - pixels[4 * b + 3]) * (pixels[4 * a + 3]
            - pixels[4 * b + 3]),
{
    let d0 = pixels[4 * a] - pixels[4 * b];
    let d1 = pixels[4 * a + 1] - pixels[4 * b + 1];
    let d2 = pixels[4 * a + 2] - pixels[4 * b + 2];
    let d3 = pixels[4 * a + 3] - pixels[4 * b + 3];
    lemma_square(d0);
    lemma_square(d1);
    lemma_square(d2);
    lemma_square(d3);
    assert(pixels[4 * a + 0] == pixels[4 * a] && pixels[4 * b + 0] == pixels[4 * b]);
    if forall|k: int| 0 <= k < 4 ==> #[trigger] pixels[4 * a + k] == pixels[4 * b + k] {
        assert(pixels[4 * a + 1] == pixels[4 * b + 1]);
        assert(pixels[4 * a + 2] == pixels[4 * b + 2]);
        assert(pixels[4 * a + 3] == pixels[4 * b + 3]);
    }
    if forall|k: int| 0 <= k < 4 && k != c ==> #[trigger] pixels[4 * a + k] == pixels[4 * b + k] {
        assert(c == 0 || pixels[4 * a + 0] == pixels[4 * b + 0]);
        assert(c == 1 || pixels[4 * a + 1] == pixels[4 * b + 1]);
        assert(c == 2 || pixels[4 * a + 2] == pixels[4 * b + 2]);
        assert(c == 3 || pixels[4 * a + 3] == pixels[4 * b + 3]);
    }
}

/// A square is that of the opposite number, and 0 only for 0.
proof fn lemma_square(d: int)
    ensures
        d * d >= 0,
        d * d == (-d) * (-d),
        d * d == 0 <==> d == 0,
{
    assert(d * d >= 0 && d * d == (-d) * (-d) && (d * d == 0 <==> d == 0)) by (nonlinear_arith);
}

} // verus!
