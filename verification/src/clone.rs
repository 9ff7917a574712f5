//! Clone stamp: covered pixels are blended toward pixels at a fixed offset.
use crate::pixels::mix;
use vstd::prelude::*;

verus! {

/// Index of the pixel that is stamped onto pixel `p`: the one `(dx, dy)` away,
/// moved inside the image.
pub open spec fn stamp_source(width: int, height: int, p: int, dx: int, dy: int) -> int {
    crate::pixels::cell(
        width,
        crate::pixels::clamped(p % width + dx, 0, width - 1),
        crate::pixels::clamped(p / width + dy, 0, height - 1),
    )
}

/// Byte `c` of pixel `p` after stamping `src` through `coverage`.
pub open spec fn stamped_byte(src: Seq<u8>, width: int, height: int, coverage: Seq<u8>, dx: int, dy: int, p: int, c: int) -> int {
    crate::pixels::blend(
        src[4 * p + c] as int,
        src[4 * stamp_source(width, height, p, dx, dy) + c] as int,
        coverage[p] as int,
    )
}

/// The image `src` stamped through `coverage`. Every source sample is read
/// from `src` itself; bytes behind the last pixel stay.
pub open spec fn stamped(src: Seq<u8>, width: int, height: int, coverage: Seq<u8>, dx: int, dy: int) -> Seq<u8> {
    Seq::new(
        src.len(),
        |b: int|
            if b < 4 * (width * height) {
                stamped_byte(src, width, height, coverage, dx, dy, b / 4, b % 4) as u8
            } else {
                src[b]
            },
    )
}

/// A pixel without coverage keeps its bytes, and a fully covered pixel takes
/// those of its source in the image before the stroke.
pub proof fn stamp_copies_original_pixels(src: Seq<u8>, width: int, height: int, coverage: Seq<u8>, dx: int, dy: int, p: int, c: int)
    requires
        0 <= width,
        0 <= height,
        4 * (width * height) <= src.len(),
        width * height <= coverage.len(),
        0 <= p < width * height,
        0 <= c < 4,
    ensures
        coverage[p] == 0 ==> stamped(src, width, height, coverage, dx, dy)[4 * p + c] == src[4 * p + c],
        coverage[p] == 255 ==> stamped(src, width, height, coverage, dx, dy)[4 * p + c]
            == src[4 * stamp_source(width, height, p, dx, dy) + c],
{
    assert((4 * p + c) / 4 == p && (4 * p + c) % 4 == c);
    crate::pixels::blend_stays_between(
        src[4 * p + c] as int,
        src[4 * stamp_source(width, height, p, dx, dy) + c] as int,
        coverage[p] as int,
    );
}

/// `v + d` moved into the range from 0 to `limit - 1`.
fn offset_clamped(v: usize, d: i32, limit: usize) -> (r: usize)
    requires
        v < limit,
    ensures
        r == crate::pixels::clamped(v + d, 0, limit - 1),
        r < limit,
{
    if d < 0 {
        let back: usize = (-(d as i64)) as usize;
        if back > v {
            0
        } else {
            v - back
        }
    } else {
        let ahead: usize = d as usize;
        if ahead > limit - 1 - v {
            limit - 1
        } else {
            v + ahead
        }
    }
}

/// Stamp through `coverage` (255 = full copy), blending each covered pixel
/// toward the pixel at `(x + dx, y + dy)`. Offset is in whole pixels.
pub fn clone_stamp(rgba: &mut [u8], width: usize, height: usize, coverage: &[u8], dx: i32, dy: i32)
    requires
        4 * (width * height) <= old(rgba).len(),
        width * height <= coverage.len(),
    ensures
        final(rgba)@ == stamped(old(rgba)@, width as int, height as int, coverage@, dx as int, dy as int),
{
    let src: Vec<u8> = vstd::slice::slice_to_vec(rgba);
    let n: usize = width * height;
    let ghost (w, h) = (width as int, height as int);
    let mut i: usize = 0;
    while i < n
        invariant
            i <= n,
            n == width * height,
            w == width,
            h == height,
            4 * n <= src.len(),
            n <= coverage@.len(),
            src@ == old(rgba)@,
            rgba@.len() == src@.len(),
            forall|b: int|
                0 <= b < 4 * i ==> #[trigger] rgba@[b] == stamped(src@, w, h, coverage@, dx as int, dy as int)[b],
            forall|b: int| 4 * i <= b < src@.len() ==> #[trigger] rgba@[b] == src@[b],
        decreases n - i,
    {
        proof {
            crate::pixels::lemma_coords(w, h, i as int);
        }
        let a: u8 = coverage[i];
        if a != 0 {
            let sx: usize = offset_clamped(i % width, dx, width);
            let sy: usize = offset_clamped(i / width, dy, height);
            proof {
                crate::pixels::lemma_cell(w, h, sx as int, sy as int);
            }
            let s: usize = (sy * width + sx) * 4;
            let mut c: usize = 0;
            while c < 4
                invariant
                    c <= 4,
                    i < n,
                    n == width * height,
                    w == width,
                    h == height,
                    4 * n <= src.len(),
                    rgba@.len() == src@.len(),
                    a == coverage@[i as int],
                    s + 4 <= 4 * n,
                    s == 4 * stamp_source(w, h, i as int, dx as int, dy as int),
                    forall|b: int|
                        0 <= b < 4 * i + c ==> #[trigger] rgba@[b] == stamped(src@, w, h, coverage@, dx as int, dy as int)[b],
                    forall|b: int| 4 * i + c <= b < src@.len() ==> #[trigger] rgba@[b] == src@[b],
                decreases 4 - c,
            {
                rgba[i * 4 + c] = mix(rgba[i * 4 + c], src[s + c], a);
                proof {
                    crate::pixels::lemma_blend_bounds(src@[4 * i + c] as int, src@[s + c] as int, a as int);
                }
                c = c + 1;
            }
        } else {
            assert forall|b: int| 4 * i <= b < 4 * i + 4 implies #[trigger] rgba@[b]
                == stamped(src@, w, h, coverage@, dx as int, dy as int)[b] by {
                crate::pixels::blend_stays_between(
                    src@[b] as int,
                    src@[4 * stamp_source(w, h, i as int, dx as int, dy as int) + (b - 4 * i)] as int,
                    0,
                );
            }
        }
        i = i + 1;
    }
}

/// A stamped pixel is nearest to the mean of itself and of the pixel that was
/// `(dx, dy)` away before the stroke, weighted by its coverage. Where that lies
/// beyond an edge, the nearest pixel on the edge stands for it.
pub proof fn stamp_blends_toward_the_offset(
    src: Seq<u8>,
    width: int,
    height: int,
    coverage: Seq<u8>,
    dx: int,
    dy: int,
    x: int,
    y: int,
    sx: int,
    sy: int,
    c: int,
)
    requires
        4 * (width * height) <= src.len(),
        width * height <= coverage.len(),
        0 <= x < width,
        0 <= y < height,
        0 <= c < 4,
        0 <= x + dx < width ==> sx == x + dx,
        x + dx < 0 ==> sx == 0,
        width <= x + dx ==> sx == width - 1,
        0 <= y + dy < height ==> sy == y + dy,
        y + dy < 0 ==> sy == 0,
        height <= y + dy ==> sy == height - 1,
    ensures
        stamped(src, width, height, coverage, dx, dy).len() == src.len(),
        ({
            let own = src[4 * (y * width + x) + c];
            let from = src[4 * (sy * width + sx) + c];
            let a = coverage[y * width + x];
            let out = stamped(src, width, height, coverage, dx, dy)[4 * (y * width + x) + c];
            &&& -127 <= 255 * out - (own * (255 - a) + from * a) <= 127
            &&& a == 0 ==> out == own
            &&& a == 255 ==> out == from
        }),
{
    let p = y * width + x;
    crate::pixels::lemma_cell(width, height, x, y);
    crate::pixels::lemma_cell(width, height, sx, sy);
    assert((4 * p + c) / 4 == p && (4 * p + c) % 4 == c);
    let (own, from, a) = (src[4 * p + c] as int, src[4 * (sy * width + sx) + c] as int, coverage[p] as int);
    crate::pixels::lemma_blend_bounds(own, from, a);
    crate::pixels::blend_is_the_nearest_mean(own, from, a);
    crate::pixels::blend_stays_between(own, from, a);
}

/// A stroke without an offset changes nothing, whatever it covers.
pub proof fn stamp_onto_itself_changes_nothing(src: Seq<u8>, width: int, height: int, coverage: Seq<u8>)
    requires
        0 <= width,
        0 <= height,
        4 * (width * height) <= src.len(),
        width * height <= coverage.len(),
    ensures
        stamped(src, width, height, coverage, 0, 0) == src,
{
    assert forall|b: int| 0 <= b < src.len() implies stamped(src, width, height, coverage, 0, 0)[b] == src[b] by {
        if b < 4 * (width * height) {
            crate::pixels::lemma_coords(width, height, b / 4);
            crate::pixels::blend_is_the_nearest_mean(src[b] as int, src[b] as int, coverage[b / 4] as int);
        }
    }
    assert(stamped(src, width, height, coverage, 0, 0) =~= src);
}

/// Bytes behind the last pixel are not stamped.
pub proof fn stamp_keeps_bytes_behind_the_image(src: Seq<u8>, width: int, height: int, coverage: Seq<u8>, dx: int, dy: int, b: int)
    requires
        0 <= b < src.len(),
        4 * (width * height) <= b,
    ensures
        stamped(src, width, height, coverage, dx, dy)[b] == src[b],
{
}

} // verus!
