//! Pixel operations on RGBA buffers and 8-bit masks.
use crate::single::take_share;
use vstd::prelude::*;

verus! {

/// Size of a `w` by `h` image after quarter turns.
pub open spec fn turned_size(w: int, h: int, turns: int) -> (int, int) {
    if turns % 2 == 0 {
        (w, h)
    } else {
        (h, w)
    }
}

/// Where the pixel `(nx, ny)` of an image turned clockwise comes from.
pub open spec fn turned_from(w: int, h: int, turns: int, nx: int, ny: int) -> (int, int) {
    if turns % 4 == 0 {
        (nx, ny)
    } else if turns % 4 == 1 {
        (ny, h - 1 - nx)
    } else if turns % 4 == 2 {
        (w - 1 - nx, h - 1 - ny)
    } else {
        (w - 1 - ny, nx)
    }
}

/// Index of the pixel that becomes pixel `q` of the turned image.
pub open spec fn turn_source(w: int, h: int, turns: int, q: int) -> int {
    let ow = turned_size(w, h, turns).0;
    let (x, y) = turned_from(w, h, turns, q % ow, q / ow);
    crate::pixels::cell(w, x, y)
}

/// The image turned clockwise by a number of quarter turns. Bytes behind the
/// last pixel stay without a turn, and are 0 after one.
pub open spec fn turned(src: Seq<u8>, w: int, h: int, turns: int) -> Seq<u8> {
    Seq::new(
        src.len(),
        |b: int|
            if b < 4 * (w * h) {
                src[4 * turn_source(w, h, turns, b / 4) + b % 4]
            } else if turns % 4 == 0 {
                src[b]
            } else {
                0
            },
    )
}

/// A pixel of a turned image comes from a pixel of the image.
proof fn lemma_turn_source(w: int, h: int, turns: int, q: int)
    requires
        0 <= w,
        0 <= h,
        0 <= q < w * h,
        0 <= turns,
    ensures
        0 < w,
        0 < h,
        0 <= turn_source(w, h, turns, q) < w * h,
        ({
            let ow = turned_size(w, h, turns).0;
            let (x, y) = turned_from(w, h, turns, q % ow, q / ow);
            &&& 0 <= x < w
            &&& 0 <= y < h
            &&& 0 <= q % ow < ow
            &&& 0 <= q / ow < turned_size(w, h, turns).1
        }),
{
    let (ow, oh) = turned_size(w, h, turns);
    vstd::arithmetic::mul::lemma_mul_is_commutative(w, h);
    crate::pixels::lemma_coords(w, h, q);
    crate::pixels::lemma_coords(ow, oh, q);
    let (x, y) = turned_from(w, h, turns, q % ow, q / ow);
    crate::pixels::lemma_cell(w, h, x, y);
}

/// Turning twice is turning by the sum.
pub proof fn turns_compose(src: Seq<u8>, w: int, h: int, a: int, b: int)
    requires
        0 <= w,
        0 <= h,
        src.len() == 4 * (w * h),
        0 <= a,
        0 <= b,
    ensures
        turned(turned(src, w, h, a), turned_size(w, h, a).0, turned_size(w, h, a).1, b) == turned(src, w, h, a + b),
{
    let (ow, oh) = turned_size(w, h, a);
    vstd::arithmetic::mul::lemma_mul_is_commutative(w, h);
    let once = turned(src, w, h, a);
    let twice = turned(once, ow, oh, b);
    let direct = turned(src, w, h, a + b);
    assert forall|i: int| 0 <= i < src.len() implies twice[i] == direct[i] by {
        let q = i / 4;
        lemma_turn_source(ow, oh, b, q);
        let m = turn_source(ow, oh, b, q);
        lemma_turn_source(w, h, a, m);
        lemma_turn_source(w, h, a + b, q);
        let pw = turned_size(ow, oh, b).0;
        let (mx, my) = turned_from(ow, oh, b, q % pw, q / pw);
        crate::pixels::lemma_cell(ow, oh, mx, my);
        assert((4 * m + i % 4) / 4 == m && (4 * m + i % 4) % 4 == i % 4);
        assert(turned_size(w, h, a + b).0 == pw);
        assert(turned_from(w, h, a, mx, my) == turned_from(w, h, a + b, q % pw, q / pw));
    }
    assert(twice =~= direct);
}

/// Four quarter turns give the image back.
pub proof fn four_turns_are_none(src: Seq<u8>, w: int, h: int)
    requires
        0 <= w,
        0 <= h,
        src.len() == 4 * (w * h),
    ensures
        turned(src, w, h, 4) == src,
        turned(src, w, h, 0) == src,
{
    lemma_no_turn(src, w, h, 4);
    lemma_no_turn(src, w, h, 0);
}

proof fn lemma_no_turn(src: Seq<u8>, w: int, h: int, turns: int)
    requires
        0 <= w,
        0 <= h,
        4 * (w * h) <= src.len(),
        0 <= turns,
        turns % 4 == 0,
    ensures
        turned(src, w, h, turns) == src,
{
    assert forall|i: int| 0 <= i < src.len() implies turned(src, w, h, turns)[i] == src[i] by {
        if i < 4 * (w * h) {
            crate::pixels::lemma_coords(w, h, i / 4);
        }
    }
    assert(turned(src, w, h, turns) =~= src);
}

/// Turning by `turns` and then by what is missing to a full turn gives the
/// image back.
pub proof fn turning_back_restores(src: Seq<u8>, w: int, h: int, turns: int)
    requires
        0 <= w,
        0 <= h,
        src.len() == 4 * (w * h),
        0 <= turns <= 4,
    ensures
        turned(turned(src, w, h, turns), turned_size(w, h, turns).0, turned_size(w, h, turns).1, 4 - turns) == src,
{
    turns_compose(src, w, h, turns, 4 - turns);
    four_turns_are_none(src, w, h);
}

/// Rotate 90/180/270 degrees clockwise. (w, h) swap as needed.
pub fn rotate_90(src: &[u8], w: usize, h: usize, turns: u8) -> (r: (Vec<u8>, usize, usize))
    requires
        4 * (w * h) <= src.len(),
    ensures
        r.0@ == turned(src@, w as int, h as int, turns as int),
        (r.1 as int, r.2 as int) == turned_size(w as int, h as int, turns as int),
{
    let ghost (gw, gh, gt) = (w as int, h as int, turns as int);
    let t: u8 = turns % 4;
    if t == 0 {
        proof {
            lemma_no_turn(src@, gw, gh, gt);
        }
        return (vstd::slice::slice_to_vec(src), w, h);
    }
    let (ow, oh): (usize, usize) = if t == 2 { (w, h) } else { (h, w) };
    let n: usize = w * h;
    let len: usize = src.len();
    let mut out: Vec<u8> = Vec::new();
    let mut q: usize = 0;
    while q < n
        invariant
            q <= n,
            n == w * h,
            gw == w,
            gh == h,
            gt == turns,
            t == turns % 4,
            t != 0,
            ow == turned_size(gw, gh, gt).0,
            4 * n <= src.len(),
            out@ == turned(src@, gw, gh, gt).take(4 * q),
        decreases n - q,
    {
        proof {
            lemma_turn_source(gw, gh, gt, q as int);
        }
        let nx: usize = q % ow;
        let ny: usize = q / ow;
        let (x, y): (usize, usize) = if t == 1 {
            (ny, h - 1 - nx)
        } else if t == 2 {
            (w - 1 - nx, h - 1 - ny)
        } else {
            (w - 1 - ny, nx)
        };
        proof {
            crate::pixels::lemma_cell(gw, gh, x as int, y as int);
        }
        let i: usize = (y * w + x) * 4;
        out.push(src[i]);
        out.push(src[i + 1]);
        out.push(src[i + 2]);
        out.push(src[i + 3]);
        assert(out@ =~= turned(src@, gw, gh, gt).take(4 * (q + 1)));
        q = q + 1;
    }
    let mut b: usize = 4 * n;
    while b < len
        invariant
            4 * n <= b <= len,
            n == w * h,
            gw == w,
            gh == h,
            gt == turns,
            gt % 4 != 0,
            len == src.len(),
            out@ == turned(src@, gw, gh, gt).take(b as int),
        decreases len - b,
    {
        out.push(0);
        assert(out@ =~= turned(src@, gw, gh, gt).take(b + 1));
        b = b + 1;
    }
    assert(out@ =~= turned(src@, gw, gh, gt));
    (out, ow, oh)
}

/// Height of an image of width `w` that the buffer holds.
pub open spec fn rows_of(src: Seq<u8>, w: int) -> int {
    if w == 0 {
        0
    } else {
        src.len() as int / (4 * w)
    }
}

/// The part of the rectangle at `(x, y)` with the size `cw` by `ch` that lies
/// in the image, row by row.
pub open spec fn cropped(src: Seq<u8>, w: int, x: int, y: int, cw: int, ch: int) -> Seq<u8> {
    let pw = crate::pixels::max_of(crate::pixels::min_of(cw, w - x), 0);
    let ph = crate::pixels::max_of(crate::pixels::min_of(ch, rows_of(src, w) - y), 0);
    Seq::new(
        (4 * (pw * ph)) as nat,
        |b: int|
            src[4 * crate::pixels::cell(w, x + (b / 4) % pw, y + (b / 4) / pw) + b % 4],
    )
}

/// A rectangle inside the image is cut out in full.
pub proof fn crop_inside_keeps_its_size(src: Seq<u8>, w: int, h: int, x: int, y: int, cw: int, ch: int)
    requires
        0 < w,
        0 <= h,
        src.len() == 4 * (w * h),
        0 <= x,
        0 <= y,
        0 <= cw,
        0 <= ch,
        x + cw <= w,
        y + ch <= h,
    ensures
        cropped(src, w, x, y, cw, ch).len() == 4 * (cw * ch),
        rows_of(src, w) == h,
{
    assert(4 * (w * h) == h * (4 * w)) by (nonlinear_arith);
    vstd::arithmetic::div_mod::lemma_div_multiples_vanish(h, 4 * w);
    vstd::arithmetic::mul::lemma_mul_is_commutative(h, 4 * w);
    assert(0 <= cw * ch) by (nonlinear_arith)
        requires
            0 <= cw,
            0 <= ch,
    ;
}

/// Cropping to the whole image changes nothing.
pub proof fn crop_to_everything_is_the_image(src: Seq<u8>, w: int, h: int)
    requires
        0 < w,
        0 <= h,
        src.len() == 4 * (w * h),
    ensures
        cropped(src, w, 0, 0, w, h) == src,
{
    crop_inside_keeps_its_size(src, w, h, 0, 0, w, h);
    let out = cropped(src, w, 0, 0, w, h);
    assert forall|b: int| 0 <= b < src.len() implies out[b] == src[b] by {
        crate::pixels::lemma_coords(w, h, b / 4);
    }
    assert(out =~= src);
}

/// Crop a rectangle (clamped to bounds).
pub fn crop(src: &[u8], w: usize, x: usize, y: usize, cw: usize, ch: usize) -> (out: Vec<u8>)
    ensures
        out@ == cropped(src@, w as int, x as int, y as int, cw as int, ch as int),
{
    let ghost gw = w as int;
    let h: usize = if w == 0 { 0 } else { src.len() / 4 / w };
    proof {
        if w > 0 {
            vstd::arithmetic::div_mod::lemma_div_denominator(src.len() as int, 4, gw);
        }
        assert(h == rows_of(src@, gw));
    }
    let pw: usize = if x >= w { 0 } else if cw < w - x { cw } else { w - x };
    let ph: usize = if y >= h { 0 } else if ch < h - y { ch } else { h - y };
    let ghost want = cropped(src@, gw, x as int, y as int, cw as int, ch as int);
    proof {
        if w > 0 {
            lemma_rows_fit(src@, gw);
        }
        assert(pw * ph <= w * h) by (nonlinear_arith)
            requires
                0 <= pw <= w,
                0 <= ph <= h,
        ;
        assert(w == 0 ==> w * h == 0);
    }
    let n: usize = pw * ph;
    let mut out: Vec<u8> = Vec::new();
    let mut q: usize = 0;
    while q < n
        invariant
            q <= n,
            n == pw * ph,
            gw == w,
            4 * (w * h) <= src.len(),
            pw == crate::pixels::max_of(crate::pixels::min_of(cw as int, w - x), 0),
            ph == crate::pixels::max_of(crate::pixels::min_of(ch as int, h - y), 0),
            h == rows_of(src@, gw),
            want == cropped(src@, gw, x as int, y as int, cw as int, ch as int),
            out@ == want.take(4 * q),
        decreases n - q,
    {
        proof {
            crate::pixels::lemma_coords(pw as int, ph as int, q as int);
            crate::pixels::lemma_cell(gw, h as int, x + q as int % pw as int, y + q as int / pw as int);
        }
        let i: usize = ((y + q / pw) * w + (x + q % pw)) * 4;
        out.push(src[i]);
        out.push(src[i + 1]);
        out.push(src[i + 2]);
        out.push(src[i + 3]);
        assert(out@ =~= want.take(4 * (q + 1)));
        q = q + 1;
    }
    assert(out@ =~= want);
    out
}

/// The rows that a buffer holds fit into it.
proof fn lemma_rows_fit(src: Seq<u8>, w: int)
    requires
        0 < w,
    ensures
        4 * (w * rows_of(src, w)) <= src.len(),
{
    let h = rows_of(src, w);
    vstd::arithmetic::div_mod::lemma_fundamental_div_mod(src.len() as int, 4 * w);
    assert(4 * (w * h) == 4 * w * h) by (nonlinear_arith);
}

/// The alpha of a pixel under a mask value.
pub open spec fn masked_alpha(alpha: int, m: int) -> int {
    alpha * m / 255
}

/// The image with each alpha scaled by the mask. Pixels behind the end of the
/// mask stay.
pub open spec fn masked(src: Seq<u8>, mask: Seq<u8>) -> Seq<u8> {
    Seq::new(
        src.len(),
        |b: int|
            if b % 4 == 3 && b / 4 < mask.len() {
                masked_alpha(src[b] as int, mask[b / 4] as int) as u8
            } else {
                src[b]
            },
    )
}

proof fn lemma_masked_alpha(alpha: int, m: int)
    requires
        0 <= alpha <= 255,
        0 <= m <= 255,
    ensures
        0 <= alpha * m <= 65025,
        0 <= masked_alpha(alpha, m) <= alpha,
        masked_alpha(alpha, 255) == alpha,
        masked_alpha(alpha, 0) == 0,
{
    assert(0 <= alpha * m <= 255 * alpha) by (nonlinear_arith)
        requires
            0 <= alpha <= 255,
            0 <= m <= 255,
    ;
}

/// A full mask keeps the image, an empty mask makes each pixel transparent, and
/// no mask makes a pixel more opaque or changes its color.
pub proof fn mask_only_lowers_alpha(src: Seq<u8>, mask: Seq<u8>, b: int)
    requires
        0 <= b < src.len(),
    ensures
        masked(src, mask)[b] <= src[b],
        b % 4 != 3 ==> masked(src, mask)[b] == src[b],
        b % 4 == 3 && b / 4 < mask.len() && mask[b / 4] == 255 ==> masked(src, mask)[b] == src[b],
        b % 4 == 3 && b / 4 < mask.len() && mask[b / 4] == 0 ==> masked(src, mask)[b] == 0,
{
    lemma_masked_alpha(src[b] as int, mask[b / 4] as int);
}

/// Extract `src` RGBA multiplied by `mask` into a new RGBA buffer.
/// Mask values 0..255 are treated as alpha. The returned buffer has the
/// same dimensions as the input.
pub fn extract_masked(src: &[u8], mask: &[u8]) -> (out: Vec<u8>)
    ensures
        out@ == masked(src@, mask@),
{
    let n: usize = src.len();
    let mut out: Vec<u8> = Vec::new();
    let mut b: usize = 0;
    while b < n
        invariant
            b <= n,
            n == src.len(),
            out@ == masked(src@, mask@).take(b as int),
        decreases n - b,
    {
        if b % 4 == 3 && b / 4 < mask.len() {
            proof {
                lemma_masked_alpha(src@[b as int] as int, mask@[b as int / 4] as int);
            }
            out.push((src[b] as u32 * mask[b / 4] as u32 / 255) as u8);
        } else {
            out.push(src[b]);
        }
        assert(out@ =~= masked(src@, mask@).take(b + 1));
        b = b + 1;
    }
    assert(out@ =~= masked(src@, mask@));
    out
}

/// The image with each color byte of a whole pixel looked up in a table.
pub open spec fn shaded(src: Seq<u8>, table: Seq<u8>) -> Seq<u8> {
    Seq::new(
        src.len(),
        |b: int|
            if b % 4 != 3 && b < src.len() as int / 4 * 4 {
                table[src[b] as int]
            } else {
                src[b]
            },
    )
}

/// Darken an RGBA buffer in place. `shade` gives the darkened value of each
/// byte.
pub fn darken(data: &mut [u8], shade: &[u8])
    requires
        shade.len() == 256,
    ensures
        final(data)@ == shaded(old(data)@, shade@),
{
    let ghost src = data@;
    let n: usize = data.len() / 4 * 4;
    let mut b: usize = 0;
    while b < n
        invariant
            b <= n,
            n == src.len() as int / 4 * 4,
            n <= data.len(),
            shade.len() == 256,
            data@.len() == src.len(),
            forall|i: int| 0 <= i < b ==> #[trigger] data@[i] == shaded(src, shade@)[i],
            forall|i: int| b <= i < src.len() ==> #[trigger] data@[i] == src[i],
        decreases n - b,
    {
        if b % 4 != 3 {
            data[b] = shade[data[b] as usize];
        }
        b = b + 1;
    }
}

/// Sum of `line` from `lo` up to but without `hi`.
pub open spec fn range_sum(line: Seq<int>, lo: int, hi: int) -> int
    decreases hi - lo,
{
    if hi <= lo {
        0
    } else {
        range_sum(line, lo, hi - 1) + line[hi - 1]
    }
}

/// First position of the box of radius `r` around position `x` of a line.
pub open spec fn box_from(r: int, x: int) -> int {
    crate::pixels::max_of(x - r, 0)
}

/// Position behind the box of radius `r` around position `x` of a line of
/// length `n`.
pub open spec fn box_to(n: int, r: int, x: int) -> int {
    crate::pixels::min_of(x + r, n - 1) + 1
}

/// The line with each value replaced by the mean over the part of its box that
/// lies on the line, rounded down.
pub open spec fn blurred_line(line: Seq<int>, r: int) -> Seq<int> {
    Seq::new(
        line.len(),
        |x: int|
            range_sum(line, box_from(r, x), box_to(line.len() as int, r, x)) / (box_to(line.len() as int, r, x)
                - box_from(r, x)),
    )
}

/// Row `y` of one plane of a buffer: every `stride`-th byte from `offset` on.
pub open spec fn plane_row(src: Seq<u8>, w: int, stride: int, offset: int, y: int) -> Seq<int> {
    Seq::new(w as nat, |x: int| src[stride * crate::pixels::cell(w, x, y) + offset] as int)
}

/// Column `x` of the plane after its rows were averaged.
pub open spec fn blurred_column(src: Seq<u8>, w: int, h: int, stride: int, offset: int, r: int, x: int) -> Seq<int> {
    Seq::new(h as nat, |y: int| blurred_line(plane_row(src, w, stride, offset, y), r)[x])
}

/// The value of cell `p` of the plane after its rows and then its columns were
/// averaged.
pub open spec fn blurred_cell(src: Seq<u8>, w: int, h: int, stride: int, offset: int, r: int, p: int) -> u8 {
    blurred_line(blurred_column(src, w, h, stride, offset, r, p % w), r)[p / w] as u8
}

/// A line whose values are bytes.
spec fn bytes_line(line: Seq<int>) -> bool {
    forall|i: int| 0 <= i < line.len() ==> 0 <= #[trigger] line[i] <= 255
}

proof fn lemma_range_sum_bounds(line: Seq<int>, lo: int, hi: int)
    requires
        bytes_line(line),
        0 <= lo <= hi <= line.len(),
    ensures
        0 <= range_sum(line, lo, hi) <= 255 * (hi - lo),
    decreases hi - lo,
{
    if lo < hi {
        lemma_range_sum_bounds(line, lo, hi - 1);
    }
}

/// The first value can be taken off a sum.
proof fn lemma_range_sum_front(line: Seq<int>, lo: int, hi: int)
    requires
        lo < hi,
    ensures
        range_sum(line, lo, hi) == line[lo] + range_sum(line, lo + 1, hi),
    decreases hi - lo,
{
    if lo + 1 < hi {
        lemma_range_sum_front(line, lo, hi - 1);
    } else {
        assert(range_sum(line, lo, lo) == 0);
        assert(range_sum(line, lo + 1, hi) == 0);
    }
}

/// The mean of bytes is a byte.
proof fn lemma_mean_bounds(line: Seq<int>, r: int, x: int)
    requires
        bytes_line(line),
        0 <= r,
        0 <= x < line.len(),
    ensures
        0 <= blurred_line(line, r)[x] <= 255,
{
    let n = line.len() as int;
    let sum = range_sum(line, box_from(r, x), box_to(n, r, x));
    let count = box_to(n, r, x) - box_from(r, x);
    lemma_range_sum_bounds(line, box_from(r, x), box_to(n, r, x));
    assert(0 <= sum / count <= 255) by (nonlinear_arith)
        requires
            0 <= sum <= 255 * count,
            1 <= count,
    ;
}

/// Values of a line as integers.
spec fn ints(line: Seq<u64>) -> Seq<int> {
    Seq::new(line.len(), |i: int| line[i] as int)
}

/// Averages a line over boxes, by a running sum.
fn blur_line(line: &Vec<u64>, r: usize) -> (out: Vec<u64>)
    requires
        line.len() <= 0x7fff_ffff,
        bytes_line(ints(line@)),
    ensures
        ints(out@) == blurred_line(ints(line@), r as int),
        bytes_line(ints(out@)),
{
    let n: usize = line.len();
    let ghost vals = ints(line@);
    let mut sum: u64 = 0;
    let first: usize = if r < n { r } else { n };
    let mut i: usize = 0;
    while i < first
        invariant
            i <= first <= n,
            n == line.len(),
            n <= 0x7fff_ffff,
            vals == ints(line@),
            bytes_line(vals),
            sum == range_sum(vals, 0, i as int),
            sum <= 255 * i,
        decreases first - i,
    {
        assert(vals[i as int] == line@[i as int]);
        sum = sum + line[i];
        i = i + 1;
    }
    let mut out: Vec<u64> = Vec::new();
    let mut x: usize = 0;
    while x < n
        invariant
            x <= n,
            n == line.len(),
            n <= 0x7fff_ffff,
            vals == ints(line@),
            bytes_line(vals),
            sum == range_sum(vals, box_from(r as int, x - 1), crate::pixels::min_of(x + r, n as int)),
            out.len() == x,
            forall|k: int| 0 <= k < x ==> #[trigger] out@[k] == blurred_line(vals, r as int)[k] && out@[k] <= 255,
        decreases n - x,
    {
        let ghost lo = box_from(r as int, x - 1);
        let ghost hi = crate::pixels::min_of(x + r, n as int);
        proof {
            lemma_mean_bounds(vals, r as int, x as int);
            lemma_range_sum_bounds(vals, lo, hi);
        }
        if x > r {
            proof {
                lemma_range_sum_front(vals, lo, hi);
                lemma_range_sum_bounds(vals, lo + 1, hi);
            }
            assert(vals[x - 1 - r] == line@[x - 1 - r]);
            sum = sum - line[x - 1 - r];
        }
        let inside: bool = r < n && x + r < n;
        if inside {
            assert(vals[x + r] == line@[x + r]);
            sum = sum + line[x + r];
        }
        let left: usize = if x > r { x - r } else { 0 };
        let right: usize = if inside { x + r } else { n - 1 };
        let count: u64 = (right - left + 1) as u64;
        assert(sum == range_sum(vals, box_from(r as int, x as int), box_to(n as int, r as int, x as int)));
        assert(count == box_to(n as int, r as int, x as int) - box_from(r as int, x as int));
        out.push(sum / count);
        x = x + 1;
    }
    assert(ints(out@) =~= blurred_line(vals, r as int));
    out
}

/// The rows of one plane, each averaged over boxes.
fn blur_rows(src: &[u8], w: usize, h: usize, stride: usize, offset: usize, r: usize) -> (rows: Vec<Vec<u64>>)
    requires
        w <= 0x7fff_ffff,
        offset < stride,
        stride * (w * h) <= src.len(),
    ensures
        rows.len() == h,
        forall|y: int|
            0 <= y < h ==> ints((#[trigger] rows@[y])@) == blurred_line(
                plane_row(src@, w as int, stride as int, offset as int, y),
                r as int,
            ),
        forall|y: int| 0 <= y < h ==> bytes_line(ints((#[trigger] rows@[y])@)),
{
    let ghost (gw, gh, gs, go) = (w as int, h as int, stride as int, offset as int);
    let mut rows: Vec<Vec<u64>> = Vec::new();
    let mut y: usize = 0;
    while y < h
        invariant
            y <= h,
            gw == w,
            gh == h,
            gs == stride,
            go == offset,
            w <= 0x7fff_ffff,
            offset < stride,
            stride * (w * h) <= src.len(),
            rows.len() == y,
            forall|k: int|
                0 <= k < y ==> ints((#[trigger] rows@[k])@) == blurred_line(plane_row(src@, gw, gs, go, k), r as int),
            forall|k: int| 0 <= k < y ==> bytes_line(ints((#[trigger] rows@[k])@)),
        decreases h - y,
    {
        let mut line: Vec<u64> = Vec::new();
        let mut x: usize = 0;
        while x < w
            invariant
                x <= w,
                y < h,
                gw == w,
                gh == h,
                gs == stride,
                go == offset,
                offset < stride,
                stride * (w * h) <= src.len(),
                line.len() == x,
                forall|k: int|
                    0 <= k < x ==> #[trigger] line@[k] == plane_row(src@, gw, gs, go, y as int)[k] && line@[k] <= 255,
            decreases w - x,
        {
            proof {
                crate::pixels::lemma_cell(gw, gh, x as int, y as int);
                lemma_plane_index(gs, gw * gh, crate::pixels::cell(gw, x as int, y as int), go);
            }
            line.push(src[stride * (y * w + x) + offset] as u64);
            x = x + 1;
        }
        assert(ints(line@) =~= plane_row(src@, gw, gs, go, y as int));
        rows.push(blur_line(&line, r));
        y = y + 1;
    }
    rows
}

/// A byte of a plane lies in the buffer.
proof fn lemma_plane_index(stride: int, n: int, p: int, offset: int)
    requires
        0 <= offset < stride,
        0 <= p < n,
    ensures
        0 <= stride * p,
        stride * p + offset < stride * n,
        n <= stride * n,
{
    assert(0 <= stride * p && stride * p + offset < stride * n && n <= stride * n) by (nonlinear_arith)
        requires
            0 <= offset < stride,
            0 <= p,
            p + 1 <= n,
    ;
}

/// One plane of a buffer, averaged over boxes along its rows and then along its
/// columns.
fn blur_plane(src: &[u8], w: usize, h: usize, stride: usize, offset: usize, r: usize) -> (out: Vec<u8>)
    requires
        w <= 0x7fff_ffff,
        h <= 0x7fff_ffff,
        offset < stride,
        stride * (w * h) <= src.len(),
    ensures
        out@ == Seq::new(
            (w * h) as nat,
            |p: int| blurred_cell(src@, w as int, h as int, stride as int, offset as int, r as int, p),
        ),
{
    let ghost (gw, gh, gs, go, gr) = (w as int, h as int, stride as int, offset as int, r as int);
    let rows: Vec<Vec<u64>> = blur_rows(src, w, h, stride, offset, r);
    let mut columns: Vec<Vec<u64>> = Vec::new();
    let mut x: usize = 0;
    while x < w
        invariant
            x <= w,
            gw == w,
            gh == h,
            gr == r,
            h <= 0x7fff_ffff,
            rows.len() == h,
            forall|y: int|
                0 <= y < h ==> ints((#[trigger] rows@[y])@) == blurred_line(plane_row(src@, gw, gs, go, y), gr),
            forall|y: int| 0 <= y < h ==> bytes_line(ints((#[trigger] rows@[y])@)),
            columns.len() == x,
            forall|k: int|
                0 <= k < x ==> ints((#[trigger] columns@[k])@) == blurred_line(
                    blurred_column(src@, gw, gh, gs, go, gr, k),
                    gr,
                ) && bytes_line(ints(columns@[k]@)),
        decreases w - x,
    {
        let mut line: Vec<u64> = Vec::new();
        let mut y: usize = 0;
        while y < h
            invariant
                y <= h,
                x < w,
                gw == w,
                gh == h,
                rows.len() == h,
                forall|k: int|
                    0 <= k < h ==> ints((#[trigger] rows@[k])@) == blurred_line(plane_row(src@, gw, gs, go, k), gr),
                forall|k: int| 0 <= k < h ==> bytes_line(ints((#[trigger] rows@[k])@)),
                line.len() == y,
                forall|k: int|
                    0 <= k < y ==> #[trigger] line@[k] == blurred_column(src@, gw, gh, gs, go, gr, x as int)[k]
                        && line@[k] <= 255,
            decreases h - y,
        {
            proof {
                let row = rows@[y as int]@;
                assert(ints(row).len() == gw);
                assert(ints(row)[x as int] == row[x as int]);
            }
            line.push(rows[y][x]);
            y = y + 1;
        }
        assert(ints(line@) =~= blurred_column(src@, gw, gh, gs, go, gr, x as int));
        columns.push(blur_line(&line, r));
        x = x + 1;
    }
    let ghost want = Seq::new((gw * gh) as nat, |p: int| blurred_cell(src@, gw, gh, gs, go, gr, p));
    proof {
        assert(gw * gh <= gs * (gw * gh)) by (nonlinear_arith)
            requires
                1 <= gs,
                0 <= gw,
                0 <= gh,
        ;
    }
    let n: usize = w * h;
    let mut out: Vec<u8> = Vec::new();
    let mut p: usize = 0;
    while p < n
        invariant
            p <= n,
            n == w * h,
            gw == w,
            gh == h,
            gr == r,
            columns.len() == w,
            forall|k: int|
                0 <= k < w ==> ints((#[trigger] columns@[k])@) == blurred_line(
                    blurred_column(src@, gw, gh, gs, go, gr, k),
                    gr,
                ) && bytes_line(ints(columns@[k]@)),
            want == Seq::new((gw * gh) as nat, |p: int| blurred_cell(src@, gw, gh, gs, go, gr, p)),
            out@ == want.take(p as int),
        decreases n - p,
    {
        proof {
            crate::pixels::lemma_coords(gw, gh, p as int);
            let column = columns@[p as int % gw]@;
            assert(ints(column).len() == gh);
            assert(ints(column)[p as int / gw] == column[p as int / gw]);
        }
        let v: u64 = columns[p % w][p / w];
        out.push(v as u8);
        assert(out@ =~= want.take(p + 1));
        p = p + 1;
    }
    assert(out@ =~= want);
    out
}

/// The mask averaged over boxes. Bytes behind the last cell stay.
pub open spec fn blurred_gray(src: Seq<u8>, dst: Seq<u8>, w: int, h: int, r: int) -> Seq<u8> {
    Seq::new(
        dst.len(),
        |p: int|
            if p < w * h {
                blurred_cell(src, w, h, 1, 0, r, p)
            } else {
                dst[p]
            },
    )
}

/// Box blur of a grayscale mask from `src` to `dst`.
pub fn box_blur_gray(src: &[u8], dst: &mut [u8], w: usize, h: usize, radius: usize)
    requires
        w <= 0x7fff_ffff,
        h <= 0x7fff_ffff,
        w * h <= src.len(),
        w * h <= old(dst).len(),
    ensures
        final(dst)@ == blurred_gray(src@, old(dst)@, w as int, h as int, radius as int),
{
    let ghost before = dst@;
    let ghost (gw, gh, gr) = (w as int, h as int, radius as int);
    let out: Vec<u8> = blur_plane(src, w, h, 1, 0, radius);
    let n: usize = w * h;
    let mut p: usize = 0;
    while p < n
        invariant
            p <= n,
            n == w * h,
            n <= dst.len(),
            gw == w,
            gh == h,
            out@ == Seq::new((gw * gh) as nat, |p: int| blurred_cell(src@, gw, gh, 1, 0, gr, p)),
            dst@.len() == before.len(),
            forall|i: int| 0 <= i < p ==> #[trigger] dst@[i] == blurred_cell(src@, gw, gh, 1, 0, gr, i),
            forall|i: int| p <= i < before.len() ==> #[trigger] dst@[i] == before[i],
        decreases n - p,
    {
        dst[p] = out[p];
        p = p + 1;
    }
}

/// Feathers a mask by a radius in pixels. A radius up to 1 leaves it sharp.
pub fn feather_mask(mask: &mut [u8], w: usize, h: usize, radius: usize)
    requires
        w <= 0x7fff_ffff,
        h <= 0x7fff_ffff,
        w * h <= old(mask).len(),
    ensures
        final(mask)@ == feathered(old(mask)@, w as int, h as int, radius as int),
{
    if radius <= 1 {
        return;
    }
    let tmp: Vec<u8> = vstd::slice::slice_to_vec(mask);
    box_blur_gray(tmp.as_slice(), mask, w, h, radius);
}

/// The mask feathered by a radius in pixels.
pub open spec fn feathered(mask: Seq<u8>, w: int, h: int, radius: int) -> Seq<u8> {
    if radius <= 1 {
        mask
    } else {
        blurred_gray(mask, mask, w, h, radius)
    }
}

/// The image with each channel averaged over boxes.
pub open spec fn blurred_rgba(src: Seq<u8>, w: int, h: int, r: int) -> Seq<u8> {
    if r == 0 {
        src
    } else {
        Seq::new(
            src.len(),
            |b: int|
                if b < 4 * (w * h) {
                    blurred_cell(src, w, h, 4, b % 4, r, b / 4)
                } else {
                    src[b]
                },
        )
    }
}

/// A line of equal values stays as it is.
proof fn lemma_flat_line(line: Seq<int>, r: int, v: int)
    requires
        0 <= r,
        0 <= v,
        forall|i: int| 0 <= i < line.len() ==> #[trigger] line[i] == v,
    ensures
        blurred_line(line, r) == line,
{
    let n = line.len() as int;
    assert forall|x: int| 0 <= x < n implies #[trigger] blurred_line(line, r)[x] == line[x] by {
        lemma_flat_sum(line, v, box_from(r, x), box_to(n, r, x));
        vstd::arithmetic::div_mod::lemma_div_by_multiple(v, box_to(n, r, x) - box_from(r, x));
    }
    assert(blurred_line(line, r) =~= line);
}

proof fn lemma_flat_sum(line: Seq<int>, v: int, lo: int, hi: int)
    requires
        0 <= lo <= hi <= line.len(),
        forall|i: int| 0 <= i < line.len() ==> #[trigger] line[i] == v,
    ensures
        range_sum(line, lo, hi) == v * (hi - lo),
    decreases hi - lo,
{
    if lo < hi {
        lemma_flat_sum(line, v, lo, hi - 1);
        assert(v * (hi - lo) == v * (hi - 1 - lo) + v) by (nonlinear_arith);
    } else {
        assert(v * 0 == 0);
    }
}

/// A plane of equal values stays as it is.
proof fn lemma_flat_plane(src: Seq<u8>, w: int, h: int, stride: int, offset: int, r: int, p: int, v: u8)
    requires
        0 <= r,
        0 <= p < w * h,
        0 < w,
        forall|q: int| 0 <= q < w * h ==> src[#[trigger] (stride * q) + offset] == v,
    ensures
        blurred_cell(src, w, h, stride, offset, r, p) == v,
{
    crate::pixels::lemma_coords(w, h, p);
    assert forall|y: int| 0 <= y < h implies #[trigger] blurred_line(plane_row(src, w, stride, offset, y), r)[p % w]
        == v by {
        let row = plane_row(src, w, stride, offset, y);
        assert forall|x: int| 0 <= x < w implies #[trigger] row[x] == v by {
            crate::pixels::lemma_cell(w, h, x, y);
            let q = crate::pixels::cell(w, x, y);
            assert(src[stride * q + offset] == v);
        }
        lemma_flat_line(row, r, v as int);
    }
    let column = blurred_column(src, w, h, stride, offset, r, p % w);
    lemma_flat_line(column, r, v as int);
}

/// Blurring equal values gives the same values.
pub proof fn flat_masks_stay_flat(src: Seq<u8>, dst: Seq<u8>, w: int, h: int, r: int, v: u8)
    requires
        0 < w,
        0 < h,
        0 <= r,
        w * h <= src.len(),
        w * h <= dst.len(),
        forall|p: int| 0 <= p < w * h ==> #[trigger] src[p] == v,
    ensures
        forall|p: int| 0 <= p < w * h ==> #[trigger] blurred_gray(src, dst, w, h, r)[p] == v,
{
    assert forall|p: int| 0 <= p < w * h implies #[trigger] blurred_gray(src, dst, w, h, r)[p] == v by {
        lemma_flat_plane(src, w, h, 1, 0, r, p, v);
    }
}

/// Blurring an image whose pixels are all equal leaves it as it is.
pub proof fn flat_images_stay_flat(src: Seq<u8>, w: int, h: int, r: int)
    requires
        0 < w,
        0 < h,
        0 <= r,
        4 * (w * h) <= src.len(),
        forall|b: int| 0 <= b < 4 * (w * h) ==> #[trigger] src[b] == src[b % 4],
    ensures
        blurred_rgba(src, w, h, r) == src,
{
    assert forall|b: int| 0 <= b < 4 * (w * h) implies #[trigger] blurred_rgba(src, w, h, r)[b] == src[b] by {
        if r > 0 {
            let c = b % 4;
            assert forall|q: int| 0 <= q < w * h implies src[#[trigger] (4 * q) + c] == src[c] by {
                assert((4 * q + c) % 4 == c);
            }
            lemma_flat_plane(src, w, h, 4, c, r, b / 4, src[c]);
        }
    }
    assert(blurred_rgba(src, w, h, r) =~= src);
}

/// Channel `c` of the first `n` pixels of an image.
pub open spec fn channel_plane(src: Seq<u8>, c: int, n: int) -> Seq<u8> {
    Seq::new(n as nat, |p: int| src[4 * p + c])
}

/// Each channel of an image is blurred by itself, as a mask is.
pub proof fn channels_are_blurred_as_masks(src: Seq<u8>, dst: Seq<u8>, w: int, h: int, r: int, c: int)
    requires
        0 < w,
        0 < h,
        0 < r,
        0 <= c < 4,
        4 * (w * h) <= src.len(),
        dst.len() == w * h,
    ensures
        channel_plane(blurred_rgba(src, w, h, r), c, w * h) == blurred_gray(
            channel_plane(src, c, w * h),
            dst,
            w,
            h,
            r,
        ),
{
    let plane = channel_plane(src, c, w * h);
    assert forall|p: int| 0 <= p < w * h implies #[trigger] channel_plane(blurred_rgba(src, w, h, r), c, w * h)[p]
        == blurred_gray(plane, dst, w, h, r)[p] by {
        assert((4 * p + c) / 4 == p && (4 * p + c) % 4 == c);
        crate::pixels::lemma_coords(w, h, p);
        assert forall|y: int| 0 <= y < h implies #[trigger] plane_row(src, w, 4, c, y) == plane_row(plane, w, 1, 0, y) by {
            assert forall|x: int| 0 <= x < w implies #[trigger] plane_row(src, w, 4, c, y)[x] == plane_row(
                plane,
                w,
                1,
                0,
                y,
            )[x] by {
                crate::pixels::lemma_cell(w, h, x, y);
            }
            assert(plane_row(src, w, 4, c, y) =~= plane_row(plane, w, 1, 0, y));
        }
        assert(blurred_column(src, w, h, 4, c, r, p % w) =~= blurred_column(plane, w, h, 1, 0, r, p % w));
    }
    assert(channel_plane(blurred_rgba(src, w, h, r), c, w * h) =~= blurred_gray(plane, dst, w, h, r));
}

/// Simple box blur on RGBA (used for background blur behind isolated subject).
pub fn box_blur_rgba(data: &mut [u8], w: usize, h: usize, radius: usize)
    requires
        w <= 0x7fff_ffff,
        h <= 0x7fff_ffff,
        4 * (w * h) <= old(data).len(),
    ensures
        final(data)@ == blurred_rgba(old(data)@, w as int, h as int, radius as int),
{
    if radius == 0 {
        return;
    }
    let src: Vec<u8> = vstd::slice::slice_to_vec(data);
    let ghost (gw, gh, gr) = (w as int, h as int, radius as int);
    let n: usize = w * h;
    let mut c: usize = 0;
    while c < 4
        invariant
            c <= 4,
            w <= 0x7fff_ffff,
            h <= 0x7fff_ffff,
            n == w * h,
            4 * n <= src.len(),
            gw == w,
            gh == h,
            gr == radius,
            gr > 0,
            data@.len() == src@.len(),
            forall|b: int|
                0 <= b < src@.len() ==> #[trigger] data@[b] == (if b < 4 * n && b % 4 < c {
                    blurred_rgba(src@, gw, gh, gr)[b]
                } else {
                    src@[b]
                }),
        decreases 4 - c,
    {
        let out: Vec<u8> = blur_plane(src.as_slice(), w, h, 4, c, radius);
        let mut p: usize = 0;
        while p < n
            invariant
                p <= n,
                c < 4,
                n == w * h,
                4 * n <= src.len(),
                gw == w,
                gh == h,
                gr == radius,
                gr > 0,
                out@ == Seq::new((gw * gh) as nat, |p: int| blurred_cell(src@, gw, gh, 4, c as int, gr, p)),
                data@.len() == src@.len(),
                forall|b: int|
                    0 <= b < src@.len() ==> #[trigger] data@[b] == (if b < 4 * n && (b % 4 < c || (b % 4 == c && b / 4
                        < p)) {
                        blurred_rgba(src@, gw, gh, gr)[b]
                    } else {
                        src@[b]
                    }),
            decreases n - p,
        {
            data[4 * p + c] = out[p];
            assert((4 * p + c) / 4 == p && (4 * p + c) % 4 == c);
            p = p + 1;
        }
        c = c + 1;
    }
}

/// The image with the share of each alpha that the mask selects taken away.
/// Pixels behind the end of the mask stay.
pub open spec fn erased(src: Seq<u8>, mask: Seq<u8>) -> Seq<u8> {
    Seq::new(
        src.len(),
        |b: int|
            if b % 4 == 3 && b / 4 < mask.len() {
                crate::pixels::min_of(crate::single::remaining(src[b] as int, mask[b / 4] as int), 255) as u8
            } else {
                src[b]
            },
    )
}

/// Erasing keeps colors and what is not selected, and makes what is fully
/// selected transparent.
pub proof fn erasing_follows_the_mask(src: Seq<u8>, mask: Seq<u8>, b: int)
    requires
        0 <= b < src.len(),
    ensures
        b % 4 != 3 ==> erased(src, mask)[b] == src[b],
        b % 4 == 3 && b / 4 < mask.len() && mask[b / 4] == 0 ==> erased(src, mask)[b] == src[b],
        b % 4 == 3 && b / 4 < mask.len() && mask[b / 4] == 255 ==> erased(src, mask)[b] == 0,
{
    crate::single::shares_at_the_ends(src[b] as int);
}

/// Makes the selected part of an image transparent.
pub fn erase_masked(data: &mut [u8], mask: &[u8])
    ensures
        final(data)@ == erased(old(data)@, mask@),
{
    let ghost src = data@;
    let n: usize = data.len();
    let mut b: usize = 0;
    while b < n
        invariant
            b <= n,
            n == data.len(),
            n == src.len(),
            forall|i: int| 0 <= i < b ==> #[trigger] data@[i] == erased(src, mask@)[i],
            forall|i: int| b <= i < n ==> #[trigger] data@[i] == src[i],
        decreases n - b,
    {
        if b % 4 == 3 && b / 4 < mask.len() {
            data[b] = take_share(data[b], mask[b / 4]);
        }
        b = b + 1;
    }
}

/// Selection masks of a segmentation, the other way round.
pub fn invert_mask(mask: &[u8]) -> (r: Vec<u8>)
    ensures
        r@ == Seq::new(mask@.len(), |i: int| (255 - mask@[i]) as u8),
{
    let mut out: Vec<u8> = Vec::new();
    let mut i: usize = 0;
    while i < mask.len()
        invariant
            i <= mask.len(),
            out@ == Seq::new(i as nat, |k: int| (255 - mask@[k]) as u8),
        decreases mask.len() - i,
    {
        out.push(255 - mask[i]);
        i = i + 1;
    }
    out
}

/// The tint that shows a mask: blue, with a third of the mask as alpha.
pub open spec fn tint_byte(m: u8, c: int) -> u8 {
    if m == 0 {
        0
    } else if c == 0 {
        10
    } else if c == 1 {
        132
    } else if c == 2 {
        255
    } else {
        m / 3
    }
}

/// An RGBA image that shows a mask over the photo.
pub fn mask_tint(mask: &[u8]) -> (r: Vec<u8>)
    requires
        4 * mask.len() <= usize::MAX,
    ensures
        r@ == Seq::new(4 * mask@.len(), |b: int| tint_byte(mask@[b / 4], b % 4)),
{
    let mut out: Vec<u8> = Vec::new();
    let ghost want = Seq::new(4 * mask@.len(), |b: int| tint_byte(mask@[b / 4], b % 4));
    let mut i: usize = 0;
    while i < mask.len()
        invariant
            i <= mask.len(),
            want == Seq::new(4 * mask@.len(), |b: int| tint_byte(mask@[b / 4], b % 4)),
            out@ == want.take(4 * i),
        decreases mask.len() - i,
    {
        let m: u8 = mask[i];
        if m == 0 {
            out.push(0);
            out.push(0);
            out.push(0);
            out.push(0);
        } else {
            out.push(10);
            out.push(132);
            out.push(255);
            out.push(m / 3);
        }
        assert(out@ =~= want.take(4 * (i + 1)));
        i = i + 1;
    }
    assert(out@ =~= want);
    out
}

/// A quarter turn clockwise moves each row to a column: the top row to the last
/// one, so that pixel `(x, y)` comes to `(h - 1 - y, x)`. Two turns move it to the
/// opposite place, three turn it the other way, and four leave it.
pub proof fn turns_move_pixels_clockwise(src: Seq<u8>, w: int, h: int, turns: int, x: int, y: int, c: int)
    requires
        4 * (w * h) <= src.len(),
        0 <= turns,
        0 <= x < w,
        0 <= y < h,
        0 <= c < 4,
    ensures
        turned(src, w, h, turns).len() == src.len(),
        turns % 4 != 0 ==> forall|b: int| 4 * (w * h) <= b < src.len() ==> #[trigger] turned(src, w, h, turns)[b] == 0,
        turns % 4 == 0 ==> turned(src, w, h, turns) == src && turned_size(w, h, turns) == (w, h),
        turns % 4 == 1 ==> turned(src, w, h, turns)[4 * (x * h + h - 1 - y) + c] == src[4 * (y * w + x) + c] && turned_size(
            w,
            h,
            turns,
        ) == (h, w),
        turns % 4 == 2 ==> turned(src, w, h, turns)[4 * ((h - 1 - y) * w + w - 1 - x) + c] == src[4 * (y * w + x) + c]
            && turned_size(w, h, turns) == (w, h),
        turns % 4 == 3 ==> turned(src, w, h, turns)[4 * ((w - 1 - x) * h + y) + c] == src[4 * (y * w + x) + c] && turned_size(
            w,
            h,
            turns,
        ) == (h, w),
{
    vstd::arithmetic::mul::lemma_mul_is_commutative(w, h);
    crate::pixels::lemma_cell(w, h, x, y);
    let t = turns % 4;
    if t == 0 {
        lemma_no_turn(src, w, h, turns);
    } else {
        let (nx, ny) = if t == 1 { (h - 1 - y, x) } else if t == 2 { (w - 1 - x, h - 1 - y) } else { (y, w - 1 - x) };
        let (ow, oh) = turned_size(w, h, turns);
        crate::pixels::lemma_cell(ow, oh, nx, ny);
        let q = ny * ow + nx;
        assert((4 * q + c) / 4 == q && (4 * q + c) % 4 == c);
        assert(turned(src, w, h, turns)[4 * q + c] == src[4 * (y * w + x) + c]);
    }
}

/// A crop holds, row by row, the pixels of its rectangle that lie in the image:
/// `pw` columns and `ph` rows of them.
pub proof fn crop_copies_its_rectangle(src: Seq<u8>, w: int, h: int, x: int, y: int, cw: int, ch: int, pw: int, ph: int, u: int, v: int, c: int)
    requires
        0 < w,
        0 <= h,
        src.len() == 4 * (w * h),
        0 <= x,
        0 <= y,
        0 <= cw,
        0 <= ch,
        x + cw <= w ==> pw == cw,
        x + cw > w && x <= w ==> pw == w - x,
        x > w ==> pw == 0,
        y + ch <= h ==> ph == ch,
        y + ch > h && y <= h ==> ph == h - y,
        y > h ==> ph == 0,
        0 <= c < 4,
    ensures
        cropped(src, w, x, y, cw, ch).len() == 4 * (pw * ph),
        0 <= u < pw && 0 <= v < ph ==> cropped(src, w, x, y, cw, ch)[4 * (v * pw + u) + c] == src[4 * ((y + v) * w + x + u) + c],
{
    crop_inside_keeps_its_size(src, w, h, 0, 0, w, h);
    if 0 <= u < pw && 0 <= v < ph {
        crate::pixels::lemma_cell(pw, ph, u, v);
        let q = v * pw + u;
        assert((4 * q + c) / 4 == q && (4 * q + c) % 4 == c);
    }
}

/// A masked alpha is the alpha times the mask, of 255 parts, rounded down.
/// Colors, and pixels behind the end of the mask, stay.
pub proof fn mask_scales_alpha(src: Seq<u8>, mask: Seq<u8>, p: int, c: int)
    requires
        0 <= p,
        0 <= c < 4,
        4 * p + c < src.len(),
    ensures
        masked(src, mask).len() == src.len(),
        c == 3 && p < mask.len() ==> 255 * masked(src, mask)[4 * p + c] <= src[4 * p + c] * mask[p] < 255 * masked(src, mask)[4
            * p + c] + 255,
        c != 3 || p >= mask.len() ==> masked(src, mask)[4 * p + c] == src[4 * p + c],
{
    assert((4 * p + c) / 4 == p && (4 * p + c) % 4 == c);
    if c == 3 && p < mask.len() {
        lemma_masked_alpha(src[4 * p + c] as int, mask[p] as int);
    }
}

/// Each color byte of a darkened image is looked up in the table; alpha, and
/// bytes behind the last whole pixel, stay.
pub proof fn shades_come_from_the_table(src: Seq<u8>, table: Seq<u8>, p: int, c: int)
    requires
        0 <= p,
        0 <= c < 4,
        4 * p + c < src.len(),
    ensures
        shaded(src, table).len() == src.len(),
        c < 3 && 4 * p + 4 <= src.len() ==> shaded(src, table)[4 * p + c] == table[src[4 * p + c] as int],
        c == 3 || 4 * p + 4 > src.len() ==> shaded(src, table)[4 * p + c] == src[4 * p + c],
{
    assert((4 * p + c) / 4 == p && (4 * p + c) % 4 == c);
}

/// The sum over a range counts each value once.
pub proof fn range_sums_count_each_value_once(line: Seq<int>, lo: int, hi: int, i: int, v: int)
    requires
        0 <= lo <= hi <= line.len(),
        0 <= i < line.len(),
    ensures
        range_sum(line.update(i, v), lo, hi) == range_sum(line, lo, hi) + if lo <= i < hi { v - line[i] } else { 0 },
        (forall|k: int| 0 <= k < line.len() ==> #[trigger] line[k] == 0) ==> range_sum(line, lo, hi) == 0,
    decreases hi - lo,
{
    if lo < hi {
        range_sums_count_each_value_once(line, lo, hi - 1, i, v);
    }
}

/// Each value of a blurred line is the mean, rounded down, of the values of the
/// line that are at most `r` places away.
pub proof fn blurred_lines_hold_means(line: Seq<int>, r: int, x: int, from: int, to: int)
    requires
        0 <= r,
        0 <= x < line.len(),
        forall|i: int| 0 <= i < line.len() && x - r <= i <= x + r <==> #[trigger] crate::pixels::between(from, i, to),
    ensures
        blurred_line(line, r).len() == line.len(),
        from < to,
        (to - from) * blurred_line(line, r)[x] <= range_sum(line, from, to) < (to - from) * blurred_line(line, r)[x] + (to
            - from),
{
    crate::pixels::lemma_range(box_from(r, x), box_to(line.len() as int, r, x), from, to);
    vstd::arithmetic::div_mod::lemma_fundamental_div_mod(range_sum(line, from, to), to - from);
}

/// A mask is blurred along its rows first, and what that gives along its
/// columns: its value at `(x, y)` is the one at `y` of a line that is blurred,
/// which holds the values at `x` of the blurred rows.
pub proof fn masks_are_blurred_by_rows_and_columns(src: Seq<u8>, dst: Seq<u8>, w: int, h: int, r: int, x: int, y: int, column: Seq<int>)
    requires
        w * h <= src.len(),
        w * h <= dst.len(),
        0 <= r,
        0 <= x < w,
        0 <= y < h,
        column.len() == h,
        forall|v: int|
            0 <= v < h ==> #[trigger] column[v] == blurred_line(Seq::new(w as nat, |u: int| src[v * w + u] as int), r)[x],
    ensures
        blurred_gray(src, dst, w, h, r).len() == dst.len(),
        blurred_gray(src, dst, w, h, r)[y * w + x] == blurred_line(column, r)[y],
        forall|p: int| w * h <= p < dst.len() ==> #[trigger] blurred_gray(src, dst, w, h, r)[p] == dst[p],
{
    crate::pixels::lemma_cell(w, h, x, y);
    let want = blurred_column(src, w, h, 1, 0, r, x);
    assert forall|v: int| 0 <= v < h implies #[trigger] want[v] == column[v] && 0 <= column[v] <= 255 by {
        let row = plane_row(src, w, 1, 0, v);
        assert(row =~= Seq::new(w as nat, |u: int| src[v * w + u] as int));
        assert(bytes_line(row)) by {
            assert forall|i: int| 0 <= i < row.len() implies 0 <= #[trigger] row[i] <= 255 by {
                assert(row[i] == src[1 * crate::pixels::cell(w, i, v) + 0]);
            }
        }
        lemma_mean_bounds(row, r, x);
    }
    assert(want =~= column);
    assert(bytes_line(column));
    lemma_mean_bounds(column, r, y);
}

/// A feather of at most one pixel leaves the mask, and any other blurs it.
pub proof fn feathers_blur_the_mask(mask: Seq<u8>, w: int, h: int, radius: int)
    ensures
        radius <= 1 ==> feathered(mask, w, h, radius) == mask,
        radius >= 2 ==> feathered(mask, w, h, radius) == blurred_gray(mask, mask, w, h, radius),
{
}

/// An image that is blurred by no pixel, and bytes behind the last pixel, stay.
pub proof fn blur_keeps_the_rest(src: Seq<u8>, w: int, h: int, r: int, b: int)
    requires
        0 <= b < src.len(),
    ensures
        blurred_rgba(src, w, h, r).len() == src.len(),
        r == 0 || 4 * (w * h) <= b ==> blurred_rgba(src, w, h, r)[b] == src[b],
{
}

/// A tint shows one blue wherever something is selected, a third as opaque as
/// the mask, and nothing elsewhere.
pub proof fn tint_follows_the_mask(mask: &[u8], r: Vec<u8>, p: int)
    requires
        call_ensures(mask_tint, (mask,), r),
        0 <= p < mask.len(),
    ensures
        r@.len() == 4 * mask.len(),
        mask@[p] == 0 ==> r@[4 * p] == 0 && r@[4 * p + 1] == 0 && r@[4 * p + 2] == 0 && r@[4 * p + 3] == 0,
        mask@[p] != 0 ==> r@[4 * p] == 10 && r@[4 * p + 1] == 132 && r@[4 * p + 2] == 255 && 3 * r@[4 * p + 3] <= mask@[p] < 3
            * r@[4 * p + 3] + 3,
{
    assert((4 * p) / 4 == p && (4 * p) % 4 == 0);
    assert((4 * p + 1) / 4 == p && (4 * p + 1) % 4 == 1);
    assert((4 * p + 2) / 4 == p && (4 * p + 2) % 4 == 2);
    assert((4 * p + 3) / 4 == p && (4 * p + 3) % 4 == 3);
}

/// A mask and its inverse add up to a full one.
pub proof fn inverted_masks_add_up(mask: &[u8], once: Vec<u8>, i: int)
    requires
        call_ensures(invert_mask, (mask,), once),
        0 <= i < mask.len(),
    ensures
        once@.len() == mask.len(),
        once@[i] + mask@[i] == 255,
{
}

/// An erased alpha is what its share leaves of it, for every mask value.
pub proof fn erasing_takes_shares(src: Seq<u8>, mask: Seq<u8>, p: int, left: u8)
    requires
        0 <= p < mask.len(),
        4 * p + 3 < src.len(),
        call_ensures(take_share, (src[4 * p + 3], mask[p]), left),
    ensures
        erased(src, mask).len() == src.len(),
        erased(src, mask)[4 * p + 3] == left,
        forall|b: int|
            0 <= b < src.len() && (b % 4 != 3 || b / 4 >= mask.len()) ==> #[trigger] erased(src, mask)[b] == src[b],
{
    assert((4 * p + 3) / 4 == p && (4 * p + 3) % 4 == 3);
}

} // verus!
