//! Spot healing: what is healed, the ring around it, and the patch to heal
//! from.
//!
//! Covered pixels form the hole. The ring is what lies around the hole, and a
//! source patch is a place in the image whose ring looks like this one.
use crate::pixels::compare_pixels;
use vstd::prelude::*;

verus! {

/// Role of a pixel that plays no part.
pub const OUTSIDE: u8 = 0;

/// Role of a pixel around the hole.
pub const RING: u8 = 1;

/// Role of a pixel to heal.
pub const HOLE: u8 = 2;

/// Heal mode: how the membrane source is chosen.
#[derive(Clone, Copy, PartialEq, Eq, Structural, Debug)]
pub enum HealMode {
    /// Search for a matching patch elsewhere in the image (5 scales).
    ContentAware,
    /// No source patch: smooth fill from the ring, plus detail grain.
    SmoothFill,
    /// Like ContentAware but biased hard toward near patches (2 scales).
    ProximityMatch,
}

/// The work box of a heal, in image coordinates, with the role of each of its
/// pixels.
pub struct HealPlan {
    /// Left column of the box.
    pub wx0: usize,
    /// Top row of the box.
    pub wy0: usize,
    /// Width of the box.
    pub ww: usize,
    /// Height of the box.
    pub wh: usize,
    /// Role of each pixel of the box, row by row.
    pub role: Vec<u8>,
    /// Number of ring pixels.
    pub ring_count: usize,
}

/// Whether `(x0, y0, x1, y1)` is the smallest box, without its right column
/// and bottom row, around the covered pixels.
pub open spec fn is_bounds(coverage: Seq<u8>, width: int, height: int, x0: int, y0: int, x1: int, y1: int) -> bool {
    &&& 0 <= x0 < x1 <= width
    &&& 0 <= y0 < y1 <= height
    &&& forall|p: int|
        0 <= p < width * height && #[trigger] coverage[p] != 0 ==> x0 <= p % width < x1 && y0 <= p / width < y1
    &&& exists|p: int| 0 <= p < width * height && #[trigger] coverage[p] != 0 && p % width == x0
    &&& exists|p: int| 0 <= p < width * height && #[trigger] coverage[p] != 0 && p % width == x1 - 1
    &&& exists|p: int| 0 <= p < width * height && #[trigger] coverage[p] != 0 && p / width == y0
    &&& exists|p: int| 0 <= p < width * height && #[trigger] coverage[p] != 0 && p / width == y1 - 1
}

/// The smallest box around the covered pixels as
/// (left, top, right + 1, bottom + 1), or `None` if nothing is covered.
pub fn coverage_bounds(coverage: &[u8], width: usize, height: usize) -> (r: Option<(usize, usize, usize, usize)>)
    requires
        width * height <= coverage.len(),
    ensures
        match r {
            Some((x0, y0, x1, y1)) => is_bounds(
                coverage@,
                width as int,
                height as int,
                x0 as int,
                y0 as int,
                x1 as int,
                y1 as int,
            ),
            None => forall|p: int| 0 <= p < width * height ==> #[trigger] coverage@[p] == 0,
        },
{
    let n: usize = width * height;
    let mut found: Option<(usize, usize, usize, usize)> = None;
    let mut p: usize = 0;
    while p < n
        invariant
            p <= n,
            n == width * height,
            n <= coverage.len(),
            match found {
                Some((x0, y0, x1, y1)) => {
                    &&& x0 < x1 <= width
                    &&& y0 < y1 <= height
                    &&& forall|k: int|
                        0 <= k < p && #[trigger] coverage@[k] != 0 ==> x0 <= k % (width as int) < x1 && y0 <= k / (
                        width as int) < y1
                    &&& exists|k: int| 0 <= k < p && #[trigger] coverage@[k] != 0 && k % (width as int) == x0
                    &&& exists|k: int| 0 <= k < p && #[trigger] coverage@[k] != 0 && k % (width as int) == x1 - 1
                    &&& exists|k: int| 0 <= k < p && #[trigger] coverage@[k] != 0 && k / (width as int) == y0
                    &&& exists|k: int| 0 <= k < p && #[trigger] coverage@[k] != 0 && k / (width as int) == y1 - 1
                },
                None => forall|k: int| 0 <= k < p ==> #[trigger] coverage@[k] == 0,
            },
        decreases n - p,
    {
        proof {
            crate::pixels::lemma_coords(width as int, height as int, p as int);
        }
        if coverage[p] != 0 {
            let x: usize = p % width;
            let y: usize = p / width;
            found = match found {
                Some((x0, y0, x1, y1)) => Some(
                    (
                        if x < x0 { x } else { x0 },
                        if y < y0 { y } else { y0 },
                        if x + 1 > x1 { x + 1 } else { x1 },
                        if y + 1 > y1 { y + 1 } else { y1 },
                    ),
                ),
                None => Some((x, y, x + 1, y + 1)),
            };
            assert(coverage@[p as int] != 0);
        }
        p = p + 1;
    }
    found
}

/// The hash that drives the grain.
pub fn heal_hash(x: u32) -> (r: u32)
    ensures
        r == crate::hash::scrambled(x),
{
    crate::hash::scramble(x)
}

/// The upper 24 bits of the hash: a number in the unit interval, times 2^24.
pub fn heal_unit(key: u32) -> (r: u32)
    ensures
        r == crate::hash::scrambled(key) / 256,
        r < 0x100_0000,
{
    heal_hash(key) / 256
}

/// The two keys of the grain of the pixel with index `p`.
pub fn grain_keys(seed: u32, p: u32) -> (r: (u32, u32))
    ensures
        r.0 == crate::hash::scrambled(seed ^ crate::hash::scrambled(p)),
        r.1 == r.0 ^ 0x68e31da4u32,
{
    let key: u32 = heal_hash(seed ^ heal_hash(p));
    (key, key ^ 0x68e31da4u32)
}

/// Width of the ring around a box of the given size.
pub open spec fn ring_width(bw: int, bh: int) -> int {
    crate::pixels::clamped(crate::pixels::max_of(bw, bh) / 8, 2, 16)
}

/// Whether a covered pixel lies within `ring` of `(x, y)` in both directions.
pub open spec fn near_hole(coverage: Seq<u8>, width: int, height: int, ring: int, x: int, y: int) -> bool {
    exists|hx: int, hy: int|
        0 <= hx < width && 0 <= hy < height && x - ring <= hx <= x + ring && y - ring <= hy <= y + ring && #[trigger] covered(
            coverage,
            width,
            hx,
            hy,
        )
}

/// Whether the pixel `(x, y)` is covered.
pub open spec fn covered(coverage: Seq<u8>, width: int, x: int, y: int) -> bool {
    coverage[crate::pixels::cell(width, x, y)] != 0
}

/// Role of the pixel `(x, y)` of the image.
pub open spec fn role_of(coverage: Seq<u8>, width: int, height: int, ring: int, x: int, y: int) -> u8 {
    if covered(coverage, width, x, y) {
        HOLE
    } else if near_hole(coverage, width, height, ring, x, y) {
        RING
    } else {
        OUTSIDE
    }
}

/// How many of the first `k` pixels of a box are ring pixels.
pub open spec fn ring_pixels(role: Seq<u8>, k: int) -> int
    decreases k,
{
    if k <= 0 {
        0
    } else {
        ring_pixels(role, k - 1) + if role[k - 1] == RING {
            1int
        } else {
            0int
        }
    }
}

/// Whether the plan is that of healing the covered pixels, whose bounds are
/// given: its box is the spot plus its ring, clipped to the image.
pub open spec fn is_plan_for(plan: HealPlan, coverage: Seq<u8>, width: int, height: int, x0: int, y0: int, x1: int, y1: int) -> bool {
    let ring = ring_width(x1 - x0, y1 - y0);
    &&& is_bounds(coverage, width, height, x0, y0, x1, y1)
    &&& plan.wx0 == crate::pixels::max_of(x0 - ring, 0)
    &&& plan.wy0 == crate::pixels::max_of(y0 - ring, 0)
    &&& plan.wx0 + plan.ww == crate::pixels::min_of(x1 + ring, width)
    &&& plan.wy0 + plan.wh == crate::pixels::min_of(y1 + ring, height)
    &&& plan.role@ == Seq::new(
        (plan.ww * plan.wh) as nat,
        |p: int|
            role_of(
                coverage,
                width,
                height,
                ring,
                plan.wx0 + p % (plan.ww as int),
                plan.wy0 + p / (plan.ww as int),
            ),
    )
    &&& plan.ring_count == ring_pixels(plan.role@, plan.ww * plan.wh)
}

/// Whether the plan is that of healing the covered pixels.
pub open spec fn is_plan(plan: HealPlan, coverage: Seq<u8>, width: int, height: int) -> bool {
    exists|x0: int, y0: int, x1: int, y1: int| #[trigger] is_plan_for(plan, coverage, width, height, x0, y0, x1, y1)
}

/// How many of the first `k` flags are set.
spec fn flag_count(flags: Seq<bool>, k: int) -> int
    decreases k,
{
    if k <= 0 {
        0
    } else {
        flag_count(flags, k - 1) + if flags[k - 1] {
            1int
        } else {
            0int
        }
    }
}

/// Two prefix counts differ exactly where a flag between them is set.
proof fn lemma_flag_count(flags: Seq<bool>, lo: int, hi: int)
    requires
        0 <= lo <= hi <= flags.len(),
    ensures
        flag_count(flags, lo) <= flag_count(flags, hi),
        flag_count(flags, hi) > flag_count(flags, lo) <==> exists|i: int| lo <= i < hi && #[trigger] flags[i],
    decreases hi - lo,
{
    if lo < hi {
        lemma_flag_count(flags, lo, hi - 1);
        if flags[hi - 1] {
            assert(flag_count(flags, hi) > flag_count(flags, lo));
        }
    }
}

/// Whether a set flag lies within `ring` of position `i`.
spec fn near_flag(flags: Seq<bool>, ring: int, i: int) -> bool {
    exists|k: int| 0 <= k < flags.len() && i - ring <= k <= i + ring && #[trigger] flags[k]
}

/// Sets every flag within `ring` of a set one.
fn dilate(flags: &Vec<bool>, ring: usize) -> (r: Vec<bool>)
    requires
        ring <= 16,
    ensures
        r@ == Seq::new(flags@.len(), |i: int| near_flag(flags@, ring as int, i)),
{
    let n: usize = flags.len();
    let mut prefix: Vec<usize> = Vec::new();
    prefix.push(0);
    let mut i: usize = 0;
    while i < n
        invariant
            i <= n,
            n == flags.len(),
            prefix.len() == i + 1,
            forall|k: int| 0 <= k <= i ==> #[trigger] prefix@[k] == flag_count(flags@, k) && prefix@[k] <= k,
        decreases n - i,
    {
        let last: usize = prefix[i];
        prefix.push(if flags[i] { last + 1 } else { last });
        i = i + 1;
    }
    let mut out: Vec<bool> = Vec::new();
    i = 0;
    while i < n
        invariant
            i <= n,
            n == flags.len(),
            ring <= 16,
            prefix.len() == n + 1,
            forall|k: int| 0 <= k <= n ==> #[trigger] prefix@[k] == flag_count(flags@, k) && prefix@[k] <= k,
            out@ == Seq::new(i as nat, |k: int| near_flag(flags@, ring as int, k)),
        decreases n - i,
    {
        let lo: usize = if i > ring { i - ring } else { 0 };
        let hi: usize = if n - i > ring { i + ring + 1 } else { n };
        let near: bool = prefix[hi] > prefix[lo];
        proof {
            lemma_flag_count(flags@, lo as int, hi as int);
            if near {
                let k = choose|k: int| lo <= k < hi && #[trigger] flags@[k];
                assert(near_flag(flags@, ring as int, i as int));
            }
        }
        out.push(near);
        i = i + 1;
    }
    out
}

/// The covered pixels of one row of the work box.
spec fn hole_row(coverage: Seq<u8>, width: int, wx0: int, ww: int, y: int) -> Seq<bool> {
    Seq::new(ww as nat, |x: int| covered(coverage, width, wx0 + x, y))
}

/// The pixels of one row of the work box with a covered one near in the row.
spec fn near_row(coverage: Seq<u8>, width: int, wx0: int, ww: int, ring: int, y: int) -> Seq<bool> {
    Seq::new(ww as nat, |x: int| near_flag(hole_row(coverage, width, wx0, ww, y), ring, x))
}

/// One column of the rows of the work box.
spec fn near_column(coverage: Seq<u8>, width: int, wx0: int, wy0: int, ww: int, wh: int, ring: int, x: int) -> Seq<bool> {
    Seq::new(wh as nat, |y: int| near_row(coverage, width, wx0, ww, ring, wy0 + y)[x])
}

/// A row pass and a column pass together find the pixels near a covered one.
proof fn lemma_two_passes(
    coverage: Seq<u8>,
    width: int,
    height: int,
    x0: int,
    y0: int,
    x1: int,
    y1: int,
    wx0: int,
    wy0: int,
    ww: int,
    wh: int,
    ring: int,
    x: int,
    y: int,
)
    requires
        is_bounds(coverage, width, height, x0, y0, x1, y1),
        0 <= wx0 <= x0,
        0 <= wy0 <= y0,
        x1 <= wx0 + ww <= width,
        y1 <= wy0 + wh <= height,
        0 <= x < ww,
        0 <= y < wh,
    ensures
        near_flag(near_column(coverage, width, wx0, wy0, ww, wh, ring, x), ring, y) <==> near_hole(
            coverage,
            width,
            height,
            ring,
            wx0 + x,
            wy0 + y,
        ),
{
    let column = near_column(coverage, width, wx0, wy0, ww, wh, ring, x);
    if near_flag(column, ring, y) {
        let k = choose|k: int| 0 <= k < column.len() && y - ring <= k <= y + ring && #[trigger] column[k];
        let row = hole_row(coverage, width, wx0, ww, wy0 + k);
        let j = choose|j: int| 0 <= j < row.len() && x - ring <= j <= x + ring && #[trigger] row[j];
        assert(covered(coverage, width, wx0 + j, wy0 + k));
    }
    if near_hole(coverage, width, height, ring, wx0 + x, wy0 + y) {
        let (hx, hy) = choose|hx: int, hy: int|
            0 <= hx < width && 0 <= hy < height && wx0 + x - ring <= hx <= wx0 + x + ring && wy0 + y - ring <= hy <= wy0 + y
                + ring && #[trigger] covered(coverage, width, hx, hy);
        crate::pixels::lemma_cell(width, height, hx, hy);
        let p = crate::pixels::cell(width, hx, hy);
        assert(coverage[p] != 0);
        let row = hole_row(coverage, width, wx0, ww, hy);
        assert(row[hx - wx0]);
        assert(near_flag(row, ring, x));
        assert(column[hy - wy0]);
    }
}

/// The role of each pixel of the work box, and the number of ring pixels.
fn roles(
    coverage: &[u8],
    width: usize,
    height: usize,
    bounds: (usize, usize, usize, usize),
    wx0: usize,
    wy0: usize,
    ww: usize,
    wh: usize,
    ring: usize,
) -> (r: (Vec<u8>, usize))
    requires
        width * height <= coverage.len(),
        is_bounds(
            coverage@,
            width as int,
            height as int,
            bounds.0 as int,
            bounds.1 as int,
            bounds.2 as int,
            bounds.3 as int,
        ),
        wx0 <= bounds.0,
        wy0 <= bounds.1,
        bounds.2 <= wx0 + ww <= width,
        bounds.3 <= wy0 + wh <= height,
        ring <= 16,
    ensures
        r.0@ == Seq::new(
            (ww * wh) as nat,
            |p: int|
                role_of(
                    coverage@,
                    width as int,
                    height as int,
                    ring as int,
                    wx0 + p % (ww as int),
                    wy0 + p / (ww as int),
                ),
        ),
        r.1 == ring_pixels(r.0@, ww * wh),
{
    let ghost (cov, w, h, gr) = (coverage@, width as int, height as int, ring as int);
    let ghost (gx, gy, gw, gh) = (wx0 as int, wy0 as int, ww as int, wh as int);
    let mut rows: Vec<Vec<bool>> = Vec::new();
    let mut y: usize = 0;
    while y < wh
        invariant
            y <= wh,
            cov == coverage@,
            w == width,
            h == height,
            gr == ring,
            gx == wx0,
            gy == wy0,
            gw == ww,
            ring <= 16,
            width * height <= coverage.len(),
            wx0 + ww <= width,
            wy0 + wh <= height,
            rows.len() == y,
            forall|k: int| 0 <= k < y ==> (#[trigger] rows@[k])@ == near_row(cov, w, gx, gw, gr, gy + k),
        decreases wh - y,
    {
        let mut line: Vec<bool> = Vec::new();
        let mut x: usize = 0;
        while x < ww
            invariant
                x <= ww,
                y < wh,
                cov == coverage@,
                w == width,
                h == height,
                gx == wx0,
                gy == wy0,
                gw == ww,
                width * height <= coverage.len(),
                wx0 + ww <= width,
                wy0 + wh <= height,
                line@ == hole_row(cov, w, gx, gw, gy + y).take(x as int),
            decreases ww - x,
        {
            proof {
                crate::pixels::lemma_cell(w, h, gx + x, gy + y);
            }
            line.push(coverage[(wy0 + y) * width + (wx0 + x)] > 0);
            x = x + 1;
        }
        assert(line@ =~= hole_row(cov, w, gx, gw, gy + y));
        rows.push(dilate(&line, ring));
        assert(rows@[y as int]@ =~= near_row(cov, w, gx, gw, gr, gy + y));
        y = y + 1;
    }
    let mut columns: Vec<Vec<bool>> = Vec::new();
    let mut x: usize = 0;
    while x < ww
        invariant
            x <= ww,
            gw == ww,
            gh == wh,
            gr == ring,
            ring <= 16,
            rows.len() == wh,
            forall|k: int| 0 <= k < wh ==> (#[trigger] rows@[k])@ == near_row(cov, w, gx, gw, gr, gy + k),
            columns.len() == x,
            forall|k: int|
                0 <= k < x ==> (#[trigger] columns@[k])@ == Seq::new(
                    gh as nat,
                    |j: int| near_flag(near_column(cov, w, gx, gy, gw, gh, gr, k), gr, j),
                ),
        decreases ww - x,
    {
        let mut line: Vec<bool> = Vec::new();
        let mut j: usize = 0;
        while j < wh
            invariant
                j <= wh,
                x < ww,
                gw == ww,
                gh == wh,
                rows.len() == wh,
                forall|k: int| 0 <= k < wh ==> (#[trigger] rows@[k])@ == near_row(cov, w, gx, gw, gr, gy + k),
                line@ == near_column(cov, w, gx, gy, gw, gh, gr, x as int).take(j as int),
            decreases wh - j,
        {
            assert(rows@[j as int]@ == near_row(cov, w, gx, gw, gr, gy + j));
            line.push(rows[j][x]);
            j = j + 1;
        }
        assert(line@ =~= near_column(cov, w, gx, gy, gw, gh, gr, x as int));
        columns.push(dilate(&line, ring));
        x = x + 1;
    }
    let ghost all = Seq::new(
        (gw * gh) as nat,
        |p: int| role_of(cov, w, h, gr, gx + p % gw, gy + p / gw),
    );
    proof {
        crate::pixels::lemma_cell(w, h, w - 1, h - 1);
        assert(gw * gh <= w * h) by (nonlinear_arith)
            requires
                0 <= gw <= w,
                0 <= gh <= h,
        ;
    }
    let n: usize = ww * wh;
    let mut role: Vec<u8> = Vec::new();
    let mut count: usize = 0;
    let mut p: usize = 0;
    while p < n
        invariant
            p <= n,
            n == ww * wh,
            cov == coverage@,
            w == width,
            h == height,
            gx == wx0,
            gy == wy0,
            gw == ww,
            gh == wh,
            gr == ring,
            width * height <= coverage.len(),
            is_bounds(cov, w, h, bounds.0 as int, bounds.1 as int, bounds.2 as int, bounds.3 as int),
            wx0 <= bounds.0,
            wy0 <= bounds.1,
            bounds.2 <= wx0 + ww <= width,
            bounds.3 <= wy0 + wh <= height,
            columns.len() == ww,
            forall|k: int|
                0 <= k < ww ==> (#[trigger] columns@[k])@ == Seq::new(
                    gh as nat,
                    |j: int| near_flag(near_column(cov, w, gx, gy, gw, gh, gr, k), gr, j),
                ),
            all == Seq::new((gw * gh) as nat, |p: int| role_of(cov, w, h, gr, gx + p % gw, gy + p / gw)),
            role@ == all.take(p as int),
            count == ring_pixels(all, p as int),
            count <= p,
        decreases n - p,
    {
        proof {
            crate::pixels::lemma_coords(gw, gh, p as int);
        }
        let bx: usize = p % ww;
        let by: usize = p / ww;
        proof {
            crate::pixels::lemma_cell(w, h, gx + bx, gy + by);
            lemma_two_passes(
                cov,
                w,
                h,
                bounds.0 as int,
                bounds.1 as int,
                bounds.2 as int,
                bounds.3 as int,
                gx,
                gy,
                gw,
                gh,
                gr,
                bx as int,
                by as int,
            );
            assert(columns@[bx as int]@.len() == gh);
        }
        if coverage[(wy0 + by) * width + (wx0 + bx)] > 0 {
            role.push(HOLE);
        } else if columns[bx][by] {
            role.push(RING);
            count = count + 1;
        } else {
            role.push(OUTSIDE);
        }
        assert(role@ =~= all.take(p + 1));
        p = p + 1;
    }
    assert(role@ =~= all);
    (role, count)
}

/// The work box of a spot with the given bounds, and its roles.
fn plan_box(coverage: &[u8], width: usize, height: usize, bounds: (usize, usize, usize, usize)) -> (plan: HealPlan)
    requires
        width * height <= coverage.len(),
        is_bounds(
            coverage@,
            width as int,
            height as int,
            bounds.0 as int,
            bounds.1 as int,
            bounds.2 as int,
            bounds.3 as int,
        ),
    ensures
        is_plan_for(
            plan,
            coverage@,
            width as int,
            height as int,
            bounds.0 as int,
            bounds.1 as int,
            bounds.2 as int,
            bounds.3 as int,
        ),
{
    let (x0, y0, x1, y1) = bounds;
    let bw: usize = x1 - x0;
    let bh: usize = y1 - y0;
    let eighth: usize = if bw > bh { bw / 8 } else { bh / 8 };
    let ring: usize = if eighth < 2 { 2 } else if eighth > 16 { 16 } else { eighth };
    let wx0: usize = if x0 > ring { x0 - ring } else { 0 };
    let wy0: usize = if y0 > ring { y0 - ring } else { 0 };
    let wx1: usize = if width - x1 > ring { x1 + ring } else { width };
    let wy1: usize = if height - y1 > ring { y1 + ring } else { height };
    let (role, ring_count) = roles(coverage, width, height, bounds, wx0, wy0, wx1 - wx0, wy1 - wy0, ring);
    HealPlan { wx0, wy0, ww: wx1 - wx0, wh: wy1 - wy0, role, ring_count }
}

/// Along a line with a covered and an uncovered pixel there are two such pixels
/// side by side.
proof fn lemma_edge_on_line(line: spec_fn(int) -> bool, a: int, b: int) -> (r: (int, int))
    requires
        line(a),
        !line(b),
    ensures
        line(r.0),
        !line(r.1),
        r.0 - r.1 == 1 || r.1 - r.0 == 1,
        a <= b ==> a <= r.0 <= b && a <= r.1 <= b,
        b <= a ==> b <= r.0 <= a && b <= r.1 <= a,
    decreases if a <= b { b - a } else { a - b },
{
    let c = if a < b { a + 1 } else { a - 1 };
    if line(c) {
        lemma_edge_on_line(line, c, b)
    } else {
        (a, c)
    }
}

/// Of an image that is covered in part, some uncovered pixel is next to a
/// covered one.
proof fn lemma_edge(coverage: Seq<u8>, width: int, height: int, p: int, q: int) -> (r: (int, int, int, int))
    requires
        0 <= width,
        0 <= height,
        0 <= p < width * height,
        0 <= q < width * height,
        coverage[p] != 0,
        coverage[q] == 0,
    ensures
        0 <= r.0 < width && 0 <= r.1 < height,
        0 <= r.2 < width && 0 <= r.3 < height,
        covered(coverage, width, r.0, r.1),
        !covered(coverage, width, r.2, r.3),
        -1 <= r.0 - r.2 <= 1,
        -1 <= r.1 - r.3 <= 1,
{
    crate::pixels::lemma_coords(width, height, p);
    crate::pixels::lemma_coords(width, height, q);
    let (px, py) = (p % width, p / width);
    let (qx, qy) = (q % width, q / width);
    if covered(coverage, width, qx, py) {
        let column = |y: int| covered(coverage, width, qx, y);
        let (a, b) = lemma_edge_on_line(column, py, qy);
        (qx, a, qx, b)
    } else {
        let row = |x: int| covered(coverage, width, x, py);
        let (a, b) = lemma_edge_on_line(row, px, qx);
        (a, py, b, py)
    }
}

/// A box without ring pixels has no pixel in that role, and the other way
/// round.
proof fn lemma_ring_pixels(role: Seq<u8>, k: int)
    requires
        k <= role.len(),
    ensures
        0 <= ring_pixels(role, k),
        ring_pixels(role, k) == 0 <==> forall|i: int| 0 <= i < k ==> #[trigger] role[i] != RING,
    decreases k,
{
    if k > 0 {
        lemma_ring_pixels(role, k - 1);
        if ring_pixels(role, k) == 0 {
            assert forall|i: int| 0 <= i < k implies #[trigger] role[i] != RING by {
                if i < k - 1 {
                    assert(role[i] != RING);
                }
            }
        } else if role[k - 1] != RING {
            let i = choose|i: int| 0 <= i < k - 1 && #[trigger] role[i] == RING;
            assert(role[i] == RING);
        }
    }
}

/// Whether an image is covered in part: some of its pixels are covered and
/// some are not.
pub open spec fn covered_in_part(coverage: Seq<u8>, n: int) -> bool {
    &&& exists|p: int| 0 <= p < n && #[trigger] coverage[p] != 0
    &&& exists|p: int| 0 <= p < n && #[trigger] coverage[p] == 0
}

/// A plan has a ring exactly for images that are covered in part.
proof fn lemma_ring_exists(plan: HealPlan, coverage: Seq<u8>, width: int, height: int, x0: int, y0: int, x1: int, y1: int)
    requires
        0 <= width,
        0 <= height,
        is_plan_for(plan, coverage, width, height, x0, y0, x1, y1),
    ensures
        plan.ring_count > 0 <==> covered_in_part(coverage, width * height),
{
    let n = width * height;
    let (ww, wh) = (plan.ww as int, plan.wh as int);
    let ring = ring_width(x1 - x0, y1 - y0);
    lemma_ring_pixels(plan.role@, ww * wh);
    let p = choose|p: int| 0 <= p < n && #[trigger] coverage[p] != 0 && p % width == x0;
    assert(coverage[p] != 0);
    if plan.ring_count > 0 {
        let i = choose|i: int| 0 <= i < ww * wh && #[trigger] plan.role@[i] == RING;
        assert(plan.role@[i] == RING);
        crate::pixels::lemma_coords(ww, wh, i);
        let (x, y) = (plan.wx0 + i % ww, plan.wy0 + i / ww);
        crate::pixels::lemma_cell(width, height, x, y);
        assert(coverage[crate::pixels::cell(width, x, y)] == 0);
    } else if covered_in_part(coverage, n) {
        let q = choose|q: int| 0 <= q < n && #[trigger] coverage[q] == 0;
        let (hx, hy, x, y) = lemma_edge(coverage, width, height, p, q);
        crate::pixels::lemma_cell(width, height, hx, hy);
        let k = crate::pixels::cell(width, hx, hy);
        assert(coverage[k] != 0);
        assert(x0 <= hx < x1 && y0 <= hy < y1);
        let (bx, by) = (x - plan.wx0, y - plan.wy0);
        crate::pixels::lemma_cell(ww, wh, bx, by);
        let i = crate::pixels::cell(ww, bx, by);
        assert(near_hole(coverage, width, height, ring, x, y));
        assert(plan.role@[i] == RING);
    }
}

/// The work box of healing the covered pixels, and its roles. `None` when
/// nothing is covered, or nothing is left around what is covered.
pub fn plan_heal(coverage: &[u8], width: usize, height: usize) -> (r: Option<HealPlan>)
    requires
        width * height <= coverage.len(),
    ensures
        match r {
            Some(plan) => plan.ring_count > 0 && is_plan(plan, coverage@, width as int, height as int)
                && covered_in_part(coverage@, width * height),
            None => !covered_in_part(coverage@, width * height),
        },
{
    match coverage_bounds(coverage, width, height) {
        None => None,
        Some(bounds) => {
            let plan: HealPlan = plan_box(coverage, width, height, bounds);
            assert(is_plan(plan, coverage@, width as int, height as int));
            proof {
                let (x0, y0, x1, y1) = bounds;
                let (gw, gh) = (width as int, height as int);
                lemma_ring_exists(plan, coverage@, gw, gh, x0 as int, y0 as int, x1 as int, y1 as int);
            }
            if plan.ring_count == 0 {
                None
            } else {
                Some(plan)
            }
        },
    }
}

/// Whether the plan's box lies in an image of the given size, with a role for
/// each of its pixels.
pub open spec fn fits_image(plan: HealPlan, width: int, height: int) -> bool {
    &&& 0 < plan.ww && 0 < plan.wh
    &&& plan.wx0 + plan.ww <= width
    &&& plan.wy0 + plan.wh <= height
    &&& plan.role@.len() == plan.ww * plan.wh
    &&& plan.ring_count == ring_pixels(plan.role@, plan.ww * plan.wh)
}

/// A plan for an image fits into it.
pub proof fn a_plan_fits_its_image(plan: HealPlan, coverage: Seq<u8>, width: int, height: int)
    requires
        is_plan(plan, coverage, width, height),
    ensures
        fits_image(plan, width, height),
{
}

/// Image index of pixel `p` of the box, moved by `(dx, dy)`.
pub open spec fn box_pixel(plan: HealPlan, width: int, p: int, dx: int, dy: int) -> int {
    crate::pixels::cell(width, plan.wx0 + p % (plan.ww as int) + dx, plan.wy0 + p / (plan.ww as int) + dy)
}

/// Squared differences between the ring and the ring moved by `(dx, dy)`, over
/// the first `k` pixels of the box.
pub open spec fn ring_cost(rgba: Seq<u8>, plan: HealPlan, width: int, dx: int, dy: int, k: int) -> int
    decreases k,
{
    if k <= 0 {
        0
    } else {
        ring_cost(rgba, plan, width, dx, dy, k - 1) + if plan.role@[k - 1] == RING {
            crate::pixels::pixel_cost(
                rgba,
                box_pixel(plan, width, k - 1, 0, 0),
                box_pixel(plan, width, k - 1, dx, dy),
            )
        } else {
            0
        }
    }
}

/// Whether the box moved by `(dx, dy)` lies in the image.
pub open spec fn stays_inside(plan: HealPlan, width: int, height: int, dx: int, dy: int) -> bool {
    &&& 0 <= plan.wx0 + dx && plan.wx0 + plan.ww + dx <= width
    &&& 0 <= plan.wy0 + dy && plan.wy0 + plan.wh + dy <= height
}

/// Whether the box moved by `(dx, dy)` overlaps the box.
pub open spec fn overlaps(plan: HealPlan, dx: int, dy: int) -> bool {
    -plan.ww < dx < plan.ww && -plan.wh < dy < plan.wh
}

/// How badly the ring moved by `(dx, dy)` fits the ring; `None` when the patch
/// would overlap the spot or leave the image.
pub open spec fn patch_score(rgba: Seq<u8>, plan: HealPlan, width: int, height: int, dx: int, dy: int) -> Option<int> {
    if plan.ring_count == 0 || overlaps(plan, dx, dy) || !stays_inside(plan, width, height, dx, dy) {
        None
    } else {
        Some(ring_cost(rgba, plan, width, dx, dy, plan.ww * plan.wh))
    }
}

/// Sum of squared differences between the ring around the spot and the ring
/// around the patch offset by `(dx, dy)`. `None` when the patch would overlap
/// the spot or leave the image.
pub fn heal_score(rgba: &[u8], plan: &HealPlan, width: usize, height: usize, dx: i64, dy: i64) -> (r: Option<u128>)
    requires
        4 * (width * height) <= rgba.len(),
        fits_image(*plan, width as int, height as int),
    ensures
        match patch_score(rgba@, *plan, width as int, height as int, dx as int, dy as int) {
            Some(s) => r == Some(s as u128) && 0 <= s <= 260100 * usize::MAX,
            None => r is None,
        },
{
    let ghost (w, h, gx, gy) = (width as int, height as int, dx as int, dy as int);
    let ghost (ww, wh) = (plan.ww as int, plan.wh as int);
    if plan.ring_count == 0 {
        return None;
    }
    let (mx, my): (i128, i128) = (dx as i128, dy as i128);
    if -(plan.ww as i128) < mx && mx < plan.ww as i128 && -(plan.wh as i128) < my && my < plan.wh as i128 {
        return None;
    }
    if plan.wx0 as i128 + mx < 0 || plan.wx0 as i128 + plan.ww as i128 + mx > width as i128 {
        return None;
    }
    if plan.wy0 as i128 + my < 0 || plan.wy0 as i128 + plan.wh as i128 + my > height as i128 {
        return None;
    }
    proof {
        assert(ww * wh <= w * h) by (nonlinear_arith)
            requires
                0 <= ww <= w,
                0 <= wh <= h,
        ;
    }
    let sx0: usize = (plan.wx0 as i128 + mx) as usize;
    let sy0: usize = (plan.wy0 as i128 + my) as usize;
    let n: usize = plan.ww * plan.wh;
    let mut sum: u128 = 0;
    let mut p: usize = 0;
    while p < n
        invariant
            p <= n,
            n == plan.ww * plan.wh,
            n <= usize::MAX,
            w == width,
            h == height,
            ww == plan.ww,
            wh == plan.wh,
            gx == dx,
            gy == dy,
            4 * (width * height) <= rgba.len(),
            fits_image(*plan, w, h),
            stays_inside(*plan, w, h, gx, gy),
            sx0 == plan.wx0 + gx,
            sy0 == plan.wy0 + gy,
            sum == ring_cost(rgba@, *plan, w, gx, gy, p as int),
            sum <= 260100 * p,
        decreases n - p,
    {
        proof {
            crate::pixels::lemma_coords(ww, wh, p as int);
            crate::pixels::lemma_cell(w, h, plan.wx0 + p as int % ww, plan.wy0 + p as int / ww);
            crate::pixels::lemma_cell(w, h, sx0 + p as int % ww, sy0 + p as int / ww);
        }
        if plan.role[p] == RING {
            let bx: usize = p % plan.ww;
            let by: usize = p / plan.ww;
            let t: usize = (plan.wy0 + by) * width + (plan.wx0 + bx);
            let s: usize = (sy0 + by) * width + (sx0 + bx);
            sum = sum + compare_pixels(rgba, t, s) as u128;
        }
        p = p + 1;
    }
    Some(sum)
}

/// How many scales of offsets a mode tries, nearest first.
pub open spec fn scales(mode: HealMode) -> int {
    match mode {
        HealMode::ContentAware => 5,
        HealMode::SmoothFill => 0,
        HealMode::ProximityMatch => 2,
    }
}

/// Offsets in each scale.
pub const ANGLES: usize = 24;

/// Weight of the scores of a scale, in tenths: nearer patches win ties.
pub open spec fn scale_weight(mode: HealMode, scale: int) -> int {
    if mode == HealMode::ProximityMatch {
        10 + 6 * scale
    } else {
        10 + scale
    }
}

/// How many of the offsets a mode tries.
pub open spec fn tried(mode: HealMode, offsets: Seq<(i64, i64)>) -> int {
    crate::pixels::min_of(ANGLES * scales(mode), offsets.len() as int)
}

/// Weighted score of offset `i`.
pub open spec fn weighted_score(rgba: Seq<u8>, plan: HealPlan, width: int, height: int, mode: HealMode, offsets: Seq<(i64, i64)>, i: int) -> Option<int> {
    match patch_score(rgba, plan, width, height, offsets[i].0 as int, offsets[i].1 as int) {
        Some(s) => Some(s * scale_weight(mode, i / (ANGLES as int))),
        None => None,
    }
}

/// Whether `i` is the first of the first `k` offsets with the lowest weighted
/// score.
pub open spec fn is_best(rgba: Seq<u8>, plan: HealPlan, width: int, height: int, mode: HealMode, offsets: Seq<(i64, i64)>, k: int, i: int) -> bool {
    &&& 0 <= i < k
    &&& weighted_score(rgba, plan, width, height, mode, offsets, i) is Some
    &&& forall|j: int|
        0 <= j < k ==> (match #[trigger] weighted_score(rgba, plan, width, height, mode, offsets, j) {
            Some(s) => s > weighted_score(rgba, plan, width, height, mode, offsets, i)->0 || (s == weighted_score(
                rgba,
                plan,
                width,
                height,
                mode,
                offsets,
                i,
            )->0 && j >= i),
            None => true,
        })
}

/// Whether none of the first `k` offsets gives a patch.
pub open spec fn none_fits(rgba: Seq<u8>, plan: HealPlan, width: int, height: int, mode: HealMode, offsets: Seq<(i64, i64)>, k: int) -> bool {
    forall|j: int| 0 <= j < k ==> (#[trigger] weighted_score(rgba, plan, width, height, mode, offsets, j)) is None
}

/// Score of the offset that is step `t` of the 7 by 7 grid around `center`.
pub open spec fn nearby_score(rgba: Seq<u8>, plan: HealPlan, width: int, height: int, center: (i64, i64), t: int) -> Option<int> {
    patch_score(rgba, plan, width, height, center.0 + t % 7 - 3, center.1 + t / 7 - 3)
}

/// Whether `found` is where the search over the first `k` steps of the grid
/// around `center` ends: at the first step with the lowest score, or at the
/// center if no score is lower than there.
pub open spec fn is_refined(rgba: Seq<u8>, plan: HealPlan, width: int, height: int, center: (i64, i64), k: int, found: (i64, i64)) -> bool {
    let s = patch_score(rgba, plan, width, height, found.0 as int, found.1 as int);
    let s0 = patch_score(rgba, plan, width, height, center.0 as int, center.1 as int);
    &&& s is Some
    &&& forall|j: int|
        0 <= j < k ==> (match #[trigger] nearby_score(rgba, plan, width, height, center, j) {
            Some(other) => other >= s->0,
            None => true,
        })
    &&& {
        ||| found == center
        ||| s->0 < s0->0 && exists|t: int|
            0 <= t < k && found.0 == center.0 + t % 7 - 3 && found.1 == center.1 + t / 7 - 3 && first_lowest(
                rgba,
                plan,
                width,
                height,
                center,
                t,
            )
    }
}

/// Whether every earlier step of the grid scores higher than step `t`.
pub open spec fn first_lowest(rgba: Seq<u8>, plan: HealPlan, width: int, height: int, center: (i64, i64), t: int) -> bool {
    forall|j: int|
        0 <= j < t ==> (match #[trigger] nearby_score(rgba, plan, width, height, center, j) {
            Some(other) => nearby_score(rgba, plan, width, height, center, t) is Some && other > nearby_score(
                rgba,
                plan,
                width,
                height,
                center,
                t,
            )->0,
            None => true,
        })
}

/// The first of the tried offsets with the lowest weighted score.
fn coarse_source(rgba: &[u8], plan: &HealPlan, width: usize, height: usize, offsets: &[(i64, i64)], mode: HealMode) -> (r: Option<usize>)
    requires
        4 * (width * height) <= rgba.len(),
        fits_image(*plan, width as int, height as int),
    ensures
        match r {
            Some(i) => i < offsets.len() && is_best(
                rgba@,
                *plan,
                width as int,
                height as int,
                mode,
                offsets@,
                tried(mode, offsets@),
                i as int,
            ),
            None => none_fits(rgba@, *plan, width as int, height as int, mode, offsets@, tried(mode, offsets@)),
        },
{
    let limit: usize = match mode {
        HealMode::ContentAware => 5 * ANGLES,
        HealMode::SmoothFill => 0,
        HealMode::ProximityMatch => 2 * ANGLES,
    };
    let count: usize = if limit < offsets.len() { limit } else { offsets.len() };
    let mut best: Option<usize> = None;
    let mut lowest: u128 = 0;
    let mut i: usize = 0;
    while i < count
        invariant
            i <= count,
            count <= offsets.len(),
            count <= 5 * ANGLES,
            4 * (width * height) <= rgba.len(),
            fits_image(*plan, width as int, height as int),
            match best {
                Some(b) => b < i && is_best(
                    rgba@,
                    *plan,
                    width as int,
                    height as int,
                    mode,
                    offsets@,
                    i as int,
                    b as int,
                ) && weighted_score(rgba@, *plan, width as int, height as int, mode, offsets@, b as int) == Some(
                    lowest as int,
                ),
                None => none_fits(rgba@, *plan, width as int, height as int, mode, offsets@, i as int),
            },
        decreases count - i,
    {
        let (dx, dy): (i64, i64) = offsets[i];
        let scale: u128 = (i / ANGLES) as u128;
        let weight: u128 = match mode {
            HealMode::ProximityMatch => 10 + 6 * scale,
            _ => 10 + scale,
        };
        if let Some(s) = heal_score(rgba, plan, width, height, dx, dy) {
            assert(s * weight <= 260100 * usize::MAX * 40) by (nonlinear_arith)
                requires
                    0 <= s <= 260100 * usize::MAX,
                    0 <= weight <= 40,
            ;
            let score: u128 = s * weight;
            assert(weighted_score(rgba@, *plan, width as int, height as int, mode, offsets@, i as int) == Some(
                score as int,
            ));
            if best.is_none() || score < lowest {
                lowest = score;
                best = Some(i);
            }
        }
        i = i + 1;
    }
    best
}

/// The step of the 7 by 7 grid around a patch with the lowest score.
fn refine_source(rgba: &[u8], plan: &HealPlan, width: usize, height: usize, center: (i64, i64)) -> (r: (i64, i64))
    requires
        4 * (width * height) <= rgba.len(),
        fits_image(*plan, width as int, height as int),
        patch_score(rgba@, *plan, width as int, height as int, center.0 as int, center.1 as int) is Some,
    ensures
        is_refined(rgba@, *plan, width as int, height as int, center, 49, r),
{
    let ghost (w, h) = (width as int, height as int);
    let (cx, cy): (i64, i64) = center;
    assert(w <= w * h && h <= w * h) by (nonlinear_arith)
        requires
            0 < w,
            0 < h,
    ;
    let mut found: (i64, i64) = center;
    let mut lowest: u128 = match heal_score(rgba, plan, width, height, cx, cy) {
        Some(s) => s,
        None => 0,
    };
    let mut t: i64 = 0;
    while t < 49
        invariant
            0 <= t <= 49,
            w == width,
            h == height,
            cx == center.0,
            cy == center.1,
            -0x4000_0000_0000_0000 <= cx <= 0x4000_0000_0000_0000,
            -0x4000_0000_0000_0000 <= cy <= 0x4000_0000_0000_0000,
            4 * (width * height) <= rgba.len(),
            fits_image(*plan, w, h),
            patch_score(rgba@, *plan, w, h, center.0 as int, center.1 as int) is Some,
            is_refined(rgba@, *plan, w, h, center, t as int, found),
            patch_score(rgba@, *plan, w, h, found.0 as int, found.1 as int) == Some(lowest as int),
            lowest <= patch_score(rgba@, *plan, w, h, center.0 as int, center.1 as int)->0,
            found == center ==> lowest == patch_score(rgba@, *plan, w, h, center.0 as int, center.1 as int)->0,
        decreases 49 - t,
    {
        let i: i64 = t % 7 - 3;
        let j: i64 = t / 7 - 3;
        if let Some(s) = heal_score(rgba, plan, width, height, cx + i, cy + j) {
            if s < lowest {
                assert(first_lowest(rgba@, *plan, w, h, center, t as int));
                lowest = s;
                found = (cx + i, cy + j);
            }
        }
        t = t + 1;
    }
    found
}

/// The offset of the patch to heal from: the best of the tried offsets, moved
/// by up to three pixels so that repeating texture lines up. `None` for a
/// smooth fill, and where no patch fits.
pub fn choose_source(rgba: &[u8], plan: &HealPlan, width: usize, height: usize, offsets: &[(i64, i64)], mode: HealMode) -> (r: Option<(i64, i64)>)
    requires
        4 * (width * height) <= rgba.len(),
        fits_image(*plan, width as int, height as int),
    ensures
        match r {
            Some(found) => {
                &&& stays_inside(*plan, width as int, height as int, found.0 as int, found.1 as int)
                &&& !overlaps(*plan, found.0 as int, found.1 as int)
                &&& exists|i: int|
                    #[trigger] is_best(
                        rgba@,
                        *plan,
                        width as int,
                        height as int,
                        mode,
                        offsets@,
                        tried(mode, offsets@),
                        i,
                    ) && is_refined(rgba@, *plan, width as int, height as int, offsets@[i], 49, found)
            },
            None => none_fits(rgba@, *plan, width as int, height as int, mode, offsets@, tried(mode, offsets@)),
        },
{
    match coarse_source(rgba, plan, width, height, offsets, mode) {
        Some(i) => Some(refine_source(rgba, plan, width, height, offsets[i])),
        None => None,
    }
}

/// Whether one of the up to four pixels under pixel `(x, y)` of the half-size
/// raster has this role.
pub open spec fn any_below(role: Seq<u8>, w: int, h: int, x: int, y: int, wanted: u8) -> bool {
    exists|i: int, j: int|
        0 <= i < 2 && 0 <= j < 2 && 2 * x + i < w && 2 * y + j < h && #[trigger] has_role(role, w, 2 * x + i, 2 * y + j, wanted)
}

/// Whether pixel `(x, y)` has this role.
pub open spec fn has_role(role: Seq<u8>, w: int, x: int, y: int, wanted: u8) -> bool {
    role[crate::pixels::cell(w, x, y)] == wanted
}

/// Role of pixel `(x, y)` of the half-size raster: ring if it covers a ring
/// pixel, else hole if it covers a hole pixel.
pub open spec fn coarse_role(role: Seq<u8>, w: int, h: int, x: int, y: int) -> u8 {
    if any_below(role, w, h, x, y, RING) {
        RING
    } else if any_below(role, w, h, x, y, HOLE) {
        HOLE
    } else {
        OUTSIDE
    }
}

/// Whether one of the up to four pixels under `(x, y)` has this role.
fn covers(role: &[u8], w: usize, h: usize, x: usize, y: usize, wanted: u8) -> (r: bool)
    requires
        role.len() == w * h,
        x < (w + 1) / 2,
        y < (h + 1) / 2,
        w < usize::MAX,
        h < usize::MAX,
    ensures
        r == any_below(role@, w as int, h as int, x as int, y as int, wanted),
{
    let ghost (gw, gh) = (w as int, h as int);
    let mut t: usize = 0;
    while t < 4
        invariant
            t <= 4,
            gw == w,
            gh == h,
            role.len() == w * h,
            2 * x < w,
            2 * y < h,
            forall|k: int|
                0 <= k < t && 2 * x + k % 2 < w && 2 * y + k / 2 < h ==> !#[trigger] has_role(
                    role@,
                    gw,
                    2 * x + k % 2,
                    2 * y + k / 2,
                    wanted,
                ),
        decreases 4 - t,
    {
        let fx: usize = 2 * x + t % 2;
        let fy: usize = 2 * y + t / 2;
        if fx < w && fy < h {
            proof {
                crate::pixels::lemma_cell(gw, gh, fx as int, fy as int);
            }
            if role[fy * w + fx] == wanted {
                assert(has_role(role@, gw, 2 * x + (t % 2) as int, 2 * y + (t / 2) as int, wanted));
                return true;
            }
        }
        t = t + 1;
    }
    proof {
        assert forall|i: int, j: int| 0 <= i < 2 && 0 <= j < 2 && 2 * x + i < w && 2 * y + j < h implies !#[trigger] has_role(
            role@,
            gw,
            2 * x + i,
            2 * y + j,
            wanted,
        ) by {
            let k = 2 * j + i;
            assert(k % 2 == i && k / 2 == j);
            assert(!has_role(role@, gw, 2 * x + k % 2, 2 * y + k / 2, wanted));
        }
    }
    false
}

/// The roles of a raster of half the size, rounded up.
pub fn coarsen_roles(role: &[u8], w: usize, h: usize) -> (r: Vec<u8>)
    requires
        role.len() == w * h,
        w < usize::MAX,
        h < usize::MAX,
    ensures
        r@ == Seq::new(
            (((w + 1) / 2) * ((h + 1) / 2)) as nat,
            |p: int|
                coarse_role(role@, w as int, h as int, p % ((w + 1) / 2), p / ((w + 1) / 2)),
        ),
{
    let cw: usize = (w + 1) / 2;
    let ch: usize = (h + 1) / 2;
    proof {
        if w > 0 && h > 0 {
            assert(cw * ch <= w * h) by (nonlinear_arith)
                requires
                    0 <= cw <= w,
                    0 <= ch <= h,
            ;
        } else {
            assert(cw * ch == 0) by (nonlinear_arith)
                requires
                    cw == 0 || ch == 0,
            ;
        }
    }
    let n: usize = cw * ch;
    let mut out: Vec<u8> = Vec::new();
    let mut p: usize = 0;
    while p < n
        invariant
            p <= n,
            n == cw * ch,
            cw == (w + 1) / 2,
            ch == (h + 1) / 2,
            role.len() == w * h,
            w < usize::MAX,
            h < usize::MAX,
            out@ == Seq::new(
                p as nat,
                |k: int| coarse_role(role@, w as int, h as int, k % (cw as int), k / (cw as int)),
            ),
        decreases n - p,
    {
        proof {
            crate::pixels::lemma_coords(cw as int, ch as int, p as int);
        }
        let x: usize = p % cw;
        let y: usize = p / cw;
        out.push(
            if covers(role, w, h, x, y, RING) {
                RING
            } else if covers(role, w, h, x, y, HOLE) {
                HOLE
            } else {
                OUTSIDE
            },
        );
        p = p + 1;
    }
    out
}

/// Byte `c` of pixel `p` of the box in the image, minus the byte of the patch
/// if there is one. Pixels outside the ring have 0.
pub open spec fn edge_value(rgba: Seq<u8>, plan: HealPlan, width: int, source: Option<(i64, i64)>, p: int, c: int) -> int {
    if plan.role@[p] != RING {
        0
    } else {
        rgba[4 * box_pixel(plan, width, p, 0, 0) + c] - match source {
            Some((dx, dy)) => rgba[4 * box_pixel(plan, width, p, dx as int, dy as int) + c] as int,
            None => 0,
        }
    }
}

/// The membrane's edge: the difference between the original and the patch, or
/// the original itself without a patch, on the ring; 0 elsewhere.
pub fn ring_edges(rgba: &[u8], plan: &HealPlan, width: usize, height: usize, source: Option<(i64, i64)>) -> (r: Vec<i32>)
    requires
        4 * (width * height) <= rgba.len(),
        fits_image(*plan, width as int, height as int),
        source is Some ==> stays_inside(
            *plan,
            width as int,
            height as int,
            (source->0).0 as int,
            (source->0).1 as int,
        ),
    ensures
        r@ == Seq::new(
            (4 * (plan.ww * plan.wh)) as nat,
            |b: int| edge_value(rgba@, *plan, width as int, source, b / 4, b % 4) as i32,
        ),
{
    let ghost (w, h, ww, wh) = (width as int, height as int, plan.ww as int, plan.wh as int);
    proof {
        assert(ww * wh <= w * h) by (nonlinear_arith)
            requires
                0 <= ww <= w,
                0 <= wh <= h,
        ;
    }
    let n: usize = plan.ww * plan.wh;
    let mut out: Vec<i32> = Vec::new();
    let mut p: usize = 0;
    while p < n
        invariant
            p <= n,
            n == plan.ww * plan.wh,
            w == width,
            h == height,
            ww == plan.ww,
            wh == plan.wh,
            4 * (width * height) <= rgba.len(),
            fits_image(*plan, w, h),
            source is Some ==> stays_inside(*plan, w, h, (source->0).0 as int, (source->0).1 as int),
            out@ == Seq::new(
                (4 * p) as nat,
                |b: int| edge_value(rgba@, *plan, w, source, b / 4, b % 4) as i32,
            ),
        decreases n - p,
    {
        proof {
            crate::pixels::lemma_coords(ww, wh, p as int);
            crate::pixels::lemma_cell(w, h, plan.wx0 + p as int % ww, plan.wy0 + p as int / ww);
        }
        let bx: usize = plan.wx0 + p % plan.ww;
        let by: usize = plan.wy0 + p / plan.ww;
        let t: usize = (by * width + bx) * 4;
        let s: Option<usize> = match source {
            Some((dx, dy)) => {
                proof {
                    crate::pixels::lemma_cell(w, h, bx + dx, by + dy);
                }
                let sx: usize = (bx as i128 + dx as i128) as usize;
                let sy: usize = (by as i128 + dy as i128) as usize;
                Some((sy * width + sx) * 4)
            },
            None => None,
        };
        let mut c: usize = 0;
        while c < 4
            invariant
                c <= 4,
                p < n,
                n == plan.ww * plan.wh,
                plan.role@.len() == n,
                4 * (width * height) <= rgba.len(),
                t == 4 * box_pixel(*plan, w, p as int, 0, 0),
                t + 4 <= 4 * (width * height),
                s is Some <==> source is Some,
                s is Some ==> s->0 == 4 * box_pixel(
                    *plan,
                    w,
                    p as int,
                    (source->0).0 as int,
                    (source->0).1 as int,
                ) && s->0 + 4 <= 4 * (width * height),
                out@ == Seq::new(
                    (4 * p + c) as nat,
                    |b: int| edge_value(rgba@, *plan, w, source, b / 4, b % 4) as i32,
                ),
            decreases 4 - c,
        {
            let from: i32 = match s {
                Some(s) => rgba[s + c] as i32,
                None => 0,
            };
            let v: i32 = if plan.role[p] == RING { rgba[t + c] as i32 - from } else { 0 };
            assert((4 * p + c) / 4 == p && (4 * p + c) % 4 == c);
            assert(v == edge_value(rgba@, *plan, w, source, p as int, c as int));
            out.push(v);
            c = c + 1;
        }
        p = p + 1;
    }
    out
}

/// Box index of image pixel `p`.
pub open spec fn box_index(plan: HealPlan, width: int, p: int) -> int {
    crate::pixels::cell(plan.ww as int, p % width - plan.wx0, p / width - plan.wy0)
}

/// Whether image pixel `p` is a hole pixel of the box.
pub open spec fn in_hole(plan: HealPlan, width: int, p: int) -> bool {
    &&& plan.wx0 <= p % width < plan.wx0 + plan.ww
    &&& plan.wy0 <= p / width < plan.wy0 + plan.wh
    &&& plan.role@[box_index(plan, width, p)] == HOLE
}

/// The image with the hole pixels replaced by those of `healed`, which holds
/// the pixels of the box.
pub open spec fn with_healed(rgba: Seq<u8>, plan: HealPlan, width: int, height: int, healed: Seq<u8>) -> Seq<u8> {
    Seq::new(
        rgba.len(),
        |b: int|
            if b < 4 * (width * height) && in_hole(plan, width, b / 4) {
                healed[4 * box_index(plan, width, b / 4) + b % 4]
            } else {
                rgba[b]
            },
    )
}

/// Writes the healed hole pixels back into the image.
pub fn apply_healed(rgba: &mut [u8], plan: &HealPlan, width: usize, height: usize, healed: &[u8])
    requires
        4 * (width * height) <= old(rgba).len(),
        fits_image(*plan, width as int, height as int),
        4 * (plan.ww * plan.wh) <= healed.len(),
    ensures
        final(rgba)@ == with_healed(old(rgba)@, *plan, width as int, height as int, healed@),
{
    let ghost (w, h, ww, wh) = (width as int, height as int, plan.ww as int, plan.wh as int);
    let ghost src = rgba@;
    let ghost want = with_healed(src, *plan, w, h, healed@);
    let n: usize = width * height;
    let mut p: usize = 0;
    while p < n
        invariant
            p <= n,
            n == width * height,
            w == width,
            h == height,
            ww == plan.ww,
            wh == plan.wh,
            4 * n <= rgba.len(),
            fits_image(*plan, w, h),
            4 * (plan.ww * plan.wh) <= healed.len(),
            want == with_healed(src, *plan, w, h, healed@),
            rgba@.len() == src.len(),
            forall|b: int| 0 <= b < 4 * p ==> #[trigger] rgba@[b] == want[b],
            forall|b: int| 4 * p <= b < src.len() ==> #[trigger] rgba@[b] == src[b],
        decreases n - p,
    {
        proof {
            crate::pixels::lemma_coords(w, h, p as int);
        }
        let x: usize = p % width;
        let y: usize = p / width;
        if plan.wx0 <= x && x < plan.wx0 + plan.ww && plan.wy0 <= y && y < plan.wy0 + plan.wh {
            proof {
                crate::pixels::lemma_cell(ww, wh, x - plan.wx0, y - plan.wy0);
            }
            let q: usize = (y - plan.wy0) * plan.ww + (x - plan.wx0);
            if plan.role[q] == HOLE {
                let mut c: usize = 0;
                while c < 4
                    invariant
                        c <= 4,
                        p < n,
                        4 * n <= rgba.len(),
                        q < plan.ww * plan.wh,
                        4 * (plan.ww * plan.wh) <= healed.len(),
                        q == box_index(*plan, w, p as int),
                        in_hole(*plan, w, p as int),
                        n == w * h,
                        want == with_healed(src, *plan, w, h, healed@),
                        rgba@.len() == src.len(),
                        forall|b: int| 0 <= b < 4 * p + c ==> #[trigger] rgba@[b] == want[b],
                        forall|b: int| 4 * p + c <= b < src.len() ==> #[trigger] rgba@[b] == src[b],
                    decreases 4 - c,
                {
                    rgba[4 * p + c] = healed[4 * q + c];
                    assert((4 * p + c) / 4 == p && (4 * p + c) % 4 == c);
                    c = c + 1;
                }
            }
        }
        p = p + 1;
    }
}

/// Healing changes covered pixels only.
pub proof fn healing_changes_covered_pixels_only(rgba: Seq<u8>, coverage: Seq<u8>, plan: HealPlan, width: int, height: int, healed: Seq<u8>, b: int)
    requires
        0 <= width,
        0 <= height,
        4 * (width * height) <= rgba.len(),
        is_plan(plan, coverage, width, height),
        0 <= b < rgba.len(),
        b < 4 * (width * height) ==> coverage[b / 4] == 0,
    ensures
        with_healed(rgba, plan, width, height, healed)[b] == rgba[b],
{
    if b < 4 * (width * height) {
        let p = b / 4;
        crate::pixels::lemma_coords(width, height, p);
        if in_hole(plan, width, p) {
            crate::pixels::lemma_cell(plan.ww as int, plan.wh as int, p % width - plan.wx0, p / width - plan.wy0);
        }
    }
}

/// Healing with the pixels that the hole already has changes nothing.
pub proof fn healing_with_own_pixels_changes_nothing(rgba: Seq<u8>, plan: HealPlan, width: int, height: int, healed: Seq<u8>)
    requires
        0 <= width,
        0 <= height,
        forall|b: int|
            0 <= b < 4 * (width * height) && in_hole(plan, width, b / 4) ==> healed[4 * box_index(plan, width, b / 4) + b % 4]
                == #[trigger] rgba[b],
    ensures
        with_healed(rgba, plan, width, height, healed) == rgba,
{
    assert(with_healed(rgba, plan, width, height, healed) =~= rgba);
}

/// Whether all pixels of an image are equal.
pub open spec fn all_pixels_equal(rgba: Seq<u8>, n: int) -> bool {
    forall|b: int| 0 <= b < 4 * n ==> #[trigger] rgba[b] == rgba[b % 4]
}

/// In an image of equal pixels a patch leaves no difference on the ring, and
/// without a patch the ring has the color of the image.
pub proof fn equal_pixels_have_flat_edges(
    rgba: Seq<u8>,
    plan: HealPlan,
    width: int,
    height: int,
    source: Option<(i64, i64)>,
    p: int,
    c: int,
)
    requires
        fits_image(plan, width, height),
        all_pixels_equal(rgba, width * height),
        source matches Some(s) ==> stays_inside(plan, width, height, s.0 as int, s.1 as int),
        0 <= p < plan.ww * plan.wh,
        0 <= c < 4,
    ensures
        source is Some ==> edge_value(rgba, plan, width, source, p, c) == 0,
        source is None && plan.role@[p] == RING ==> edge_value(rgba, plan, width, source, p, c) == rgba[c],
{
    let (ww, wh) = (plan.ww as int, plan.wh as int);
    crate::pixels::lemma_coords(ww, wh, p);
    let (x, y) = (plan.wx0 + p % ww, plan.wy0 + p / ww);
    crate::pixels::lemma_cell(width, height, x, y);
    let t = box_pixel(plan, width, p, 0, 0);
    assert((4 * t + c) % 4 == c);
    if let Some((dx, dy)) = source {
        crate::pixels::lemma_cell(width, height, x + dx, y + dy);
        let s = box_pixel(plan, width, p, dx as int, dy as int);
        assert((4 * s + c) % 4 == c);
    }
}

/// Each covered pixel is a hole pixel of the plan: healing reaches all of them.
pub proof fn every_covered_pixel_is_in_the_hole(coverage: Seq<u8>, plan: HealPlan, width: int, height: int, p: int)
    requires
        0 <= width,
        0 <= height,
        is_plan(plan, coverage, width, height),
        0 <= p < width * height,
        coverage[p] != 0,
    ensures
        in_hole(plan, width, p),
{
    let (x0, y0, x1, y1) = choose|x0: int, y0: int, x1: int, y1: int|
        #[trigger] is_plan_for(plan, coverage, width, height, x0, y0, x1, y1);
    crate::pixels::lemma_coords(width, height, p);
    crate::pixels::lemma_cell(plan.ww as int, plan.wh as int, p % width - plan.wx0, p / width - plan.wy0);
}

/// Coverage determines the plan.
pub proof fn plan_is_determined(a: HealPlan, b: HealPlan, coverage: Seq<u8>, width: int, height: int)
    requires
        0 <= width,
        0 <= height,
        is_plan(a, coverage, width, height),
        is_plan(b, coverage, width, height),
    ensures
        a.wx0 == b.wx0,
        a.wy0 == b.wy0,
        a.ww == b.ww,
        a.wh == b.wh,
        a.role@ == b.role@,
        a.ring_count == b.ring_count,
{
    let (ax0, ay0, ax1, ay1) = choose|x0: int, y0: int, x1: int, y1: int|
        #[trigger] is_plan_for(a, coverage, width, height, x0, y0, x1, y1);
    let (bx0, by0, bx1, by1) = choose|x0: int, y0: int, x1: int, y1: int|
        #[trigger] is_plan_for(b, coverage, width, height, x0, y0, x1, y1);
    lemma_bounds_within(coverage, width, height, ax0, ay0, ax1, ay1, bx0, by0, bx1, by1);
    lemma_bounds_within(coverage, width, height, bx0, by0, bx1, by1, ax0, ay0, ax1, ay1);
    assert(a.role@ =~= b.role@);
}

proof fn lemma_bounds_within(
    coverage: Seq<u8>,
    width: int,
    height: int,
    ax0: int,
    ay0: int,
    ax1: int,
    ay1: int,
    bx0: int,
    by0: int,
    bx1: int,
    by1: int,
)
    requires
        is_bounds(coverage, width, height, ax0, ay0, ax1, ay1),
        is_bounds(coverage, width, height, bx0, by0, bx1, by1),
    ensures
        bx0 <= ax0,
        by0 <= ay0,
        ax1 <= bx1,
        ay1 <= by1,
{
    let p = choose|p: int| 0 <= p < width * height && #[trigger] coverage[p] != 0 && p % width == ax0;
    let q = choose|p: int| 0 <= p < width * height && #[trigger] coverage[p] != 0 && p % width == ax1 - 1;
    let r = choose|p: int| 0 <= p < width * height && #[trigger] coverage[p] != 0 && p / width == ay0;
    let s = choose|p: int| 0 <= p < width * height && #[trigger] coverage[p] != 0 && p / width == ay1 - 1;
    assert(coverage[p] != 0 && coverage[q] != 0 && coverage[r] != 0 && coverage[s] != 0);
}

/// Adding the membrane's edge to the patch gives back the ring, whether the
/// patch is darker or brighter; without a patch the edge is the ring itself. The
/// edge is 0 beside the ring.
pub proof fn edges_added_to_the_patch_give_the_ring(
    rgba: &[u8],
    plan: &HealPlan,
    width: usize,
    height: usize,
    source: Option<(i64, i64)>,
    r: Vec<i32>,
    x: int,
    y: int,
    c: int,
)
    requires
        call_requires(ring_edges, (rgba, plan, width, height, source)),
        call_ensures(ring_edges, (rgba, plan, width, height, source), r),
        0 <= x < plan.ww,
        0 <= y < plan.wh,
        0 <= c < 4,
    ensures
        r@.len() == 4 * (plan.ww * plan.wh),
        plan.role@[y * plan.ww + x] == RING ==> match source {
            Some((dx, dy)) => r@[4 * (y * plan.ww + x) + c] + rgba@[4 * ((plan.wy0 + y + dy) * width + plan.wx0 + x + dx) + c]
                == rgba@[4 * ((plan.wy0 + y) * width + plan.wx0 + x) + c],
            None => r@[4 * (y * plan.ww + x) + c] == rgba@[4 * ((plan.wy0 + y) * width + plan.wx0 + x) + c],
        },
        plan.role@[y * plan.ww + x] != RING ==> r@[4 * (y * plan.ww + x) + c] == 0,
{
    let p = y * plan.ww + x;
    crate::pixels::lemma_cell(plan.ww as int, plan.wh as int, x, y);
    assert((4 * p + c) / 4 == p && (4 * p + c) % 4 == c);
    assert(r@[4 * p + c] == edge_value(rgba@, *plan, width as int, source, p, c) as i32);
}

/// The box reaches as far beyond the covered pixels as the ring is wide, an
/// eighth of their longer side but from 2 to 16 pixels, or up to the edge of the
/// image. Each of its pixels is a hole where it is covered, and ring where it is
/// not and a covered pixel is at most that many columns and rows away.
pub proof fn plan_surrounds_what_is_covered(
    coverage: &[u8],
    width: usize,
    height: usize,
    plan: HealPlan,
    x0: int,
    y0: int,
    x1: int,
    y1: int,
    ring: int,
    x: int,
    y: int,
)
    requires
        width * height <= coverage.len(),
        call_ensures(plan_heal, (coverage, width, height), Some(plan)),
        0 <= x0 < x1 <= width,
        0 <= y0 < y1 <= height,
        forall|p: int|
            0 <= p < width * height && #[trigger] coverage@[p] != 0 ==> x0 <= p % (width as int) < x1 && y0 <= p / (width as int) < y1,
        exists|p: int| 0 <= p < width * height && #[trigger] coverage@[p] != 0 && p % (width as int) == x0,
        exists|p: int| 0 <= p < width * height && #[trigger] coverage@[p] != 0 && p % (width as int) == x1 - 1,
        exists|p: int| 0 <= p < width * height && #[trigger] coverage@[p] != 0 && p / (width as int) == y0,
        exists|p: int| 0 <= p < width * height && #[trigger] coverage@[p] != 0 && p / (width as int) == y1 - 1,
        x1 - x0 < 24 && y1 - y0 < 24 ==> ring == 2,
        x1 - x0 >= 128 || y1 - y0 >= 128 ==> ring == 16,
        x1 - x0 < 128 && y1 - y0 < 128 && (x1 - x0 >= 24 || y1 - y0 >= 24) ==> x1 - x0 < 8 * ring + 8 && y1 - y0 < 8 * ring
            + 8 && (8 * ring <= x1 - x0 || 8 * ring <= y1 - y0),
        plan.wx0 <= x < plan.wx0 + plan.ww,
        plan.wy0 <= y < plan.wy0 + plan.wh,
    ensures
        plan.wx0 == if x0 >= ring { x0 - ring } else { 0 },
        plan.wy0 == if y0 >= ring { y0 - ring } else { 0 },
        plan.wx0 + plan.ww == if x1 + ring <= width { x1 + ring } else { width as int },
        plan.wy0 + plan.wh == if y1 + ring <= height { y1 + ring } else { height as int },
        plan.role@.len() == plan.ww * plan.wh,
        ({
            let role = plan.role@[(y - plan.wy0) * plan.ww + x - plan.wx0];
            let near = exists|p: int|
                0 <= p < width * height && #[trigger] coverage@[p] != 0 && x - ring <= p % (width as int) <= x + ring && y
                    - ring <= p / (width as int) <= y + ring;
            &&& role == HOLE <==> coverage@[y * width + x] != 0
            &&& role == RING <==> coverage@[y * width + x] == 0 && near
            &&& role == OUTSIDE <==> coverage@[y * width + x] == 0 && !near
        }),
        plan.ring_count == plan.role@.filter(|v: u8| v == RING).len(),
{
    let (w, h) = (width as int, height as int);
    assert(is_bounds(coverage@, w, h, x0, y0, x1, y1));
    lemma_plan_of_bounds(plan, coverage@, w, h, x0, y0, x1, y1);
    lemma_plan_roles(plan, coverage@, w, h, x0, y0, x1, y1, x, y);
    assert(ring == ring_width(x1 - x0, y1 - y0));
    lemma_near(coverage@, w, h, ring, x, y);
}

/// A plan is one for any bounds of what is covered.
proof fn lemma_plan_of_bounds(plan: HealPlan, coverage: Seq<u8>, width: int, height: int, x0: int, y0: int, x1: int, y1: int)
    requires
        is_plan(plan, coverage, width, height),
        is_bounds(coverage, width, height, x0, y0, x1, y1),
    ensures
        is_plan_for(plan, coverage, width, height, x0, y0, x1, y1),
{
    let (a0, b0, a1, b1) = choose|a0: int, b0: int, a1: int, b1: int| #[trigger]
        is_plan_for(plan, coverage, width, height, a0, b0, a1, b1);
    lemma_bounds_within(coverage, width, height, a0, b0, a1, b1, x0, y0, x1, y1);
    lemma_bounds_within(coverage, width, height, x0, y0, x1, y1, a0, b0, a1, b1);
}

/// The role of pixel `(x, y)` of the image, and the number of ring pixels.
proof fn lemma_plan_roles(plan: HealPlan, coverage: Seq<u8>, width: int, height: int, x0: int, y0: int, x1: int, y1: int, x: int, y: int)
    requires
        is_plan_for(plan, coverage, width, height, x0, y0, x1, y1),
        plan.wx0 <= x < plan.wx0 + plan.ww,
        plan.wy0 <= y < plan.wy0 + plan.wh,
    ensures
        plan.role@.len() == plan.ww * plan.wh,
        plan.role@[(y - plan.wy0) * plan.ww + x - plan.wx0] == role_of(
            coverage,
            width,
            height,
            ring_width(x1 - x0, y1 - y0),
            x,
            y,
        ),
        plan.ring_count == plan.role@.filter(|v: u8| v == RING).len(),
{
    let (ww, wh) = (plan.ww as int, plan.wh as int);
    crate::pixels::lemma_cell(ww, wh, x - plan.wx0, y - plan.wy0);
    lemma_ring_filtered(plan.role@, ww * wh);
    assert(plan.role@.take(ww * wh) =~= plan.role@);
}

/// A covered pixel is near where one with its index is.
proof fn lemma_near(coverage: Seq<u8>, width: int, height: int, ring: int, x: int, y: int)
    requires
        0 <= width,
    ensures
        near_hole(coverage, width, height, ring, x, y) <==> exists|p: int|
            0 <= p < width * height && #[trigger] coverage[p] != 0 && x - ring <= p % width <= x + ring && y - ring <= p / width
                <= y + ring,
{
    if near_hole(coverage, width, height, ring, x, y) {
        let (hx, hy) = choose|hx: int, hy: int|
            0 <= hx < width && 0 <= hy < height && x - ring <= hx <= x + ring && y - ring <= hy <= y + ring && #[trigger] covered(
                coverage,
                width,
                hx,
                hy,
            );
        crate::pixels::lemma_cell(width, height, hx, hy);
        assert(coverage[hy * width + hx] != 0);
    }
    if exists|p: int|
        0 <= p < width * height && #[trigger] coverage[p] != 0 && x - ring <= p % width <= x + ring && y - ring <= p / width <= y
            + ring {
        let p = choose|p: int|
            0 <= p < width * height && #[trigger] coverage[p] != 0 && x - ring <= p % width <= x + ring && y - ring <= p / width
                <= y + ring;
        crate::pixels::lemma_coords(width, height, p);
        assert(covered(coverage, width, p % width, p / width));
    }
}

proof fn lemma_ring_filtered(role: Seq<u8>, k: int)
    requires
        0 <= k <= role.len(),
    ensures
        ring_pixels(role, k) == role.take(k).filter(|v: u8| v == RING).len(),
    decreases k,
{
    reveal(Seq::filter);
    if k > 0 {
        lemma_ring_filtered(role, k - 1);
        assert(role.take(k).drop_last() =~= role.take(k - 1));
        assert(role.take(k).last() == role[k - 1]);
    }
}

/// The bounds of what is covered hold every covered pixel and are touched on
/// each side.
pub proof fn bounds_are_tight(coverage: Seq<u8>, width: int, height: int, x0: int, y0: int, x1: int, y1: int, x: int, y: int)
    requires
        is_bounds(coverage, width, height, x0, y0, x1, y1),
        0 <= x < width,
        0 <= y < height,
    ensures
        0 <= x0 < x1 <= width && 0 <= y0 < y1 <= height,
        coverage[y * width + x] != 0 ==> x0 <= x < x1 && y0 <= y < y1,
        exists|p: int| 0 <= p < width * height && #[trigger] coverage[p] != 0 && p % width == x0,
        exists|p: int| 0 <= p < width * height && #[trigger] coverage[p] != 0 && p % width == x1 - 1,
        exists|p: int| 0 <= p < width * height && #[trigger] coverage[p] != 0 && p / width == y0,
        exists|p: int| 0 <= p < width * height && #[trigger] coverage[p] != 0 && p / width == y1 - 1,
{
    crate::pixels::lemma_cell(width, height, x, y);
}

/// Each ring pixel adds the squared differences of its four bytes from those of
/// the pixel `(dx, dy)` away to the cost of a patch, and other pixels add
/// nothing.
pub proof fn ring_cost_adds_up_pixels(rgba: Seq<u8>, plan: HealPlan, width: int, dx: int, dy: int, x: int, y: int)
    requires
        0 <= x < plan.ww,
        0 <= y < plan.wh,
    ensures
        ring_cost(rgba, plan, width, dx, dy, 0) == 0,
        ({
            let p = y * plan.ww + x;
            let a = 4 * ((plan.wy0 + y) * width + plan.wx0 + x);
            let b = 4 * ((plan.wy0 + y + dy) * width + plan.wx0 + x + dx);
            let more = ring_cost(rgba, plan, width, dx, dy, p + 1) - ring_cost(rgba, plan, width, dx, dy, p);
            &&& plan.role@[p] != RING ==> more == 0
            &&& plan.role@[p] == RING ==> more == (rgba[a] - rgba[b]) * (rgba[a] - rgba[b]) + (rgba[a + 1] - rgba[b + 1]) * (
            rgba[a + 1] - rgba[b + 1]) + (rgba[a + 2] - rgba[b + 2]) * (rgba[a + 2] - rgba[b + 2]) + (rgba[a + 3] - rgba[b
                + 3]) * (rgba[a + 3] - rgba[b + 3])
        }),
{
    let p = y * plan.ww + x;
    crate::pixels::lemma_cell(plan.ww as int, plan.wh as int, x, y);
    crate::pixels::costs_are_sums_of_squares(rgba, box_pixel(plan, width, p, 0, 0), box_pixel(plan, width, p, dx, dy), 0);
}

/// A patch has a score where there is a ring, and where the moved box lies in
/// the image and beside the box. The score is the cost of the whole ring: 0 if
/// and only if each ring pixel has the bytes of the one `(dx, dy)` away.
pub proof fn scores_compare_the_ring(rgba: &[u8], plan: &HealPlan, width: usize, height: usize, dx: i64, dy: i64, r: Option<u128>)
    requires
        call_requires(heal_score, (rgba, plan, width, height, dx, dy)),
        call_ensures(heal_score, (rgba, plan, width, height, dx, dy), r),
    ensures
        r is Some <==> {
            &&& plan.ring_count > 0
            &&& 0 <= plan.wx0 + dx && plan.wx0 + plan.ww + dx <= width
            &&& 0 <= plan.wy0 + dy && plan.wy0 + plan.wh + dy <= height
            &&& dx <= -plan.ww || plan.ww <= dx || dy <= -plan.wh || plan.wh <= dy
        },
        r is Some ==> r->0 == ring_cost(rgba@, *plan, width as int, dx as int, dy as int, plan.ww * plan.wh),
        r matches Some(s) ==> (s == 0 <==> forall|x: int, y: int, c: int|
            0 <= x < plan.ww && 0 <= y < plan.wh && 0 <= c < 4 && plan.role@[y * plan.ww + x] == RING ==> #[trigger] rgba@[4
                * ((plan.wy0 + y) * width + plan.wx0 + x) + c] == rgba@[4 * ((plan.wy0 + y + dy) * width + plan.wx0 + x + dx)
                + c]),
{
    let (w, gx, gy) = (width as int, dx as int, dy as int);
    let (ww, wh) = (plan.ww as int, plan.wh as int);
    if r is Some {
        lemma_ring_cost_zero(rgba@, *plan, w, gx, gy, ww * wh);
        if r->0 == 0 {
            assert forall|x: int, y: int, c: int|
                0 <= x < plan.ww && 0 <= y < plan.wh && 0 <= c < 4 && plan.role@[y * plan.ww + x] == RING implies #[trigger] rgba@[4
                * ((plan.wy0 + y) * width + plan.wx0 + x) + c] == rgba@[4 * ((plan.wy0 + y + dy) * width + plan.wx0 + x + dx)
                + c] by {
                let p = y * ww + x;
                crate::pixels::lemma_cell(ww, wh, x, y);
                assert(same_pixel(rgba@, *plan, w, gx, gy, p));
                let (a, b) = (box_pixel(*plan, w, p, 0, 0), box_pixel(*plan, w, p, gx, gy));
                assert(rgba@[4 * a + c] == rgba@[4 * b + c]);
            }
        }
        if forall|x: int, y: int, c: int|
            0 <= x < plan.ww && 0 <= y < plan.wh && 0 <= c < 4 && plan.role@[y * plan.ww + x] == RING ==> #[trigger] rgba@[4
                * ((plan.wy0 + y) * width + plan.wx0 + x) + c] == rgba@[4 * ((plan.wy0 + y + dy) * width + plan.wx0 + x + dx)
                + c] {
            assert forall|p: int| 0 <= p < ww * wh && plan.role@[p] == RING implies #[trigger] same_pixel(
                rgba@,
                *plan,
                w,
                gx,
                gy,
                p,
            ) by {
                crate::pixels::lemma_coords(ww, wh, p);
                let (x, y) = (p % ww, p / ww);
                let (a, b) = (box_pixel(*plan, w, p, 0, 0), box_pixel(*plan, w, p, gx, gy));
                assert forall|c: int| 0 <= c < 4 implies #[trigger] rgba@[4 * a + c] == rgba@[4 * b + c] by {
                    assert(rgba@[4 * ((plan.wy0 + y) * width + plan.wx0 + x) + c] == rgba@[4 * ((plan.wy0 + y + dy) * width
                        + plan.wx0 + x + dx) + c]);
                }
            }
        }
    }
}

/// Whether pixel `p` of the box equals the one `(dx, dy)` away.
spec fn same_pixel(rgba: Seq<u8>, plan: HealPlan, width: int, dx: int, dy: int, p: int) -> bool {
    let (a, b) = (box_pixel(plan, width, p, 0, 0), box_pixel(plan, width, p, dx, dy));
    forall|c: int| 0 <= c < 4 ==> #[trigger] rgba[4 * a + c] == rgba[4 * b + c]
}

proof fn lemma_ring_cost_zero(rgba: Seq<u8>, plan: HealPlan, width: int, dx: int, dy: int, k: int)
    ensures
        0 <= ring_cost(rgba, plan, width, dx, dy, k),
        ring_cost(rgba, plan, width, dx, dy, k) == 0 <==> forall|p: int|
            0 <= p < k && plan.role@[p] == RING ==> #[trigger] same_pixel(rgba, plan, width, dx, dy, p),
    decreases k,
{
    if k > 0 {
        lemma_ring_cost_zero(rgba, plan, width, dx, dy, k - 1);
        let (a, b) = (box_pixel(plan, width, k - 1, 0, 0), box_pixel(plan, width, k - 1, dx, dy));
        crate::pixels::costs_are_sums_of_squares(rgba, a, b, 0);
        let d = rgba[4 * a] - rgba[4 * b];
        assert(d * d >= 0) by (nonlinear_arith);
        assert(same_pixel(rgba, plan, width, dx, dy, k - 1) <==> crate::pixels::pixel_cost(rgba, a, b) == 0);
        if ring_cost(rgba, plan, width, dx, dy, k) == 0 {
            assert forall|p: int| 0 <= p < k && plan.role@[p] == RING implies #[trigger] same_pixel(
                rgba,
                plan,
                width,
                dx,
                dy,
                p,
            ) by {}
        }
    }
}

/// The search tries 24 candidates of each scale: none for a smooth fill, two
/// scales for near patches and else five. It finds nothing if and only if none
/// of them has a score. Else it starts from the candidate with the lowest score
/// times its weight, which grows with the scale by a tenth, or six tenths for
/// near patches; the first of several. What it gives is at most three pixels
/// away from that in each direction, and nothing that near has a lower score.
pub proof fn best_candidate_is_refined(
    rgba: &[u8],
    plan: &HealPlan,
    width: usize,
    height: usize,
    offsets: &[(i64, i64)],
    mode: HealMode,
    r: Option<(i64, i64)>,
    n: int,
    step: int,
)
    requires
        call_requires(choose_source, (rgba, plan, width, height, offsets, mode)),
        call_ensures(choose_source, (rgba, plan, width, height, offsets, mode), r),
        mode == HealMode::SmoothFill ==> n == 0,
        mode == HealMode::ProximityMatch ==> n == (if offsets@.len() < 48 { offsets@.len() as int } else { 48 }) && step == 6,
        mode == HealMode::ContentAware ==> n == (if offsets@.len() < 120 { offsets@.len() as int } else { 120 }) && step == 1,
    ensures
        r is None <==> forall|j: int|
            0 <= j < n ==> patch_score(
                rgba@,
                *plan,
                width as int,
                height as int,
                (#[trigger] offsets@[j]).0 as int,
                offsets@[j].1 as int,
            ) is None,
        r matches Some(found) ==> exists|i: int|
            #![trigger offsets@[i]]
            {
                let score = |o: (int, int)| patch_score(rgba@, *plan, width as int, height as int, o.0, o.1);
                let at = |j: int| score((offsets@[j].0 as int, offsets@[j].1 as int));
                &&& 0 <= i < n
                &&& at(i) is Some
                &&& forall|j: int|
                    #![trigger offsets@[j]]
                    0 <= j < n && at(j) is Some ==> at(i)->0 * (10 + step * (i / 24)) <= at(j)->0 * (10 + step * (j / 24))
                &&& forall|j: int|
                    #![trigger offsets@[j]]
                    0 <= j < i && at(j) is Some ==> at(i)->0 * (10 + step * (i / 24)) < at(j)->0 * (10 + step * (j / 24))
                &&& -3 <= found.0 - offsets@[i].0 <= 3 && -3 <= found.1 - offsets@[i].1 <= 3
                &&& score((found.0 as int, found.1 as int)) is Some
                &&& forall|u: int, v: int|
                    -3 <= u <= 3 && -3 <= v <= 3 ==> match #[trigger] score((offsets@[i].0 + u, offsets@[i].1 + v)) {
                        Some(s) => score((found.0 as int, found.1 as int))->0 <= s,
                        None => true,
                    }
                &&& score((found.0 as int, found.1 as int))->0 == at(i)->0 ==> found == offsets@[i]
            },
{
    let (w, h) = (width as int, height as int);
    let k = tried(mode, offsets@);
    assert(k == n);
    match r {
        None => {
            assert forall|j: int| 0 <= j < n implies patch_score(
                rgba@,
                *plan,
                w,
                h,
                (#[trigger] offsets@[j]).0 as int,
                offsets@[j].1 as int,
            ) is None by {
                assert(weighted_score(rgba@, *plan, w, h, mode, offsets@, j) is None);
            }
        },
        Some(found) => {
            let i = choose|i: int|
                #[trigger] is_best(rgba@, *plan, w, h, mode, offsets@, k, i) && is_refined(
                    rgba@,
                    *plan,
                    w,
                    h,
                    offsets@[i],
                    49,
                    found,
                );
            let score = |o: (int, int)| patch_score(rgba@, *plan, w, h, o.0, o.1);
            let at = |j: int| score((offsets@[j].0 as int, offsets@[j].1 as int));
            let center = offsets@[i];
            assert(weighted_score(rgba@, *plan, w, h, mode, offsets@, i) is Some);
            assert(at(i) is Some);
            assert forall|j: int|
                #![trigger offsets@[j]]
                0 <= j < n && at(j) is Some implies at(i)->0 * (10 + step * (i / 24)) <= at(j)->0 * (10 + step * (j / 24)) by {
                assert(weighted_score(rgba@, *plan, w, h, mode, offsets@, j) is Some);
            }
            assert forall|j: int|
                #![trigger offsets@[j]]
                0 <= j < i && at(j) is Some implies at(i)->0 * (10 + step * (i / 24)) < at(j)->0 * (10 + step * (j / 24)) by {
                assert(weighted_score(rgba@, *plan, w, h, mode, offsets@, j) is Some);
            }
            assert forall|u: int, v: int| -3 <= u <= 3 && -3 <= v <= 3 implies match #[trigger] score((center.0 + u, center.1 + v)) {
                Some(s) => score((found.0 as int, found.1 as int))->0 <= s,
                None => true,
            } by {
                let t = 7 * (v + 3) + u + 3;
                assert(t % 7 - 3 == u && t / 7 - 3 == v);
                assert(nearby_score(rgba@, *plan, w, h, center, t) == score((center.0 + u, center.1 + v)));
            }
            assert(offsets@[i] == center);
        },
    }
}

/// A pixel of the half-size raster is ring where one of the pixels it stands for
/// is, else a hole where one of them is, and else outside.
pub proof fn coarse_roles_stand_for_fine_ones(role: &[u8], w: usize, h: usize, r: Vec<u8>, x: int, y: int, fx: int, fy: int)
    requires
        call_requires(coarsen_roles, (role, w, h)),
        call_ensures(coarsen_roles, (role, w, h), r),
        0 <= fx < w,
        0 <= fy < h,
        0 <= x < (w + 1) / 2,
        0 <= y < (h + 1) / 2,
    ensures
        r@.len() == ((w + 1) / 2) * ((h + 1) / 2),
        role@[fy * w + fx] == RING ==> r@[(fy / 2) * ((w + 1) / 2) + fx / 2] == RING,
        role@[fy * w + fx] == HOLE ==> r@[(fy / 2) * ((w + 1) / 2) + fx / 2] != OUTSIDE,
        r@[y * ((w + 1) / 2) + x] == RING || r@[y * ((w + 1) / 2) + x] == HOLE || r@[y * ((w + 1) / 2) + x] == OUTSIDE,
        r@[y * ((w + 1) / 2) + x] != OUTSIDE ==> exists|i: int, j: int|
            0 <= i < 2 && 0 <= j < 2 && 2 * x + i < w && 2 * y + j < h && #[trigger] role@[(2 * y + j) * w + 2 * x + i] == r@[y
                * ((w + 1) / 2) + x],
{
    let (gw, gh) = (w as int, h as int);
    let (cw, ch) = ((gw + 1) / 2, (gh + 1) / 2);
    let (u, v) = (fx / 2, fy / 2);
    crate::pixels::lemma_cell(cw, ch, u, v);
    crate::pixels::lemma_cell(cw, ch, x, y);
    assert(r@[v * cw + u] == coarse_role(role@, gw, gh, u, v));
    assert(r@[y * cw + x] == coarse_role(role@, gw, gh, x, y));
    let (i, j) = (fx % 2, fy % 2);
    assert(has_role(role@, gw, 2 * u + i, 2 * v + j, role@[fy * w + fx]));
    if role@[fy * w + fx] == RING {
        assert(any_below(role@, gw, gh, u, v, RING));
    }
    if role@[fy * w + fx] == HOLE {
        assert(any_below(role@, gw, gh, u, v, HOLE));
    }
    let got = r@[y * cw + x];
    if got != OUTSIDE {
        assert(any_below(role@, gw, gh, x, y, got));
        let (i, j) = choose|i: int, j: int|
            0 <= i < 2 && 0 <= j < 2 && 2 * x + i < gw && 2 * y + j < gh && #[trigger] has_role(
                role@,
                gw,
                2 * x + i,
                2 * y + j,
                got,
            );
        assert(role@[(2 * y + j) * w + 2 * x + i] == got);
    }
}

/// A hole pixel of the box takes the bytes that healing gave it, and every
/// other byte stays.
pub proof fn healed_pixels_land_in_the_hole(rgba: Seq<u8>, plan: HealPlan, width: int, height: int, healed: Seq<u8>, x: int, y: int, c: int)
    requires
        fits_image(plan, width, height),
        4 * (width * height) <= rgba.len(),
        0 <= x < width,
        0 <= y < height,
        0 <= c < 4,
    ensures
        with_healed(rgba, plan, width, height, healed).len() == rgba.len(),
        ({
            let out = with_healed(rgba, plan, width, height, healed)[4 * (y * width + x) + c];
            let q = (y - plan.wy0) * plan.ww + x - plan.wx0;
            if plan.wx0 <= x < plan.wx0 + plan.ww && plan.wy0 <= y < plan.wy0 + plan.wh && plan.role@[q] == HOLE {
                out == healed[4 * q + c]
            } else {
                out == rgba[4 * (y * width + x) + c]
            }
        }),
        forall|b: int|
            4 * (width * height) <= b < rgba.len() ==> #[trigger] with_healed(rgba, plan, width, height, healed)[b] == rgba[b],
{
    let p = y * width + x;
    crate::pixels::lemma_cell(width, height, x, y);
    assert((4 * p + c) / 4 == p && (4 * p + c) % 4 == c);
}

/// Different pixels have different grain, and so has a pixel for different
/// seeds.
pub proof fn grain_differs_by_pixel_and_seed(seed: u32, other: u32, p: u32, q: u32, a: (u32, u32), b: (u32, u32), c: (u32, u32))
    requires
        p != q,
        seed != other,
        call_ensures(grain_keys, (seed, p), a),
        call_ensures(grain_keys, (seed, q), b),
        call_ensures(grain_keys, (other, p), c),
    ensures
        a.0 != b.0,
        a.0 != c.0,
        a.0 != a.1,
        a.1 != b.1,
{
    let (hp, hq) = (crate::hash::scrambled(p), crate::hash::scrambled(q));
    crate::hash::hashes_differ(p, q);
    assert(hp != hq ==> seed ^ hp != seed ^ hq) by (bit_vector);
    assert(seed != other ==> seed ^ hp != other ^ hp) by (bit_vector);
    crate::hash::hashes_differ(seed ^ hp, seed ^ hq);
    crate::hash::hashes_differ(seed ^ hp, other ^ hp);
    let (k, l) = (a.0, b.0);
    assert(k != k ^ 0x68e31da4u32) by (bit_vector);
    assert(k != l ==> k ^ 0x68e31da4u32 != l ^ 0x68e31da4u32) by (bit_vector);
}

/// Something is healed if and only if a pixel is covered and another one is
/// not.
pub proof fn partly_covered_images_are_healed(coverage: &[u8], width: usize, height: usize, r: Option<HealPlan>, p: int, q: int)
    requires
        width * height <= coverage.len(),
        call_ensures(plan_heal, (coverage, width, height), r),
        0 <= p < width * height,
        0 <= q < width * height,
    ensures
        coverage@[p] != 0 && coverage@[q] == 0 ==> r is Some,
        r is Some ==> exists|a: int, b: int|
            0 <= a < width * height && 0 <= b < width * height && #[trigger] coverage@[a] != 0 && #[trigger] coverage@[b] == 0,
        r matches Some(plan) ==> plan.ring_count > 0,
{
    if r is None {
        assert(!covered_in_part(coverage@, width * height));
    }
    if r is Some {
        let a = choose|a: int| 0 <= a < width * height && #[trigger] coverage@[a] != 0;
        let b = choose|b: int| 0 <= b < width * height && #[trigger] coverage@[b] == 0;
        assert(coverage@[a] != 0 && coverage@[b] == 0);
    }
}

} // verus!
