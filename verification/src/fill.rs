//! Content-aware fill of a selection.
//!
//! The selection is filled one pixel at a time, inward from its boundary. For
//! each pixel the fill tries the source offsets of its neighbors and random
//! donors, refines the best one by a shrinking random search, and copies the
//! donor pixel. Candidates are ranked by the mean squared difference of the
//! patches around the pixel and the donor, over pixels that are known so far.
use crate::pixels::compare_pixels;
use vstd::prelude::*;

verus! {

/// What a fill reads but never changes.
pub struct FillPlan {
    /// Width of the image.
    pub w: int,
    /// Height of the image.
    pub h: int,
    /// Pixels to fill.
    pub target: Seq<bool>,
    /// Pixels that may be copied.
    pub valid: Seq<bool>,
    /// The pixels that may be copied, in raster order.
    pub donors: Seq<usize>,
}

/// What a fill changes from pixel to pixel.
pub struct FillState {
    /// The image.
    pub pixels: Seq<u8>,
    /// Pixels that patches may be compared on.
    pub known: Seq<bool>,
    /// The donor of each pixel that was filled.
    pub chosen: Seq<Option<usize>>,
    /// Pixels that were put into the queue by a neighbor or at the start.
    pub queued: Seq<bool>,
    /// Pixels to fill, in order.
    pub queue: Seq<usize>,
    /// How much of the queue is done.
    pub head: int,
    /// State of the random sequence.
    pub rng: u32,
}

/// The best donor found so far for one pixel, with its patch cost and the
/// state of the random sequence.
pub struct Pick {
    /// The donor, if any was found.
    pub best: Option<usize>,
    /// Squared differences summed over the compared pixels.
    pub sum: int,
    /// How many pixels were compared; with none the cost is infinite.
    pub count: int,
    /// State of the random sequence.
    pub rng: u32,
}

/// Half the side of the compared patches, without their center.
pub open spec fn patch_radius(w: int, h: int) -> int {
    if w >= 5 && h >= 5 {
        2
    } else {
        0
    }
}

/// The next value of the random sequence.
pub open spec fn next_random(x: u32) -> u32 {
    ((x * 1664525 + 1013904223) % 0x1_0000_0000) as u32
}

/// Whether `(x, y)` lies in the image.
pub open spec fn inside(w: int, h: int, x: int, y: int) -> bool {
    0 <= x < w && 0 <= y < h
}

/// Pixels that the image offers: not selected, and opaque.
pub open spec fn usable(pixels: Seq<u8>, mask: Seq<u8>, p: int) -> bool {
    mask[p] == 0 && pixels[4 * p + 3] == 255
}

/// Whether the pixel `(dx, dy)` away from `p` is in the image and known.
pub open spec fn known_at(known: Seq<bool>, w: int, h: int, p: int, dx: int, dy: int) -> bool {
    inside(w, h, p % w + dx, p / w + dy) && known[crate::pixels::cell(w, p % w + dx, p / w + dy)]
}

/// A donor has its whole match patch inside known pixels.
pub open spec fn is_donor(known: Seq<bool>, w: int, h: int, p: int) -> bool {
    let r = patch_radius(w, h);
    forall|dx: int, dy: int| -r <= dx <= r && -r <= dy <= r ==> #[trigger] known_at(known, w, h, p, dx, dy)
}

/// The positions below `k` whose flag is set, in order.
pub open spec fn positions(flags: Seq<bool>, k: int) -> Seq<usize>
    decreases k,
{
    if k <= 0 {
        Seq::empty()
    } else if flags[k - 1] {
        positions(flags, k - 1).push((k - 1) as usize)
    } else {
        positions(flags, k - 1)
    }
}

/// The neighbors of pixel `p`: left, right, above and below.
pub open spec fn neighbor(w: int, h: int, p: int, side: int) -> Option<usize> {
    if side == 0 {
        if p % w > 0 {
            Some((p - 1) as usize)
        } else {
            None
        }
    } else if side == 1 {
        if p % w + 1 < w {
            Some((p + 1) as usize)
        } else {
            None
        }
    } else if side == 2 {
        if p / w > 0 {
            Some((p - w) as usize)
        } else {
            None
        }
    } else {
        if p / w + 1 < h {
            Some((p + w) as usize)
        } else {
            None
        }
    }
}

/// Whether the neighbor of `p` on this side exists and is known.
pub open spec fn touches(known: Seq<bool>, w: int, h: int, p: int, side: int) -> bool {
    match neighbor(w, h, p, side) {
        Some(t) => known[t as int],
        None => false,
    }
}

/// Squared differences, and the number of compared pixels, over the first `k`
/// pixels of the patches around `p` and `q`.
pub open spec fn patch_cost(pixels: Seq<u8>, known: Seq<bool>, w: int, h: int, p: int, q: int, k: int) -> (int, int)
    decreases k,
{
    if k <= 0 {
        (0, 0)
    } else {
        let (sum, count) = patch_cost(pixels, known, w, h, p, q, k - 1);
        let r = patch_radius(w, h);
        let dx = (k - 1) % (2 * r + 1) - r;
        let dy = (k - 1) / (2 * r + 1) - r;
        if known_at(known, w, h, p, dx, dy) && inside(w, h, q % w + dx, q / w + dy) {
            (
                sum + crate::pixels::pixel_cost(
                    pixels,
                    crate::pixels::cell(w, p % w + dx, p / w + dy),
                    crate::pixels::cell(w, q % w + dx, q / w + dy),
                ),
                count + 1,
            )
        } else {
            (sum, count)
        }
    }
}

/// Number of pixels in a patch.
pub open spec fn patch_len(w: int, h: int) -> int {
    (2 * patch_radius(w, h) + 1) * (2 * patch_radius(w, h) + 1)
}

/// Whether the mean of the first cost is below the mean of the second. The
/// mean over no pixels is infinite.
pub open spec fn cheaper(sum: int, count: int, other_sum: int, other_count: int) -> bool {
    count > 0 && (other_count == 0 || sum * other_count < other_sum * count)
}

/// Compares the donor `q` with the best so far, if it is one.
pub open spec fn consider(plan: FillPlan, st: FillState, p: int, pick: Pick, q: int) -> Pick {
    if 0 <= q < plan.w * plan.h && plan.valid[q] {
        let (sum, count) = patch_cost(st.pixels, st.known, plan.w, plan.h, p, q, patch_len(plan.w, plan.h));
        if pick.best is None || cheaper(sum, count, pick.sum, pick.count) {
            Pick { best: Some(q as usize), sum, count, rng: pick.rng }
        } else {
            pick
        }
    } else {
        pick
    }
}

/// The pixel that continues the source offset of the neighbor on this side;
/// -1 if there is no such neighbor.
pub open spec fn propagated(plan: FillPlan, st: FillState, p: int, side: int) -> int {
    match neighbor(plan.w, plan.h, p, side) {
        Some(t) => match st.chosen[t as int] {
            Some(base) => base + p - t,
            None => p,
        },
        None => -1,
    }
}

/// The best of the first `k` candidates for pixel `p`: the offsets of the four
/// neighbors, then random donors.
pub open spec fn candidates(plan: FillPlan, st: FillState, p: int, k: int) -> Pick
    decreases k,
{
    if k <= 0 {
        Pick { best: None, sum: 0, count: 0, rng: st.rng }
    } else {
        let prev = candidates(plan, st, p, k - 1);
        if k <= 4 {
            consider(plan, st, p, prev, propagated(plan, st, p, k - 1))
        } else {
            let rng = next_random(prev.rng);
            consider(
                plan,
                st,
                p,
                Pick { rng, ..prev },
                plan.donors[(rng as int) % (plan.donors.len() as int)] as int,
            )
        }
    }
}

/// Random search around the best donor, with the window halved each time.
pub open spec fn refined(plan: FillPlan, st: FillState, p: int, pick: Pick, r: int) -> Pick
    decreases r,
{
    if r < 1 {
        pick
    } else {
        let a = next_random(pick.rng);
        let b = next_random(a);
        let q = pick.best->0 as int;
        let nx = q % plan.w + (a as int) % (2 * r + 1) - r;
        let ny = q / plan.w + (b as int) % (2 * r + 1) - r;
        let moved = Pick { rng: b, ..pick };
        let next = if inside(plan.w, plan.h, nx, ny) {
            consider(plan, st, p, moved, crate::pixels::cell(plan.w, nx, ny))
        } else {
            moved
        };
        refined(plan, st, p, next, r / 2)
    }
}

/// The donor for pixel `p`, with the random sequence after the search.
pub open spec fn search(plan: FillPlan, st: FillState, p: int) -> Pick {
    refined(plan, st, p, candidates(plan, st, p, 28), 64)
}

/// `pixels` with pixel `p` overwritten by pixel `q`.
pub open spec fn copied(pixels: Seq<u8>, p: int, q: int) -> Seq<u8> {
    Seq::new(
        pixels.len(),
        |b: int|
            if 4 * p <= b < 4 * p + 4 {
                pixels[4 * q + (b - 4 * p)]
            } else {
                pixels[b]
            },
    )
}

/// Whether pixel `p` is still to be filled.
pub open spec fn is_open(target: Seq<bool>, known: Seq<bool>, p: int) -> bool {
    target[p] && !known[p]
}

/// Puts the neighbor of `p` on this side into the queue, if it is still to be
/// filled and was not put there before.
pub open spec fn enqueued(plan: FillPlan, st: FillState, p: int, side: int) -> FillState {
    match neighbor(plan.w, plan.h, p, side) {
        Some(t) => if is_open(plan.target, st.known, t as int) && !st.queued[t as int] {
            FillState { queue: st.queue.push(t), queued: st.queued.update(t as int, true), ..st }
        } else {
            st
        },
        None => st,
    }
}

/// Whether `p` is the first pixel that is still to be filled.
pub open spec fn is_first_open(target: Seq<bool>, known: Seq<bool>, p: int) -> bool {
    &&& 0 <= p < target.len()
    &&& is_open(target, known, p)
    &&& forall|q: int| 0 <= q < p ==> !#[trigger] is_open(target, known, q)
}

/// An empty queue goes on with the first pixel that is still to be filled.
pub open spec fn restarted(plan: FillPlan, st: FillState) -> FillState {
    if st.head < st.queue.len() {
        st
    } else {
        let p = choose|p: int| is_first_open(plan.target, st.known, p);
        FillState { queue: st.queue.push(p as usize), queued: st.queued.update(p, true), ..st }
    }
}

/// Fills pixel `p` and puts its neighbors into the queue.
pub open spec fn filled(plan: FillPlan, st: FillState, p: int) -> FillState {
    let pick = search(plan, st, p);
    let q = pick.best->0;
    let st1 = FillState {
        pixels: copied(st.pixels, p, q as int),
        known: st.known.update(p, true),
        chosen: st.chosen.update(p, Some(q)),
        head: st.head + 1,
        rng: pick.rng,
        ..st
    };
    enqueued(plan, enqueued(plan, enqueued(plan, enqueued(plan, st1, p, 0), p, 1), p, 2), p, 3)
}

/// Fills the next pixel of the queue.
pub open spec fn step(plan: FillPlan, st: FillState) -> FillState {
    let st = restarted(plan, st);
    filled(plan, st, st.queue[st.head] as int)
}

/// The state after `k` pixels.
pub open spec fn run(plan: FillPlan, st: FillState, k: int) -> FillState
    decreases k,
{
    if k <= 0 {
        st
    } else {
        step(plan, run(plan, st, k - 1))
    }
}

/// The plan of a fill.
pub open spec fn plan_of(pixels: Seq<u8>, mask: Seq<u8>, w: int, h: int) -> FillPlan {
    let known = Seq::new((w * h) as nat, |p: int| usable(pixels, mask, p));
    let valid = Seq::new((w * h) as nat, |p: int| is_donor(known, w, h, p));
    FillPlan {
        w,
        h,
        target: Seq::new((w * h) as nat, |p: int| mask[p] != 0),
        valid,
        donors: positions(valid, w * h),
    }
}

/// Pixels that a fill starts from: those to fill that touch a known one.
pub open spec fn boundary(pixels: Seq<u8>, mask: Seq<u8>, w: int, h: int) -> Seq<bool> {
    let known = Seq::new((w * h) as nat, |p: int| usable(pixels, mask, p));
    Seq::new(
        (w * h) as nat,
        |p: int|
            mask[p] != 0 && (touches(known, w, h, p, 0) || touches(known, w, h, p, 1) || touches(known, w, h, p, 2)
                || touches(known, w, h, p, 3)),
    )
}

/// The state that a fill starts from.
pub open spec fn start_of(pixels: Seq<u8>, mask: Seq<u8>, w: int, h: int) -> FillState {
    FillState {
        pixels,
        known: Seq::new((w * h) as nat, |p: int| usable(pixels, mask, p)),
        chosen: Seq::new((w * h) as nat, |p: int| None),
        queued: boundary(pixels, mask, w, h),
        queue: positions(boundary(pixels, mask, w, h), w * h),
        head: 0,
        rng: 0x6d2b79f5,
    }
}

/// How many of the first `k` pixels are still to be filled.
pub open spec fn open_count(target: Seq<bool>, known: Seq<bool>, k: int) -> int
    decreases k,
{
    if k <= 0 {
        0
    } else {
        open_count(target, known, k - 1) + if is_open(target, known, k - 1) {
            1int
        } else {
            0int
        }
    }
}

/// The parts of a plan fit together: donors lie in the image and are not to be
/// filled.
pub open spec fn plan_fits(plan: FillPlan) -> bool {
    let n = plan.w * plan.h;
    &&& 0 < plan.w && 0 < plan.h && 4 * n <= usize::MAX
    &&& plan.target.len() == n && plan.valid.len() == n
    &&& plan.donors.len() > 0
    &&& forall|i: int| 0 <= i < plan.donors.len() ==> (#[trigger] plan.donors[i]) < n && plan.valid[plan.donors[i] as int]
    &&& forall|p: int| 0 <= p < n && #[trigger] plan.valid[p] ==> !plan.target[p]
}

/// The queue lists pixels to fill, each once; those before the head are done
/// and the others are not.
pub open spec fn queue_fits(plan: FillPlan, st: FillState) -> bool {
    let n = plan.w * plan.h;
    &&& st.known.len() == n && st.queued.len() == n
    &&& 0 <= st.head <= st.queue.len()
    &&& forall|i: int|
        0 <= i < st.queue.len() ==> (#[trigger] st.queue[i]) < n && plan.target[st.queue[i] as int]
            && st.queued[st.queue[i] as int] && (st.known[st.queue[i] as int] <==> i < st.head)
    &&& forall|i: int, j: int| 0 <= i < j < st.queue.len() ==> #[trigger] st.queue[i] != #[trigger] st.queue[j]
}

/// Pixels that are not to be filled are those of `orig`, and each filled pixel
/// is a copy of a donor.
pub open spec fn pixels_fit(plan: FillPlan, orig: Seq<u8>, st: FillState) -> bool {
    let n = plan.w * plan.h;
    &&& 4 * n <= orig.len() && st.pixels.len() == orig.len()
    &&& st.known.len() == n && st.chosen.len() == n
    &&& forall|p: int|
        0 <= p < n && (#[trigger] st.chosen[p]) is Some ==> st.chosen[p]->0 < n && plan.valid[st.chosen[p]->0 as int]
    &&& forall|p: int| 0 <= p < n && plan.target[p] && st.known[p] ==> (#[trigger] st.chosen[p]) is Some
    &&& forall|b: int| 0 <= b < orig.len() && (b < 4 * n ==> !plan.target[b / 4]) ==> #[trigger] st.pixels[b] == orig[b]
    &&& forall|b: int|
        0 <= b < 4 * n && plan.target[b / 4] && st.known[b / 4] ==> #[trigger] st.pixels[b] == orig[4 * (st.chosen[b
            / 4]->0) + b % 4]
}

/// What holds of a fill of the image `orig` after any number of pixels.
pub open spec fn in_progress(plan: FillPlan, orig: Seq<u8>, st: FillState) -> bool {
    plan_fits(plan) && queue_fits(plan, st) && pixels_fit(plan, orig, st)
}

proof fn lemma_neighbor(w: int, h: int, p: int, side: int)
    requires
        0 < w,
        0 < h,
        0 <= p < w * h <= usize::MAX,
    ensures
        match neighbor(w, h, p, side) {
            Some(t) => {
                &&& t < w * h
                &&& side == 0 ==> t == p - 1
                &&& side == 1 ==> t == p + 1
                &&& side == 2 ==> t == p - w
                &&& side != 0 && side != 1 && side != 2 ==> t == p + w
            },
            None => true,
        },
{
    crate::pixels::lemma_coords(w, h, p);
    let (x, y) = (p % w, p / w);
    if x > 0 {
        crate::pixels::lemma_cell(w, h, x - 1, y);
    }
    if x + 1 < w {
        crate::pixels::lemma_cell(w, h, x + 1, y);
    }
    if y > 0 {
        crate::pixels::lemma_cell(w, h, x, y - 1);
        assert((y - 1) * w == y * w - w) by (nonlinear_arith);
    }
    if y + 1 < h {
        crate::pixels::lemma_cell(w, h, x, y + 1);
        assert((y + 1) * w == y * w + w) by (nonlinear_arith);
    }
}

/// The listed positions are those of set flags, each once, in order.
proof fn lemma_positions(flags: Seq<bool>, k: int)
    requires
        0 <= k <= flags.len() <= usize::MAX,
    ensures
        forall|i: int| 0 <= i < positions(flags, k).len() ==> (#[trigger] positions(flags, k)[i]) < k && flags[positions(flags, k)[i] as int],
        forall|i: int, j: int|
            0 <= i < j < positions(flags, k).len() ==> #[trigger] positions(flags, k)[i] < #[trigger] positions(flags, k)[j],
        positions(flags, k).len() <= k,
    decreases k,
{
    if k > 0 {
        lemma_positions(flags, k - 1);
    }
}

proof fn lemma_candidates(plan: FillPlan, st: FillState, p: int, k: int)
    requires
        plan_fits(plan),
    ensures
        match candidates(plan, st, p, k).best {
            Some(q) => q < plan.w * plan.h && plan.valid[q as int],
            None => k <= 4,
        },
    decreases k,
{
    if k > 0 {
        lemma_candidates(plan, st, p, k - 1);
        if k > 4 {
            let rng = next_random(candidates(plan, st, p, k - 1).rng);
            let i = (rng as int) % (plan.donors.len() as int);
            assert(0 <= i < plan.donors.len());
            assert(plan.valid[plan.donors[i] as int]);
        }
    }
}

proof fn lemma_refined(plan: FillPlan, st: FillState, p: int, pick: Pick, r: int)
    requires
        plan_fits(plan),
        pick.best is Some,
        pick.best->0 < plan.w * plan.h,
        plan.valid[pick.best->0 as int],
    ensures
        refined(plan, st, p, pick, r).best is Some,
        refined(plan, st, p, pick, r).best->0 < plan.w * plan.h,
        plan.valid[refined(plan, st, p, pick, r).best->0 as int],
    decreases r,
{
    if r >= 1 {
        let a = next_random(pick.rng);
        let b = next_random(a);
        let q = pick.best->0 as int;
        let nx = q % plan.w + (a as int) % (2 * r + 1) - r;
        let ny = q / plan.w + (b as int) % (2 * r + 1) - r;
        let moved = Pick { rng: b, ..pick };
        if inside(plan.w, plan.h, nx, ny) {
            let next = consider(plan, st, p, moved, crate::pixels::cell(plan.w, nx, ny));
            lemma_refined(plan, st, p, next, r / 2);
        } else {
            lemma_refined(plan, st, p, moved, r / 2);
        }
    }
}

/// The search always ends with a donor.
proof fn lemma_search(plan: FillPlan, st: FillState, p: int)
    requires
        plan_fits(plan),
    ensures
        search(plan, st, p).best is Some,
        search(plan, st, p).best->0 < plan.w * plan.h,
        plan.valid[search(plan, st, p).best->0 as int],
{
    lemma_candidates(plan, st, p, 28);
    lemma_refined(plan, st, p, candidates(plan, st, p, 28), 64);
}

/// While pixels remain to be filled there is a first one.
proof fn lemma_first_open(target: Seq<bool>, known: Seq<bool>, k: int) -> (p: int)
    requires
        0 <= k <= target.len(),
        known.len() == target.len(),
        open_count(target, known, k) > 0,
    ensures
        is_first_open(target, known, p),
        p < k,
    decreases k,
{
    if open_count(target, known, k - 1) > 0 {
        lemma_first_open(target, known, k - 1)
    } else {
        lemma_none_open(target, known, k - 1);
        k - 1
    }
}

proof fn lemma_none_open(target: Seq<bool>, known: Seq<bool>, k: int)
    ensures
        0 <= open_count(target, known, k),
        open_count(target, known, k) == 0 ==> forall|q: int| 0 <= q < k ==> !#[trigger] is_open(target, known, q),
    decreases k,
{
    if k > 0 {
        lemma_none_open(target, known, k - 1);
    }
}

/// Filling an open pixel leaves one less to be filled.
proof fn lemma_open_count_step(target: Seq<bool>, known: Seq<bool>, p: int, k: int)
    requires
        0 <= k <= known.len(),
        known.len() == target.len(),
        0 <= p < known.len(),
        is_open(target, known, p),
    ensures
        open_count(target, known.update(p, true), k) == open_count(target, known, k) - if p < k {
            1int
        } else {
            0int
        },
    decreases k,
{
    if k > 0 {
        lemma_open_count_step(target, known, p, k - 1);
    }
}

proof fn lemma_restarted(plan: FillPlan, orig: Seq<u8>, st: FillState)
    requires
        in_progress(plan, orig, st),
        open_count(plan.target, st.known, plan.w * plan.h) > 0,
    ensures
        in_progress(plan, orig, restarted(plan, st)),
        restarted(plan, st).head < restarted(plan, st).queue.len(),
{
    if st.head == st.queue.len() {
        let w = lemma_first_open(plan.target, st.known, plan.w * plan.h);
        let p = choose|p: int| is_first_open(plan.target, st.known, p);
        assert(is_first_open(plan.target, st.known, p));
        let next = restarted(plan, st);
        assert forall|i: int| 0 <= i < next.queue.len() implies (#[trigger] next.queue[i]) < plan.w * plan.h
            && plan.target[next.queue[i] as int] && next.queued[next.queue[i] as int] && (next.known[next.queue[i] as int]
            <==> i < next.head) by {
            if i < st.queue.len() {
                assert(next.queue[i] == st.queue[i]);
            }
        }
        assert forall|i: int, j: int| 0 <= i < j < next.queue.len() implies #[trigger] next.queue[i]
            != #[trigger] next.queue[j] by {
            assert(next.queue[i] == st.queue[i]);
            if j < st.queue.len() {
                assert(next.queue[j] == st.queue[j]);
            } else {
                assert(st.known[st.queue[i] as int]);
            }
        }
    }
}

proof fn lemma_enqueued(plan: FillPlan, orig: Seq<u8>, st: FillState, p: int, side: int)
    requires
        in_progress(plan, orig, st),
        0 <= p < plan.w * plan.h,
    ensures
        in_progress(plan, orig, enqueued(plan, st, p, side)),
        enqueued(plan, st, p, side).known == st.known,
{
    lemma_neighbor(plan.w, plan.h, p, side);
    let next = enqueued(plan, st, p, side);
    assert forall|i: int| 0 <= i < next.queue.len() implies (#[trigger] next.queue[i]) < plan.w * plan.h
        && plan.target[next.queue[i] as int] && next.queued[next.queue[i] as int] && (next.known[next.queue[i] as int]
        <==> i < next.head) by {
        if i < st.queue.len() {
            assert(next.queue[i] == st.queue[i]);
        }
    }
    assert forall|i: int, j: int| 0 <= i < j < next.queue.len() implies #[trigger] next.queue[i]
        != #[trigger] next.queue[j] by {
        assert(next.queue[i] == st.queue[i]);
        if j < st.queue.len() {
            assert(next.queue[j] == st.queue[j]);
        } else {
            assert(st.queued[st.queue[i] as int]);
        }
    }
}

/// Copying a donor onto the pixel at the head of the queue.
proof fn lemma_copied(plan: FillPlan, orig: Seq<u8>, st: FillState, q: usize, st1: FillState)
    requires
        in_progress(plan, orig, st),
        st.head < st.queue.len(),
        q < plan.w * plan.h,
        plan.valid[q as int],
        st1.pixels == copied(st.pixels, st.queue[st.head] as int, q as int),
        st1.known == st.known.update(st.queue[st.head] as int, true),
        st1.chosen == st.chosen.update(st.queue[st.head] as int, Some(q)),
        st1.head == st.head + 1,
        st1.queue == st.queue,
        st1.queued == st.queued,
    ensures
        in_progress(plan, orig, st1),
{
    let n = plan.w * plan.h;
    let p = st.queue[st.head] as int;
    assert(queue_fits(plan, st1)) by {
        assert forall|i: int| 0 <= i < st1.queue.len() implies (#[trigger] st1.queue[i]) < n
            && plan.target[st1.queue[i] as int] && st1.queued[st1.queue[i] as int] && (st1.known[st1.queue[i] as int]
            <==> i < st1.head) by {
            assert(st.queue[i] < n);
            if i < st.head {
                assert(st.queue[i] != st.queue[st.head]);
            } else if i > st.head {
                assert(st.queue[st.head] != st.queue[i]);
            }
        }
    }
    assert forall|b: int| 0 <= b < orig.len() && (b < 4 * n ==> !plan.target[b / 4]) implies #[trigger] st1.pixels[b]
        == orig[b] by {
        assert(st.pixels[b] == orig[b]);
    }
    assert forall|b: int|
        0 <= b < 4 * n && plan.target[b / 4] && st1.known[b / 4] implies #[trigger] st1.pixels[b] == orig[4
        * (st1.chosen[b / 4]->0) + b % 4] by {
        if b / 4 == p {
            let c = 4 * q + b % 4;
            assert(c / 4 == q);
            assert(st.pixels[c] == orig[c]);
        } else {
            assert(st1.pixels[b] == st.pixels[b]);
        }
    }
}

proof fn lemma_filled(plan: FillPlan, orig: Seq<u8>, st: FillState)
    requires
        in_progress(plan, orig, st),
        st.head < st.queue.len(),
    ensures
        in_progress(plan, orig, filled(plan, st, st.queue[st.head] as int)),
        open_count(plan.target, filled(plan, st, st.queue[st.head] as int).known, plan.w * plan.h) == open_count(
            plan.target,
            st.known,
            plan.w * plan.h,
        ) - 1,
{
    let p = st.queue[st.head] as int;
    lemma_search(plan, st, p);
    lemma_open_count_step(plan.target, st.known, p, plan.w * plan.h);
    let pick = search(plan, st, p);
    let q = pick.best->0;
    let st1 = FillState {
        pixels: copied(st.pixels, p, q as int),
        known: st.known.update(p, true),
        chosen: st.chosen.update(p, Some(q)),
        head: st.head + 1,
        rng: pick.rng,
        ..st
    };
    lemma_copied(plan, orig, st, q, st1);
    let st2 = enqueued(plan, st1, p, 0);
    lemma_enqueued(plan, orig, st1, p, 0);
    let st3 = enqueued(plan, st2, p, 1);
    lemma_enqueued(plan, orig, st2, p, 1);
    let st4 = enqueued(plan, st3, p, 2);
    lemma_enqueued(plan, orig, st3, p, 2);
    lemma_enqueued(plan, orig, st4, p, 3);
}

/// Each step fills one pixel.
proof fn lemma_step(plan: FillPlan, orig: Seq<u8>, st: FillState)
    requires
        in_progress(plan, orig, st),
        open_count(plan.target, st.known, plan.w * plan.h) > 0,
    ensures
        in_progress(plan, orig, step(plan, st)),
        open_count(plan.target, step(plan, st).known, plan.w * plan.h) == open_count(
            plan.target,
            st.known,
            plan.w * plan.h,
        ) - 1,
{
    lemma_restarted(plan, orig, st);
    lemma_filled(plan, orig, restarted(plan, st));
}

proof fn lemma_run(plan: FillPlan, orig: Seq<u8>, st: FillState, k: int)
    requires
        in_progress(plan, orig, st),
        0 <= k <= open_count(plan.target, st.known, plan.w * plan.h),
    ensures
        in_progress(plan, orig, run(plan, st, k)),
        open_count(plan.target, run(plan, st, k).known, plan.w * plan.h) == open_count(
            plan.target,
            st.known,
            plan.w * plan.h,
        ) - k,
    decreases k,
{
    if k > 0 {
        lemma_run(plan, orig, st, k - 1);
        lemma_step(plan, orig, run(plan, st, k - 1));
    }
}

proof fn lemma_start(pixels: Seq<u8>, mask: Seq<u8>, w: int, h: int)
    requires
        0 < w,
        0 < h,
        4 * (w * h) <= pixels.len(),
        4 * (w * h) <= usize::MAX,
        plan_of(pixels, mask, w, h).donors.len() > 0,
    ensures
        in_progress(plan_of(pixels, mask, w, h), pixels, start_of(pixels, mask, w, h)),
{
    let plan = plan_of(pixels, mask, w, h);
    let st = start_of(pixels, mask, w, h);
    assert(0 <= w * h) by (nonlinear_arith)
        requires
            0 < w,
            0 < h,
    ;
    lemma_positions(plan.valid, w * h);
    lemma_positions(st.queued, w * h);
    assert forall|p: int| 0 <= p < w * h && #[trigger] plan.valid[p] implies !plan.target[p] by {
        crate::pixels::lemma_coords(w, h, p);
        assert(known_at(st.known, w, h, p, 0, 0));
    }
    assert forall|p: int| 0 <= p < w * h && plan.target[p] && st.known[p] implies (#[trigger] st.chosen[p]) is Some by {
        assert(usable(pixels, mask, p));
    }
    assert forall|b: int|
        0 <= b < 4 * (w * h) && plan.target[b / 4] && st.known[b / 4] implies #[trigger] st.pixels[b] == pixels[4
        * (st.chosen[b / 4]->0) + b % 4] by {
        assert(usable(pixels, mask, b / 4));
    }
}

/// How many pixels of the image are selected.
pub open spec fn selected_count(mask: Seq<u8>, k: int) -> int
    decreases k,
{
    if k <= 0 {
        0
    } else {
        selected_count(mask, k - 1) + if mask[k - 1] != 0 {
            1int
        } else {
            0int
        }
    }
}

proof fn lemma_selected_count(pixels: Seq<u8>, mask: Seq<u8>, w: int, h: int, k: int)
    requires
        0 <= k <= w * h,
    ensures
        selected_count(mask, k) == open_count(
            plan_of(pixels, mask, w, h).target,
            start_of(pixels, mask, w, h).known,
            k,
        ),
        0 <= selected_count(mask, k) <= k,
        selected_count(mask, k) == 0 <==> forall|p: int| 0 <= p < k ==> #[trigger] mask[p] == 0,
    decreases k,
{
    if k > 0 {
        lemma_selected_count(pixels, mask, w, h, k - 1);
    }
}

/// Whether a selection of the image can be filled: nothing is selected, or
/// there is a pixel to copy.
pub open spec fn fillable(pixels: Seq<u8>, mask: Seq<u8>, w: int, h: int) -> bool {
    selected_count(mask, w * h) == 0 || plan_of(pixels, mask, w, h).donors.len() > 0
}

/// The image after filling the selection, or the image itself where that
/// cannot be done.
pub open spec fn content_filled(pixels: Seq<u8>, mask: Seq<u8>, w: int, h: int) -> Seq<u8> {
    if fillable(pixels, mask, w, h) {
        run(plan_of(pixels, mask, w, h), start_of(pixels, mask, w, h), selected_count(mask, w * h)).pixels
    } else {
        pixels
    }
}

/// A fill leaves every pixel that is not selected as it was.
pub proof fn fill_keeps_unselected_pixels(pixels: Seq<u8>, mask: Seq<u8>, w: int, h: int, b: int)
    requires
        0 <= w,
        0 <= h,
        4 * (w * h) <= pixels.len() <= usize::MAX,
        w * h <= mask.len(),
        0 <= b < pixels.len(),
        b < 4 * (w * h) ==> mask[b / 4] == 0,
    ensures
        content_filled(pixels, mask, w, h).len() == pixels.len(),
        content_filled(pixels, mask, w, h)[b] == pixels[b],
{
    lemma_fill_outcome(pixels, mask, w, h);
}

/// After a fill that can be done every selected pixel is a copy of an
/// unselected opaque pixel of the image before the fill, one whose whole patch
/// is made of such pixels.
pub proof fn fill_copies_opaque_pixels(pixels: Seq<u8>, mask: Seq<u8>, w: int, h: int, p: int) -> (q: int)
    requires
        0 <= w,
        0 <= h,
        4 * (w * h) <= pixels.len() <= usize::MAX,
        w * h <= mask.len(),
        0 <= p < w * h,
        mask[p] != 0,
        fillable(pixels, mask, w, h),
    ensures
        0 <= q < w * h,
        mask[q] == 0,
        pixels[4 * q + 3] == 255,
        is_donor(Seq::new((w * h) as nat, |k: int| usable(pixels, mask, k)), w, h, q),
        crate::pixels::pixel(content_filled(pixels, mask, w, h), p) == crate::pixels::pixel(pixels, q),
{
    lemma_fill_outcome(pixels, mask, w, h);
    lemma_selected_count(pixels, mask, w, h, w * h);
    let plan = plan_of(pixels, mask, w, h);
    let start = start_of(pixels, mask, w, h);
    let done = run(plan, start, selected_count(mask, w * h));
    lemma_none_open(plan.target, done.known, w * h);
    assert(!is_open(plan.target, done.known, p));
    let q = done.chosen[p]->0 as int;
    assert(plan.valid[q]);
    crate::pixels::lemma_coords(w, h, q);
    assert(known_at(start.known, w, h, q, 0, 0));
    assert forall|c: int| 0 <= c < 4 implies done.pixels[#[trigger] (4 * p + c)] == pixels[4 * q + c] by {
        assert((4 * p + c) / 4 == p && (4 * p + c) % 4 == c);
    }
    let a = crate::pixels::pixel(done.pixels, p);
    let b = crate::pixels::pixel(pixels, q);
    assert forall|c: int| 0 <= c < 4 implies a[c] == b[c] by {
        assert(done.pixels[4 * p + c] == pixels[4 * q + c]);
    }
    assert(a =~= b);
    q
}

/// A finished fill has nothing left to do.
proof fn lemma_fill_outcome(pixels: Seq<u8>, mask: Seq<u8>, w: int, h: int)
    requires
        0 <= w,
        0 <= h,
        4 * (w * h) <= pixels.len() <= usize::MAX,
        w * h <= mask.len(),
    ensures
        fillable(pixels, mask, w, h) && selected_count(mask, w * h) > 0 ==> {
            let plan = plan_of(pixels, mask, w, h);
            let done = run(plan, start_of(pixels, mask, w, h), selected_count(mask, w * h));
            in_progress(plan, pixels, done) && open_count(plan.target, done.known, w * h) == 0
        },
{
    assert(0 <= w * h) by (nonlinear_arith)
        requires
            0 <= w,
            0 <= h,
    ;
    lemma_selected_count(pixels, mask, w, h, w * h);
    if fillable(pixels, mask, w, h) && selected_count(mask, w * h) > 0 {
        assert(0 < w && 0 < h) by (nonlinear_arith)
            requires
                0 < w * h,
                0 <= w,
                0 <= h,
        ;
        lemma_start(pixels, mask, w, h);
        lemma_run(plan_of(pixels, mask, w, h), pixels, start_of(pixels, mask, w, h), selected_count(mask, w * h));
    }
}

/// Whether two states differ at most in pixels that are not known yet. Patches
/// of donors are known.
spec fn agree(plan: FillPlan, a: FillState, b: FillState) -> bool {
    let n = plan.w * plan.h;
    &&& a.known == b.known && a.chosen == b.chosen && a.queued == b.queued
    &&& a.queue == b.queue && a.head == b.head && a.rng == b.rng
    &&& a.known.len() == n && 4 * n <= a.pixels.len() && 4 * n <= b.pixels.len()
    &&& forall|i: int| 0 <= i < 4 * n && a.known[i / 4] ==> #[trigger] a.pixels[i] == b.pixels[i]
    &&& forall|q: int| 0 <= q < n && plan.valid[q] ==> #[trigger] is_donor(a.known, plan.w, plan.h, q)
}

/// The patch cost of a donor depends on known pixels only.
proof fn lemma_cost_agrees(plan: FillPlan, a: FillState, b: FillState, p: int, q: int, k: int)
    requires
        plan_fits(plan),
        agree(plan, a, b),
        0 <= p < plan.w * plan.h,
        0 <= q < plan.w * plan.h,
        plan.valid[q],
        k <= patch_len(plan.w, plan.h),
    ensures
        patch_cost(a.pixels, a.known, plan.w, plan.h, p, q, k) == patch_cost(b.pixels, b.known, plan.w, plan.h, p, q, k),
    decreases k,
{
    if k > 0 {
        lemma_cost_agrees(plan, a, b, p, q, k - 1);
        let (w, h) = (plan.w, plan.h);
        let r = patch_radius(w, h);
        let dx = (k - 1) % (2 * r + 1) - r;
        let dy = (k - 1) / (2 * r + 1) - r;
        if known_at(a.known, w, h, p, dx, dy) && inside(w, h, q % w + dx, q / w + dy) {
            let d = 2 * r + 1;
            assert(0 <= (k - 1) / d < d && 0 <= (k - 1) % d < d) by (nonlinear_arith)
                requires
                    1 <= k <= d * d,
                    1 <= d,
            ;
            assert(is_donor(a.known, w, h, q));
            assert(known_at(a.known, w, h, q, dx, dy));
            crate::pixels::lemma_cell(w, h, p % w + dx, p / w + dy);
            crate::pixels::lemma_cell(w, h, q % w + dx, q / w + dy);
            let s = crate::pixels::cell(w, p % w + dx, p / w + dy);
            let t = crate::pixels::cell(w, q % w + dx, q / w + dy);
            lemma_pixel_agrees(plan, a, b, s);
            lemma_pixel_agrees(plan, a, b, t);
        }
    }
}

/// A known pixel is the same in both states.
proof fn lemma_pixel_agrees(plan: FillPlan, a: FillState, b: FillState, p: int)
    requires
        agree(plan, a, b),
        0 <= p < plan.w * plan.h,
        a.known[p],
    ensures
        a.pixels[4 * p] == b.pixels[4 * p],
        a.pixels[4 * p + 1] == b.pixels[4 * p + 1],
        a.pixels[4 * p + 2] == b.pixels[4 * p + 2],
        a.pixels[4 * p + 3] == b.pixels[4 * p + 3],
{
    assert((4 * p) / 4 == p && (4 * p + 1) / 4 == p && (4 * p + 2) / 4 == p && (4 * p + 3) / 4 == p);
}

proof fn lemma_consider_agrees(plan: FillPlan, a: FillState, b: FillState, p: int, pick: Pick, q: int)
    requires
        plan_fits(plan),
        agree(plan, a, b),
        0 <= p < plan.w * plan.h,
    ensures
        consider(plan, a, p, pick, q) == consider(plan, b, p, pick, q),
{
    if 0 <= q < plan.w * plan.h && plan.valid[q] {
        lemma_cost_agrees(plan, a, b, p, q, patch_len(plan.w, plan.h));
    }
}

proof fn lemma_candidates_agree(plan: FillPlan, a: FillState, b: FillState, p: int, k: int)
    requires
        plan_fits(plan),
        agree(plan, a, b),
        0 <= p < plan.w * plan.h,
    ensures
        candidates(plan, a, p, k) == candidates(plan, b, p, k),
    decreases k,
{
    if k > 0 {
        lemma_candidates_agree(plan, a, b, p, k - 1);
        let prev = candidates(plan, a, p, k - 1);
        if k <= 4 {
            lemma_consider_agrees(plan, a, b, p, prev, propagated(plan, a, p, k - 1));
        } else {
            let rng = next_random(prev.rng);
            lemma_consider_agrees(
                plan,
                a,
                b,
                p,
                Pick { rng, ..prev },
                plan.donors[(rng as int) % (plan.donors.len() as int)] as int,
            );
        }
    }
}

proof fn lemma_refined_agrees(plan: FillPlan, a: FillState, b: FillState, p: int, pick: Pick, r: int)
    requires
        plan_fits(plan),
        agree(plan, a, b),
        0 <= p < plan.w * plan.h,
    ensures
        refined(plan, a, p, pick, r) == refined(plan, b, p, pick, r),
    decreases r,
{
    if r >= 1 {
        let x = next_random(pick.rng);
        let y = next_random(x);
        let q = pick.best->0 as int;
        let nx = q % plan.w + (x as int) % (2 * r + 1) - r;
        let ny = q / plan.w + (y as int) % (2 * r + 1) - r;
        let moved = Pick { rng: y, ..pick };
        lemma_consider_agrees(plan, a, b, p, moved, crate::pixels::cell(plan.w, nx, ny));
        let next = if inside(plan.w, plan.h, nx, ny) {
            consider(plan, a, p, moved, crate::pixels::cell(plan.w, nx, ny))
        } else {
            moved
        };
        lemma_refined_agrees(plan, a, b, p, next, r / 2);
    }
}

/// Copying the same donor keeps states in agreement.
proof fn lemma_copy_agrees(plan: FillPlan, a: FillState, b: FillState, p: int, q: usize, rng: u32)
    requires
        plan_fits(plan),
        agree(plan, a, b),
        0 <= p < plan.w * plan.h,
        q < plan.w * plan.h,
        plan.valid[q as int],
    ensures
        agree(
            plan,
            FillState {
                pixels: copied(a.pixels, p, q as int),
                known: a.known.update(p, true),
                chosen: a.chosen.update(p, Some(q)),
                head: a.head + 1,
                rng,
                ..a
            },
            FillState {
                pixels: copied(b.pixels, p, q as int),
                known: b.known.update(p, true),
                chosen: b.chosen.update(p, Some(q)),
                head: b.head + 1,
                rng,
                ..b
            },
        ),
{
    let (w, h) = (plan.w, plan.h);
    let known = a.known.update(p, true);
    assert(is_donor(a.known, w, h, q as int));
    assert(known_at(a.known, w, h, q as int, 0, 0));
    crate::pixels::lemma_coords(w, h, q as int);
    lemma_pixel_agrees(plan, a, b, q as int);
    assert forall|i: int| 0 <= i < 4 * (w * h) && known[i / 4] implies #[trigger] copied(a.pixels, p, q as int)[i]
        == copied(b.pixels, p, q as int)[i] by {
        if i / 4 == p {
            let c = i - 4 * p;
            assert(c == 0 || c == 1 || c == 2 || c == 3);
        } else {
            assert(a.pixels[i] == b.pixels[i]);
        }
    }
    assert forall|d: int| 0 <= d < w * h && plan.valid[d] implies #[trigger] is_donor(known, w, h, d) by {
        assert(is_donor(a.known, w, h, d));
        let r = patch_radius(w, h);
        assert forall|dx: int, dy: int| -r <= dx <= r && -r <= dy <= r implies #[trigger] known_at(known, w, h, d, dx, dy) by {
            assert(known_at(a.known, w, h, d, dx, dy));
            crate::pixels::lemma_cell(w, h, d % w + dx, d / w + dy);
        }
    }
}

/// A step keeps states in agreement.
proof fn lemma_step_agrees(plan: FillPlan, orig: Seq<u8>, a: FillState, b: FillState)
    requires
        in_progress(plan, orig, a),
        open_count(plan.target, a.known, plan.w * plan.h) > 0,
        agree(plan, a, b),
    ensures
        agree(plan, step(plan, a), step(plan, b)),
{
    lemma_restarted(plan, orig, a);
    let (x, y) = (restarted(plan, a), restarted(plan, b));
    assert(agree(plan, x, y));
    let p = x.queue[x.head] as int;
    lemma_search(plan, x, p);
    lemma_candidates_agree(plan, x, y, p, 28);
    lemma_refined_agrees(plan, x, y, p, candidates(plan, x, p, 28), 64);
    let pick = search(plan, x, p);
    lemma_copy_agrees(plan, x, y, p, pick.best->0, pick.rng);
}

proof fn lemma_run_agrees(plan: FillPlan, orig: Seq<u8>, a: FillState, b: FillState, k: int)
    requires
        in_progress(plan, orig, a),
        0 <= k <= open_count(plan.target, a.known, plan.w * plan.h),
        agree(plan, a, b),
    ensures
        agree(plan, run(plan, a, k), run(plan, b, k)),
    decreases k,
{
    if k > 0 {
        lemma_run_agrees(plan, orig, a, b, k - 1);
        lemma_run(plan, orig, a, k - 1);
        lemma_step_agrees(plan, orig, run(plan, a, k - 1), run(plan, b, k - 1));
    }
}

/// A fill depends on the selection and on the pixels that are not selected and
/// opaque, and on nothing else: neither what the selected pixels held before nor
/// what transparent pixels hold shows in it.
pub proof fn fill_depends_on_usable_pixels_only(
    a: Seq<u8>,
    mask_a: Seq<u8>,
    b: Seq<u8>,
    mask_b: Seq<u8>,
    w: int,
    h: int,
)
    requires
        0 <= w,
        0 <= h,
        4 * (w * h) <= a.len() <= usize::MAX,
        4 * (w * h) <= b.len() <= usize::MAX,
        w * h <= mask_a.len(),
        w * h <= mask_b.len(),
        forall|p: int| 0 <= p < w * h ==> (#[trigger] mask_a[p] == 0 <==> mask_b[p] == 0),
        forall|p: int| 0 <= p < w * h ==> (#[trigger] usable(a, mask_a, p) <==> usable(b, mask_b, p)),
        forall|i: int| 0 <= i < 4 * (w * h) && usable(a, mask_a, i / 4) ==> #[trigger] a[i] == b[i],
    ensures
        fillable(a, mask_a, w, h) == fillable(b, mask_b, w, h),
        fillable(a, mask_a, w, h) ==> forall|i: int|
            0 <= i < 4 * (w * h) && mask_a[i / 4] != 0 ==> #[trigger] content_filled(a, mask_a, w, h)[i]
                == content_filled(b, mask_b, w, h)[i],
{
    assert(0 <= w * h) by (nonlinear_arith)
        requires
            0 <= w,
            0 <= h,
    ;
    let plan = plan_of(a, mask_a, w, h);
    let other = plan_of(b, mask_b, w, h);
    let (x, y) = (start_of(a, mask_a, w, h), start_of(b, mask_b, w, h));
    assert(x.known =~= y.known);
    assert(plan.target =~= other.target);
    assert(plan.valid =~= other.valid);
    assert(plan == other);
    assert(x.queued =~= y.queued);
    lemma_selected_count(a, mask_a, w, h, w * h);
    lemma_selected_count(b, mask_b, w, h, w * h);
    let k = selected_count(mask_a, w * h);
    if k > 0 && fillable(a, mask_a, w, h) {
        assert(0 < w && 0 < h) by (nonlinear_arith)
            requires
                0 < w * h,
                0 <= w,
                0 <= h,
        ;
        lemma_start(a, mask_a, w, h);
        assert(agree(plan, x, y));
        lemma_run_agrees(plan, a, x, y, k);
        lemma_fill_outcome(a, mask_a, w, h);
        let done = run(plan, x, k);
        lemma_none_open(plan.target, done.known, w * h);
        assert forall|i: int| 0 <= i < 4 * (w * h) && mask_a[i / 4] != 0 implies #[trigger] content_filled(
            a,
            mask_a,
            w,
            h,
        )[i] == content_filled(b, mask_b, w, h)[i] by {
            assert(!is_open(plan.target, done.known, i / 4));
            assert(done.pixels[i] == run(plan, y, k).pixels[i]);
        }
    }
}

/// A linear congruential sequence.
pub struct Rng(pub u32);

impl Rng {
    /// Moves on to the next value of the sequence and returns it.
    pub fn next(&mut self) -> (r: u32)
        ensures
            r == next_random(old(self).0),
            final(self).0 == r,
    {
        self.0 = self.0.wrapping_mul(1664525).wrapping_add(1013904223);
        self.0
    }
}

/// `v + k - r`, if that lies between 0 and `limit - 1`.
fn shifted(v: usize, k: usize, r: usize, limit: usize) -> (t: Option<usize>)
    requires
        v < limit,
    ensures
        match t {
            Some(t) => t == v + k - r && t < limit,
            None => v + k - r < 0 || v + k - r >= limit,
        },
{
    if k >= r {
        if k - r < limit - v {
            Some(v + (k - r))
        } else {
            None
        }
    } else if r - k <= v {
        Some(v - (r - k))
    } else {
        None
    }
}

/// Sum of squared differences over the patches around `p` and `q`, and the
/// number of compared pixels: those of the image that are known around `p`.
fn patch_match(pixels: &[u8], known: &[bool], w: usize, h: usize, p: usize, q: usize) -> (r: (u64, u64))
    requires
        4 * (w * h) <= pixels.len(),
        known.len() == w * h,
        p < w * h,
        q < w * h,
    ensures
        (r.0 as int, r.1 as int) == patch_cost(
            pixels@,
            known@,
            w as int,
            h as int,
            p as int,
            q as int,
            patch_len(w as int, h as int),
        ),
        r.0 <= 25 * 260100,
        r.1 <= 25,
{
    proof {
        crate::pixels::lemma_coords(w as int, h as int, p as int);
        crate::pixels::lemma_coords(w as int, h as int, q as int);
    }
    let radius: usize = if w >= 5 && h >= 5 {
        2
    } else {
        0
    };
    let side: usize = 2 * radius + 1;
    assert(side * side == patch_len(w as int, h as int) && side * side <= 25) by {
        assert(5 * 5 == 25);
        assert(1 * 1 == 1);
    }
    let mut sum: u64 = 0;
    let mut count: u64 = 0;
    let mut k: usize = 0;
    while k < side * side
        invariant
            k <= side * side <= 25,
            radius == patch_radius(w as int, h as int),
            side == 2 * radius + 1,
            0 < side,
            0 < w,
            0 < h,
            4 * (w * h) <= pixels.len(),
            known.len() == w * h,
            p < w * h,
            q < w * h,
            0 <= p % w < w,
            0 <= p / w < h,
            0 <= q % w < w,
            0 <= q / w < h,
            (sum as int, count as int) == patch_cost(pixels@, known@, w as int, h as int, p as int, q as int, k as int),
            sum <= k * 260100,
            count <= k,
        decreases side * side - k,
    {
        let x: Option<usize> = shifted(p % w, k % side, radius, w);
        let y: Option<usize> = shifted(p / w, k / side, radius, h);
        let sx: Option<usize> = shifted(q % w, k % side, radius, w);
        let sy: Option<usize> = shifted(q / w, k / side, radius, h);
        match (x, y, sx, sy) {
            (Some(x), Some(y), Some(sx), Some(sy)) => {
                proof {
                    crate::pixels::lemma_cell(w as int, h as int, x as int, y as int);
                    crate::pixels::lemma_cell(w as int, h as int, sx as int, sy as int);
                }
                if known[y * w + x] {
                    sum = sum + compare_pixels(pixels, y * w + x, sy * w + sx);
                    count = count + 1;
                }
            },
            _ => {},
        }
        k = k + 1;
    }
    (sum, count)
}

/// Whether the mean of the first cost is below the mean of the second.
fn is_cheaper(sum: u64, count: u64, other_sum: u64, other_count: u64) -> (r: bool)
    requires
        sum <= 25 * 260100,
        other_sum <= 25 * 260100,
        count <= 25,
        other_count <= 25,
    ensures
        r == cheaper(sum as int, count as int, other_sum as int, other_count as int),
{
    assert(sum * other_count <= 25 * 260100 * 25 && other_sum * count <= 25 * 260100 * 25) by (nonlinear_arith)
        requires
            sum <= 25 * 260100,
            other_sum <= 25 * 260100,
            count <= 25,
            other_count <= 25,
    ;
    count > 0 && (other_count == 0 || sum * other_count < other_sum * count)
}

/// The neighbor of `p` on this side: left, right, above or below.
fn neighbor_of(w: usize, h: usize, p: usize, side: usize) -> (r: Option<usize>)
    requires
        0 < w,
        0 < h,
        p < w * h <= usize::MAX,
    ensures
        r == neighbor(w as int, h as int, p as int, side as int),
        r is Some ==> r->0 < w * h,
{
    proof {
        lemma_neighbor(w as int, h as int, p as int, side as int);
        crate::pixels::lemma_coords(w as int, h as int, p as int);
        if p / w > 0 {
            crate::pixels::lemma_cell(w as int, h as int, p as int % w as int, p as int / w as int - 1);
        }
    }
    let x: usize = p % w;
    let y: usize = p / w;
    if side == 0 {
        if x > 0 {
            Some(p - 1)
        } else {
            None
        }
    } else if side == 1 {
        if x + 1 < w {
            Some(p + 1)
        } else {
            None
        }
    } else if side == 2 {
        if y > 0 {
            Some(p - w)
        } else {
            None
        }
    } else if y + 1 < h {
        Some(p + w)
    } else {
        None
    }
}

/// The plan of a fill at run time.
struct Plan {
    w: usize,
    h: usize,
    target: Vec<bool>,
    valid: Vec<bool>,
    donors: Vec<usize>,
}

impl View for Plan {
    type V = FillPlan;

    closed spec fn view(&self) -> FillPlan {
        FillPlan {
            w: self.w as int,
            h: self.h as int,
            target: self.target@,
            valid: self.valid@,
            donors: self.donors@,
        }
    }
}

/// The state of a fill at run time, apart from the image.
struct Work {
    known: Vec<bool>,
    chosen: Vec<Option<usize>>,
    queued: Vec<bool>,
    queue: Vec<usize>,
    head: usize,
    rng: Rng,
}

impl Work {
    /// The state with the image `pixels`.
    spec fn on(&self, pixels: Seq<u8>) -> FillState {
        FillState {
            pixels,
            known: self.known@,
            chosen: self.chosen@,
            queued: self.queued@,
            queue: self.queue@,
            head: self.head as int,
            rng: self.rng.0,
        }
    }
}

/// The best donor found so far, with its patch cost.
struct Found {
    best: Option<usize>,
    sum: u64,
    count: u64,
}

impl Found {
    /// The same with the random sequence at `rng`.
    spec fn with(&self, rng: u32) -> Pick {
        Pick { best: self.best, sum: self.sum as int, count: self.count as int, rng }
    }

    /// Patch costs stay within a patch.
    spec fn bounded(&self) -> bool {
        self.sum <= 25 * 260100 && self.count <= 25
    }
}

/// What the search for a donor needs of the state.
spec fn searchable(plan: FillPlan, st: FillState) -> bool {
    let n = plan.w * plan.h;
    &&& plan_fits(plan)
    &&& 4 * n <= st.pixels.len()
    &&& st.known.len() == n && st.chosen.len() == n
    &&& forall|p: int| 0 <= p < n && (#[trigger] st.chosen[p]) is Some ==> st.chosen[p]->0 < n
}

/// Compares the donor `q` with the best so far, if it is one.
fn try_donor(plan: &Plan, work: &Work, pixels: &[u8], p: usize, found: Found, q: usize) -> (r: Found)
    requires
        searchable(plan@, work.on(pixels@)),
        4 * (plan.w * plan.h) <= pixels.len(),
        p < plan.w * plan.h,
        found.bounded(),
    ensures
        r.bounded(),
        forall|rng: u32| r.with(rng) == consider(plan@, work.on(pixels@), p as int, #[trigger] found.with(rng), q as int),
{
    if q < plan.valid.len() && plan.valid[q] {
        let (sum, count) = patch_match(pixels, work.known.as_slice(), plan.w, plan.h, p, q);
        if found.best.is_none() || is_cheaper(sum, count, found.sum, found.count) {
            return Found { best: Some(q), sum, count };
        }
    }
    found
}

/// The best of the candidates for pixel `p`: the offsets of the four
/// neighbors, then random donors.
fn first_pick(plan: &Plan, work: &mut Work, pixels: &[u8], p: usize) -> (r: Found)
    requires
        searchable(plan@, old(work).on(pixels@)),
        4 * (plan.w * plan.h) <= pixels.len(),
        p < plan.w * plan.h,
    ensures
        r.bounded(),
        r.with(final(work).rng.0) == candidates(plan@, old(work).on(pixels@), p as int, 28),
        final(work).on(pixels@) == (FillState { rng: final(work).rng.0, ..old(work).on(pixels@) }),
{
    let mut found: Found = Found { best: None, sum: 0, count: 0 };
    let ghost st = work.on(pixels@);
    let mut k: usize = 0;
    while k < 28
        invariant
            k <= 28,
            searchable(plan@, st),
            4 * (plan.w * plan.h) <= pixels.len(),
            p < plan.w * plan.h,
            found.bounded(),
            found.with(work.rng.0) == candidates(plan@, st, p as int, k as int),
            work.on(pixels@) == (FillState { rng: work.rng.0, ..st }),
            st.pixels == pixels@,
        decreases 28 - k,
    {
        let ghost before = candidates(plan@, st, p as int, k as int);
        if k < 4 {
            match neighbor_of(plan.w, plan.h, p, k) {
                Some(t) => {
                    proof {
                        lemma_neighbor(plan.w as int, plan.h as int, p as int, k as int);
                    }
                    let q: Option<usize> = match work.chosen[t] {
                        Some(base) => shifted(base, p, t, plan.valid.len()),
                        None => Some(p),
                    };
                    if let Some(q) = q {
                        let ghost g = found.with(work.rng.0);
                        found = try_donor(plan, work, pixels, p, found, q);
                        proof {
                            lemma_consider_rng(plan@, st, work.on(pixels@), p as int, g, q as int);
                        }
                    }
                },
                None => {},
            }
        } else {
            let rng: u32 = work.rng.next();
            let i: usize = (rng as usize) % plan.donors.len();
            let q: usize = plan.donors[i];
            let ghost g = found.with(work.rng.0);
            found = try_donor(plan, work, pixels, p, found, q);
            proof {
                lemma_consider_rng(plan@, st, work.on(pixels@), p as int, g, q as int);
            }
        }
        k = k + 1;
    }
    found
}

/// What the comparison of a donor reads of the state.
proof fn lemma_consider_rng(plan: FillPlan, st: FillState, other: FillState, p: int, pick: Pick, q: int)
    requires
        st.pixels == other.pixels,
        st.known == other.known,
    ensures
        consider(plan, st, p, pick, q) == consider(plan, other, p, pick, q),
{
}

/// The donor for pixel `p`.
fn find_donor(plan: &Plan, work: &mut Work, pixels: &[u8], p: usize) -> (r: usize)
    requires
        searchable(plan@, old(work).on(pixels@)),
        4 * (plan.w * plan.h) <= pixels.len(),
        p < plan.w * plan.h,
    ensures
        search(plan@, old(work).on(pixels@), p as int).best == Some(r),
        r < plan.w * plan.h,
        final(work).on(pixels@) == (FillState {
            rng: search(plan@, old(work).on(pixels@), p as int).rng,
            ..old(work).on(pixels@)
        }),
{
    let ghost st = work.on(pixels@);
    proof {
        lemma_candidates(plan@, st, p as int, 28);
    }
    let mut found: Found = first_pick(plan, work, pixels, p);
    let mut r: usize = 64;
    while r >= 1
        invariant
            r <= 64,
            searchable(plan@, st),
            4 * (plan.w * plan.h) <= pixels.len(),
            p < plan.w * plan.h,
            found.bounded(),
            found.best is Some,
            found.best->0 < plan.w * plan.h,
            plan@.valid[found.best->0 as int],
            refined(plan@, st, p as int, found.with(work.rng.0), r as int) == search(plan@, st, p as int),
            work.on(pixels@) == (FillState { rng: work.rng.0, ..st }),
            st.pixels == pixels@,
        decreases r,
    {
        let best: usize = match found.best {
            Some(q) => q,
            None => 0,
        };
        proof {
            crate::pixels::lemma_coords(plan.w as int, plan.h as int, best as int);
        }
        let a: u32 = work.rng.next();
        let b: u32 = work.rng.next();
        let side: u32 = 2 * r as u32 + 1;
        let nx: Option<usize> = shifted(best % plan.w, (a % side) as usize, r, plan.w);
        let ny: Option<usize> = shifted(best / plan.w, (b % side) as usize, r, plan.h);
        if let (Some(nx), Some(ny)) = (nx, ny) {
            proof {
                crate::pixels::lemma_cell(plan.w as int, plan.h as int, nx as int, ny as int);
            }
            let q: usize = ny * plan.w + nx;
            let ghost g = found.with(work.rng.0);
            found = try_donor(plan, work, pixels, p, found, q);
            proof {
                lemma_consider_rng(plan@, st, work.on(pixels@), p as int, g, q as int);
            }
        }
        r = r / 2;
    }
    match found.best {
        Some(q) => q,
        None => 0,
    }
}

/// Puts the neighbor of `p` on this side into the queue, if it is still to be
/// filled and was not put there before.
fn enqueue(plan: &Plan, work: &mut Work, p: usize, side: usize, Ghost(pixels): Ghost<Seq<u8>>)
    requires
        plan_fits(plan@),
        old(work).known@.len() == plan@.target.len(),
        old(work).queued@.len() == plan@.target.len(),
        p < plan.w * plan.h,
    ensures
        final(work).on(pixels) == enqueued(plan@, old(work).on(pixels), p as int, side as int),
        final(work).known@.len() == plan@.target.len(),
        final(work).queued@.len() == plan@.target.len(),
{
    if let Some(t) = neighbor_of(plan.w, plan.h, p, side) {
        if plan.target[t] && !work.known[t] && !work.queued[t] {
            work.queued[t] = true;
            work.queue.push(t);
        }
    }
}

/// Overwrites pixel `p` by pixel `q`.
fn copy_pixel(pixels: &mut [u8], p: usize, q: usize)
    requires
        4 * p + 4 <= old(pixels).len(),
        4 * q + 4 <= old(pixels).len(),
        p != q,
    ensures
        final(pixels)@ == copied(old(pixels)@, p as int, q as int),
{
    let ghost src = pixels@;
    let mut c: usize = 0;
    while c < 4
        invariant
            c <= 4,
            4 * p + 4 <= pixels.len(),
            4 * q + 4 <= pixels.len(),
            pixels@.len() == src.len(),
            p != q,
            forall|b: int|
                0 <= b < src.len() ==> #[trigger] pixels@[b] == (if 4 * p <= b < 4 * p + c {
                    src[4 * q + (b - 4 * p)]
                } else {
                    src[b]
                }),
        decreases 4 - c,
    {
        pixels[4 * p + c] = pixels[4 * q + c];
        c = c + 1;
    }
}

/// Fills the next pixel of the queue.
fn fill_next(plan: &Plan, work: &mut Work, pixels: &mut [u8], Ghost(orig): Ghost<Seq<u8>>)
    requires
        in_progress(plan@, orig, old(work).on(old(pixels)@)),
        old(work).head < old(work).queue.len(),
        4 * (plan.w * plan.h) <= old(pixels).len(),
    ensures
        final(work).on(final(pixels)@) == filled(
            plan@,
            old(work).on(old(pixels)@),
            old(work).queue@[old(work).head as int] as int,
        ),
        final(pixels)@.len() == old(pixels)@.len(),
{
    let ghost st = work.on(pixels@);
    let p: usize = work.queue[work.head];
    proof {
        lemma_search(plan@, st, p as int);
    }
    let q: usize = find_donor(plan, work, pixels, p);
    copy_pixel(pixels, p, q);
    work.known[p] = true;
    work.chosen[p] = Some(q);
    work.head = work.head + 1;
    let ghost img = pixels@;
    let ghost pick = search(plan@, st, p as int);
    let ghost st1 = FillState {
        pixels: copied(st.pixels, p as int, q as int),
        known: st.known.update(p as int, true),
        chosen: st.chosen.update(p as int, Some(q)),
        head: st.head + 1,
        rng: pick.rng,
        ..st
    };
    assert(work.on(img) == st1);
    enqueue(plan, work, p, 0, Ghost(img));
    enqueue(plan, work, p, 1, Ghost(img));
    enqueue(plan, work, p, 2, Ghost(img));
    enqueue(plan, work, p, 3, Ghost(img));
    assert(work.on(img) == filled(plan@, st, p as int));
}

/// Whether `p` has its whole match patch inside known pixels.
fn donor_at(known: &[bool], w: usize, h: usize, p: usize) -> (r: bool)
    requires
        known.len() == w * h,
        p < w * h,
    ensures
        r == is_donor(known@, w as int, h as int, p as int),
{
    proof {
        crate::pixels::lemma_coords(w as int, h as int, p as int);
    }
    let ghost radius_of = patch_radius(w as int, h as int);
    let radius: usize = if w >= 5 && h >= 5 {
        2
    } else {
        0
    };
    let side: usize = 2 * radius + 1;
    let mut j: usize = 0;
    while j < side
        invariant
            j <= side,
            side == 2 * radius + 1,
            radius <= 2,
            radius == radius_of,
            radius_of == patch_radius(w as int, h as int),
            known.len() == w * h,
            0 < w,
            0 < h,
            0 <= p % w < w,
            0 <= p / w < h,
            forall|dx: int, dy: int|
                -radius_of <= dx <= radius_of && -radius_of <= dy < j - radius_of ==> #[trigger] known_at(
                    known@,
                    w as int,
                    h as int,
                    p as int,
                    dx,
                    dy,
                ),
        decreases side - j,
    {
        let mut i: usize = 0;
        while i < side
            invariant
                i <= side,
                j < side,
                side == 2 * radius + 1,
                radius <= 2,
                radius == radius_of,
                radius_of == patch_radius(w as int, h as int),
                known.len() == w * h,
                0 < w,
                0 < h,
                0 <= p % w < w,
                0 <= p / w < h,
                forall|dx: int, dy: int|
                    -radius_of <= dx <= radius_of && -radius_of <= dy <= radius_of && (dy < j - radius_of || (dy == j
                        - radius_of && dx < i - radius_of)) ==> #[trigger] known_at(
                        known@,
                        w as int,
                        h as int,
                        p as int,
                        dx,
                        dy,
                    ),
            decreases side - i,
        {
            let x: Option<usize> = shifted(p % w, i, radius, w);
            let y: Option<usize> = shifted(p / w, j, radius, h);
            let hit: bool = match (x, y) {
                (Some(x), Some(y)) => {
                    proof {
                        crate::pixels::lemma_cell(w as int, h as int, x as int, y as int);
                    }
                    known[y * w + x]
                },
                _ => false,
            };
            assert(hit == known_at(known@, w as int, h as int, p as int, i - radius_of, j - radius_of));
            if !hit {
                return false;
            }
            i = i + 1;
        }
        j = j + 1;
    }
    true
}

/// Whether one of the neighbors of `p` is known.
fn touches_known(known: &[bool], w: usize, h: usize, p: usize) -> (r: bool)
    requires
        known.len() == w * h,
        p < w * h,
    ensures
        r == (touches(known@, w as int, h as int, p as int, 0) || touches(known@, w as int, h as int, p as int, 1)
            || touches(known@, w as int, h as int, p as int, 2) || touches(known@, w as int, h as int, p as int, 3)),
{
    proof {
        crate::pixels::lemma_coords(w as int, h as int, p as int);
    }
    let mut side: usize = 0;
    while side < 4
        invariant
            side <= 4,
            known.len() == w * h,
            p < w * h,
            0 < w,
            0 < h,
            forall|k: int| 0 <= k < side ==> !#[trigger] touches(known@, w as int, h as int, p as int, k),
        decreases 4 - side,
    {
        if let Some(t) = neighbor_of(w, h, p, side) {
            if known[t] {
                assert(touches(known@, w as int, h as int, p as int, side as int));
                return true;
            }
        }
        side = side + 1;
    }
    false
}

/// The plan of a fill and the state that it starts from, with the number of
/// selected pixels.
fn prepare(pixels: &[u8], mask: &[u8], w: usize, h: usize) -> (r: (Plan, Work, usize))
    requires
        4 * (w * h) <= pixels.len(),
        w * h <= mask.len(),
    ensures
        r.0@ == plan_of(pixels@, mask@, w as int, h as int),
        r.1.on(pixels@) == start_of(pixels@, mask@, w as int, h as int),
        r.2 == selected_count(mask@, w * h),
{
    let n: usize = w * h;
    let mut target: Vec<bool> = Vec::new();
    let mut known: Vec<bool> = Vec::new();
    let mut chosen: Vec<Option<usize>> = Vec::new();
    let mut missing: usize = 0;
    let mut p: usize = 0;
    while p < n
        invariant
            p <= n,
            n == w * h,
            4 * n <= pixels.len(),
            n <= mask.len(),
            target@ == Seq::new(p as nat, |i: int| mask@[i] != 0),
            known@ == Seq::new(p as nat, |i: int| usable(pixels@, mask@, i)),
            chosen@ == Seq::new(p as nat, |i: int| None::<usize>),
            missing == selected_count(mask@, p as int),
            missing <= p,
        decreases n - p,
    {
        target.push(mask[p] != 0);
        known.push(mask[p] == 0 && pixels[p * 4 + 3] == 255);
        chosen.push(None);
        if mask[p] != 0 {
            missing = missing + 1;
        }
        p = p + 1;
    }
    let mut valid: Vec<bool> = Vec::new();
    let mut donors: Vec<usize> = Vec::new();
    let mut queued: Vec<bool> = Vec::new();
    let mut queue: Vec<usize> = Vec::new();
    let ghost all_valid = plan_of(pixels@, mask@, w as int, h as int).valid;
    let ghost all_queued = boundary(pixels@, mask@, w as int, h as int);
    p = 0;
    while p < n
        invariant
            p <= n,
            n == w * h,
            n <= mask.len(),
            target@ == Seq::new(n as nat, |i: int| mask@[i] != 0),
            known@ == Seq::new(n as nat, |i: int| usable(pixels@, mask@, i)),
            all_valid == plan_of(pixels@, mask@, w as int, h as int).valid,
            all_queued == boundary(pixels@, mask@, w as int, h as int),
            valid@ == all_valid.take(p as int),
            donors@ == positions(all_valid, p as int),
            queued@ == all_queued.take(p as int),
            queue@ == positions(all_queued, p as int),
        decreases n - p,
    {
        let donor: bool = donor_at(known.as_slice(), w, h, p);
        valid.push(donor);
        if donor {
            donors.push(p);
        }
        let first: bool = target[p] && touches_known(known.as_slice(), w, h, p);
        queued.push(first);
        if first {
            queue.push(p);
        }
        p = p + 1;
    }
    assert(valid@ =~= all_valid);
    assert(queued@ =~= all_queued);
    (
        Plan { w, h, target, valid, donors },
        Work { known, chosen, queued, queue, head: 0, rng: Rng(0x6d2b79f5) },
        missing,
    )
}

/// Fill `mask != 0` pixels from the surrounding image. Unselected opaque
/// pixels are the source; unselected transparent pixels are neither filled nor
/// sampled. Returns false, with the image unchanged, when something is
/// selected and there is no usable donor.
pub fn content_fill(pixels: &mut [u8], mask: &[u8], w: usize, h: usize) -> (r: bool)
    requires
        4 * (w * h) <= old(pixels).len(),
        w * h <= mask.len(),
    ensures
        r == fillable(old(pixels)@, mask@, w as int, h as int),
        final(pixels)@ == content_filled(old(pixels)@, mask@, w as int, h as int),
{
    let ghost orig = pixels@;
    let n: usize = w * h;
    let (plan, mut work, missing) = prepare(pixels, mask, w, h);
    let ghost start = work.on(orig);
    proof {
        lemma_selected_count(orig, mask@, w as int, h as int, w * h);
    }
    if missing == 0 {
        return true;
    }
    if plan.donors.len() == 0 {
        return false;
    }
    proof {
        assert(0 < w && 0 < h) by (nonlinear_arith)
            requires
                0 < w * h,
        ;
        lemma_start(orig, mask@, w as int, h as int);
    }
    let mut done: usize = 0;
    let mut scan: usize = 0;
    while done < missing
        invariant
            done <= missing,
            n == w * h,
            plan.w == w,
            plan.h == h,
            pixels.len() == orig.len(),
            4 * n <= pixels.len(),
            in_progress(plan@, orig, start),
            work.on(pixels@) == run(plan@, start, done as int),
            in_progress(plan@, orig, work.on(pixels@)),
            missing == open_count(plan@.target, start.known, w * h),
            open_count(plan@.target, work.known@, w * h) == missing - done,
            scan <= n,
            forall|q: int| 0 <= q < scan ==> !#[trigger] is_open(plan@.target, work.known@, q),
        decreases missing - done,
    {
        let ghost st = work.on(pixels@);
        proof {
            lemma_restarted(plan@, orig, st);
            lemma_run(plan@, orig, start, done as int);
            lemma_run(plan@, orig, start, done + 1);
        }
        if work.head >= work.queue.len() {
            let ghost first = lemma_first_open(plan@.target, work.known@, w * h);
            while scan < n && (!plan.target[scan] || work.known[scan])
                invariant
                    scan <= n,
                    scan <= first < n,
                    plan.target.len() == n,
                    work.known.len() == n,
                    is_first_open(plan@.target, work.known@, first),
                    forall|q: int| 0 <= q < scan ==> !#[trigger] is_open(plan@.target, work.known@, q),
                decreases n - scan,
            {
                assert(!is_open(plan@.target, work.known@, scan as int));
                scan = scan + 1;
            }
            proof {
                let chosen = choose|p: int| is_first_open(plan@.target, st.known, p);
                assert(is_first_open(plan@.target, st.known, chosen));
                assert(is_open(plan@.target, st.known, scan as int));
                assert(is_open(plan@.target, st.known, chosen));
                assert(chosen == scan);
            }
            work.queue.push(scan);
            work.queued[scan] = true;
        }
        assert(work.on(pixels@) == restarted(plan@, st));
        let ghost before = work.known@;
        fill_next(&plan, &mut work, pixels, Ghost(orig));
        done = done + 1;
        proof {
            assert(work.on(pixels@) == run(plan@, start, done as int));
            lemma_known_grows(plan@, restarted(plan@, st));
            assert forall|q: int| 0 <= q < scan implies !#[trigger] is_open(plan@.target, work.known@, q) by {
                assert(!is_open(plan@.target, before, q));
            }
        }
    }
    true
}

/// A step marks no pixel as unknown.
proof fn lemma_known_grows(plan: FillPlan, st: FillState)
    ensures
        filled(plan, st, st.queue[st.head] as int).known == st.known.update(st.queue[st.head] as int, true),
{
}

/// The patches around `(px, py)` and `(qx, qy)` are compared pixel by pixel over
/// five rows and columns, or over their centers alone in an image that is
/// smaller than that. A pixel counts where it is known beside the first one and
/// in the image beside the second, and costs its squared differences.
pub proof fn patches_are_compared_by_pixels(
    pixels: Seq<u8>,
    known: Seq<bool>,
    w: int,
    h: int,
    px: int,
    py: int,
    qx: int,
    qy: int,
    r: int,
    dx: int,
    dy: int,
)
    requires
        0 <= px < w,
        0 <= py < h,
        0 <= qx < w,
        0 <= qy < h,
        w >= 5 && h >= 5 ==> r == 2,
        w < 5 || h < 5 ==> r == 0,
        -r <= dx <= r,
        -r <= dy <= r,
    ensures
        patch_len(w, h) == if r == 2 { 25int } else { 1 },
        ({
            let (p, q) = (py * w + px, qy * w + qx);
            let k = (dy + r) * (2 * r + 1) + dx + r;
            let before = patch_cost(pixels, known, w, h, p, q, k);
            let after = patch_cost(pixels, known, w, h, p, q, k + 1);
            let counts = 0 <= px + dx < w && 0 <= py + dy < h && known[(py + dy) * w + px + dx] && 0 <= qx + dx < w && 0 <= qy
                + dy < h;
            let cost = crate::pixels::pixel_cost(pixels, (py + dy) * w + px + dx, (qy + dy) * w + qx + dx);
            &&& patch_cost(pixels, known, w, h, p, q, 0) == (0int, 0int)
            &&& counts ==> after == (before.0 + cost, before.1 + 1)
            &&& !counts ==> after == before
        }),
{
    crate::pixels::lemma_cell(w, h, px, py);
    crate::pixels::lemma_cell(w, h, qx, qy);
    let d = 2 * r + 1;
    let k = (dy + r) * d + dx + r;
    crate::pixels::lemma_row_of(d, k, dx + r, dy + r);
    assert(0 <= k) by (nonlinear_arith)
        requires
            k == (dy + r) * d + dx + r,
            0 <= dy + r,
            0 <= dx + r,
            1 <= d,
    ;
    assert(patch_radius(w, h) == r);
    assert((2 * 2 + 1) * (2 * 2 + 1) == 25) by (nonlinear_arith);
    assert((2 * 0 + 1) * (2 * 0 + 1) == 1) by (nonlinear_arith);
}

/// A cost is lower where its mean is, and any mean is lower than one over no
/// pixels. So no two costs are lower than each other, and one that is lower than
/// a second is lower than all that are higher than that.
pub proof fn lower_means_are_cheaper(s1: int, c1: int, s2: int, c2: int, s3: int, c3: int)
    requires
        0 <= c1,
        0 <= c2,
        0 <= c3,
    ensures
        c1 > 0 && c2 > 0 ==> (cheaper(s1, c1, s2, c2) <==> s1 * c2 < s2 * c1),
        c1 == 0 ==> !cheaper(s1, c1, s2, c2),
        c1 > 0 && c2 == 0 ==> cheaper(s1, c1, s2, c2),
        c1 == c2 && c1 > 0 ==> (cheaper(s1, c1, s2, c2) <==> s1 < s2),
        !(cheaper(s1, c1, s2, c2) && cheaper(s2, c2, s1, c1)),
        cheaper(s1, c1, s2, c2) && cheaper(s2, c2, s3, c3) ==> cheaper(s1, c1, s3, c3),
{
    if c1 == c2 && c1 > 0 {
        assert(s1 * c1 < s2 * c1 <==> s1 < s2) by (nonlinear_arith)
            requires
                c1 > 0,
        ;
    }
    if cheaper(s1, c1, s2, c2) && cheaper(s2, c2, s3, c3) && c3 > 0 {
        assert(s1 * c3 < s3 * c1) by (nonlinear_arith)
            requires
                s1 * c2 < s2 * c1,
                s2 * c3 < s3 * c2,
                c1 > 0,
                c2 > 0,
                c3 > 0,
        ;
    }
}

/// The mean cost of a donor for pixel `p` is not below that of a pick.
spec fn no_better(plan: FillPlan, st: FillState, p: int, q: int, pick: Pick) -> bool {
    let (sum, count) = patch_cost(st.pixels, st.known, plan.w, plan.h, p, q, patch_len(plan.w, plan.h));
    !cheaper(sum, count, pick.sum, pick.count)
}

proof fn lemma_count_positive(pixels: Seq<u8>, known: Seq<bool>, w: int, h: int, p: int, q: int, k: int)
    ensures
        0 <= patch_cost(pixels, known, w, h, p, q, k).1,
    decreases k,
{
    if k > 0 {
        lemma_count_positive(pixels, known, w, h, p, q, k - 1);
    }
}

/// Comparing a donor with a pick gives the one or the other, and nothing that
/// costs more than either of them; the random sequence stays.
pub proof fn better_donors_win(plan: FillPlan, st: FillState, p: int, pick: Pick, q: int)
    requires
        0 <= q < plan.w * plan.h,
        0 <= pick.count,
        plan.w * plan.h <= usize::MAX,
    ensures
        ({
            let (sum, count) = patch_cost(st.pixels, st.known, plan.w, plan.h, p, q, patch_len(plan.w, plan.h));
            let next = consider(plan, st, p, pick, q);
            &&& next.rng == pick.rng && 0 <= next.count
            &&& !plan.valid[q] ==> next == pick
            &&& plan.valid[q] && (pick.best is None || cheaper(sum, count, pick.sum, pick.count)) ==> next.best == Some(q as usize)
                && next.sum == sum && next.count == count
            &&& pick.best is Some && !cheaper(sum, count, pick.sum, pick.count) ==> next == pick
            &&& plan.valid[q] ==> next.best is Some && !cheaper(sum, count, next.sum, next.count)
            &&& pick.best is Some ==> !cheaper(pick.sum, pick.count, next.sum, next.count)
        }),
{
    let (sum, count) = patch_cost(st.pixels, st.known, plan.w, plan.h, p, q, patch_len(plan.w, plan.h));
    lemma_count_positive(st.pixels, st.known, plan.w, plan.h, p, q, patch_len(plan.w, plan.h));
    lower_means_are_cheaper(sum, count, pick.sum, pick.count, sum, count);
    lower_means_are_cheaper(pick.sum, pick.count, pick.sum, pick.count, pick.sum, pick.count);
    lower_means_are_cheaper(sum, count, sum, count, sum, count);
}

proof fn lemma_no_better_stays(plan: FillPlan, st: FillState, p: int, pick: Pick, q: int, other: int)
    requires
        plan.w * plan.h <= usize::MAX,
        0 <= pick.count,
        pick.best is Some,
        no_better(plan, st, p, other, pick),
    ensures
        0 <= consider(plan, st, p, pick, q).count,
        consider(plan, st, p, pick, q).best is Some,
        no_better(plan, st, p, other, consider(plan, st, p, pick, q)),
{
    if 0 <= q < plan.w * plan.h {
        better_donors_win(plan, st, p, pick, q);
    }
    let next = consider(plan, st, p, pick, q);
    let (sum, count) = patch_cost(st.pixels, st.known, plan.w, plan.h, p, other, patch_len(plan.w, plan.h));
    lemma_count_positive(st.pixels, st.known, plan.w, plan.h, p, other, patch_len(plan.w, plan.h));
    lower_means_are_cheaper(sum, count, next.sum, next.count, pick.sum, pick.count);
}

/// The random sequence after `k` numbers.
pub open spec fn drawn(seed: u32, k: int) -> u32
    decreases k,
{
    if k <= 0 {
        seed
    } else {
        ((drawn(seed, k - 1) * 1664525 + 1013904223) % 0x1_0000_0000) as u32
    }
}

proof fn lemma_candidates_beat(plan: FillPlan, st: FillState, p: int, k: int, i: int)
    requires
        plan_fits(plan),
        0 <= k <= 28,
    ensures
        ({
            let pick = candidates(plan, st, p, k);
            let q = propagated(plan, st, p, i);
            let d = plan.donors[(drawn(st.rng, i - 3) as int) % (plan.donors.len() as int)] as int;
            &&& 0 <= pick.count
            &&& pick.rng == drawn(st.rng, k - 4)
            &&& k > 4 ==> pick.best is Some
            &&& 0 <= i < 4 && i < k && 0 <= q < plan.w * plan.h && plan.valid[q] ==> pick.best is Some && no_better(
                plan,
                st,
                p,
                q,
                pick,
            )
            &&& 4 <= i < k ==> no_better(plan, st, p, d, pick)
        }),
    decreases k,
{
    if k > 0 {
        lemma_candidates_beat(plan, st, p, k - 1, i);
        let prev = candidates(plan, st, p, k - 1);
        let n = plan.w * plan.h;
        if k <= 4 {
            let now = propagated(plan, st, p, k - 1);
            if 0 <= now < n {
                better_donors_win(plan, st, p, prev, now);
            }
            let q = propagated(plan, st, p, i);
            if 0 <= i < k - 1 && 0 <= q < n && plan.valid[q] {
                lemma_no_better_stays(plan, st, p, prev, now, q);
            }
        } else {
            let rng = next_random(prev.rng);
            let moved = Pick { rng, ..prev };
            let now = plan.donors[(rng as int) % (plan.donors.len() as int)] as int;
            assert(rng == drawn(st.rng, k - 4));
            let m = (rng as int) % (plan.donors.len() as int);
            assert(0 <= m < plan.donors.len());
            assert(plan.donors[m] < n && plan.valid[plan.donors[m] as int]);
            better_donors_win(plan, st, p, moved, now);
            let q = if i < 4 {
                propagated(plan, st, p, i)
            } else {
                plan.donors[(drawn(st.rng, i - 3) as int) % (plan.donors.len() as int)] as int
            };
            if 0 <= i < 4 && 0 <= q < n && plan.valid[q] {
                lemma_no_better_stays(plan, st, p, moved, now, q);
            }
            if 4 <= i < k - 1 {
                lemma_no_better_stays(plan, st, p, moved, now, q);
            }
        }
    }
}

proof fn lemma_refined_beats(plan: FillPlan, st: FillState, p: int, pick: Pick, r: int, q: int)
    requires
        plan.w * plan.h <= usize::MAX,
        0 <= pick.count,
        pick.best is Some,
        no_better(plan, st, p, q, pick),
    ensures
        no_better(plan, st, p, q, refined(plan, st, p, pick, r)),
    decreases r,
{
    if r >= 1 {
        let a = next_random(pick.rng);
        let b = next_random(a);
        let from = pick.best->0 as int;
        let nx = from % plan.w + (a as int) % (2 * r + 1) - r;
        let ny = from / plan.w + (b as int) % (2 * r + 1) - r;
        let moved = Pick { rng: b, ..pick };
        let next = if inside(plan.w, plan.h, nx, ny) {
            consider(plan, st, p, moved, crate::pixels::cell(plan.w, nx, ny))
        } else {
            moved
        };
        if inside(plan.w, plan.h, nx, ny) {
            lemma_no_better_stays(plan, st, p, moved, crate::pixels::cell(plan.w, nx, ny), q);
        }
        lemma_refined_beats(plan, st, p, next, r / 2, q);
    }
}

/// A refinement draws two numbers for each window: those of 64, 32, 16, 8, 4, 2
/// and 1 pixels.
proof fn lemma_refined_draws(plan: FillPlan, st: FillState, p: int, pick: Pick, r: int)
    requires
        plan.w * plan.h <= usize::MAX,
        0 <= pick.count,
    ensures
        r < 1 ==> refined(plan, st, p, pick, r).rng == pick.rng,
        r >= 1 ==> exists|next: Pick|
            next.rng == drawn(pick.rng, 2) && 0 <= next.count && refined(plan, st, p, pick, r) == #[trigger] refined(
                plan,
                st,
                p,
                next,
                r / 2,
            ),
{
    if r >= 1 {
        let a = next_random(pick.rng);
        let b = next_random(a);
        assert(drawn(pick.rng, 0) == pick.rng);
        assert(drawn(pick.rng, 1) == a);
        assert(drawn(pick.rng, 2) == b);
        let from = pick.best->0 as int;
        let nx = from % plan.w + (a as int) % (2 * r + 1) - r;
        let ny = from / plan.w + (b as int) % (2 * r + 1) - r;
        let moved = Pick { rng: b, ..pick };
        let q = crate::pixels::cell(plan.w, nx, ny);
        let next = if inside(plan.w, plan.h, nx, ny) {
            consider(plan, st, p, moved, q)
        } else {
            moved
        };
        if inside(plan.w, plan.h, nx, ny) {
            crate::pixels::lemma_cell(plan.w, plan.h, nx, ny);
            better_donors_win(plan, st, p, moved, q);
        }
        assert(refined(plan, st, p, pick, r) == refined(plan, st, p, next, r / 2));
    }
}

proof fn lemma_drawn_on(seed: u32, a: int, b: int)
    requires
        0 <= a,
        0 <= b,
    ensures
        drawn(drawn(seed, a), b) == drawn(seed, a + b),
    decreases b,
{
    if b > 0 {
        lemma_drawn_on(seed, a, b - 1);
    }
}

proof fn lemma_windows(plan: FillPlan, st: FillState, p: int, pick: Pick, r: int, k: int)
    requires
        plan.w * plan.h <= usize::MAX,
        0 <= pick.count,
        0 <= k <= 7,
        k == 7 ==> r == 64,
        k == 6 ==> r == 32,
        k == 5 ==> r == 16,
        k == 4 ==> r == 8,
        k == 3 ==> r == 4,
        k == 2 ==> r == 2,
        k == 1 ==> r == 1,
        k == 0 ==> r == 0,
    ensures
        refined(plan, st, p, pick, r).rng == drawn(pick.rng, 2 * k),
    decreases k,
{
    lemma_refined_draws(plan, st, p, pick, r);
    if k > 0 {
        let next = choose|next: Pick|
            next.rng == drawn(pick.rng, 2) && 0 <= next.count && refined(plan, st, p, pick, r) == #[trigger] refined(
                plan,
                st,
                p,
                next,
                r / 2,
            );
        lemma_windows(plan, st, p, next, r / 2, k - 1);
        lemma_drawn_on(pick.rng, 2, 2 * k - 2);
    }
}

/// The donor that is found for pixel `(x, y)` has no higher mean cost than the
/// donor that continues the source of the pixel to its left, right, above or
/// below, and than any of 24 random donors. The search takes 38 numbers of the
/// random sequence: one for each of those, and two for each of seven windows.
pub proof fn found_donors_match_best(plan: FillPlan, st: FillState, x: int, y: int, q: int, i: int)
    requires
        plan_fits(plan),
        0 <= x < plan.w,
        0 <= y < plan.h,
        0 <= q < plan.w * plan.h,
        plan.valid[q],
        ({
            let p = y * plan.w + x;
            ||| x > 0 && st.chosen[p - 1] is Some && q == st.chosen[p - 1]->0 + 1
            ||| x + 1 < plan.w && st.chosen[p + 1] is Some && q == st.chosen[p + 1]->0 - 1
            ||| y > 0 && st.chosen[p - plan.w] is Some && q == st.chosen[p - plan.w]->0 + plan.w
            ||| y + 1 < plan.h && st.chosen[p + plan.w] is Some && q == st.chosen[p + plan.w]->0 - plan.w
            ||| 1 <= i <= 24 && q == plan.donors[(drawn(st.rng, i) as int) % (plan.donors.len() as int)]
        }),
    ensures
        ({
            let p = y * plan.w + x;
            let found = search(plan, st, p);
            let (sum, count) = patch_cost(st.pixels, st.known, plan.w, plan.h, p, q, patch_len(plan.w, plan.h));
            &&& found.best is Some
            &&& !cheaper(sum, count, found.sum, found.count)
            &&& found.rng == drawn(st.rng, 38)
        }),
{
    let (w, h) = (plan.w, plan.h);
    let p = y * w + x;
    crate::pixels::lemma_cell(w, h, x, y);
    lemma_neighbor(w, h, p, 0);
    lemma_neighbor(w, h, p, 1);
    lemma_neighbor(w, h, p, 2);
    lemma_neighbor(w, h, p, 3);
    lemma_candidates_beat(plan, st, p, 28, 0);
    lemma_candidates_beat(plan, st, p, 28, 1);
    lemma_candidates_beat(plan, st, p, 28, 2);
    lemma_candidates_beat(plan, st, p, 28, 3);
    lemma_candidates_beat(plan, st, p, 28, i + 3);
    let pick = candidates(plan, st, p, 28);
    assert(no_better(plan, st, p, q, pick));
    lemma_refined_beats(plan, st, p, pick, 64, q);
    lemma_windows(plan, st, p, pick, 64, 7);
    lemma_drawn_on(st.rng, 24, 14);
    lemma_search(plan, st, p);
}

/// Whether pixel `(u, v)` is in the image, not selected and opaque.
pub open spec fn clear_at(pixels: Seq<u8>, mask: Seq<u8>, w: int, h: int, u: int, v: int) -> bool {
    0 <= u < w && 0 <= v < h && mask[v * w + u] == 0 && pixels[4 * (v * w + u) + 3] == 255
}

/// Whether all pixels up to `r` columns and rows away from `(x, y)` are in the
/// image, not selected and opaque.
pub open spec fn clear_around(pixels: Seq<u8>, mask: Seq<u8>, w: int, h: int, r: int, x: int, y: int) -> bool {
    forall|u: int, v: int|
        x - r <= u <= x + r && y - r <= v <= y + r ==> #[trigger] clear_at(pixels, mask, w, h, u, v)
}

/// A selection can be filled where nothing is selected, or where some pixel has
/// clear pixels around it, up to two columns and rows away in an image of at
/// least five of each.
pub proof fn fills_need_a_donor(pixels: Seq<u8>, mask: Seq<u8>, w: int, h: int, r: int)
    requires
        0 <= w,
        0 <= h,
        w * h <= usize::MAX,
        w >= 5 && h >= 5 ==> r == 2,
        w < 5 || h < 5 ==> r == 0,
    ensures
        fillable(pixels, mask, w, h) <==> {
            ||| forall|p: int| 0 <= p < w * h ==> #[trigger] mask[p] == 0
            ||| exists|x: int, y: int| #[trigger] clear_around(pixels, mask, w, h, r, x, y)
        },
{
    assert(0 <= w * h) by (nonlinear_arith)
        requires
            0 <= w,
            0 <= h,
    ;
    lemma_selected_count(pixels, mask, w, h, w * h);
    let plan = plan_of(pixels, mask, w, h);
    let known = start_of(pixels, mask, w, h).known;
    lemma_positions(plan.valid, w * h);
    if plan.donors.len() > 0 {
        let p = plan.donors[0] as int;
        assert(plan.valid[p]);
        crate::pixels::lemma_coords(w, h, p);
        let (x, y) = (p % w, p / w);
        assert forall|u: int, v: int| x - r <= u <= x + r && y - r <= v <= y + r implies #[trigger] clear_at(
            pixels,
            mask,
            w,
            h,
            u,
            v,
        ) by {
            assert(known_at(known, w, h, p, u - x, v - y));
            crate::pixels::lemma_cell(w, h, u, v);
            assert(known[v * w + u] == usable(pixels, mask, v * w + u));
        }
        assert(clear_around(pixels, mask, w, h, r, x, y));
    }
    if exists|x: int, y: int| #[trigger] clear_around(pixels, mask, w, h, r, x, y) {
        let (x, y) = choose|x: int, y: int| #[trigger] clear_around(pixels, mask, w, h, r, x, y);
        let p = y * w + x;
        assert(clear_at(pixels, mask, w, h, x, y));
        crate::pixels::lemma_cell(w, h, x, y);
        assert forall|dx: int, dy: int| -r <= dx <= r && -r <= dy <= r implies #[trigger] known_at(known, w, h, p, dx, dy) by {
            let (u, v) = (x + dx, y + dy);
            assert(clear_at(pixels, mask, w, h, u, v));
            crate::pixels::lemma_cell(w, h, u, v);
            assert(known[v * w + u] == usable(pixels, mask, v * w + u));
        }
        assert(is_donor(known, w, h, p));
        assert(plan.valid[p]);
        lemma_position_of(plan.valid, w * h, p);
    }
}

proof fn lemma_position_of(flags: Seq<bool>, k: int, p: int)
    requires
        0 <= p < k <= flags.len(),
        flags[p],
    ensures
        positions(flags, k).len() > 0,
    decreases k,
{
    if k - 1 > p {
        lemma_position_of(flags, k - 1, p);
    }
}

/// A fill starts from the selected pixels that have an unselected opaque one to
/// the left, right, above or below.
pub proof fn fills_start_at_the_boundary(pixels: Seq<u8>, mask: Seq<u8>, w: int, h: int, x: int, y: int)
    requires
        0 <= x < w,
        0 <= y < h,
        w * h <= usize::MAX,
    ensures
        ({
            let p = y * w + x;
            let st = start_of(pixels, mask, w, h);
            let open = |q: int| mask[q] == 0 && pixels[4 * q + 3] == 255;
            &&& st.queued[p] <==> mask[p] != 0 && ({
                ||| x > 0 && open(p - 1)
                ||| x + 1 < w && open(p + 1)
                ||| y > 0 && open(p - w)
                ||| y + 1 < h && open(p + w)
            })
            &&& st.known[p] <==> open(p)
            &&& st.pixels == pixels && st.head == 0 && st.rng == 0x6d2b79f5
            &&& st.chosen[p] is None
            &&& forall|i: int| 0 <= i < st.queue.len() ==> (#[trigger] st.queue[i]) < w * h && st.queued[st.queue[i] as int]
            &&& forall|i: int, j: int| 0 <= i < j < st.queue.len() ==> #[trigger] st.queue[i] < #[trigger] st.queue[j]
        }),
{
    let p = y * w + x;
    crate::pixels::lemma_cell(w, h, x, y);
    lemma_neighbor(w, h, p, 0);
    lemma_neighbor(w, h, p, 1);
    lemma_neighbor(w, h, p, 2);
    lemma_neighbor(w, h, p, 3);
    lemma_positions(start_of(pixels, mask, w, h).queued, w * h);
}

/// What pixel `t` adds to the queue, if it is there: itself, while it is
/// selected and neither filled nor in the queue.
pub open spec fn news(plan: FillPlan, st: FillState, there: bool, t: int) -> Seq<usize> {
    if there && plan.target[t] && !st.known[t] && !st.queued[t] {
        seq![t as usize]
    } else {
        Seq::empty()
    }
}

/// A neighbor that is put into the queue changes nothing for other pixels.
proof fn lemma_one_neighbor(plan: FillPlan, st: FillState, p: int, side: int, there: bool, t: int)
    requires
        there ==> neighbor(plan.w, plan.h, p, side) == Some(t as usize) && 0 <= t < st.queued.len() <= usize::MAX,
        !there ==> neighbor(plan.w, plan.h, p, side) is None,
    ensures
        enqueued(plan, st, p, side).queue == st.queue + news(plan, st, there, t),
        enqueued(plan, st, p, side).known == st.known,
        enqueued(plan, st, p, side).queued.len() == st.queued.len(),
        forall|u: int| 0 <= u < st.queued.len() && (u != t || !there) ==> #[trigger] enqueued(plan, st, p, side).queued[u]
            == st.queued[u],
{
    assert(enqueued(plan, st, p, side).queue =~= st.queue + news(plan, st, there, t));
}

proof fn lemma_four_neighbors(plan: FillPlan, s0: FillState, x: int, y: int)
    requires
        0 <= x < plan.w,
        0 <= y < plan.h,
        plan.w * plan.h <= usize::MAX,
        s0.queued.len() == plan.w * plan.h,
    ensures
        ({
            let p = y * plan.w + x;
            let s4 = enqueued(plan, enqueued(plan, enqueued(plan, enqueued(plan, s0, p, 0), p, 1), p, 2), p, 3);
            s4.queue == s0.queue + news(plan, s0, x > 0, p - 1) + news(plan, s0, x + 1 < plan.w, p + 1) + news(
                plan,
                s0,
                y > 0,
                p - plan.w,
            ) + news(plan, s0, y + 1 < plan.h, p + plan.w)
        }),
{
    let (w, h) = (plan.w, plan.h);
    let p = y * w + x;
    crate::pixels::lemma_cell(w, h, x, y);
    lemma_neighbor(w, h, p, 0);
    lemma_neighbor(w, h, p, 1);
    lemma_neighbor(w, h, p, 2);
    lemma_neighbor(w, h, p, 3);
    let s1 = enqueued(plan, s0, p, 0);
    let s2 = enqueued(plan, s1, p, 1);
    let s3 = enqueued(plan, s2, p, 2);
    lemma_one_neighbor(plan, s0, p, 0, x > 0, p - 1);
    lemma_one_neighbor(plan, s1, p, 1, x + 1 < w, p + 1);
    lemma_one_neighbor(plan, s2, p, 2, y > 0, p - w);
    lemma_one_neighbor(plan, s3, p, 3, y + 1 < h, p + w);
    assert(news(plan, s1, x + 1 < w, p + 1) == news(plan, s0, x + 1 < w, p + 1));
    assert(news(plan, s2, y > 0, p - w) == news(plan, s0, y > 0, p - w));
    assert(news(plan, s3, y + 1 < h, p + w) == news(plan, s0, y + 1 < h, p + w));
}

/// A step copies the donor that was found onto the next pixel of the queue,
/// which is known from then on. It puts those of its neighbors behind the queue
/// that are selected and were neither filled nor put there before: left, right,
/// above, below.
pub proof fn steps_copy_and_go_on(plan: FillPlan, st: FillState, x: int, y: int, b: int)
    requires
        0 <= x < plan.w,
        0 <= y < plan.h,
        plan.w * plan.h <= usize::MAX,
        st.known.len() == plan.w * plan.h,
        st.queued.len() == plan.w * plan.h,
        search(plan, st, y * plan.w + x).best is Some,
        0 <= b < st.pixels.len(),
    ensures
        ({
            let p = y * plan.w + x;
            let found = search(plan, st, p);
            let q = found.best->0 as int;
            let next = filled(plan, st, p);
            &&& next.head == st.head + 1 && next.rng == found.rng
            &&& next.known == st.known.update(p, true) && next.chosen == st.chosen.update(p, found.best)
            &&& 4 * p <= b < 4 * p + 4 ==> next.pixels[b] == st.pixels[4 * q + b - 4 * p]
            &&& !(4 * p <= b < 4 * p + 4) ==> next.pixels[b] == st.pixels[b]
            &&& next.queue == st.queue + news(plan, st, x > 0, p - 1) + news(plan, st, x + 1 < plan.w, p + 1) + news(
                plan,
                st,
                y > 0,
                p - plan.w,
            ) + news(plan, st, y + 1 < plan.h, p + plan.w)
        }),
{
    let (w, h) = (plan.w, plan.h);
    let p = y * w + x;
    crate::pixels::lemma_cell(w, h, x, y);
    lemma_neighbor(w, h, p, 0);
    lemma_neighbor(w, h, p, 1);
    lemma_neighbor(w, h, p, 2);
    lemma_neighbor(w, h, p, 3);
    let found = search(plan, st, p);
    let q = found.best->0;
    let s0 = FillState {
        pixels: copied(st.pixels, p, q as int),
        known: st.known.update(p, true),
        chosen: st.chosen.update(p, Some(q)),
        head: st.head + 1,
        rng: found.rng,
        ..st
    };
    lemma_four_neighbors(plan, s0, x, y);
    assert(news(plan, s0, x > 0, p - 1) == news(plan, st, x > 0, p - 1));
    assert(news(plan, s0, x + 1 < w, p + 1) == news(plan, st, x + 1 < w, p + 1));
    assert(news(plan, s0, y > 0, p - w) == news(plan, st, y > 0, p - w));
    assert(news(plan, s0, y + 1 < h, p + w) == news(plan, st, y + 1 < h, p + w));
}

/// A window of `r` pixels tries one pixel around the best donor so far: two
/// numbers of the random sequence say how far it is away in each direction. The
/// next window has half the size, and the last one is that of one pixel.
pub proof fn windows_try_one_pixel_each(plan: FillPlan, st: FillState, p: int, pick: Pick, r: int)
    ensures
        r < 1 ==> refined(plan, st, p, pick, r) == pick,
        r >= 1 ==> ({
            let (a, b) = (drawn(pick.rng, 1) as int, drawn(pick.rng, 2));
            let q = pick.best->0 as int;
            let x = q % plan.w + a % (2 * r + 1) - r;
            let y = q / plan.w + (b as int) % (2 * r + 1) - r;
            let moved = Pick { best: pick.best, sum: pick.sum, count: pick.count, rng: b };
            let next = if 0 <= x < plan.w && 0 <= y < plan.h {
                consider(plan, st, p, moved, y * plan.w + x)
            } else {
                moved
            };
            refined(plan, st, p, pick, r) == refined(plan, st, p, next, r / 2)
        }),
{
    assert(drawn(pick.rng, 0) == pick.rng);
    assert(drawn(pick.rng, 1) == next_random(pick.rng));
    assert(drawn(pick.rng, 2) == next_random(next_random(pick.rng)));
}

/// The donors are listed from top to bottom and from left to right, each once,
/// and none is left out.
pub proof fn donors_are_listed_in_order(pixels: Seq<u8>, mask: Seq<u8>, w: int, h: int, p: int, i: int, j: int)
    requires
        0 <= w,
        0 <= h,
        w * h <= usize::MAX,
        0 <= p < w * h,
    ensures
        ({
            let plan = plan_of(pixels, mask, w, h);
            &&& plan.valid[p] ==> plan.donors.contains(p as usize)
            &&& 0 <= i < plan.donors.len() ==> plan.donors[i] < w * h && plan.valid[plan.donors[i] as int]
            &&& 0 <= i < j < plan.donors.len() ==> plan.donors[i] < plan.donors[j]
            &&& plan.target[p] <==> mask[p] != 0
        }),
{
    let plan = plan_of(pixels, mask, w, h);
    lemma_positions(plan.valid, w * h);
    if plan.valid[p] {
        lemma_position_listed(plan.valid, w * h, p);
    }
}

proof fn lemma_position_listed(flags: Seq<bool>, k: int, p: int)
    requires
        0 <= p < k <= flags.len(),
        flags[p],
    ensures
        positions(flags, k).contains(p as usize),
    decreases k,
{
    if k - 1 > p {
        lemma_position_listed(flags, k - 1, p);
        let before = positions(flags, k - 1);
        let i = choose|i: int| 0 <= i < before.len() && before[i] == p as usize;
        assert(positions(flags, k)[i] == p as usize);
    } else {
        let all = positions(flags, k);
        assert(all[all.len() - 1] == p as usize);
    }
}

/// A fill whose queue ran empty goes on with the first pixel, from top to
/// bottom and from left to right, that is selected and not filled yet.
pub proof fn empty_queues_go_on_with_the_first_open_pixel(plan: FillPlan, st: FillState, p: int)
    requires
        0 <= p < plan.target.len() <= usize::MAX,
        plan.target[p] && !st.known[p],
        forall|q: int| 0 <= q < p ==> !(#[trigger] plan.target[q] && !st.known[q]),
    ensures
        st.head < st.queue.len() ==> restarted(plan, st) == st,
        st.head >= st.queue.len() ==> restarted(plan, st).queue == st.queue.push(p as usize) && restarted(plan, st).queued
            == st.queued.update(p, true) && restarted(plan, st).pixels == st.pixels && restarted(plan, st).known == st.known,
{
    assert forall|q: int| 0 <= q < p implies !#[trigger] is_open(plan.target, st.known, q) by {
        assert(!(plan.target[q] && !st.known[q]));
    }
    assert(is_first_open(plan.target, st.known, p));
    let f = choose|f: int| is_first_open(plan.target, st.known, f);
    assert(is_first_open(plan.target, st.known, f));
    if f < p {
        assert(!is_open(plan.target, st.known, f));
    }
    if p < f {
        assert(!is_open(plan.target, st.known, p));
    }
}

} // verus!
