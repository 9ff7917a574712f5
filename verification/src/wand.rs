//! Magic wand: flood selection of pixels that look like the seed pixel.
use vstd::prelude::*;

verus! {

/// Sum of channel `c` over the pixels of row `y` from `x0` up to but without
/// `x1`.
pub open spec fn row_sum(rgba: Seq<u8>, width: int, c: int, y: int, x0: int, x1: int) -> int
    decreases x1 - x0,
{
    if x1 <= x0 {
        0
    } else {
        row_sum(rgba, width, c, y, x0, x1 - 1) + rgba[4 * crate::pixels::cell(width, x1 - 1, y) + c]
    }
}

/// Sum of channel `c` over the rows from `y0` up to but without `y1`, each
/// from `x0` up to but without `x1`.
pub open spec fn box_sum(rgba: Seq<u8>, width: int, c: int, x0: int, x1: int, y0: int, y1: int) -> int
    decreases y1 - y0,
{
    if y1 <= y0 {
        0
    } else {
        box_sum(rgba, width, c, x0, x1, y0, y1 - 1) + row_sum(rgba, width, c, y1 - 1, x0, x1)
    }
}

/// Channel `c` of the reference color: the rounded mean over the part of the
/// box around the seed that lies in the image.
pub open spec fn reference(rgba: Seq<u8>, width: int, height: int, seed_x: int, seed_y: int, radius: int, c: int) -> int {
    let x0 = crate::pixels::max_of(seed_x - radius, 0);
    let x1 = crate::pixels::min_of(seed_x + radius, width - 1) + 1;
    let y0 = crate::pixels::max_of(seed_y - radius, 0);
    let y1 = crate::pixels::min_of(seed_y + radius, height - 1) + 1;
    let samples = (x1 - x0) * (y1 - y0);
    (box_sum(rgba, width, c, x0, x1, y0, y1) + samples / 2) / samples
}

/// Whether each channel of pixel `p` is within `tolerance` of the color.
pub open spec fn matches_color(rgba: Seq<u8>, p: int, color: Seq<i32>, tolerance: int) -> bool {
    forall|c: int| 0 <= c < 4 ==> -tolerance <= rgba[4 * p + c] - #[trigger] color[c] <= tolerance
}

/// The reference color.
pub open spec fn reference_color(rgba: Seq<u8>, width: int, height: int, seed_x: int, seed_y: int, radius: int) -> Seq<i32> {
    Seq::new(4, |c: int| reference(rgba, width, height, seed_x, seed_y, radius, c) as i32)
}

/// Whether two cells are horizontal or vertical neighbors.
pub open spec fn adjacent(width: int, a: int, b: int) -> bool {
    ||| a / width == b / width && (a == b + 1 || b == a + 1)
    ||| a == b + width
    ||| b == a + width
}

/// A walk over set cells that starts at `seed`, each step to a neighbor.
pub open spec fn is_walk(hits: Seq<bool>, width: int, seed: int, walk: Seq<int>) -> bool {
    &&& walk.len() > 0
    &&& walk[0] == seed
    &&& forall|i: int| 0 <= i < walk.len() ==> 0 <= #[trigger] walk[i] < hits.len() && hits[walk[i]]
    &&& forall|i: int, j: int| 0 <= i && j == i + 1 && j < walk.len() ==> adjacent(width, #[trigger] walk[i], #[trigger] walk[j])
}

/// Whether a walk over set cells leads from `seed` to `p`.
pub open spec fn connected(hits: Seq<bool>, width: int, seed: int, p: int) -> bool {
    exists|walk: Seq<int>| #[trigger] is_walk(hits, width, seed, walk) && walk.last() == p
}

/// The pixels that match the reference color.
pub open spec fn wand_hits(rgba: Seq<u8>, width: int, height: int, seed_x: int, seed_y: int, radius: int, tolerance: int) -> Seq<bool> {
    let color = reference_color(rgba, width, height, seed_x, seed_y, radius);
    Seq::new((width * height) as nat, |p: int| matches_color(rgba, p, color, tolerance))
}

/// Whether the wand selects pixel `p`.
pub open spec fn wand_selects(
    rgba: Seq<u8>,
    width: int,
    height: int,
    seed_x: int,
    seed_y: int,
    radius: int,
    tolerance: int,
    contiguous: bool,
    p: int,
) -> bool {
    let hits = wand_hits(rgba, width, height, seed_x, seed_y, radius, tolerance);
    &&& seed_x < width && seed_y < height
    &&& if contiguous {
        connected(hits, width, crate::pixels::cell(width, seed_x, seed_y), p)
    } else {
        hits[p]
    }
}

/// How many of the first `k` cells of a mask are set.
pub open spec fn count_set(mask: Seq<u8>, k: int) -> int
    decreases k,
{
    if k <= 0 {
        0
    } else {
        count_set(mask, k - 1) + if mask[k - 1] != 0 {
            1int
        } else {
            0int
        }
    }
}

/// A selection mask holds only 0 and 255.
pub open spec fn is_binary(mask: Seq<u8>) -> bool {
    forall|p: int| 0 <= p < mask.len() ==> #[trigger] mask[p] == 0 || mask[p] == 255
}

/// Two cells of one row with only set cells from one to the other.
spec fn linked(hits: Seq<bool>, width: int, a: int, b: int) -> bool {
    &&& a / width == b / width
    &&& 0 <= a < hits.len()
    &&& 0 <= b < hits.len()
    &&& forall|k: int|
        crate::pixels::min_of(a, b) <= k <= crate::pixels::max_of(a, b) ==> #[trigger] hits[k]
}

/// Neighbors in a row that are both set are both in the mask or both not.
spec fn rows_uniform(hits: Seq<bool>, width: int, mask: Seq<u8>) -> bool {
    forall|p: int, q: int|
        0 <= p && q == p + 1 && q < hits.len() && p / width == q / width && #[trigger] hits[p] && #[trigger] hits[q] ==> (mask[p]
            == 0 <==> mask[q] == 0)
}

/// Whether an entry of the stack lies in the run of set cells around `q`.
spec fn has_entry(hits: Seq<bool>, width: int, stack: Seq<usize>, q: int) -> bool {
    exists|i: int| 0 <= i < stack.len() && linked(hits, width, #[trigger] stack[i] as int, q)
}

/// What holds while the flood runs.
spec fn flooding(hits: Seq<bool>, width: int, seed: int, mask: Seq<u8>, stack: Seq<usize>) -> bool {
    &&& mask.len() == hits.len()
    &&& is_binary(mask)
    &&& forall|p: int| 0 <= p < mask.len() && #[trigger] mask[p] != 0 ==> hits[p] && connected(hits, width, seed, p)
    &&& rows_uniform(hits, width, mask)
    &&& forall|i: int|
        0 <= i < stack.len() ==> (#[trigger] stack[i]) < hits.len() && (hits[stack[i] as int] ==> connected(
            hits,
            width,
            seed,
            stack[i] as int,
        ))
    &&& hits[seed] && mask[seed] == 0 ==> has_entry(hits, width, stack, seed)
    &&& forall|p: int, q: int|
        0 <= p < mask.len() && 0 <= q < mask.len() && #[trigger] mask[p] != 0 && (p == q + width || q == p + width)
            && hits[q] && #[trigger] mask[q] == 0 ==> has_entry(hits, width, stack, q)
}

/// A walk can go on to a set neighbor.
proof fn lemma_walk_on(hits: Seq<bool>, width: int, seed: int, p: int, q: int)
    requires
        connected(hits, width, seed, p),
        adjacent(width, p, q),
        0 <= q < hits.len(),
        hits[q],
    ensures
        connected(hits, width, seed, q),
{
    let walk = choose|walk: Seq<int>| #[trigger] is_walk(hits, width, seed, walk) && walk.last() == p;
    let next = walk.push(q);
    assert forall|i: int, j: int| 0 <= i && j == i + 1 && j < next.len() implies adjacent(
        width,
        #[trigger] next[i],
        #[trigger] next[j],
    ) by {
        if j < walk.len() {
            assert(adjacent(width, walk[i], walk[j]));
        }
    }
    assert(is_walk(hits, width, seed, next));
    assert(next.last() == q);
}

/// Along a run the mask is the same everywhere.
proof fn lemma_run_uniform(hits: Seq<bool>, width: int, mask: Seq<u8>, a: int, b: int)
    requires
        0 < width,
        mask.len() == hits.len(),
        rows_uniform(hits, width, mask),
        linked(hits, width, a, b),
    ensures
        mask[a] == 0 <==> mask[b] == 0,
    decreases crate::pixels::max_of(a, b) - crate::pixels::min_of(a, b),
{
    if a < b {
        lemma_between(width, a, b - 1, b);
        assert(hits[b - 1] && hits[b]);
        lemma_run_uniform(hits, width, mask, a, b - 1);
    } else if b < a {
        lemma_between(width, b, a - 1, a);
        assert(hits[a - 1] && hits[a]);
        lemma_run_uniform(hits, width, mask, a - 1, b);
    }
}

/// A cell between two cells of a row is in that row.
proof fn lemma_between(width: int, a: int, k: int, b: int)
    requires
        0 < width,
        a <= k <= b,
        a / width == b / width,
    ensures
        k / width == a / width,
{
    vstd::arithmetic::div_mod::lemma_div_is_ordered(a, k, width);
    vstd::arithmetic::div_mod::lemma_div_is_ordered(k, b, width);
}

/// Whether the cells from `left` to `right` are one whole run of set cells.
spec fn is_run(hits: Seq<bool>, width: int, left: int, right: int) -> bool {
    &&& 0 <= left <= right < hits.len()
    &&& left / width == right / width
    &&& forall|k: int| left <= k <= right ==> #[trigger] hits[k]
    &&& left == 0 || (left - 1) / width != left / width || !hits[left - 1]
    &&& right + 1 == hits.len() || (right + 1) / width != right / width || !hits[right + 1]
}

/// The mask with the cells from `left` to `right` selected.
spec fn with_run(mask: Seq<u8>, left: int, right: int) -> Seq<u8> {
    Seq::new(
        mask.len(),
        |p: int|
            if left <= p <= right {
                255
            } else {
                mask[p]
            },
    )
}

/// A run holds every cell that is linked to one of its cells.
proof fn lemma_run_closed(hits: Seq<bool>, width: int, left: int, right: int, e: int, q: int)
    requires
        0 < width,
        is_run(hits, width, left, right),
        left <= e <= right,
        linked(hits, width, e, q),
    ensures
        left <= q <= right,
{
    lemma_between(width, left, e, right);
    if q < left {
        lemma_between(width, q, left - 1, e);
        assert(hits[left - 1]);
    }
    if q > right {
        lemma_between(width, e, right + 1, q);
        assert(hits[right + 1]);
    }
}

/// A popped cell that is done or not set is not needed any more.
proof fn lemma_skip(hits: Seq<bool>, width: int, seed: int, mask: Seq<u8>, stack: Seq<usize>)
    requires
        0 < width,
        0 <= seed < hits.len(),
        stack.len() > 0,
        flooding(hits, width, seed, mask, stack),
        mask[stack.last() as int] != 0 || !hits[stack.last() as int],
    ensures
        flooding(hits, width, seed, mask, stack.drop_last()),
{
    let rest = stack.drop_last();
    assert forall|q: int| mask[q] == 0 && #[trigger] has_entry(hits, width, stack, q) implies has_entry(
        hits,
        width,
        rest,
        q,
    ) by {
        let i = choose|i: int| 0 <= i < stack.len() && linked(hits, width, #[trigger] stack[i] as int, q);
        if i == rest.len() {
            let e = stack[i] as int;
            assert(hits[e]);
            lemma_run_uniform(hits, width, mask, e, q);
        } else {
            assert(linked(hits, width, rest[i] as int, q));
        }
    }
    assert forall|i: int|
        0 <= i < rest.len() implies (#[trigger] rest[i]) < hits.len() && (hits[rest[i] as int] ==> connected(
        hits,
        width,
        seed,
        rest[i] as int,
    )) by {
        assert(rest[i] == stack[i]);
    }
}

/// A popped cell whose run was filled, with a cell pushed for every run that
/// the filled one touches above and below.
proof fn lemma_fill_run(
    hits: Seq<bool>,
    width: int,
    seed: int,
    mask: Seq<u8>,
    stack: Seq<usize>,
    left: int,
    right: int,
    next: Seq<usize>,
)
    requires
        0 < width,
        0 <= seed < hits.len(),
        stack.len() > 0,
        flooding(hits, width, seed, mask, stack),
        is_run(hits, width, left, right),
        left <= stack.last() <= right,
        forall|p: int| left <= p <= right ==> connected(hits, width, seed, p),
        stack.len() - 1 <= next.len(),
        forall|i: int| 0 <= i < stack.len() - 1 ==> #[trigger] next[i] == stack[i],
        forall|i: int|
            stack.len() - 1 <= i < next.len() ==> (#[trigger] next[i]) < hits.len() && (left <= next[i] + width <= right
                || left <= next[i] - width <= right),
        forall|q: int|
            0 <= q < hits.len() && (left <= q + width <= right || left <= q - width <= right) && #[trigger] hits[q]
                && mask[q] == 0 && !(left <= q <= right) ==> has_entry(hits, width, next, q),
    ensures
        flooding(hits, width, seed, with_run(mask, left, right), next),
{
    let mask2 = with_run(mask, left, right);
    let e = stack.last() as int;
    assert forall|q: int| mask2[q] == 0 && 0 <= q < hits.len() && #[trigger] has_entry(hits, width, stack, q) implies has_entry(
        hits,
        width,
        next,
        q,
    ) by {
        let i = choose|i: int| 0 <= i < stack.len() && linked(hits, width, #[trigger] stack[i] as int, q);
        if i == stack.len() - 1 {
            lemma_run_closed(hits, width, left, right, e, q);
        } else {
            assert(next[i] == stack[i]);
            assert(linked(hits, width, next[i] as int, q));
        }
    }
    assert forall|i: int|
        0 <= i < next.len() implies (#[trigger] next[i]) < hits.len() && (hits[next[i] as int] ==> connected(
        hits,
        width,
        seed,
        next[i] as int,
    )) by {
        if i < stack.len() - 1 {
            assert(next[i] == stack[i]);
        } else {
            let q = next[i] as int;
            if hits[q] {
                if left <= q + width <= right {
                    lemma_walk_on(hits, width, seed, q + width, q);
                } else {
                    lemma_walk_on(hits, width, seed, q - width, q);
                }
            }
        }
    }
    assert forall|p: int, q: int|
        0 <= p && q == p + 1 && q < hits.len() && p / width == q / width && #[trigger] hits[p] && #[trigger] hits[q] implies (
    mask2[p] == 0 <==> mask2[q] == 0) by {
        if p == right {
            assert(false);
        }
        if q == left {
            assert(false);
        }
    }
    assert forall|p: int, q: int|
        0 <= p < mask2.len() && 0 <= q < mask2.len() && #[trigger] mask2[p] != 0 && (p == q + width || q == p + width)
            && hits[q] && #[trigger] mask2[q] == 0 implies has_entry(hits, width, next, q) by {
        if !(left <= p <= right) {
            assert(mask[p] != 0 && mask[q] == 0);
            assert(has_entry(hits, width, stack, q));
        }
    }
}

/// At the end the mask holds exactly the cells that walks from the seed reach.
proof fn lemma_flooded(hits: Seq<bool>, width: int, seed: int, mask: Seq<u8>, walk: Seq<int>, k: int)
    requires
        0 < width,
        0 <= seed < hits.len(),
        flooding(hits, width, seed, mask, Seq::empty()),
        is_walk(hits, width, seed, walk),
        0 <= k < walk.len(),
    ensures
        mask[walk[k]] == 255,
    decreases k,
{
    if k > 0 {
        lemma_flooded(hits, width, seed, mask, walk, k - 1);
        let (p, q) = (walk[k - 1], walk[k]);
        assert(adjacent(width, p, q));
        assert(hits[p] && hits[q]);
        if p == q + width || q == p + width {
            assert(mask[p] != 0);
            if mask[q] == 0 {
                assert(has_entry(hits, width, Seq::empty(), q));
            }
        }
    } else {
        if mask[seed] == 0 {
            assert(has_entry(hits, width, Seq::empty(), seed));
        }
    }
}

/// Selecting a run of unselected cells adds its length to the count.
proof fn lemma_count_run(mask: Seq<u8>, left: int, right: int, k: int)
    requires
        0 <= left <= right < mask.len(),
        forall|p: int| left <= p <= right ==> mask[p] == 0,
        0 <= k <= mask.len(),
    ensures
        count_set(with_run(mask, left, right), k) == count_set(mask, k) + if k <= left {
            0int
        } else if k <= right {
            k - left
        } else {
            right + 1 - left
        },
    decreases k,
{
    if k > 0 {
        lemma_count_run(mask, left, right, k - 1);
    }
}

proof fn lemma_count_bounds(mask: Seq<u8>, k: int)
    ensures
        0 <= count_set(mask, k),
        0 <= k ==> count_set(mask, k) <= k,
        (forall|p: int| 0 <= p < k ==> mask[p] == 0) ==> count_set(mask, k) == 0,
    decreases k,
{
    if k > 0 {
        lemma_count_bounds(mask, k - 1);
    }
}

/// Pushes the first cell of each run of unselected set cells from `lo` to `hi`.
fn push_runs(hits: &[bool], width: usize, mask: &Vec<u8>, lo: usize, hi: usize, stack: &mut Vec<usize>)
    requires
        0 < width,
        mask.len() == hits.len(),
        lo <= hi < hits.len(),
        lo as int / width as int == hi as int / width as int,
    ensures
        old(stack)@.len() <= final(stack)@.len(),
        forall|i: int| 0 <= i < old(stack)@.len() ==> #[trigger] final(stack)@[i] == old(stack)@[i],
        forall|i: int| old(stack)@.len() <= i < final(stack)@.len() ==> lo <= #[trigger] final(stack)@[i] <= hi,
        forall|q: int|
            lo <= q <= hi && #[trigger] hits@[q] && mask@[q] == 0 ==> has_entry(hits@, width as int, final(stack)@, q),
{
    let ghost before = stack@;
    let mut in_run: bool = false;
    let mut q: usize = lo;
    while q <= hi
        invariant
            0 < width,
            mask.len() == hits.len(),
            lo <= q <= hi + 1,
            hi < hits.len(),
            lo as int / width as int == hi as int / width as int,
            before.len() <= stack@.len(),
            forall|i: int| 0 <= i < before.len() ==> #[trigger] stack@[i] == before[i],
            forall|i: int| before.len() <= i < stack@.len() ==> lo <= #[trigger] stack@[i] <= hi,
            forall|k: int|
                lo <= k < q && #[trigger] hits@[k] && mask@[k] == 0 ==> has_entry(hits@, width as int, stack@, k),
            in_run ==> lo < q && hits@[q - 1] && mask@[q - 1] == 0,
        decreases hi + 1 - q,
    {
        let candidate: bool = mask[q] == 0 && hits[q];
        let ghost held = stack@;
        if candidate && !in_run {
            stack.push(q);
        }
        proof {
            lemma_between(width as int, lo as int, q as int, hi as int);
            assert forall|k: int| #[trigger] has_entry(hits@, width as int, held, k) implies has_entry(
                hits@,
                width as int,
                stack@,
                k,
            ) by {
                let i = choose|i: int| 0 <= i < held.len() && linked(hits@, width as int, #[trigger] held[i] as int, k);
                assert(stack@[i] == held[i]);
            }
            if candidate {
                if in_run {
                    assert(has_entry(hits@, width as int, held, q - 1));
                    let i = choose|i: int|
                        0 <= i < held.len() && linked(hits@, width as int, #[trigger] held[i] as int, q - 1);
                    lemma_between(width as int, lo as int, q - 1, hi as int);
                    assert(linked(hits@, width as int, stack@[i] as int, q as int));
                } else {
                    assert(stack@[held.len() as int] == q);
                    assert(linked(hits@, width as int, stack@[held.len() as int] as int, q as int));
                }
            }
        }
        in_run = candidate;
        q = q + 1;
    }
}

/// Selects the set cells that walks from `seed` reach, and counts them.
fn flood(hits: &[bool], width: usize, height: usize, seed: usize) -> (r: (Vec<u8>, usize))
    requires
        0 < width,
        hits.len() == width * height,
        seed < hits.len(),
    ensures
        r.0@ == Seq::new(
            hits@.len(),
            |p: int|
                if connected(hits@, width as int, seed as int, p) {
                    255u8
                } else {
                    0u8
                },
        ),
        r.1 == count_set(r.0@, r.0@.len() as int),
{
    let n: usize = hits.len();
    let ghost w = width as int;
    let mut mask: Vec<u8> = vec![0u8; n];
    let mut count: usize = 0;
    let mut stack: Vec<usize> = Vec::new();
    stack.push(seed);
    proof {
        lemma_count_bounds(mask@, n as int);
        if hits@[seed as int] {
            let walk = seq![seed as int];
            assert(is_walk(hits@, w, seed as int, walk));
            assert(walk.last() == seed as int);
            assert(linked(hits@, w, stack@[0] as int, seed as int));
        }
    }
    while stack.len() > 0
        invariant
            0 < width,
            w == width,
            n == hits.len(),
            n == width * height,
            mask.len() == n,
            seed < n,
            flooding(hits@, w, seed as int, mask@, stack@),
            count == count_set(mask@, n as int),
            count <= n,
        decreases n - count, stack.len(),
    {
        let ghost old_stack = stack@;
        let ghost old_mask = mask@;
        let p: usize = stack[stack.len() - 1];
        stack.pop();
        assert(stack@ == old_stack.drop_last());
        if mask[p] != 0 || !hits[p] {
            proof {
                lemma_skip(hits@, w, seed as int, mask@, old_stack);
            }
        } else {
            let mut left: usize = p;
            while left > 0 && left % width > 0 && mask[left - 1] == 0 && hits[left - 1]
                invariant
                    0 < width,
                    w == width,
                    mask.len() == n,
                    n == hits.len(),
                    left <= p < n,
                    left as int / w == p as int / w,
                    forall|k: int| left <= k <= p ==> #[trigger] hits@[k] && mask@[k] == 0 && connected(hits@, w, seed as int, k),
                decreases left,
            {
                proof {
                    lemma_step_back(w, left as int);
                    assert(hits@[left as int]);
                    lemma_walk_on(hits@, w, seed as int, left as int, left - 1);
                }
                left = left - 1;
            }
            let mut right: usize = p;
            while right + 1 < n && (right + 1) % width > 0 && mask[right + 1] == 0 && hits[right + 1]
                invariant
                    0 < width,
                    w == width,
                    mask.len() == n,
                    n == hits.len(),
                    left <= p <= right < n,
                    left as int / w == p as int / w,
                    right as int / w == p as int / w,
                    forall|k: int| left <= k <= right ==> #[trigger] hits@[k] && mask@[k] == 0 && connected(hits@, w, seed as int, k),
                decreases n - right,
            {
                proof {
                    lemma_step_back(w, right + 1);
                    assert(hits@[right as int]);
                    lemma_walk_on(hits@, w, seed as int, right as int, right + 1);
                }
                right = right + 1;
            }
            proof {
                lemma_run_found(hits@, w, mask@, left as int, right as int);
                assert forall|k: int| left <= k <= right implies connected(hits@, w, seed as int, k) by {
                    assert(hits@[k]);
                }
                lemma_count_run(mask@, left as int, right as int, n as int);
                lemma_count_bounds(with_run(mask@, left as int, right as int), n as int);
            }
            let mut m: usize = left;
            while m <= right
                invariant
                    left <= m <= right + 1,
                    right < n,
                    mask.len() == n,
                    old_mask.len() == n,
                    forall|k: int|
                        0 <= k < n ==> #[trigger] mask@[k] == (if left <= k < m {
                            255
                        } else {
                            old_mask[k]
                        }),
                decreases right + 1 - m,
            {
                mask[m] = 255;
                m = m + 1;
            }
            assert(mask@ =~= with_run(old_mask, left as int, right as int));
            count = count + (right - left + 1);
            proof {
                lemma_row_above_below(w, height as int, left as int, right as int);
            }
            if left >= width {
                push_runs(hits, width, &mask, left - width, right - width, &mut stack);
            }
            let ghost mid = stack@;
            if right < n - width {
                push_runs(hits, width, &mask, left + width, right + width, &mut stack);
            }
            proof {
                assert forall|q: int|
                    0 <= q < hits.len() && (left <= q + width <= right || left <= q - width <= right) && #[trigger] hits@[q]
                        && old_mask[q] == 0 && !(left <= q <= right) implies has_entry(hits@, w, stack@, q) by {
                    if left <= q + width <= right {
                        assert(has_entry(hits@, w, mid, q));
                        let i = choose|i: int| 0 <= i < mid.len() && linked(hits@, w, #[trigger] mid[i] as int, q);
                        assert(stack@[i] == mid[i]);
                    } else {
                        assert(has_entry(hits@, w, stack@, q));
                    }
                }
                lemma_fill_run(hits@, w, seed as int, old_mask, old_stack, left as int, right as int, stack@);
            }
        }
    }
    proof {
        assert(stack@ =~= Seq::empty());
        assert forall|p: int| 0 <= p < n implies mask@[p] == (if connected(hits@, w, seed as int, p) {
            255u8
        } else {
            0u8
        }) by {
            if connected(hits@, w, seed as int, p) {
                let walk = choose|walk: Seq<int>|
                    #[trigger] is_walk(hits@, w, seed as int, walk) && walk.last() == p;
                lemma_flooded(hits@, w, seed as int, mask@, walk, walk.len() - 1);
            }
        }
    }
    (mask, count)
}

/// The cell before one that does not start a row is in the same row.
proof fn lemma_step_back(width: int, p: int)
    requires
        0 < width,
        p % width > 0,
    ensures
        (p - 1) / width == p / width,
{
    vstd::arithmetic::div_mod::lemma_fundamental_div_mod(p, width);
    vstd::arithmetic::mul::lemma_mul_is_commutative(width, p / width);
    vstd::arithmetic::div_mod::lemma_fundamental_div_mod_converse(p - 1, width, p / width, p % width - 1);
}

/// The cell before one that starts a row is not in the same row.
proof fn lemma_row_start(width: int, p: int)
    requires
        0 < width,
        p % width == 0,
    ensures
        (p - 1) / width != p / width,
{
    vstd::arithmetic::div_mod::lemma_fundamental_div_mod(p, width);
    vstd::arithmetic::div_mod::lemma_fundamental_div_mod(p - 1, width);
}

/// Cells that could not be grown any further are a whole run.
proof fn lemma_run_found(hits: Seq<bool>, width: int, mask: Seq<u8>, left: int, right: int)
    requires
        0 < width,
        mask.len() == hits.len(),
        rows_uniform(hits, width, mask),
        0 <= left <= right < hits.len(),
        left / width == right / width,
        forall|k: int| left <= k <= right ==> #[trigger] hits[k] && mask[k] == 0,
        left == 0 || left % width == 0 || mask[left - 1] != 0 || !hits[left - 1],
        right + 1 == hits.len() || (right + 1) % width == 0 || mask[right + 1] != 0 || !hits[right + 1],
    ensures
        is_run(hits, width, left, right),
{
    if left > 0 {
        if left % width == 0 {
            lemma_row_start(width, left);
        } else {
            lemma_step_back(width, left);
            assert(hits[left]);
        }
    }
    if right + 1 < hits.len() {
        if (right + 1) % width == 0 {
            lemma_row_start(width, right + 1);
        } else {
            lemma_step_back(width, right + 1);
            assert(hits[right]);
        }
    }
}

/// The cells above and below a part of a row are parts of rows.
proof fn lemma_row_above_below(width: int, height: int, left: int, right: int)
    requires
        0 < width,
        0 <= left <= right < width * height,
        left / width == right / width,
    ensures
        width <= width * height,
        left < width <==> right < width,
        left >= width ==> (left - width) / width == (right - width) / width,
        left + width < width * height <==> right + width < width * height,
        left + width < width * height ==> (left + width) / width == (right + width) / width,
{
    let y = left / width;
    vstd::arithmetic::div_mod::lemma_fundamental_div_mod(left, width);
    vstd::arithmetic::div_mod::lemma_fundamental_div_mod(right, width);
    assert(width * (y - 1) == width * y - width) by (nonlinear_arith);
    assert(width * (y + 1) == width * y + width) by (nonlinear_arith);
    vstd::arithmetic::div_mod::lemma_fundamental_div_mod_converse(left - width, width, y - 1, left % width);
    vstd::arithmetic::div_mod::lemma_fundamental_div_mod_converse(right - width, width, y - 1, right % width);
    vstd::arithmetic::div_mod::lemma_fundamental_div_mod_converse(left + width, width, y + 1, left % width);
    vstd::arithmetic::div_mod::lemma_fundamental_div_mod_converse(right + width, width, y + 1, right % width);
    crate::pixels::lemma_coords(width, height, left);
    assert(width <= width * height) by (nonlinear_arith)
        requires
            0 < width,
            1 <= height,
    ;
    if y >= 1 {
        assert(width * y >= width) by (nonlinear_arith)
            requires
                y >= 1,
                0 < width,
        ;
    }
    if y + 1 < height {
        assert(width * y + width + width <= width * height) by (nonlinear_arith)
            requires
                y + 2 <= height,
                0 < width,
        ;
    } else {
        assert(width * y + width == width * height) by (nonlinear_arith)
            requires
                y + 1 == height,
        ;
    }
}

proof fn lemma_row_sum_bounds(rgba: Seq<u8>, width: int, c: int, y: int, x0: int, x1: int)
    requires
        x0 <= x1,
    ensures
        0 <= row_sum(rgba, width, c, y, x0, x1) <= 255 * (x1 - x0),
    decreases x1 - x0,
{
    if x0 < x1 {
        lemma_row_sum_bounds(rgba, width, c, y, x0, x1 - 1);
    }
}

proof fn lemma_box_sum_bounds(rgba: Seq<u8>, width: int, c: int, x0: int, x1: int, y0: int, y1: int)
    requires
        x0 <= x1,
        y0 <= y1,
    ensures
        0 <= box_sum(rgba, width, c, x0, x1, y0, y1) <= 255 * ((x1 - x0) * (y1 - y0)),
    decreases y1 - y0,
{
    if y0 < y1 {
        lemma_box_sum_bounds(rgba, width, c, x0, x1, y0, y1 - 1);
        lemma_row_sum_bounds(rgba, width, c, y1 - 1, x0, x1);
        assert((x1 - x0) * (y1 - y0) == (x1 - x0) * (y1 - 1 - y0) + (x1 - x0)) by (nonlinear_arith);
    } else {
        assert((x1 - x0) * (y1 - y0) == 0) by (nonlinear_arith)
            requires
                y1 == y0,
        ;
    }
}

/// Channel `c` of the reference color.
fn sample(rgba: &[u8], width: usize, height: usize, seed_x: usize, seed_y: usize, radius: usize, c: usize) -> (r: i32)
    requires
        4 * (width * height) <= rgba.len(),
        seed_x < width,
        seed_y < height,
        c < 4,
    ensures
        r == reference(rgba@, width as int, height as int, seed_x as int, seed_y as int, radius as int, c as int),
        0 <= r <= 255,
{
    let ghost w = width as int;
    let ghost h = height as int;
    let x0: usize = seed_x.saturating_sub(radius);
    let x1: usize = if radius < width - seed_x {
        seed_x + radius + 1
    } else {
        width
    };
    let y0: usize = seed_y.saturating_sub(radius);
    let y1: usize = if radius < height - seed_y {
        seed_y + radius + 1
    } else {
        height
    };
    let mut sum: u128 = 0;
    let mut y: usize = y0;
    while y < y1
        invariant
            w == width,
            h == height,
            4 * (width * height) <= rgba.len(),
            c < 4,
            x0 <= x1 <= width,
            y0 <= y <= y1 <= height,
            sum == box_sum(rgba@, w, c as int, x0 as int, x1 as int, y0 as int, y as int),
        decreases y1 - y,
    {
        let ghost done = sum;
        proof {
            lemma_box_sum_bounds(rgba@, w, c as int, x0 as int, x1 as int, y0 as int, y as int);
            assert((x1 - x0) * (y - y0) <= width * height) by (nonlinear_arith)
                requires
                    0 <= x1 - x0 <= width,
                    0 <= y - y0 <= height,
            ;
        }
        let mut x: usize = x0;
        while x < x1
            invariant
                w == width,
                h == height,
                4 * (width * height) <= rgba.len(),
                c < 4,
                x0 <= x <= x1 <= width,
                y0 <= y < y1 <= height,
                done <= 255 * usize::MAX,
                sum == done + row_sum(rgba@, w, c as int, y as int, x0 as int, x as int),
                sum <= done + 255 * (x - x0),
            decreases x1 - x,
        {
            proof {
                crate::pixels::lemma_cell(w, h, x as int, y as int);
            }
            let b: usize = (y * width + x) * 4 + c;
            sum = sum + rgba[b] as u128;
            x = x + 1;
        }
        y = y + 1;
    }
    proof {
        assert((x1 - x0) * (y1 - y0) <= width * height) by (nonlinear_arith)
            requires
                0 <= x1 - x0 <= width,
                0 <= y1 - y0 <= height,
        ;
    }
    let samples: u128 = (x1 - x0) as u128 * (y1 - y0) as u128;
    proof {
        lemma_box_sum_bounds(rgba@, w, c as int, x0 as int, x1 as int, y0 as int, y1 as int);
        assert(samples > 0) by (nonlinear_arith)
            requires
                samples == (x1 - x0) * (y1 - y0),
                x1 - x0 > 0,
                y1 - y0 > 0,
        ;
        assert((sum as int + samples as int / 2) / samples as int <= 255) by (nonlinear_arith)
            requires
                0 <= sum <= 255 * samples,
                samples > 0,
        ;
    }
    ((sum + samples / 2) / samples) as i32
}

/// Whether each channel of pixel `p` is within `tolerance` of the color.
fn is_match(rgba: &[u8], p: usize, color: &[i32; 4], tolerance: i32) -> (r: bool)
    requires
        4 * p + 4 <= rgba.len(),
        forall|c: int| 0 <= c < 4 ==> 0 <= #[trigger] color@[c] <= 255,
    ensures
        r == matches_color(rgba@, p as int, color@, tolerance as int),
{
    let mut c: usize = 0;
    while c < 4
        invariant
            c <= 4,
            4 * p + 4 <= rgba.len(),
            forall|k: int| 0 <= k < 4 ==> 0 <= #[trigger] color@[k] <= 255,
            forall|k: int| 0 <= k < c ==> -tolerance <= rgba@[4 * p + k] - #[trigger] color@[k] <= tolerance,
        decreases 4 - c,
    {
        let d: i64 = rgba[4 * p + c] as i64 - color[c] as i64;
        if d < -(tolerance as i64) || d > tolerance as i64 {
            assert(!(-tolerance <= rgba@[4 * p + c] - color@[c as int] <= tolerance));
            return false;
        }
        c = c + 1;
    }
    true
}

/// Flood-select pixels similar to the seed pixel.
///
/// `radius` averages the reference color over the (2r+1)^2 box around the
/// seed (0 = point sample). `tolerance` is the max per-channel difference
/// (0..=255). `contiguous` restricts the result to pixels connected to the
/// seed; otherwise every matching pixel in the image is selected.
///
/// Returns (mask, selected_count); mask is width*height bytes, 255 = selected.
pub fn wand_mask(
    rgba: &[u8],
    width: usize,
    height: usize,
    seed_x: usize,
    seed_y: usize,
    radius: usize,
    tolerance: i32,
    contiguous: bool,
) -> (r: (Vec<u8>, usize))
    requires
        width * height <= usize::MAX,
        seed_x < width && seed_y < height ==> 4 * (width * height) <= rgba.len(),
    ensures
        r.0@ == Seq::new(
            (width * height) as nat,
            |p: int|
                if wand_selects(
                    rgba@,
                    width as int,
                    height as int,
                    seed_x as int,
                    seed_y as int,
                    radius as int,
                    tolerance as int,
                    contiguous,
                    p,
                ) {
                    255u8
                } else {
                    0u8
                },
        ),
        r.1 == count_set(r.0@, width * height),
{
    let n: usize = width * height;
    if seed_x >= width || seed_y >= height {
        let mask: Vec<u8> = vec![0u8; n];
        proof {
            lemma_count_bounds(mask@, n as int);
        }
        return (mask, 0);
    }
    let ghost color_of = reference_color(
        rgba@,
        width as int,
        height as int,
        seed_x as int,
        seed_y as int,
        radius as int,
    );
    let color: [i32; 4] = [
        sample(rgba, width, height, seed_x, seed_y, radius, 0),
        sample(rgba, width, height, seed_x, seed_y, radius, 1),
        sample(rgba, width, height, seed_x, seed_y, radius, 2),
        sample(rgba, width, height, seed_x, seed_y, radius, 3),
    ];
    assert(color@ =~= color_of);
    let mut hits: Vec<bool> = Vec::new();
    let mut mask: Vec<u8> = Vec::new();
    let mut count: usize = 0;
    let mut p: usize = 0;
    while p < n
        invariant
            p <= n,
            n == width * height,
            4 * n <= rgba.len(),
            color@ == color_of,
            forall|c: int| 0 <= c < 4 ==> 0 <= #[trigger] color@[c] <= 255,
            hits@ == Seq::new(p as nat, |i: int| matches_color(rgba@, i, color_of, tolerance as int)),
            mask@ == Seq::new(
                p as nat,
                |i: int|
                    if hits@[i] {
                        255u8
                    } else {
                        0u8
                    },
            ),
            count == count_set(mask@, p as int),
            count <= p,
        decreases n - p,
    {
        let ghost before = mask@;
        let hit: bool = is_match(rgba, p, &color, tolerance);
        hits.push(hit);
        if hit {
            mask.push(255);
            count = count + 1;
        } else {
            mask.push(0);
        }
        proof {
            lemma_count_prefix(before, mask@, p as int);
        }
        p = p + 1;
    }
    assert(hits@ =~= wand_hits(
        rgba@,
        width as int,
        height as int,
        seed_x as int,
        seed_y as int,
        radius as int,
        tolerance as int,
    ));
    if contiguous {
        proof {
            crate::pixels::lemma_cell(width as int, height as int, seed_x as int, seed_y as int);
        }
        flood(hits.as_slice(), width, height, seed_y * width + seed_x)
    } else {
        (mask, count)
    }
}

/// The count over a prefix reads nothing behind it.
proof fn lemma_count_prefix(a: Seq<u8>, b: Seq<u8>, k: int)
    requires
        forall|p: int| 0 <= p < k ==> a[p] == b[p],
    ensures
        count_set(a, k) == count_set(b, k),
    decreases k,
{
    if k > 0 {
        lemma_count_prefix(a, b, k - 1);
    }
}

/// Every pixel of a contiguous selection is in the selection of all matching
/// pixels.
pub proof fn contiguous_selection_is_part_of_all_matches(
    rgba: Seq<u8>,
    width: int,
    height: int,
    seed_x: int,
    seed_y: int,
    radius: int,
    tolerance: int,
    p: int,
)
    requires
        0 <= p < width * height,
        wand_selects(rgba, width, height, seed_x, seed_y, radius, tolerance, true, p),
    ensures
        wand_selects(rgba, width, height, seed_x, seed_y, radius, tolerance, false, p),
{
    let hits = wand_hits(rgba, width, height, seed_x, seed_y, radius, tolerance);
    let seed = crate::pixels::cell(width, seed_x, seed_y);
    let walk = choose|walk: Seq<int>| #[trigger] is_walk(hits, width, seed, walk) && walk.last() == p;
    assert(walk[walk.len() - 1] == p);
}

/// A larger tolerance never drops a pixel from the selection.
pub proof fn selection_grows_with_tolerance(
    rgba: Seq<u8>,
    width: int,
    height: int,
    seed_x: int,
    seed_y: int,
    radius: int,
    tolerance: int,
    larger: int,
    contiguous: bool,
    p: int,
)
    requires
        0 <= p < width * height,
        tolerance <= larger,
        wand_selects(rgba, width, height, seed_x, seed_y, radius, tolerance, contiguous, p),
    ensures
        wand_selects(rgba, width, height, seed_x, seed_y, radius, larger, contiguous, p),
{
    let hits = wand_hits(rgba, width, height, seed_x, seed_y, radius, tolerance);
    let more = wand_hits(rgba, width, height, seed_x, seed_y, radius, larger);
    assert forall|q: int| 0 <= q < width * height && hits[q] implies #[trigger] more[q] by {
        assert(hits[q]);
    }
    if contiguous {
        let seed = crate::pixels::cell(width, seed_x, seed_y);
        let walk = choose|walk: Seq<int>| #[trigger] is_walk(hits, width, seed, walk) && walk.last() == p;
        assert(is_walk(more, width, seed, walk));
    }
}

/// A point sample takes the color of the seed.
proof fn lemma_point_reference(rgba: Seq<u8>, width: int, height: int, seed_x: int, seed_y: int, c: int)
    requires
        0 <= seed_x < width,
        0 <= seed_y < height,
        0 <= c < 4,
    ensures
        reference(rgba, width, height, seed_x, seed_y, 0, c) == rgba[4 * (seed_y * width + seed_x) + c],
{
    let seed = crate::pixels::cell(width, seed_x, seed_y);
    assert(row_sum(rgba, width, c, seed_y, seed_x, seed_x) == 0);
    assert(row_sum(rgba, width, c, seed_y, seed_x, seed_x + 1) == rgba[4 * seed + c]);
    assert(box_sum(rgba, width, c, seed_x, seed_x + 1, seed_y, seed_y) == 0);
    assert(box_sum(rgba, width, c, seed_x, seed_x + 1, seed_y, seed_y + 1) == rgba[4 * seed + c]);
    let x1 = crate::pixels::min_of(seed_x + 0, width - 1) + 1;
    let y1 = crate::pixels::min_of(seed_y + 0, height - 1) + 1;
    let samples = (x1 - seed_x) * (y1 - seed_y);
    assert(samples == 1) by (nonlinear_arith)
        requires
            samples == (x1 - seed_x) * (y1 - seed_y),
            x1 - seed_x == 1,
            y1 - seed_y == 1,
    ;
    let sum = box_sum(rgba, width, c, seed_x, x1, seed_y, y1);
    assert((sum + samples / 2) / samples == sum) by (nonlinear_arith)
        requires
            samples == 1,
    ;
}

/// With a point sample and a tolerance that is not negative the seed is
/// always selected.
pub proof fn point_sample_selects_the_seed(
    rgba: Seq<u8>,
    width: int,
    height: int,
    seed_x: int,
    seed_y: int,
    tolerance: int,
    contiguous: bool,
)
    requires
        0 <= seed_x < width,
        0 <= seed_y < height,
        0 <= tolerance,
    ensures
        wand_selects(
            rgba,
            width,
            height,
            seed_x,
            seed_y,
            0,
            tolerance,
            contiguous,
            crate::pixels::cell(width, seed_x, seed_y),
        ),
{
    let seed = crate::pixels::cell(width, seed_x, seed_y);
    crate::pixels::lemma_cell(width, height, seed_x, seed_y);
    let hits = wand_hits(rgba, width, height, seed_x, seed_y, 0, tolerance);
    let color = reference_color(rgba, width, height, seed_x, seed_y, 0);
    assert forall|c: int| 0 <= c < 4 implies rgba[4 * seed + c] == #[trigger] color[c] by {
        lemma_point_reference(rgba, width, height, seed_x, seed_y, c);
    }
    assert(hits[seed]);
    let walk = seq![seed];
    assert(is_walk(hits, width, seed, walk));
    assert(walk.last() == seed);
}

/// Where all cells are set, a walk leads to each of them: along its row and its
/// column.
proof fn lemma_walk_anywhere(hits: Seq<bool>, width: int, height: int, seed_x: int, seed_y: int, x: int, y: int)
    requires
        0 <= seed_x < width,
        0 <= seed_y < height,
        0 <= x < width,
        0 <= y < height,
        hits.len() == width * height,
        forall|p: int| 0 <= p < hits.len() ==> #[trigger] hits[p],
    ensures
        connected(hits, width, crate::pixels::cell(width, seed_x, seed_y), crate::pixels::cell(width, x, y)),
    decreases
            crate::pixels::max_of(x, seed_x) - crate::pixels::min_of(x, seed_x) + crate::pixels::max_of(y, seed_y)
                - crate::pixels::min_of(y, seed_y),
{
    let seed = crate::pixels::cell(width, seed_x, seed_y);
    let p = crate::pixels::cell(width, x, y);
    crate::pixels::lemma_cell(width, height, x, y);
    if x == seed_x && y == seed_y {
        let walk = seq![seed];
        assert(is_walk(hits, width, seed, walk));
        assert(walk.last() == p);
    } else {
        let (bx, by) = if x > seed_x {
            (x - 1, y)
        } else if x < seed_x {
            (x + 1, y)
        } else if y > seed_y {
            (x, y - 1)
        } else {
            (x, y + 1)
        };
        let before = crate::pixels::cell(width, bx, by);
        crate::pixels::lemma_cell(width, height, bx, by);
        lemma_walk_anywhere(hits, width, height, seed_x, seed_y, bx, by);
        assert((y - 1) * width == y * width - width && (y + 1) * width == y * width + width) by (nonlinear_arith);
        assert(adjacent(width, before, p));
        lemma_walk_on(hits, width, seed, before, p);
    }
}

/// With the largest tolerance every pixel is selected.
pub proof fn full_tolerance_selects_everything(
    rgba: Seq<u8>,
    width: int,
    height: int,
    seed_x: int,
    seed_y: int,
    radius: int,
    tolerance: int,
    contiguous: bool,
    p: int,
)
    requires
        0 <= seed_x < width,
        0 <= seed_y < height,
        0 <= radius,
        255 <= tolerance,
        0 <= p < width * height,
    ensures
        wand_selects(rgba, width, height, seed_x, seed_y, radius, tolerance, contiguous, p),
{
    let hits = wand_hits(rgba, width, height, seed_x, seed_y, radius, tolerance);
    let color = reference_color(rgba, width, height, seed_x, seed_y, radius);
    assert forall|c: int| 0 <= c < 4 implies 0 <= #[trigger] color[c] <= 255 by {
        let x0 = crate::pixels::max_of(seed_x - radius, 0);
        let x1 = crate::pixels::min_of(seed_x + radius, width - 1) + 1;
        let y0 = crate::pixels::max_of(seed_y - radius, 0);
        let y1 = crate::pixels::min_of(seed_y + radius, height - 1) + 1;
        let samples = (x1 - x0) * (y1 - y0);
        let sum = box_sum(rgba, width, c, x0, x1, y0, y1);
        lemma_box_sum_bounds(rgba, width, c, x0, x1, y0, y1);
        assert(1 <= samples) by (nonlinear_arith)
            requires
                samples == (x1 - x0) * (y1 - y0),
                1 <= x1 - x0,
                1 <= y1 - y0,
        ;
        assert(0 <= (sum + samples / 2) / samples <= 255) by (nonlinear_arith)
            requires
                1 <= samples,
                0 <= sum <= 255 * samples,
        ;
    }
    assert forall|q: int| 0 <= q < hits.len() implies #[trigger] hits[q] by {
        assert forall|c: int| 0 <= c < 4 implies -tolerance <= rgba[4 * q + c] - #[trigger] color[c] <= tolerance by {
            assert(0 <= color[c] <= 255);
        }
        assert(matches_color(rgba, q, color, tolerance));
    }
    crate::pixels::lemma_coords(width, height, p);
    lemma_walk_anywhere(hits, width, height, seed_x, seed_y, p % width, p / width);
}

/// With a point sample a pixel is selected only where each of its channels is
/// within the tolerance of that channel of the seed pixel. Without a limit to
/// connected pixels every such pixel is selected.
pub proof fn selection_compares_every_channel(
    rgba: &[u8],
    width: usize,
    height: usize,
    seed_x: usize,
    seed_y: usize,
    tolerance: i32,
    contiguous: bool,
    r: (Vec<u8>, usize),
    x: int,
    y: int,
    c: int,
)
    requires
        seed_x < width,
        seed_y < height,
        4 * (width * height) <= rgba.len(),
        call_ensures(wand_mask, (rgba, width, height, seed_x, seed_y, 0usize, tolerance, contiguous), r),
        0 <= x < width,
        0 <= y < height,
        0 <= c < 4,
    ensures
        r.0@.len() == width * height,
        r.0@[y * width + x] == 0 || r.0@[y * width + x] == 255,
        rgba@[4 * (y * width + x) + c] - rgba@[4 * (seed_y * width + seed_x) + c] > tolerance ==> r.0@[y * width + x] == 0,
        rgba@[4 * (seed_y * width + seed_x) + c] - rgba@[4 * (y * width + x) + c] > tolerance ==> r.0@[y * width + x] == 0,
        !contiguous && (forall|k: int|
            0 <= k < 4 ==> -tolerance <= #[trigger] rgba@[4 * (y * width + x) + k] - rgba@[4 * (seed_y * width + seed_x)
                + k] <= tolerance) ==> r.0@[y * width + x] == 255,
{
    let (w, h, sx, sy) = (width as int, height as int, seed_x as int, seed_y as int);
    let p = y * width + x;
    let seed = sy * w + sx;
    crate::pixels::lemma_cell(w, h, x, y);
    crate::pixels::lemma_cell(w, h, sx, sy);
    let color = reference_color(rgba@, w, h, sx, sy, 0);
    assert forall|k: int| 0 <= k < 4 implies #[trigger] color[k] == rgba@[4 * seed + k] by {
        lemma_point_reference(rgba@, w, h, sx, sy, k);
    }
    let hits = wand_hits(rgba@, w, h, sx, sy, 0, tolerance as int);
    if contiguous && r.0@[p] == 255 {
        contiguous_selection_is_part_of_all_matches(rgba@, w, h, sx, sy, 0, tolerance as int, p);
    }
    assert(r.0@[p] == 255 ==> hits[p]);
    if hits[p] {
        assert(color[c] == rgba@[4 * seed + c]);
    }
    if forall|k: int|
        0 <= k < 4 ==> -tolerance <= #[trigger] rgba@[4 * (y * width + x) + k] - rgba@[4 * (seed_y * width + seed_x) + k]
            <= tolerance {
        assert forall|k: int| 0 <= k < 4 implies -tolerance <= rgba@[4 * p + k] - #[trigger] color[k] <= tolerance by {
            assert(-tolerance <= rgba@[4 * (y * width + x) + k] - rgba@[4 * (seed_y * width + seed_x) + k] <= tolerance);
        }
        assert(matches_color(rgba@, p, color, tolerance as int));
        assert(hits[p]);
    }
}

/// The sum over a box counts each of its pixels once: a byte that is raised
/// there raises the sum as much, one elsewhere does not, and an image of zeros
/// has the sum 0.
pub proof fn box_sums_count_each_pixel_once(
    rgba: Seq<u8>,
    width: int,
    height: int,
    c: int,
    x0: int,
    x1: int,
    y0: int,
    y1: int,
    x: int,
    y: int,
    k: int,
    v: u8,
)
    requires
        0 <= x0 <= x1 <= width,
        0 <= y0 <= y1 <= height,
        4 * (width * height) <= rgba.len(),
        0 <= c < 4,
        0 <= x < width,
        0 <= y < height,
        0 <= k < 4,
    ensures
        box_sum(rgba.update(4 * (y * width + x) + k, v), width, c, x0, x1, y0, y1) == box_sum(rgba, width, c, x0, x1, y0, y1) + (
        if x0 <= x < x1 && y0 <= y < y1 && k == c {
            v - rgba[4 * (y * width + x) + k]
        } else {
            0
        }),
        (forall|b: int| 0 <= b < rgba.len() ==> #[trigger] rgba[b] == 0) ==> box_sum(rgba, width, c, x0, x1, y0, y1) == 0,
    decreases y1 - y0,
{
    crate::pixels::lemma_cell(width, height, x, y);
    if y0 < y1 {
        box_sums_count_each_pixel_once(rgba, width, height, c, x0, x1, y0, y1 - 1, x, y, k, v);
        lemma_row_sum_counts(rgba, width, height, c, y1 - 1, x0, x1, x, y, k, v);
    }
}

/// The sum over a row counts each of its pixels once.
proof fn lemma_row_sum_counts(rgba: Seq<u8>, width: int, height: int, c: int, row: int, x0: int, x1: int, x: int, y: int, k: int, v: u8)
    requires
        0 <= x0 <= x1 <= width,
        0 <= row < height,
        4 * (width * height) <= rgba.len(),
        0 <= c < 4,
        0 <= x < width,
        0 <= y < height,
        0 <= k < 4,
    ensures
        row_sum(rgba.update(4 * (y * width + x) + k, v), width, c, row, x0, x1) == row_sum(rgba, width, c, row, x0, x1) + (
        if x0 <= x < x1 && y == row && k == c {
            v - rgba[4 * (y * width + x) + k]
        } else {
            0
        }),
        (forall|b: int| 0 <= b < rgba.len() ==> #[trigger] rgba[b] == 0) ==> row_sum(rgba, width, c, row, x0, x1) == 0,
    decreases x1 - x0,
{
    crate::pixels::lemma_cell(width, height, x, y);
    if x0 < x1 {
        crate::pixels::lemma_cell(width, height, x1 - 1, row);
        lemma_row_sum_counts(rgba, width, height, c, row, x0, x1 - 1, x, y, k, v);
        let i = 4 * (row * width + x1 - 1) + c;
        assert(row_sum(rgba, width, c, row, x0, x1) == row_sum(rgba, width, c, row, x0, x1 - 1) + rgba[i]);
        if i == 4 * (y * width + x) + k {
            assert((row * width + x1 - 1) == (y * width + x) && c == k);
        }
    }
}

/// The reference color is the mean, rounded to nearest with ties up, over the
/// pixels of the image that are at most `radius` columns and rows away from the
/// seed.
pub proof fn reference_is_the_mean_around_the_seed(
    rgba: Seq<u8>,
    width: int,
    height: int,
    seed_x: int,
    seed_y: int,
    radius: int,
    c: int,
    x0: int,
    x1: int,
    y0: int,
    y1: int,
)
    requires
        0 <= seed_x < width,
        0 <= seed_y < height,
        0 <= radius,
        0 <= c < 4,
        forall|x: int| 0 <= x < width && seed_x - radius <= x <= seed_x + radius <==> #[trigger] crate::pixels::between(x0, x, x1),
        forall|y: int| 0 <= y < height && seed_y - radius <= y <= seed_y + radius <==> #[trigger] crate::pixels::between(y0, y, y1),
    ensures
        1 <= (x1 - x0) * (y1 - y0),
        -((x1 - x0) * (y1 - y0)) <= 2 * (box_sum(rgba, width, c, x0, x1, y0, y1) - (x1 - x0) * (y1 - y0) * reference(
            rgba,
            width,
            height,
            seed_x,
            seed_y,
            radius,
            c,
        )) < (x1 - x0) * (y1 - y0),
        0 <= reference(rgba, width, height, seed_x, seed_y, radius, c) <= 255,
{
    crate::pixels::lemma_range(
        crate::pixels::max_of(seed_x - radius, 0),
        crate::pixels::min_of(seed_x + radius, width - 1) + 1,
        x0,
        x1,
    );
    crate::pixels::lemma_range(
        crate::pixels::max_of(seed_y - radius, 0),
        crate::pixels::min_of(seed_y + radius, height - 1) + 1,
        y0,
        y1,
    );
    let n = (x1 - x0) * (y1 - y0);
    let sum = box_sum(rgba, width, c, x0, x1, y0, y1);
    lemma_box_sum_bounds(rgba, width, c, x0, x1, y0, y1);
    assert(1 <= n) by (nonlinear_arith)
        requires
            n == (x1 - x0) * (y1 - y0),
            1 <= x1 - x0,
            1 <= y1 - y0,
    ;
    let r = (sum + n / 2) / n;
    vstd::arithmetic::div_mod::lemma_fundamental_div_mod(sum + n / 2, n);
    assert(0 <= r <= 255) by (nonlinear_arith)
        requires
            r == (sum + n / 2) / n,
            1 <= n,
            0 <= sum <= 255 * n,
    ;
}

/// The selection holds exactly the matching pixels: those of which each channel
/// is within the tolerance of the reference color.
pub proof fn unlimited_selection_is_all_that_matches(
    rgba: &[u8],
    width: usize,
    height: usize,
    seed_x: usize,
    seed_y: usize,
    radius: usize,
    tolerance: i32,
    r: (Vec<u8>, usize),
    x: int,
    y: int,
)
    requires
        seed_x < width,
        seed_y < height,
        4 * (width * height) <= rgba.len(),
        call_ensures(wand_mask, (rgba, width, height, seed_x, seed_y, radius, tolerance, false), r),
        0 <= x < width,
        0 <= y < height,
    ensures
        r.0@[y * width + x] == 255 <==> forall|c: int|
            0 <= c < 4 ==> -tolerance <= #[trigger] rgba@[4 * (y * width + x) + c] - reference(
                rgba@,
                width as int,
                height as int,
                seed_x as int,
                seed_y as int,
                radius as int,
                c,
            ) <= tolerance,
{
    let (w, h, sx, sy, rad) = (width as int, height as int, seed_x as int, seed_y as int, radius as int);
    let p = y * width + x;
    crate::pixels::lemma_cell(w, h, x, y);
    let color = reference_color(rgba@, w, h, sx, sy, rad);
    assert forall|c: int| 0 <= c < 4 implies #[trigger] color[c] == reference(rgba@, w, h, sx, sy, rad, c) by {
        lemma_reference_is_a_byte(rgba@, w, h, sx, sy, rad, c);
    }
    if r.0@[p] == 255 {
        assert(matches_color(rgba@, p, color, tolerance as int));
        assert forall|c: int| 0 <= c < 4 implies -tolerance <= #[trigger] rgba@[4 * (y * width + x) + c] - reference(
            rgba@,
            w,
            h,
            sx,
            sy,
            rad,
            c,
        ) <= tolerance by {
            assert(-tolerance <= rgba@[4 * p + c] - color[c] <= tolerance);
        }
    }
    if forall|c: int|
        0 <= c < 4 ==> -tolerance <= #[trigger] rgba@[4 * (y * width + x) + c] - reference(rgba@, w, h, sx, sy, rad, c)
            <= tolerance {
        assert forall|c: int| 0 <= c < 4 implies -tolerance <= rgba@[4 * p + c] - #[trigger] color[c] <= tolerance by {
            assert(-tolerance <= rgba@[4 * (y * width + x) + c] - reference(rgba@, w, h, sx, sy, rad, c) <= tolerance);
        }
    }
}

/// The reference color is made of bytes.
proof fn lemma_reference_is_a_byte(rgba: Seq<u8>, width: int, height: int, seed_x: int, seed_y: int, radius: int, c: int)
    requires
        0 <= seed_x < width,
        0 <= seed_y < height,
        0 <= radius,
        0 <= c < 4,
    ensures
        0 <= reference(rgba, width, height, seed_x, seed_y, radius, c) <= 255,
{
    reference_is_the_mean_around_the_seed(
        rgba,
        width,
        height,
        seed_x,
        seed_y,
        radius,
        c,
        crate::pixels::max_of(seed_x - radius, 0),
        crate::pixels::min_of(seed_x + radius, width - 1) + 1,
        crate::pixels::max_of(seed_y - radius, 0),
        crate::pixels::min_of(seed_y + radius, height - 1) + 1,
    );
}

/// A selection of connected pixels goes on to each matching pixel beside a
/// selected one, to the left, right, above and below.
pub proof fn connected_selection_is_closed(
    rgba: &[u8],
    width: usize,
    height: usize,
    seed_x: usize,
    seed_y: usize,
    radius: usize,
    tolerance: i32,
    near: (Vec<u8>, usize),
    all: (Vec<u8>, usize),
    x: int,
    y: int,
    u: int,
    v: int,
)
    requires
        seed_x < width,
        seed_y < height,
        4 * (width * height) <= rgba.len(),
        call_ensures(wand_mask, (rgba, width, height, seed_x, seed_y, radius, tolerance, true), near),
        call_ensures(wand_mask, (rgba, width, height, seed_x, seed_y, radius, tolerance, false), all),
        0 <= x < width,
        0 <= y < height,
        0 <= u < width,
        0 <= v < height,
        (x == u && (y == v + 1 || v == y + 1)) || (y == v && (x == u + 1 || u == x + 1)),
        near.0@[y * width + x] == 255,
        all.0@[v * width + u] == 255,
    ensures
        near.0@[v * width + u] == 255,
{
    let (w, h, sx, sy) = (width as int, height as int, seed_x as int, seed_y as int);
    let (p, q) = (y * width + x, v * width + u);
    crate::pixels::lemma_cell(w, h, x, y);
    crate::pixels::lemma_cell(w, h, u, v);
    let hits = wand_hits(rgba@, w, h, sx, sy, radius as int, tolerance as int);
    assert((v + 1) * w == v * w + w && (y + 1) * w == y * w + w) by (nonlinear_arith);
    assert(adjacent(w, p, q));
    lemma_walk_on(hits, w, crate::pixels::cell(w, sx, sy), p, q);
}

/// A selection of connected pixels holds nothing else: any set of pixels that
/// holds the seed, and each matching pixel beside one of its own, holds all of
/// it. The seed is selected if it matches.
pub proof fn connected_selection_is_the_smallest(
    rgba: &[u8],
    width: usize,
    height: usize,
    seed_x: usize,
    seed_y: usize,
    radius: usize,
    tolerance: i32,
    near: (Vec<u8>, usize),
    all: (Vec<u8>, usize),
    within: spec_fn(int, int) -> bool,
    x: int,
    y: int,
)
    requires
        seed_x < width,
        seed_y < height,
        4 * (width * height) <= rgba.len(),
        call_ensures(wand_mask, (rgba, width, height, seed_x, seed_y, radius, tolerance, true), near),
        call_ensures(wand_mask, (rgba, width, height, seed_x, seed_y, radius, tolerance, false), all),
        within(seed_x as int, seed_y as int),
        forall|a: int, b: int, u: int, v: int|
            0 <= u < width && 0 <= v < height && 0 <= a < width && 0 <= b < height && #[trigger] within(a, b) && all.0@[v
                * width + u] == 255 && ((a == u && (b == v + 1 || v == b + 1)) || (b == v && (a == u + 1 || u == a + 1)))
                ==> #[trigger] within(u, v),
        0 <= x < width,
        0 <= y < height,
    ensures
        near.0@[y * width + x] == 255 ==> within(x, y),
        near.0@[seed_y * width + seed_x] == 255 <==> all.0@[seed_y * width + seed_x] == 255,
        near.0@[y * width + x] == 255 ==> all.0@[y * width + x] == 255,
{
    let (w, h, sx, sy) = (width as int, height as int, seed_x as int, seed_y as int);
    let p = y * width + x;
    let seed = sy * w + sx;
    crate::pixels::lemma_cell(w, h, x, y);
    crate::pixels::lemma_cell(w, h, sx, sy);
    let hits = wand_hits(rgba@, w, h, sx, sy, radius as int, tolerance as int);
    if near.0@[p] == 255 {
        let walk = choose|walk: Seq<int>| #[trigger] is_walk(hits, w, seed, walk) && walk.last() == p;
        assert forall|a: int, b: int, u: int, v: int|
            0 <= u < width && 0 <= v < height && 0 <= a < width && 0 <= b < height && #[trigger] within(a, b) && hits[v
                * width + u] && ((a == u && (b == v + 1 || v == b + 1)) || (b == v && (a == u + 1 || u == a + 1)))
                implies #[trigger] within(u, v) by {
            crate::pixels::lemma_cell(w, h, u, v);
            assert(all.0@[v * width + u] == 255);
        }
        lemma_walk_stays(hits, w, h, seed, walk, within, walk.len() - 1);
        contiguous_selection_is_part_of_all_matches(rgba@, w, h, sx, sy, radius as int, tolerance as int, p);
    }
    if near.0@[seed] == 255 {
        contiguous_selection_is_part_of_all_matches(rgba@, w, h, sx, sy, radius as int, tolerance as int, seed);
    }
    if all.0@[seed] == 255 {
        let walk = seq![seed];
        assert(is_walk(hits, w, seed, walk));
        assert(walk.last() == seed);
    }
}

/// A walk stays in a set that holds its start and each set cell beside one of
/// its own.
proof fn lemma_walk_stays(hits: Seq<bool>, width: int, height: int, seed: int, walk: Seq<int>, within: spec_fn(int, int) -> bool, i: int)
    requires
        0 < width,
        hits.len() == width * height,
        is_walk(hits, width, seed, walk),
        0 <= i < walk.len(),
        within(seed % width, seed / width),
        forall|a: int, b: int, u: int, v: int|
            0 <= u < width && 0 <= v < height && 0 <= a < width && 0 <= b < height && #[trigger] within(a, b) && hits[v
                * width + u] && ((a == u && (b == v + 1 || v == b + 1)) || (b == v && (a == u + 1 || u == a + 1)))
                ==> #[trigger] within(u, v),
    ensures
        within(walk[i] % width, walk[i] / width),
    decreases i,
{
    if i > 0 {
        lemma_walk_stays(hits, width, height, seed, walk, within, i - 1);
        let (p, q) = (walk[i - 1], walk[i]);
        assert(adjacent(width, p, q));
        crate::pixels::lemma_coords(width, height, p);
        crate::pixels::lemma_coords(width, height, q);
        let (a, b, u, v) = (p % width, p / width, q % width, q / width);
        if p == q + width || q == p + width {
            vstd::arithmetic::div_mod::lemma_mod_add_multiples_vanish(p, width);
            vstd::arithmetic::div_mod::lemma_mod_add_multiples_vanish(q, width);
            assert((v + 1) * width == v * width + width && (b + 1) * width == b * width + width) by (nonlinear_arith);
            if p == q + width {
                crate::pixels::lemma_row_of(width, p, u, v + 1);
            } else {
                crate::pixels::lemma_row_of(width, q, a, b + 1);
            }
        }
        assert(hits[v * width + u]);
        assert(within(a, b));
    }
}

/// The count is that of the selected pixels.
pub proof fn selection_is_counted(
    rgba: &[u8],
    width: usize,
    height: usize,
    seed_x: usize,
    seed_y: usize,
    radius: usize,
    tolerance: i32,
    contiguous: bool,
    r: (Vec<u8>, usize),
)
    requires
        call_ensures(wand_mask, (rgba, width, height, seed_x, seed_y, radius, tolerance, contiguous), r),
    ensures
        r.0@.len() == width * height,
        r.1 == r.0@.filter(|m: u8| m != 0).len(),
        seed_x >= width || seed_y >= height ==> forall|p: int| 0 <= p < r.0@.len() ==> #[trigger] r.0@[p] == 0,
{
    lemma_count_filtered(r.0@, r.0@.len() as int);
    assert(r.0@.take(r.0@.len() as int) =~= r.0@);
}

proof fn lemma_count_filtered(mask: Seq<u8>, k: int)
    requires
        0 <= k <= mask.len(),
    ensures
        count_set(mask, k) == mask.take(k).filter(|m: u8| m != 0).len(),
    decreases k,
{
    reveal(Seq::filter);
    if k > 0 {
        lemma_count_filtered(mask, k - 1);
        assert(mask.take(k).drop_last() =~= mask.take(k - 1));
        assert(mask.take(k).last() == mask[k - 1]);
    }
}

} // verus!
