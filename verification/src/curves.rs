//! Tone curves: control points, when they are valid, and how they are edited.
use crate::number::F64;
use vstd::prelude::*;

verus! {

/// Bit pattern of 255.
pub const BITS_255: u64 = 0x406f_e000_0000_0000;

/// A control point of a curve.
#[derive(Clone, Copy, Debug, PartialEq, Eq, Structural)]
pub struct CurvePoint {
    pub x: F64,
    pub y: F64,
}

/// Channel order matches levels: 0 = composite RGB, 1..=3 = R/G/B.
/// Each channel's points run from (0,_) to (255,_) with strictly rising x.
#[derive(Clone, Debug)]
pub struct CurvesSettings {
    pub channels: [Vec<CurvePoint>; 4],
}

/// Whether a number lies between 0 and 255.
pub open spec fn in_range(v: F64) -> bool {
    v.finite() && 0 <= v.key() <= BITS_255
}

/// Whether points form a valid channel.
pub open spec fn valid_channel(points: Seq<CurvePoint>) -> bool {
    &&& 2 <= points.len() <= 32
    &&& points[0].x.key() == 0
    &&& points[points.len() - 1].x.key() == BITS_255
    &&& forall|i: int| 0 <= i < points.len() ==> in_range((#[trigger] points[i]).x) && in_range(points[i].y)
    &&& forall|i: int, j: int|
        0 <= i < j < points.len() ==> (#[trigger] points[i]).x.key() < (#[trigger] points[j]).x.key()
}

/// Whether two finite numbers are equal.
pub open spec fn same(a: F64, b: F64) -> bool {
    a.key() == b.key()
}

/// Whether points run along the diagonal from (0, 0) to (255, 255).
pub open spec fn identity_channel(points: Seq<CurvePoint>) -> bool {
    &&& 0 < points.len()
    &&& points[0].x.key() == 0
    &&& points[points.len() - 1].x.key() == BITS_255
    &&& forall|i: int|
        0 <= i < points.len() ==> !(#[trigger] points[i]).x.nan() && !points[i].y.nan() && same(points[i].x, points[i].y)
}

/// The points of the straight line.
pub open spec fn line_points() -> Seq<CurvePoint> {
    seq![
        CurvePoint { x: F64 { bits: 0 }, y: F64 { bits: 0 } },
        CurvePoint { x: F64 { bits: BITS_255 }, y: F64 { bits: BITS_255 } },
    ]
}

/// The straight line.
pub fn straight_line() -> (r: Vec<CurvePoint>)
    ensures
        r@ == line_points(),
{
    let mut line: Vec<CurvePoint> = Vec::new();
    line.push(CurvePoint { x: F64 { bits: 0 }, y: F64 { bits: 0 } });
    line.push(CurvePoint { x: F64 { bits: BITS_255 }, y: F64 { bits: BITS_255 } });
    line
}

impl Default for CurvesSettings {
    fn default() -> (r: Self)
        ensures
            forall|c: int| 0 <= c < 4 ==> (#[trigger] r.channels[c])@ == line_points(),
    {
        CurvesSettings { channels: [straight_line(), straight_line(), straight_line(), straight_line()] }
    }
}

/// Whether points form a valid channel.
fn channel_is_valid(points: &Vec<CurvePoint>) -> (r: bool)
    ensures
        r == valid_channel(points@),
{
    let n: usize = points.len();
    if n < 2 || n > 32 || points[0].x.order() != 0 || points[n - 1].x.order() != BITS_255 as i128 {
        return false;
    }
    let mut i: usize = 0;
    while i < n
        invariant
            i <= n,
            n == points.len(),
            forall|k: int| 0 <= k < i ==> in_range((#[trigger] points@[k]).x) && in_range(points@[k].y),
            forall|k: int, j: int|
                0 <= k < j < i ==> (#[trigger] points@[k]).x.key() < (#[trigger] points@[j]).x.key(),
        decreases n - i,
    {
        let p: CurvePoint = points[i];
        let top: i128 = BITS_255 as i128;
        let x_ok: bool = p.x.is_finite() && 0 <= p.x.order() && p.x.order() <= top;
        let y_ok: bool = p.y.is_finite() && 0 <= p.y.order() && p.y.order() <= top;
        if !x_ok || !y_ok {
            assert(!(in_range(points@[i as int].x) && in_range(points@[i as int].y)));
            return false;
        }
        if i > 0 && points[i - 1].x.order() >= p.x.order() {
            assert(!(points@[i - 1].x.key() < points@[i as int].x.key()));
            return false;
        }
        i = i + 1;
    }
    true
}

/// Whether points run along the diagonal.
fn channel_is_identity(points: &Vec<CurvePoint>) -> (r: bool)
    ensures
        r == identity_channel(points@),
{
    let n: usize = points.len();
    if n == 0 || points[0].x.order() != 0 || points[n - 1].x.order() != BITS_255 as i128 {
        return false;
    }
    let mut i: usize = 0;
    while i < n
        invariant
            i <= n,
            n == points.len(),
            forall|k: int|
                0 <= k < i ==> !(#[trigger] points@[k]).x.nan() && !points@[k].y.nan() && same(points@[k].x, points@[k].y),
        decreases n - i,
    {
        let p: CurvePoint = points[i];
        if p.x.is_nan() || p.y.is_nan() || p.x.order() != p.y.order() {
            assert(points@[i as int] == p);
            return false;
        }
        i = i + 1;
    }
    true
}

impl CurvesSettings {
    /// Whether each channel is valid.
    pub open spec fn valid(self) -> bool {
        forall|c: int| 0 <= c < 4 ==> valid_channel((#[trigger] self.channels[c])@)
    }

    /// Whether each channel is the diagonal.
    pub open spec fn identity(self) -> bool {
        forall|c: int| 0 <= c < 4 ==> identity_channel((#[trigger] self.channels[c])@)
    }

    /// Whether the curves can be evaluated.
    pub fn is_valid(&self) -> (r: bool)
        ensures
            r == self.valid(),
    {
        let mut c: usize = 0;
        while c < 4
            invariant
                c <= 4,
                forall|k: int| 0 <= k < c ==> valid_channel((#[trigger] self.channels[k])@),
            decreases 4 - c,
        {
            if !channel_is_valid(&self.channels[c]) {
                assert(!valid_channel(self.channels[c as int]@));
                return false;
            }
            c = c + 1;
        }
        true
    }

    /// Every point on the diagonal means that the curve is the identity line.
    pub fn is_identity(&self) -> (r: bool)
        ensures
            r == self.identity(),
    {
        let mut c: usize = 0;
        while c < 4
            invariant
                c <= 4,
                forall|k: int| 0 <= k < c ==> identity_channel((#[trigger] self.channels[k])@),
            decreases 4 - c,
        {
            if !channel_is_identity(&self.channels[c]) {
                assert(!identity_channel(self.channels[c as int]@));
                return false;
            }
            c = c + 1;
        }
        true
    }
}

/// The straight line is valid, and is the identity.
pub proof fn line_is_valid_identity()
    ensures
        valid_channel(line_points()),
        identity_channel(line_points()),
{
}

/// The first of the distances with the lowest value, if that is below 14.
pub open spec fn is_nearest(distances: Seq<F64>, i: int) -> bool {
    &&& 0 <= i < distances.len()
    &&& distances[i].key() < 0x402c_0000_0000_0000
    &&& forall|j: int| 0 <= j < distances.len() ==> distances[i].key() <= (#[trigger] distances[j]).key()
    &&& forall|j: int| 0 <= j < i ==> distances[i].key() < (#[trigger] distances[j]).key()
}

/// The control point that a press picks up: the nearest one, if it is less
/// than 14 away.
pub fn nearest_point(distances: &Vec<F64>) -> (r: Option<usize>)
    ensures
        match r {
            Some(i) => is_nearest(distances@, i as int),
            None => forall|j: int| 0 <= j < distances@.len() ==> (#[trigger] distances@[j]).key() >= 0x402c_0000_0000_0000,
        },
{
    let n: usize = distances.len();
    if n == 0 {
        return None;
    }
    let mut best: usize = 0;
    let mut i: usize = 1;
    while i < n
        invariant
            best < i <= n,
            n == distances.len(),
            forall|j: int| 0 <= j < i ==> distances@[best as int].key() <= (#[trigger] distances@[j]).key(),
            forall|j: int| 0 <= j < best ==> distances@[best as int].key() < (#[trigger] distances@[j]).key(),
        decreases n - i,
    {
        if distances[i].order() < distances[best].order() {
            best = i;
        }
        i = i + 1;
    }
    if distances[best].order() < 0x402c_0000_0000_0000 {
        Some(best)
    } else {
        None
    }
}

/// Where a new point goes: behind the points with a lower input.
pub open spec fn slot(points: Seq<CurvePoint>, x: F64, k: int) -> int
    decreases k,
{
    if k <= 0 {
        0
    } else {
        slot(points, x, k - 1) + if points[k - 1].x.key() < x.key() {
            1int
        } else {
            0int
        }
    }
}

/// Whether a point with this input may be added: there is room, it is inside
/// the ends, and it keeps its distance from each point.
pub open spec fn may_add(points: Seq<CurvePoint>, x: F64, gaps: Seq<F64>) -> bool {
    &&& points.len() < 32
    &&& 0x3ff0_0000_0000_0000 < x.key() < 0x406f_c000_0000_0000
    &&& forall|i: int| 0 <= i < gaps.len() ==> (#[trigger] gaps[i]).key() > 0x3ff0_0000_0000_0000
}

proof fn lemma_slot(points: Seq<CurvePoint>, x: F64, k: int)
    requires
        0 <= k <= points.len(),
        forall|i: int, j: int|
            0 <= i < j < points.len() ==> (#[trigger] points[i]).x.key() < (#[trigger] points[j]).x.key(),
    ensures
        0 <= slot(points, x, k) <= k,
        forall|i: int| 0 <= i < slot(points, x, k) ==> (#[trigger] points[i]).x.key() < x.key(),
        forall|i: int| slot(points, x, k) <= i < k ==> (#[trigger] points[i]).x.key() >= x.key(),
    decreases k,
{
    if k > 0 {
        lemma_slot(points, x, k - 1);
    }
}

/// Adds a point to a channel and returns its index, if it may be added. `gaps`
/// holds how far `x` is from the input of each point.
pub fn add_point(points: &mut Vec<CurvePoint>, x: F64, y: F64, gaps: &Vec<F64>) -> (r: Option<usize>)
    requires
        forall|i: int, j: int|
            0 <= i < j < old(points)@.len() ==> (#[trigger] old(points)@[i]).x.key() < (#[trigger] old(points)@[j]).x.key(),
    ensures
        match r {
            Some(i) => may_add(old(points)@, x, gaps@) && i == slot(old(points)@, x, old(points)@.len() as int)
                && final(points)@ == old(points)@.insert(i as int, CurvePoint { x, y }),
            None => !may_add(old(points)@, x, gaps@) && final(points)@ == old(points)@,
        },
{
    let n: usize = points.len();
    if n >= 32 || x.order() <= 0x3ff0_0000_0000_0000 || x.order() >= 0x406f_c000_0000_0000 {
        return None;
    }
    let mut g: usize = 0;
    while g < gaps.len()
        invariant
            g <= gaps.len(),
            n == points.len(),
            points@ == old(points)@,
            forall|i: int| 0 <= i < g ==> (#[trigger] gaps@[i]).key() > 0x3ff0_0000_0000_0000,
        decreases gaps.len() - g,
    {
        if gaps[g].order() <= 0x3ff0_0000_0000_0000 {
            assert(!(gaps@[g as int].key() > 0x3ff0_0000_0000_0000));
            return None;
        }
        g = g + 1;
    }
    let mut at: usize = 0;
    let mut i: usize = 0;
    while i < n
        invariant
            i <= n,
            n == points.len(),
            at == slot(points@, x, i as int),
            at <= i,
        decreases n - i,
    {
        if points[i].x.order() < x.order() {
            at = at + 1;
        }
        i = i + 1;
    }
    points.insert(at, CurvePoint { x, y });
    Some(at)
}

/// Adding a point that may be added, at an input that no point has, to a valid
/// channel gives a valid channel.
pub proof fn adding_a_point_keeps_a_channel_valid(points: Seq<CurvePoint>, x: F64, y: F64, gaps: Seq<F64>)
    requires
        valid_channel(points),
        may_add(points, x, gaps),
        in_range(x),
        in_range(y),
        forall|i: int| 0 <= i < points.len() ==> (#[trigger] points[i]).x.key() != x.key(),
    ensures
        valid_channel(points.insert(slot(points, x, points.len() as int), CurvePoint { x, y })),
{
    let n = points.len() as int;
    lemma_slot(points, x, n);
    let at = slot(points, x, n);
    let next = points.insert(at, CurvePoint { x, y });
    assert(points[0].x.key() < x.key());
    assert(points[n - 1].x.key() > x.key());
    assert(0 < at < n);
    assert forall|i: int| 0 <= i < next.len() implies in_range((#[trigger] next[i]).x) && in_range(next[i].y) by {
        if i < at {
            assert(next[i] == points[i]);
        } else if i > at {
            assert(next[i] == points[i - 1]);
        }
    }
    assert forall|i: int, j: int| 0 <= i < j < next.len() implies (#[trigger] next[i]).x.key() < (#[trigger] next[j]).x.key() by {
        let a = if i < at { points[i] } else if i > at { points[i - 1] } else { CurvePoint { x, y } };
        let b = if j < at { points[j] } else if j > at { points[j - 1] } else { CurvePoint { x, y } };
        assert(next[i] == a && next[j] == b);
    }
}

/// Moves a point: its output always, its input only inside the ends, kept
/// between `lo` and `hi`.
pub fn move_point(points: &mut Vec<CurvePoint>, i: usize, x: F64, y: F64, lo: F64, hi: F64)
    ensures
        final(points)@ == moved_point(old(points)@, i as int, x, y, lo, hi),
{
    if i >= points.len() {
        return;
    }
    let mut p: CurvePoint = points[i];
    p.y = y;
    if i > 0 && i < points.len() - 1 {
        let capped: F64 = if hi.order() < x.order() { hi } else { x };
        p.x = if capped.order() < lo.order() { lo } else { capped };
    }
    points.set(i, p);
}

/// The points after moving one.
pub open spec fn moved_point(points: Seq<CurvePoint>, i: int, x: F64, y: F64, lo: F64, hi: F64) -> Seq<CurvePoint> {
    if i >= points.len() {
        points
    } else if 0 < i < points.len() - 1 {
        let capped = if hi.key() < x.key() { hi } else { x };
        points.update(i, CurvePoint { x: if capped.key() < lo.key() { lo } else { capped }, y })
    } else {
        points.update(i, CurvePoint { x: points[i].x, y })
    }
}

/// Moving a point of a valid channel between its neighbors keeps it valid.
pub proof fn moving_a_point_keeps_a_channel_valid(points: Seq<CurvePoint>, i: int, x: F64, y: F64, lo: F64, hi: F64)
    requires
        valid_channel(points),
        0 <= i < points.len(),
        in_range(y),
        0 < i < points.len() - 1 ==> in_range(x) && in_range(lo) && in_range(hi) && lo.key() <= hi.key()
            && points[i - 1].x.key() < lo.key() && hi.key() < points[i + 1].x.key(),
    ensures
        valid_channel(moved_point(points, i, x, y, lo, hi)),
{
    let next = moved_point(points, i, x, y, lo, hi);
    assert forall|j: int| 0 <= j < next.len() implies in_range((#[trigger] next[j]).x) && in_range(next[j].y) by {
        assert(in_range(points[j].x) && in_range(points[j].y));
    }
    assert forall|a: int, b: int| 0 <= a < b < next.len() implies (#[trigger] next[a]).x.key() < (#[trigger] next[b]).x.key() by {
        assert(points[a].x.key() < points[b].x.key());
        if a == i && 0 < i < points.len() - 1 {
            assert(points[i + 1].x.key() <= points[b].x.key());
        }
        if b == i && 0 < i < points.len() - 1 {
            assert(points[a].x.key() <= points[i - 1].x.key());
        }
    }
}

/// Whether a point can be removed: the ends cannot.
pub fn is_removable(len: usize, i: usize) -> (r: bool)
    ensures
        r == (0 < i < len - 1),
{
    i > 0 && i < len && i != len - 1
}

/// Removes a point, unless it is an end.
pub fn remove_point(points: &mut Vec<CurvePoint>, i: usize)
    ensures
        final(points)@ == (if 0 < i < old(points)@.len() - 1 {
            old(points)@.remove(i as int)
        } else {
            old(points)@
        }),
{
    if is_removable(points.len(), i) {
        points.remove(i);
    }
}

/// Removing an inner point of a valid channel keeps it valid.
pub proof fn removing_a_point_keeps_a_channel_valid(points: Seq<CurvePoint>, i: int)
    requires
        valid_channel(points),
        0 < i < points.len() - 1,
    ensures
        valid_channel(points.remove(i)),
{
    let next = points.remove(i);
    assert forall|j: int| 0 <= j < next.len() implies in_range((#[trigger] next[j]).x) && in_range(next[j].y) by {
        assert(in_range(points[if j < i { j } else { j + 1 }].x));
    }
    assert forall|a: int, b: int| 0 <= a < b < next.len() implies (#[trigger] next[a]).x.key() < (#[trigger] next[b]).x.key() by {
        assert(next[a] == points[if a < i { a } else { a + 1 }]);
        assert(next[b] == points[if b < i { b } else { b + 1 }]);
    }
}

/// A valid channel has from 2 to 32 points between 0 and 255 in both
/// directions, from left to right: the first input is 0 and the last one 255.
pub proof fn valid_channels_rise_from_end_to_end(points: Seq<CurvePoint>)
    ensures
        valid_channel(points) <==> {
            &&& 2 <= points.len() <= 32
            &&& points[0].x.bits == 0 || points[0].x.bits == 0x8000_0000_0000_0000
            &&& points.last().x.bits == 0x406f_e000_0000_0000
            &&& forall|i: int|
                0 <= i < points.len() ==> {
                    let (x, y) = ((#[trigger] points[i]).x.bits, points[i].y.bits);
                    &&& x <= 0x406f_e000_0000_0000 || x == 0x8000_0000_0000_0000
                    &&& y <= 0x406f_e000_0000_0000 || y == 0x8000_0000_0000_0000
                }
            &&& forall|i: int, j: int|
                0 <= i && j == i + 1 && j < points.len() ==> (#[trigger] points[i]).x.key() < (#[trigger] points[j]).x.key()
        },
{
    if 2 <= points.len() <= 32 && forall|i: int, j: int|
        0 <= i && j == i + 1 && j < points.len() ==> (#[trigger] points[i]).x.key() < (#[trigger] points[j]).x.key() {
        assert forall|i: int, j: int| 0 <= i < j < points.len() implies (#[trigger] points[i]).x.key() < (
        #[trigger] points[j]).x.key() by {
            lemma_rising(points, i, j);
        }
    }
    if valid_channel(points) {
        assert(in_range(points[0].x) && in_range(points[points.len() - 1].x));
        assert forall|i: int|
            0 <= i < points.len() implies {
            let (x, y) = ((#[trigger] points[i]).x.bits, points[i].y.bits);
            &&& x <= 0x406f_e000_0000_0000 || x == 0x8000_0000_0000_0000
            &&& y <= 0x406f_e000_0000_0000 || y == 0x8000_0000_0000_0000
        } by {
            assert(in_range(points[i].x) && in_range(points[i].y));
        }
    }
}

proof fn lemma_rising(points: Seq<CurvePoint>, i: int, j: int)
    requires
        0 <= i < j < points.len(),
        forall|a: int, b: int|
            0 <= a && b == a + 1 && b < points.len() ==> (#[trigger] points[a]).x.key() < (#[trigger] points[b]).x.key(),
    ensures
        points[i].x.key() < points[j].x.key(),
    decreases j - i,
{
    if j > i + 1 {
        lemma_rising(points, i, j - 1);
    }
    assert(points[j - 1].x.key() < points[j].x.key());
}

/// Channels are the identity where each point has the same input and output,
/// from 0 to 255.
pub proof fn identity_channels_stay_on_the_diagonal(points: Seq<CurvePoint>, i: int)
    requires
        identity_channel(points),
        0 <= i < points.len(),
    ensures
        points[0].x.key() == 0 && points.last().x.key() == 0x406f_e000_0000_0000,
        points[i].x.key() == points[i].y.key(),
        !points[i].x.nan() && !points[i].y.nan(),
{
}

/// A press picks up the first of the nearest points, and only from less than 14
/// away, which has this bit pattern.
pub proof fn presses_pick_up_the_nearest_point(distances: &Vec<F64>, r: Option<usize>, j: int)
    requires
        call_ensures(nearest_point, (distances,), r),
        0 <= j < distances@.len(),
    ensures
        r matches Some(i) ==> {
            &&& i < distances@.len()
            &&& distances@[i as int].key() < 0x402c_0000_0000_0000
            &&& distances@[i as int].key() <= distances@[j].key()
            &&& j < i ==> distances@[i as int].key() < distances@[j].key()
        },
{
}

/// A new point goes behind the points with a lower input and before the others.
pub proof fn new_points_keep_the_order(points: Seq<CurvePoint>, x: F64, i: int)
    requires
        forall|a: int, b: int|
            0 <= a < b < points.len() ==> (#[trigger] points[a]).x.key() < (#[trigger] points[b]).x.key(),
        0 <= i < points.len(),
    ensures
        0 <= slot(points, x, points.len() as int) <= points.len(),
        i < slot(points, x, points.len() as int) <==> points[i].x.key() < x.key(),
{
    lemma_slot(points, x, points.len() as int);
}

/// A point may be added to at most 31, at an input between 1 and 254, and more
/// than 1 away from each point. These are the bit patterns of the three.
pub proof fn points_are_added_with_room(points: Seq<CurvePoint>, x: F64, gaps: Seq<F64>)
    ensures
        may_add(points, x, gaps) <==> {
            &&& points.len() <= 31
            &&& 0x3ff0_0000_0000_0000 < x.bits < 0x406f_c000_0000_0000
            &&& forall|i: int|
                0 <= i < gaps.len() ==> 0x3ff0_0000_0000_0000 < (#[trigger] gaps[i]).bits < 0x8000_0000_0000_0000
        },
{
    if may_add(points, x, gaps) {
        assert forall|i: int| 0 <= i < gaps.len() implies 0x3ff0_0000_0000_0000 < (#[trigger] gaps[i]).bits
            < 0x8000_0000_0000_0000 by {
            assert(gaps[i].key() > 0x3ff0_0000_0000_0000);
        }
    }
    if forall|i: int| 0 <= i < gaps.len() ==> 0x3ff0_0000_0000_0000 < (#[trigger] gaps[i]).bits < 0x8000_0000_0000_0000 {
        assert forall|i: int| 0 <= i < gaps.len() implies (#[trigger] gaps[i]).key() > 0x3ff0_0000_0000_0000 by {
            assert(gaps[i].bits < 0x8000_0000_0000_0000);
        }
    }
}

/// A moved point has the new output. An inner one has the new input where that
/// lies between the limits, and else the nearer limit; the ends keep theirs, and
/// so do all other points.
pub proof fn moved_points_stay_between_limits(points: Seq<CurvePoint>, i: int, x: F64, y: F64, lo: F64, hi: F64, k: int)
    requires
        0 <= i,
        0 <= k < points.len(),
    ensures
        moved_point(points, i, x, y, lo, hi).len() == points.len(),
        k != i ==> moved_point(points, i, x, y, lo, hi)[k] == points[k],
        k == i ==> ({
            let p = moved_point(points, i, x, y, lo, hi)[k];
            &&& p.y == y
            &&& i == 0 || i == points.len() - 1 ==> p.x == points[i].x
            &&& 0 < i < points.len() - 1 && lo.key() <= x.key() <= hi.key() ==> p.x == x
            &&& 0 < i < points.len() - 1 && lo.key() <= hi.key() < x.key() ==> p.x == hi
            &&& 0 < i < points.len() - 1 && x.key() < lo.key() <= hi.key() ==> p.x == lo
            &&& 0 < i < points.len() - 1 && hi.key() < lo.key() ==> p.x == lo
        }),
{
}

/// Curves are valid where each of the four channels is, and the identity where
/// each of them is.
pub proof fn curves_are_judged_by_every_channel(curves: CurvesSettings, c: int)
    requires
        0 <= c < 4,
    ensures
        curves.valid() ==> valid_channel(curves.channels[c]@),
        curves.identity() ==> identity_channel(curves.channels[c]@),
        valid_channel(curves.channels[0]@) && valid_channel(curves.channels[1]@) && valid_channel(curves.channels[2]@)
            && valid_channel(curves.channels[3]@) ==> curves.valid(),
        identity_channel(curves.channels[0]@) && identity_channel(curves.channels[1]@) && identity_channel(
            curves.channels[2]@,
        ) && identity_channel(curves.channels[3]@) ==> curves.identity(),
{
}

/// Points on the diagonal from 0 to 255, of which none is NaN, are the identity.
pub proof fn diagonals_are_the_identity(points: Seq<CurvePoint>)
    requires
        points.len() > 0,
        points[0].x.key() == 0,
        points.last().x.key() == 0x406f_e000_0000_0000,
        forall|i: int| 0 <= i < points.len() ==> (#[trigger] points[i]).x == points[i].y && !points[i].x.nan(),
    ensures
        identity_channel(points),
{
}

} // verus!
