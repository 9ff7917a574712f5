//! Levels: histograms, automatic endpoints, and lookup tables on pixels.
use crate::number::F64;
use crate::pixels::blend_masked;
use vstd::prelude::*;

verus! {

/// The image with the color of each pixel looked up in a table for each
/// channel. Fully transparent pixels, and bytes behind the last whole pixel,
/// stay.
pub open spec fn leveled(data: Seq<u8>, tables: [[u8; 256]; 3]) -> Seq<u8> {
    Seq::new(
        data.len(),
        |b: int|
            if b < data.len() as int / 4 * 4 && b % 4 != 3 && data[b / 4 * 4 + 3] != 0 {
                tables[b % 4][data[b] as int]
            } else {
                data[b]
            },
    )
}

/// Apply lookup tables for red, green and blue in place to an RGBA buffer.
pub fn levels_apply(data: &mut [u8], tables: &[[u8; 256]; 3])
    ensures
        final(data)@ == leveled(old(data)@, *tables),
{
    let ghost src = data@;
    let n: usize = data.len() / 4 * 4;
    let mut b: usize = 0;
    while b < n
        invariant
            b <= n,
            n == src.len() as int / 4 * 4,
            n <= data.len(),
            data@.len() == src.len(),
            forall|i: int| 0 <= i < b ==> #[trigger] data@[i] == leveled(src, *tables)[i],
            forall|i: int| b <= i < src.len() ==> #[trigger] data@[i] == src[i],
            forall|i: int| 0 <= i < src.len() && i % 4 == 3 ==> #[trigger] data@[i] == src[i],
        decreases n - b,
    {
        let c: usize = b % 4;
        if c != 3 {
            assert(b as int / 4 * 4 + 3 == b - c + 3);
            if data[b - c + 3] != 0 {
                data[b] = tables[c][data[b] as usize];
            }
        }
        b = b + 1;
    }
}

/// Alpha and fully transparent pixels never change.
pub proof fn levels_keep_alpha_and_transparent_pixels(data: Seq<u8>, tables: [[u8; 256]; 3], b: int)
    requires
        0 <= b < data.len(),
    ensures
        b % 4 == 3 ==> leveled(data, tables)[b] == data[b],
        b / 4 * 4 + 3 < data.len() && data[b / 4 * 4 + 3] == 0 ==> leveled(data, tables)[b] == data[b],
{
}

/// Tables that give each value back change nothing.
pub proof fn identity_tables_change_nothing(data: Seq<u8>, tables: [[u8; 256]; 3])
    requires
        forall|c: int, v: int| 0 <= c < 3 && 0 <= v < 256 ==> #[trigger] tables[c][v] == v,
    ensures
        leveled(data, tables) == data,
{
    assert(leveled(data, tables) =~= data);
}

/// Apply lookup tables through a per-pixel mask (0 = untouched, 255 = full).
pub fn levels_apply_masked(data: &mut [u8], mask: &[u8], tables: &[[u8; 256]; 3])
    requires
        old(data).len() as int / 4 <= mask.len(),
    ensures
        final(data)@ == crate::pixels::blended_through(old(data)@, mask@, leveled(old(data)@, *tables), 3),
{
    let mut adjusted: Vec<u8> = vstd::slice::slice_to_vec(data);
    levels_apply(adjusted.as_mut_slice(), tables);
    blend_masked(data, mask, adjusted.as_slice(), 3);
}

/// How many of the first `k` pixels that are not fully transparent have the
/// value `v` in channel `c`.
pub open spec fn value_count(data: Seq<u8>, c: int, v: int, k: int) -> int
    decreases k,
{
    if k <= 0 {
        0
    } else {
        value_count(data, c, v, k - 1) + if data[4 * (k - 1) + 3] != 0 && data[4 * (k - 1) + c] == v {
            1int
        } else {
            0int
        }
    }
}

/// Bin `v` of the composite histogram, in thirds: the sum over the channels.
pub open spec fn composite_count(data: Seq<u8>, v: int, k: int) -> int {
    value_count(data, 0, v, k) + value_count(data, 1, v, k) + value_count(data, 2, v, k)
}

/// Whether the bins count the first `k` pixels: the composite in thirds, then
/// red, green and blue.
pub open spec fn counts(bins: [[u64; 256]; 4], data: Seq<u8>, k: int) -> bool {
    &&& forall|v: int| 0 <= v < 256 ==> #[trigger] bins[0][v] == composite_count(data, v, k)
    &&& forall|v: int| 0 <= v < 256 ==> #[trigger] bins[1][v] == value_count(data, 0, v, k)
    &&& forall|v: int| 0 <= v < 256 ==> #[trigger] bins[2][v] == value_count(data, 1, v, k)
    &&& forall|v: int| 0 <= v < 256 ==> #[trigger] bins[3][v] == value_count(data, 2, v, k)
}

proof fn lemma_value_count_bounds(data: Seq<u8>, c: int, v: int, k: int)
    requires
        0 <= k,
    ensures
        0 <= value_count(data, c, v, k) <= k,
    decreases k,
{
    if k > 0 {
        lemma_value_count_bounds(data, c, v, k - 1);
    }
}

/// Channel histograms plus a composite. Returns [RGB, R, G, B]; the composite
/// is the mean of the channels, given in thirds. Fully transparent pixels do
/// not count.
pub fn histogram(data: &[u8]) -> (bins: [[u64; 256]; 4])
    ensures
        counts(bins, data@, data@.len() as int / 4),
{
    let n: usize = data.len() / 4;
    let mut bins: [[u64; 256]; 4] = [[0u64; 256]; 4];
    let mut i: usize = 0;
    while i < n
        invariant
            i <= n,
            n == data.len() as int / 4,
            counts(bins, data@, i as int),
        decreases n - i,
    {
        if data[4 * i + 3] != 0 {
            let r: usize = data[4 * i] as usize;
            let g: usize = data[4 * i + 1] as usize;
            let b: usize = data[4 * i + 2] as usize;
            proof {
                assert forall|v: int, c: int| 0 <= v < 256 implies 0 <= #[trigger] value_count(data@, c, v, i as int)
                    <= i by {
                    lemma_value_count_bounds(data@, c, v, i as int);
                }
            }
            bins[1][r] = bins[1][r] + 1;
            bins[2][g] = bins[2][g] + 1;
            bins[3][b] = bins[3][b] + 1;
            bins[0][r] = bins[0][r] + 1;
            bins[0][g] = bins[0][g] + 1;
            bins[0][b] = bins[0][b] + 1;
        }
        i = i + 1;
    }
    bins
}

/// Black point, gamma, white point and output range of one channel.
#[derive(Clone, Copy, Debug, PartialEq, Eq, Structural)]
pub struct LevelRange {
    pub black: F64,
    pub gamma: F64,
    pub white: F64,
    pub output_black: F64,
    pub output_white: F64,
}

/// The range that changes nothing: 0, 1, 255, 0 and 255.
pub open spec fn neutral_range() -> LevelRange {
    LevelRange {
        black: F64 { bits: 0 },
        gamma: F64 { bits: 0x3ff0_0000_0000_0000 },
        white: F64 { bits: 0x406f_e000_0000_0000 },
        output_black: F64 { bits: 0 },
        output_white: F64 { bits: 0x406f_e000_0000_0000 },
    }
}

impl Default for LevelRange {
    fn default() -> (r: Self)
        ensures
            r == neutral_range(),
    {
        LevelRange {
            black: F64 { bits: 0 },
            gamma: F64 { bits: 0x3ff0_0000_0000_0000 },
            white: F64 { bits: 0x406f_e000_0000_0000 },
            output_black: F64 { bits: 0 },
            output_white: F64 { bits: 0x406f_e000_0000_0000 },
        }
    }
}

/// Ranges of all channels: 0 = composite RGB, 1..=3 = R/G/B.
#[derive(Clone, Copy, Debug)]
pub struct LevelsSettings {
    pub ranges: [LevelRange; 4],
}

impl Default for LevelsSettings {
    fn default() -> (r: Self)
        ensures
            forall|c: int| 0 <= c < 4 ==> #[trigger] r.ranges[c] == neutral_range(),
    {
        let n: LevelRange = LevelRange::default();
        LevelsSettings { ranges: [n, n, n, n] }
    }
}

/// How automatic levels choose their endpoints.
#[derive(Clone, Copy, Debug, PartialEq, Eq, Structural)]
pub enum AutoMode {
    /// Shared interval across channels, preserves channel relationships.
    Contrast,
    /// Per-channel endpoint stretch.
    Color,
    /// Per-channel stretch plus neutralizing gamma.
    ColorNeutral,
}

/// Black and white points that automatic levels set: of the composite, and of
/// red, green and blue. `None` leaves a range as it is.
#[derive(Clone, Copy, Debug, PartialEq, Eq)]
pub struct AutoLevels {
    /// Black and white point of the composite range.
    pub composite: Option<(u8, u8)>,
    /// Black and white point of red.
    pub red: Option<(u8, u8)>,
    /// Black and white point of green.
    pub green: Option<(u8, u8)>,
    /// Black and white point of blue.
    pub blue: Option<(u8, u8)>,
}

/// Sum of the bins from `lo` up to but without `hi`.
pub open spec fn bin_sum(bins: Seq<u64>, lo: int, hi: int) -> int
    decreases hi - lo,
{
    if hi <= lo {
        0
    } else {
        bin_sum(bins, lo, hi - 1) + bins[hi - 1]
    }
}

/// The first bin at which the sum from below is more than a thousandth of all.
pub open spec fn is_low(bins: Seq<u64>, i: int) -> bool {
    &&& 0 <= i < bins.len()
    &&& 1000 * bin_sum(bins, 0, i + 1) > bin_sum(bins, 0, bins.len() as int)
    &&& forall|j: int|
        0 <= j < i ==> 1000 * #[trigger] bin_sum(bins, 0, j + 1) <= bin_sum(bins, 0, bins.len() as int)
}

/// The last bin at which the sum from above is more than a thousandth of all.
pub open spec fn is_high(bins: Seq<u64>, i: int) -> bool {
    &&& 0 <= i < bins.len()
    &&& 1000 * bin_sum(bins, i, bins.len() as int) > bin_sum(bins, 0, bins.len() as int)
    &&& forall|j: int|
        i < j < bins.len() ==> 1000 * #[trigger] bin_sum(bins, j, bins.len() as int) <= bin_sum(
            bins,
            0,
            bins.len() as int,
        )
}

/// Black and white point of one channel, if it has any spread.
pub open spec fn endpoints_of(bins: Seq<u64>) -> Option<(u8, u8)> {
    let low = choose|i: int| is_low(bins, i);
    let high = choose|i: int| is_high(bins, i);
    if bin_sum(bins, 0, bins.len() as int) > 0 && low < high {
        Some((low as u8, high as u8))
    } else {
        None
    }
}

/// A black point, where there is one, lies below its white point.
pub open spec fn is_interval(range: Option<(u8, u8)>) -> bool {
    range is Some ==> (range->0).0 < (range->0).1
}

/// The smallest interval that holds both.
pub open spec fn widened(a: Option<(u8, u8)>, b: Option<(u8, u8)>) -> Option<(u8, u8)> {
    match (a, b) {
        (Some((al, ah)), Some((bl, bh))) => Some((if al < bl { al } else { bl }, if ah > bh { ah } else { bh })),
        (Some(_), None) => a,
        (None, _) => b,
    }
}

/// What automatic levels set for a histogram.
pub open spec fn auto_levels(hist: [[u64; 256]; 4], mode: AutoMode) -> AutoLevels {
    let r = endpoints_of(hist[1]@);
    let g = endpoints_of(hist[2]@);
    let b = endpoints_of(hist[3]@);
    if mode == AutoMode::Contrast {
        AutoLevels { composite: widened(widened(r, g), b), red: None, green: None, blue: None }
    } else {
        AutoLevels { composite: None, red: r, green: g, blue: b }
    }
}

proof fn lemma_bin_sum_bounds(bins: Seq<u64>, lo: int, hi: int)
    requires
        0 <= lo <= hi <= bins.len(),
    ensures
        0 <= bin_sum(bins, lo, hi) <= (hi - lo) * u64::MAX,
    decreases hi - lo,
{
    if lo < hi {
        lemma_bin_sum_bounds(bins, lo, hi - 1);
    }
}

proof fn lemma_bin_sum_front(bins: Seq<u64>, lo: int, hi: int)
    requires
        lo < hi,
    ensures
        bin_sum(bins, lo, hi) == bins[lo] + bin_sum(bins, lo + 1, hi),
    decreases hi - lo,
{
    if lo + 1 < hi {
        lemma_bin_sum_front(bins, lo, hi - 1);
    } else {
        assert(bin_sum(bins, lo, lo) == 0);
        assert(bin_sum(bins, lo + 1, hi) == 0);
    }
}

/// Sum of all bins.
fn bin_total(bins: &[u64; 256]) -> (r: u128)
    ensures
        r == bin_sum(bins@, 0, 256),
        r <= 256 * u64::MAX,
{
    let mut sum: u128 = 0;
    let mut i: usize = 0;
    while i < 256
        invariant
            i <= 256,
            sum == bin_sum(bins@, 0, i as int),
            sum <= i * u64::MAX,
        decreases 256 - i,
    {
        sum = sum + bins[i] as u128;
        i = i + 1;
    }
    sum
}

/// Black and white point of one channel, if it has any spread.
fn endpoints(bins: &[u64; 256]) -> (r: Option<(u8, u8)>)
    ensures
        r == endpoints_of(bins@),
        is_interval(r),
{
    let total: u128 = bin_total(bins);
    if total == 0 {
        return None;
    }
    let mut low: usize = 0;
    let mut sum: u128 = bins[0] as u128;
    assert(bin_sum(bins@, 0, 0) == 0);
    assert(bin_sum(bins@, 0, 1) == bins@[0]);
    while sum * 1000 <= total
        invariant
            low < 256,
            0 < total <= 256 * u64::MAX,
            total == bin_sum(bins@, 0, 256),
            sum == bin_sum(bins@, 0, low + 1),
            sum <= (low + 1) * u64::MAX,
            forall|j: int| 0 <= j < low ==> 1000 * #[trigger] bin_sum(bins@, 0, j + 1) <= total,
        decreases 256 - low,
    {
        assert(low < 255);
        low = low + 1;
        sum = sum + bins[low] as u128;
    }
    assert(is_low(bins@, low as int));
    let mut high: usize = 255;
    sum = bins[255] as u128;
    assert(bin_sum(bins@, 255, 255) == 0);
    assert(bin_sum(bins@, 255, 256) == bins@[255]);
    while sum * 1000 <= total
        invariant
            high < 256,
            0 < total <= 256 * u64::MAX,
            total == bin_sum(bins@, 0, 256),
            sum == bin_sum(bins@, high as int, 256),
            sum <= (256 - high) * u64::MAX,
            forall|j: int| high < j < 256 ==> 1000 * #[trigger] bin_sum(bins@, j, 256) <= total,
        decreases high,
    {
        assert(high > 0);
        high = high - 1;
        sum = sum + bins[high] as u128;
        proof {
            lemma_bin_sum_front(bins@, high as int, 256);
        }
    }
    assert(is_high(bins@, high as int));
    proof {
        let l = choose|i: int| is_low(bins@, i);
        let h = choose|i: int| is_high(bins@, i);
        assert(is_low(bins@, l) && is_high(bins@, h));
        if l < low {
            assert(1000 * bin_sum(bins@, 0, l + 1) <= total);
        }
        if low < l {
            assert(1000 * bin_sum(bins@, 0, low + 1) <= total);
        }
        if h < high {
            assert(1000 * bin_sum(bins@, high as int, 256) <= total);
        }
        if high < h {
            assert(1000 * bin_sum(bins@, h, 256) <= total);
        }
    }
    if low < high {
        Some((low as u8, high as u8))
    } else {
        None
    }
}

/// The smallest interval that holds both.
fn widen(a: Option<(u8, u8)>, b: Option<(u8, u8)>) -> (r: Option<(u8, u8)>)
    requires
        is_interval(a),
        is_interval(b),
    ensures
        r == widened(a, b),
        is_interval(r),
{
    match (a, b) {
        (Some((al, ah)), Some((bl, bh))) => Some((if al < bl { al } else { bl }, if ah > bh { ah } else { bh })),
        (Some(x), None) => Some(x),
        (None, other) => other,
    }
}

/// Black and white points from a histogram: a thousandth of the pixels is cut
/// off at each end. `hist` is [RGB, R, G, B].
pub fn auto_settings(hist: &[[u64; 256]; 4], mode: AutoMode) -> (r: AutoLevels)
    ensures
        r == auto_levels(*hist, mode),
        is_interval(r.composite),
        is_interval(r.red),
        is_interval(r.green),
        is_interval(r.blue),
{
    let r: Option<(u8, u8)> = endpoints(&hist[1]);
    let g: Option<(u8, u8)> = endpoints(&hist[2]);
    let b: Option<(u8, u8)> = endpoints(&hist[3]);
    if mode == AutoMode::Contrast {
        AutoLevels { composite: widen(widen(r, g), b), red: None, green: None, blue: None }
    } else {
        AutoLevels { composite: None, red: r, green: g, blue: b }
    }
}

/// How many bins from `lo` up to but without `hi` hold something, but not more
/// than `v`.
pub open spec fn filled_up_to(bins: Seq<u64>, v: int, lo: int, hi: int) -> int
    decreases hi - lo,
{
    if hi <= lo {
        0
    } else {
        filled_up_to(bins, v, lo, hi - 1) + if 0 < bins[hi - 1] <= v {
            1int
        } else {
            0int
        }
    }
}

/// How many bins from 1 to 254 hold something.
pub open spec fn interior_count(bins: Seq<u64>) -> int {
    filled_up_to(bins, u64::MAX as int, 1, 255)
}

/// Whether `v` is the 95th percentile of the bins from 1 to 254 that hold
/// something: the least of them with more than 19 twentieths of the others at
/// or below it.
pub open spec fn is_typical(bins: Seq<u64>, v: int) -> bool {
    let rank = (interior_count(bins) - 1) * 19 / 20;
    &&& exists|i: int| 1 <= i < 255 && 0 < #[trigger] bins[i] && bins[i] == v
    &&& filled_up_to(bins, v, 1, 255) > rank
    &&& forall|i: int|
        1 <= i < 255 && 0 < #[trigger] bins[i] && filled_up_to(bins, bins[i] as int, 1, 255) > rank ==> v <= bins[i]
}

/// Whether `v` is the largest bin.
pub open spec fn is_peak(bins: Seq<u64>, v: int) -> bool {
    &&& exists|i: int| 0 <= i < bins.len() && #[trigger] bins[i] == v
    &&& forall|i: int| 0 <= i < bins.len() ==> #[trigger] bins[i] <= v
}

/// Whether bins are displayed at the scale `scale`: that of the peak, but at
/// most four times the typical interior bin.
pub open spec fn is_display_scale(bins: Seq<u64>, scale: int) -> bool {
    exists|peak: int| #[trigger] is_peak(bins, peak) && if peak == 0 || interior_count(bins) == 0 {
        scale == peak
    } else {
        exists|typical: int|
            #[trigger] is_typical(bins, typical) && scale == crate::pixels::min_of(peak, 4 * typical)
    }
}

proof fn lemma_filled_bounds(bins: Seq<u64>, v: int, lo: int, hi: int)
    requires
        lo <= hi,
    ensures
        0 <= filled_up_to(bins, v, lo, hi) <= hi - lo,
        (forall|i: int| lo <= i < hi ==> bins[i] <= v) ==> filled_up_to(bins, v, lo, hi) == filled_up_to(
            bins,
            u64::MAX as int,
            lo,
            hi,
        ),
        filled_up_to(bins, v, lo, hi) > 0 ==> exists|i: int| lo <= i < hi && 0 < #[trigger] bins[i],
        filled_up_to(bins, u64::MAX as int, lo, hi) == 0 ==> forall|i: int| lo <= i < hi ==> #[trigger] bins[i] == 0,
    decreases hi - lo,
{
    if lo < hi {
        lemma_filled_bounds(bins, v, lo, hi - 1);
        lemma_filled_bounds(bins, u64::MAX as int, lo, hi - 1);
        if filled_up_to(bins, v, lo, hi) > 0 {
            if 0 < bins[hi - 1] {
                assert(0 < bins[hi - 1]);
            } else {
                assert(filled_up_to(bins, v, lo, hi - 1) > 0);
            }
        }
    }
}

/// How many bins from 1 to 254 hold something, but not more than `v`.
fn interior_up_to(bins: &[u64; 256], v: u64) -> (r: usize)
    ensures
        r == filled_up_to(bins@, v as int, 1, 255),
        r <= 254,
{
    let mut count: usize = 0;
    let mut i: usize = 1;
    while i < 255
        invariant
            1 <= i <= 255,
            count == filled_up_to(bins@, v as int, 1, i as int),
            count < i,
        decreases 255 - i,
    {
        if 0 < bins[i] && bins[i] <= v {
            count = count + 1;
        }
        i = i + 1;
    }
    count
}

/// Display-only vertical scaling: keep linear ratios but cap isolated spikes
/// at 4x the interior 95th percentile.
pub fn histogram_display_scale(bins: &[u64; 256]) -> (r: u64)
    ensures
        is_display_scale(bins@, r as int),
{
    let mut peak: u64 = bins[0];
    let mut i: usize = 1;
    while i < 256
        invariant
            1 <= i <= 256,
            exists|k: int| 0 <= k < i && #[trigger] bins@[k] == peak,
            forall|k: int| 0 <= k < i ==> #[trigger] bins@[k] <= peak,
        decreases 256 - i,
    {
        if bins[i] > peak {
            peak = bins[i];
        }
        i = i + 1;
    }
    assert(is_peak(bins@, peak as int));
    let count: usize = interior_up_to(bins, u64::MAX);
    if peak == 0 || count == 0 {
        return peak;
    }
    let rank: usize = (count - 1) * 19 / 20;
    let mut typical: u64 = peak;
    let mut found: bool = false;
    i = 1;
    while i < 255
        invariant
            1 <= i <= 255,
            count == interior_count(bins@),
            0 < count <= 254,
            rank == (count - 1) * 19 / 20,
            forall|k: int| 0 <= k < 256 ==> #[trigger] bins@[k] <= peak,
            typical <= peak,
            found ==> filled_up_to(bins@, typical as int, 1, 255) > rank && exists|k: int|
                1 <= k < 255 && 0 < #[trigger] bins@[k] && bins@[k] == typical,
            forall|k: int|
                1 <= k < i && 0 < #[trigger] bins@[k] && filled_up_to(bins@, bins@[k] as int, 1, 255) > rank ==> found
                    && typical <= bins@[k],
        decreases 255 - i,
    {
        let v: u64 = bins[i];
        if v > 0 && (!found || v < typical) && interior_up_to(bins, v) > rank {
            typical = v;
            found = true;
            assert(bins@[i as int] == typical);
        }
        i = i + 1;
    }
    proof {
        lemma_filled_bounds(bins@, u64::MAX as int, 1, 255);
        let top = lemma_interior_top(bins@, 255);
        lemma_filled_bounds(bins@, bins@[top] as int, 1, 255);
        assert(is_typical(bins@, typical as int));
    }
    if typical > peak / 4 {
        peak
    } else {
        typical * 4
    }
}

/// One of the bins from 1 on that hold something is the largest.
proof fn lemma_interior_top(bins: Seq<u64>, hi: int) -> (top: int)
    requires
        1 <= hi <= bins.len(),
        exists|i: int| 1 <= i < hi && 0 < #[trigger] bins[i],
    ensures
        1 <= top < hi,
        0 < bins[top],
        forall|i: int| 1 <= i < hi ==> bins[i] <= bins[top],
    decreases hi,
{
    let w = choose|i: int| 1 <= i < hi && 0 < #[trigger] bins[i];
    if exists|i: int| 1 <= i < hi - 1 && 0 < #[trigger] bins[i] {
        let prev = lemma_interior_top(bins, hi - 1);
        if bins[hi - 1] > bins[prev] {
            hi - 1
        } else {
            prev
        }
    } else {
        assert(w == hi - 1);
        hi - 1
    }
}

/// Each color byte of a pixel that is not fully transparent is looked up in the
/// table of its channel, and every other byte stays.
pub proof fn levels_look_colors_up(data: Seq<u8>, tables: [[u8; 256]; 3], p: int, c: int)
    requires
        0 <= p,
        0 <= c < 4,
        4 * p + c < data.len(),
    ensures
        leveled(data, tables).len() == data.len(),
        c < 3 && 4 * p + 4 <= data.len() && data[4 * p + 3] != 0 ==> leveled(data, tables)[4 * p + c] == tables[c][data[4 * p
            + c] as int],
        c == 3 || 4 * p + 4 > data.len() || data[4 * p + 3] == 0 ==> leveled(data, tables)[4 * p + c] == data[4 * p + c],
{
    assert((4 * p + c) / 4 == p && (4 * p + c) % 4 == c);
}

/// A pixel that is added to an image counts once in the bin of each of its
/// colors, and once for each of them in the composite, unless it is fully
/// transparent. Nothing counts in an image without pixels.
pub proof fn histograms_count_each_pixel_once(
    data: &[u8],
    more: &[u8],
    r: u8,
    g: u8,
    b: u8,
    a: u8,
    before: [[u64; 256]; 4],
    after: [[u64; 256]; 4],
    v: int,
)
    requires
        data.len() % 4 == 0,
        more@ == data@ + seq![r, g, b, a],
        call_ensures(histogram, (data,), before),
        call_ensures(histogram, (more,), after),
        0 <= v < 256,
    ensures
        data.len() == 0 ==> before[0][v] == 0 && before[1][v] == 0 && before[2][v] == 0 && before[3][v] == 0,
        after[1][v] == before[1][v] + if a != 0 && r == v { 1int } else { 0 },
        after[2][v] == before[2][v] + if a != 0 && g == v { 1int } else { 0 },
        after[3][v] == before[3][v] + if a != 0 && b == v { 1int } else { 0 },
        after[0][v] == after[1][v] + after[2][v] + after[3][v],
{
    let k = data@.len() as int / 4;
    assert(more@.len() as int / 4 == k + 1);
    lemma_value_count_prefix(data@, more@, 0, v, k);
    lemma_value_count_prefix(data@, more@, 1, v, k);
    lemma_value_count_prefix(data@, more@, 2, v, k);
    assert(more@[4 * k] == r && more@[4 * k + 1] == g && more@[4 * k + 2] == b && more@[4 * k + 3] == a);
}

proof fn lemma_value_count_prefix(data: Seq<u8>, more: Seq<u8>, c: int, v: int, k: int)
    requires
        0 <= c < 4,
        4 * k <= data.len() <= more.len(),
        forall|i: int| 0 <= i < data.len() ==> #[trigger] more[i] == data[i],
    ensures
        value_count(more, c, v, k) == value_count(data, c, v, k),
    decreases k,
{
    if k > 0 {
        lemma_value_count_prefix(data, more, c, v, k - 1);
    }
}

/// The sum over a range counts each bin once.
pub proof fn bin_sums_count_each_bin_once(bins: Seq<u64>, lo: int, hi: int, i: int, v: u64)
    requires
        0 <= lo <= hi <= bins.len(),
        0 <= i < bins.len(),
    ensures
        bin_sum(bins.update(i, v), lo, hi) == bin_sum(bins, lo, hi) + if lo <= i < hi { v - bins[i] } else { 0 },
        (forall|k: int| 0 <= k < bins.len() ==> #[trigger] bins[k] == 0) ==> bin_sum(bins, lo, hi) == 0,
    decreases hi - lo,
{
    if lo < hi {
        bin_sums_count_each_bin_once(bins, lo, hi - 1, i, v);
    }
}

/// A channel has endpoints `low` and `high` where each of them is the first bin,
/// from its end, up to which more than a thousandth of all was counted, and the
/// one lies below the other. It has none if nothing was counted.
pub proof fn endpoints_cut_off_a_thousandth(bins: Seq<u64>, low: int, high: int)
    requires
        bins.len() == 256,
        0 <= low < 256,
        0 <= high < 256,
        1000 * bin_sum(bins, 0, low + 1) > bin_sum(bins, 0, 256),
        1000 * bin_sum(bins, 0, low) <= bin_sum(bins, 0, 256),
        1000 * bin_sum(bins, high, 256) > bin_sum(bins, 0, 256),
        1000 * bin_sum(bins, high + 1, 256) <= bin_sum(bins, 0, 256),
    ensures
        low < high ==> endpoints_of(bins) == Some((low as u8, high as u8)),
        low >= high ==> endpoints_of(bins) is None,
{
    assert forall|j: int| 0 <= j < low implies 1000 * #[trigger] bin_sum(bins, 0, j + 1) <= bin_sum(bins, 0, 256) by {
        lemma_bin_sum_grows(bins, j + 1, low);
    }
    assert forall|j: int| high < j < 256 implies 1000 * #[trigger] bin_sum(bins, j, 256) <= bin_sum(bins, 0, 256) by {
        lemma_bin_sum_shrinks(bins, high + 1, j);
    }
    assert(is_low(bins, low));
    assert(is_high(bins, high));
    let l = choose|i: int| is_low(bins, i);
    let h = choose|i: int| is_high(bins, i);
    assert(is_low(bins, l) && is_high(bins, h));
    if l < low {
        assert(1000 * bin_sum(bins, 0, l + 1) <= bin_sum(bins, 0, 256));
    }
    if low < l {
        assert(1000 * bin_sum(bins, 0, low + 1) <= bin_sum(bins, 0, 256));
    }
    if h < high {
        assert(1000 * bin_sum(bins, high, 256) <= bin_sum(bins, 0, 256));
    }
    if high < h {
        assert(1000 * bin_sum(bins, h, 256) <= bin_sum(bins, 0, 256));
    }
    lemma_bin_sum_bounds(bins, 0, low + 1);
    lemma_bin_sum_bounds(bins, 0, 256);
    lemma_bin_sum_grows(bins, low + 1, 256);
}

proof fn lemma_bin_sum_grows(bins: Seq<u64>, a: int, b: int)
    requires
        0 <= a <= b <= bins.len(),
    ensures
        bin_sum(bins, 0, a) <= bin_sum(bins, 0, b),
    decreases b - a,
{
    if a < b {
        lemma_bin_sum_grows(bins, a, b - 1);
    }
}

proof fn lemma_bin_sum_shrinks(bins: Seq<u64>, a: int, b: int)
    requires
        0 <= a <= b <= bins.len(),
    ensures
        bin_sum(bins, b, bins.len() as int) <= bin_sum(bins, a, bins.len() as int),
    decreases b - a,
{
    if a < b {
        lemma_bin_sum_front(bins, a, bins.len() as int);
        lemma_bin_sum_shrinks(bins, a + 1, b);
    }
}

/// Automatic contrast gives all channels the interval that holds those of each,
/// and no channel one of its own; the other modes give each channel its own.
pub proof fn contrast_shares_one_interval(hist: &[[u64; 256]; 4], mode: AutoMode, r: AutoLevels)
    requires
        call_ensures(auto_settings, (hist, mode), r),
    ensures
        mode != AutoMode::Contrast ==> {
            &&& r.composite is None
            &&& r.red == endpoints_of(hist[1]@)
            &&& r.green == endpoints_of(hist[2]@)
            &&& r.blue == endpoints_of(hist[3]@)
        },
        mode == AutoMode::Contrast ==> {
            &&& r.red is None && r.green is None && r.blue is None
            &&& r.composite is None <==> forall|c: int| 1 <= c < 4 ==> endpoints_of(#[trigger] hist[c]@) is None
            &&& r.composite matches Some((low, high)) ==> {
                &&& forall|c: int|
                    1 <= c < 4 && endpoints_of(#[trigger] hist[c]@) is Some ==> low <= (endpoints_of(hist[c]@)->0).0
                        && (endpoints_of(hist[c]@)->0).1 <= high
                &&& exists|c: int|
                    1 <= c < 4 && endpoints_of(#[trigger] hist[c]@) is Some && low == (endpoints_of(hist[c]@)->0).0
                &&& exists|c: int|
                    1 <= c < 4 && endpoints_of(#[trigger] hist[c]@) is Some && high == (endpoints_of(hist[c]@)->0).1
            }
        },
{
    assert(endpoints_of(hist[1]@) is None || endpoints_of(hist[1]@) is Some);
    assert(endpoints_of(hist[2]@) is None || endpoints_of(hist[2]@) is Some);
    assert(endpoints_of(hist[3]@) is None || endpoints_of(hist[3]@) is Some);
}

/// The scale of a display is that of the largest bin, or four times a bin `v`
/// between the ends where that is less: one that holds something, with more than
/// nineteen twentieths of the others at or below it, while fewer bins are below
/// it.
pub proof fn display_scale_caps_spikes(bins: &[u64; 256], r: u64, peak: u64)
    requires
        call_ensures(histogram_display_scale, (bins,), r),
        forall|i: int| 0 <= i < 256 ==> #[trigger] bins@[i] <= peak,
        exists|i: int| 0 <= i < 256 && #[trigger] bins@[i] == peak,
    ensures
        r <= peak,
        (forall|i: int| 1 <= i < 255 ==> #[trigger] bins@[i] == 0) ==> r == peak,
        (exists|i: int| 1 <= i < 255 && #[trigger] bins@[i] > 0) ==> exists|i: int| {
            let n = bins@.subrange(1, 255).filter(|b: u64| b > 0).len() as int;
            let upto = |v: u64| bins@.subrange(1, 255).filter(|b: u64| 0 < b <= v).len() as int;
            &&& 1 <= i < 255 && #[trigger] bins@[i] > 0
            &&& r == (if 4 * bins@[i] <= peak { 4 * bins@[i] } else { peak as int })
            &&& upto(bins@[i]) > (n - 1) * 19 / 20
            &&& forall|j: int| 1 <= j < 255 && 0 < #[trigger] bins@[j] < bins@[i] ==> upto(bins@[j]) <= (n - 1) * 19 / 20
        },
{
    let all = bins@;
    let p = choose|p: int|
        #[trigger] is_peak(all, p) && if p == 0 || interior_count(all) == 0 {
            r == p
        } else {
            exists|t: int| #[trigger] is_typical(all, t) && r == crate::pixels::min_of(p, 4 * t)
        };
    assert(p == peak);
    lemma_filled_bounds(all, u64::MAX as int, 1, 255);
    if exists|i: int| 1 <= i < 255 && #[trigger] all[i] > 0 {
        let k = choose|i: int| 1 <= i < 255 && #[trigger] all[i] > 0;
        let t = choose|t: int| #[trigger] is_typical(all, t) && r == crate::pixels::min_of(p, 4 * t);
        let i = choose|i: int| 1 <= i < 255 && 0 < #[trigger] all[i] && all[i] == t;
        let inner = all.subrange(1, 255);
        assert forall|v: u64| inner.filter(|b: u64| 0 < b <= v).len() == #[trigger] filled_up_to(all, v as int, 1, 255) by {
            lemma_filled_filtered(all, v, 254);
            assert(all.subrange(1, 255) =~= inner);
        }
        lemma_filled_filtered(all, u64::MAX, 254);
        assert(inner.filter(|b: u64| 0 < b <= u64::MAX) =~= inner.filter(|b: u64| b > 0)) by {
            assert((|b: u64| 0 < b <= u64::MAX) =~= (|b: u64| b > 0));
        }
        assert(all[i] == t);
        assert(filled_up_to(all, all[i] as int, 1, 255) > (interior_count(all) - 1) * 19 / 20);
        assert forall|j: int| 1 <= j < 255 && 0 < #[trigger] all[j] < all[i] implies inner.filter(
            |b: u64| 0 < b <= all[j],
        ).len() <= (inner.filter(|b: u64| b > 0).len() - 1) * 19 / 20 by {
            let v = all[j];
            assert(filled_up_to(all, v as int, 1, 255) == inner.filter(|b: u64| 0 < b <= v).len());
        }
    }
}

proof fn lemma_filled_filtered(bins: Seq<u64>, v: u64, k: int)
    requires
        0 <= k < bins.len(),
    ensures
        filled_up_to(bins, v as int, 1, 1 + k) == bins.subrange(1, 1 + k).filter(|b: u64| 0 < b <= v).len(),
    decreases k,
{
    reveal(Seq::filter);
    if k > 0 {
        lemma_filled_filtered(bins, v, k - 1);
        assert(bins.subrange(1, 1 + k).drop_last() =~= bins.subrange(1, k));
        assert(bins.subrange(1, 1 + k).last() == bins[k]);
    }
}

} // verus!
