//! Gaussian blur through a mask.
use crate::pixels::blend_masked;
use vstd::prelude::*;

verus! {

/// Blends each pixel toward its blurred value by mask/255. `blurred` is the
/// blurred image.
pub fn blur_apply_masked(rgba: &mut [u8], mask: &[u8], blurred: &[u8])
    requires
        old(rgba).len() as int / 4 <= mask.len(),
        old(rgba).len() <= blurred.len(),
    ensures
        final(rgba)@ == crate::pixels::blended_through(old(rgba)@, mask@, blurred@, 4),
{
    blend_masked(rgba, mask, blurred, 4);
}

/// The position of tap `k` of a kernel with `taps` taps that is centered on
/// `v`, moved inside a line of length `limit`.
pub fn tap_position(v: usize, k: usize, taps: usize, limit: usize) -> (r: usize)
    requires
        v < limit,
        k < taps,
    ensures
        r == crate::pixels::clamped(v + k - taps / 2, 0, limit - 1),
        0 <= v + k - taps / 2 < limit ==> r == v + k - taps / 2,
        v + k < taps / 2 ==> r == 0,
        limit <= v + k - taps / 2 ==> r == limit - 1,
{
    let half: usize = taps / 2;
    if k >= half {
        if k - half < limit - v {
            v + (k - half)
        } else {
            limit - 1
        }
    } else if half - k <= v {
        v - (half - k)
    } else {
        0
    }
}

} // verus!
