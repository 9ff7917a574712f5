//! Film grain: the random numbers of each pixel, and grain through a mask.
use crate::hash::scramble;
use crate::pixels::blend_masked;
use vstd::prelude::*;

verus! {

/// The hash that drives the grain.
pub fn noise_hash(x: u32) -> (r: u32)
    ensures
        r == crate::hash::scrambled(x),
{
    scramble(x)
}

/// A number in the unit interval, times 2^24.
pub fn noise_unit(key: u32) -> (r: u32)
    ensures
        r == crate::hash::scrambled(key) / 256,
        r < 0x100_0000,
{
    noise_hash(key) / 256
}

/// The key of channel `c` of pixel `p`.
pub open spec fn channel_key(seed: u32, p: u32, c: u32, monochromatic: bool) -> u32 {
    let base = crate::hash::scrambled(seed ^ crate::hash::scrambled(p));
    if monochromatic {
        base
    } else {
        base.wrapping_add(c.wrapping_mul(0x9e3779b9))
    }
}

/// The two random numbers, times 2^24, of channel `c` of the pixel with index
/// `p`. Uniform grain uses the first alone.
pub fn noise_units(seed: u32, p: u32, c: u32, monochromatic: bool) -> (r: (u32, u32))
    ensures
        r.0 == crate::hash::scrambled(channel_key(seed, p, c, monochromatic)) / 256,
        r.1 == crate::hash::scrambled(channel_key(seed, p, c, monochromatic) ^ 0x68e31da4u32) / 256,
        r.0 < 0x100_0000,
        r.1 < 0x100_0000,
{
    let base: u32 = noise_hash(seed ^ noise_hash(p));
    let key: u32 = if monochromatic {
        base
    } else {
        base.wrapping_add(c.wrapping_mul(0x9e3779b9))
    };
    (noise_unit(key), noise_unit(key ^ 0x68e31da4u32))
}

/// Monochromatic grain is the same in each channel.
pub proof fn monochromatic_grain_is_shared(seed: u32, p: u32, c: u32, d: u32)
    ensures
        channel_key(seed, p, c, true) == channel_key(seed, p, d, true),
{
}

/// Color grain has a key of its own in each of the three color channels.
pub proof fn color_grain_differs_by_channel(seed: u32, p: u32, c: u32, d: u32)
    requires
        c < 3,
        d < 3,
        c != d,
    ensures
        channel_key(seed, p, c, false) != channel_key(seed, p, d, false),
{
}

/// Blends the color of each pixel toward its noisy value by mask/255. `noisy`
/// is the image with grain; alpha stays.
pub fn noise_add_masked(rgba: &mut [u8], mask: &[u8], noisy: &[u8])
    requires
        old(rgba).len() as int / 4 <= mask.len(),
        old(rgba).len() <= noisy.len(),
    ensures
        final(rgba)@ == crate::pixels::blended_through(old(rgba)@, mask@, noisy@, 3),
{
    blend_masked(rgba, mask, noisy, 3);
}

/// Different pixels have different grain, and so has a pixel for different
/// seeds, in each channel.
pub proof fn grain_differs_by_pixel_and_seed(seed: u32, other: u32, p: u32, q: u32, c: u32, monochromatic: bool)
    ensures
        p != q ==> channel_key(seed, p, c, monochromatic) != channel_key(seed, q, c, monochromatic),
        seed != other ==> channel_key(seed, p, c, monochromatic) != channel_key(other, p, c, monochromatic),
{
    let (hp, hq) = (crate::hash::scrambled(p), crate::hash::scrambled(q));
    if p != q {
        crate::hash::hashes_differ(p, q);
        assert(hp != hq ==> seed ^ hp != seed ^ hq) by (bit_vector);
        crate::hash::hashes_differ(seed ^ hp, seed ^ hq);
    }
    if seed != other {
        assert(seed != other ==> seed ^ hp != other ^ hp) by (bit_vector);
        crate::hash::hashes_differ(seed ^ hp, other ^ hp);
    }
}

} // verus!
