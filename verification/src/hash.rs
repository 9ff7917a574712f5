//! A 32-bit integer hash.
use vstd::prelude::*;

verus! {

/// The hash of `x`: three xor-shifts with a multiplication between each two.
pub open spec fn scrambled(x: u32) -> u32 {
    let a = x ^ (x >> 16u32);
    let b = a.wrapping_mul(0x7feb352d);
    let c = b ^ (b >> 15u32);
    let d = c.wrapping_mul(0x846ca68b);
    d ^ (d >> 16u32)
}

/// Computes the hash of `x`.
pub fn scramble(x: u32) -> (r: u32)
    ensures
        r == scrambled(x),
{
    let a: u32 = x ^ (x >> 16u32);
    let b: u32 = a.wrapping_mul(0x7feb352d);
    let c: u32 = b ^ (b >> 15u32);
    let d: u32 = c.wrapping_mul(0x846ca68b);
    d ^ (d >> 16u32)
}

/// The number with this hash: the steps of the hash undone, last first.
pub open spec fn unscrambled(y: u32) -> u32 {
    let d = y ^ (y >> 16u32);
    let c = d.wrapping_mul(0x43021123);
    let b = c ^ (c >> 15u32) ^ (c >> 30u32);
    let a = b.wrapping_mul(0x1d69e2a5);
    a ^ (a >> 16u32)
}

/// A multiplication is undone by one with an inverse of its factor.
proof fn lemma_factor_undone(x: u32, m: u32, inverse: u32)
    requires
        (m * inverse) as int % 0x1_0000_0000 == 1,
    ensures
        x.wrapping_mul(m).wrapping_mul(inverse) == x,
{
    let range: int = 0x1_0000_0000;
    let (a, b, c) = (x as int, m as int, inverse as int);
    vstd::arithmetic::div_mod::lemma_mul_mod_noop_left(a * b, c, range);
    vstd::arithmetic::mul::lemma_mul_is_associative(a, b, c);
    vstd::arithmetic::div_mod::lemma_mul_mod_noop_right(a, b * c, range);
    assert(a * 1 % range == a);
}

/// The hash is a permutation: each number is the hash of exactly one number.
pub proof fn hash_is_a_permutation(x: u32)
    ensures
        unscrambled(scrambled(x)) == x,
        scrambled(unscrambled(x)) == x,
{
    assert(forall|v: u32| #![auto] (v ^ (v >> 16u32)) ^ ((v ^ (v >> 16u32)) >> 16u32) == v) by (bit_vector);
    assert(forall|v: u32|
        #![auto]
        (v ^ (v >> 15u32)) ^ ((v ^ (v >> 15u32)) >> 15u32) ^ ((v ^ (v >> 15u32)) >> 30u32) == v) by (bit_vector);
    assert(forall|v: u32|
        #![auto]
        (v ^ (v >> 15u32) ^ (v >> 30u32)) ^ ((v ^ (v >> 15u32) ^ (v >> 30u32)) >> 15u32) == v) by (bit_vector);
    let a = x ^ (x >> 16u32);
    let b = a.wrapping_mul(0x7feb352d);
    let c = b ^ (b >> 15u32);
    lemma_factor_undone(a, 0x7feb352d, 0x1d69e2a5);
    lemma_factor_undone(c, 0x846ca68b, 0x43021123);
    let f = a.wrapping_mul(0x43021123);
    let g = f ^ (f >> 15u32) ^ (f >> 30u32);
    lemma_factor_undone(a, 0x43021123, 0x846ca68b);
    lemma_factor_undone(g, 0x1d69e2a5, 0x7feb352d);
}

/// Different numbers have different hashes.
pub proof fn hashes_differ(x: u32, y: u32)
    requires
        x != y,
    ensures
        scrambled(x) != scrambled(y),
{
    hash_is_a_permutation(x);
    hash_is_a_permutation(y);
}

} // verus!
