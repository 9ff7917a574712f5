//! Single-precision arithmetic on integers.
//!
//! A number is a significand times a power of two. Products, quotients and
//! differences are rounded to 24 significant bits, ties to even, as IEEE 754
//! single precision does. The exponent is not limited: the values that occur
//! here are far from the ends of the single-precision range.
use crate::number::F32;
use vstd::prelude::*;

verus! {

/// The number `m * 2^e`.
#[derive(Clone, Copy, Debug)]
pub struct Single {
    /// Significand.
    pub m: u64,
    /// Exponent.
    pub e: i32,
}

/// The power of two.
pub open spec fn p2(k: int) -> int {
    vstd::arithmetic::power2::pow2(k as nat) as int
}

/// The integer nearest to `n / d`, ties to even.
pub open spec fn half_even(n: int, d: int) -> int {
    if 2 * (n % d) < d || (2 * (n % d) == d && (n / d) % 2 == 0) {
        n / d
    } else {
        n / d + 1
    }
}

/// Whether `n / d` lies between `2^(e + 23)` and `2^(e + 24)`.
pub open spec fn in_binade(n: int, d: int, e: int) -> bool {
    if e >= 0 {
        d * p2(e) * 0x80_0000 <= n < d * p2(e) * 0x100_0000
    } else {
        d * 0x80_0000 <= n * p2(-e) < d * 0x100_0000
    }
}

/// The exponent of the last bit of `n / d` in 24 significant bits.
pub open spec fn exponent(n: int, d: int) -> int {
    choose|e: int| in_binade(n, d, e)
}

/// Significand and exponent of `n / d` rounded to 24 significant bits.
pub open spec fn rounded(n: int, d: int) -> (int, int) {
    if n == 0 {
        (0, 0)
    } else {
        let e = exponent(n, d);
        if e >= 0 {
            (half_even(n, d * p2(e)), e)
        } else {
            (half_even(n * p2(-e), d), e)
        }
    }
}

/// The whole part of `m * 2^e`.
pub open spec fn whole(v: (int, int)) -> int {
    if v.1 >= 0 {
        v.0 * p2(v.1)
    } else {
        v.0 / p2(-v.1)
    }
}

/// The integer nearest to `m * 2^e`, ties up.
pub open spec fn nearest(v: (int, int)) -> int {
    if v.1 >= 0 {
        v.0 * p2(v.1)
    } else {
        (2 * v.0 + p2(-v.1)) / (2 * p2(-v.1))
    }
}

/// Whether the first number is below the second.
pub open spec fn below(a: (int, int), b: (int, int)) -> bool {
    if a.1 >= b.1 {
        a.0 * p2(a.1 - b.1) < b.0
    } else {
        a.0 < b.0 * p2(b.1 - a.1)
    }
}

/// The rounded product of two numbers.
pub open spec fn product(a: (int, int), b: (int, int)) -> (int, int) {
    let r = rounded(a.0 * b.0, 1);
    (r.0, r.1 + a.1 + b.1)
}

/// The rounded quotient of two numbers.
pub open spec fn quotient(a: (int, int), b: (int, int)) -> (int, int) {
    let r = rounded(a.0, b.0);
    (r.0, r.1 + a.1 - b.1)
}

/// One minus a number of at most one with a negative exponent, rounded.
pub open spec fn complement(a: (int, int)) -> (int, int) {
    let r = rounded(p2(-a.1) - a.0, 1);
    (r.0, r.1 + a.1)
}

impl Single {
    /// Significand and exponent as integers.
    pub open spec fn parts(self) -> (int, int) {
        (self.m as int, self.e as int)
    }
}

proof fn lemma_p2(k: int)
    requires
        0 <= k,
    ensures
        p2(k) >= 1,
        p2(k + 1) == 2 * p2(k),
        p2(0) == 1,
{
    vstd::arithmetic::power2::lemma_pow2_pos(k as nat);
    vstd::arithmetic::power2::lemma_pow2_unfold((k + 1) as nat);
    vstd::arithmetic::power2::lemma2_to64();
}

proof fn lemma_p2_grows(a: int, b: int)
    requires
        0 <= a < b,
    ensures
        2 * p2(a) <= p2(b),
{
    lemma_p2(a);
    if a + 1 < b {
        vstd::arithmetic::power2::lemma_pow2_strictly_increases((a + 1) as nat, b as nat);
    }
}

/// A number lies in one binade only.
proof fn lemma_binade_unique(n: int, d: int, a: int, b: int)
    requires
        0 < n,
        0 < d,
        in_binade(n, d, a),
        in_binade(n, d, b),
    ensures
        a == b,
{
    if a < b {
        lemma_binade_order(n, d, a, b);
    } else if b < a {
        lemma_binade_order(n, d, b, a);
    }
}

proof fn lemma_binade_order(n: int, d: int, a: int, b: int)
    requires
        0 < n,
        0 < d,
        a < b,
        in_binade(n, d, a),
    ensures
        !in_binade(n, d, b),
{
    if a >= 0 {
        lemma_p2_grows(a, b);
        let (x, y) = (p2(a), p2(b));
        assert(d * x * 0x100_0000 <= d * y * 0x80_0000) by (nonlinear_arith)
            requires
                2 * x <= y,
                0 < d,
        ;
    } else if b >= 0 {
        lemma_p2_grows(0, -a);
        lemma_p2(0);
        lemma_p2(b);
        let (x, y) = (p2(-a), p2(b));
        assert(2 * n <= n * x) by (nonlinear_arith)
            requires
                2 <= x,
                0 < n,
        ;
        assert(d * 0x80_0000 <= d * y * 0x80_0000) by (nonlinear_arith)
            requires
                1 <= y,
                0 < d,
        ;
    } else {
        lemma_p2_grows(-b, -a);
        let (x, y) = (p2(-a), p2(-b));
        assert(2 * (n * y) <= n * x) by (nonlinear_arith)
            requires
                2 * y <= x,
                0 < n,
        ;
    }
}

/// A positive quotient rounds to a positive number with 24 significant bits.
pub proof fn lemma_rounded_positive(n: int, d: int)
    requires
        0 < n,
        0 < d,
        exists|e: int| in_binade(n, d, e),
    ensures
        0x80_0000 <= rounded(n, d).0 <= 0x100_0000,
{
    let e = exponent(n, d);
    assert(in_binade(n, d, e));
    if e >= 0 {
        lemma_p2(e);
        let c = d * p2(e);
        assert(0 < c) by (nonlinear_arith)
            requires
                c == d * p2(e),
                0 < d,
                0 < p2(e),
        ;
        lemma_half_even_24(n, c);
    } else {
        lemma_half_even_24(n * p2(-e), d);
    }
}

proof fn lemma_half_even_24(n: int, d: int)
    requires
        0 < d,
        d * 0x80_0000 <= n < d * 0x100_0000,
    ensures
        0x80_0000 <= half_even(n, d) <= 0x100_0000,
{
    assert(0x80_0000 <= n / d < 0x100_0000) by (nonlinear_arith)
        requires
            0 < d,
            d * 0x80_0000 <= n < d * 0x100_0000,
    ;
}

/// `n / d` rounded to 24 significant bits.
pub fn round_quotient(n: u64, d: u64) -> (r: Single)
    requires
        0 < d,
    ensures
        r.parts() == rounded(n as int, d as int),
        r.m <= 0x100_0000,
        -90 <= r.e <= 64,
        0 < n ==> in_binade(n as int, d as int, r.e as int),
{
    if n == 0 {
        return Single { m: 0, e: 0 };
    }
    let mut a: u128 = n as u128;
    let mut b: u128 = d as u128;
    let mut e: i32 = 0;
    proof {
        lemma_p2(0);
    }
    while a >= b * 0x100_0000
        invariant
            0 <= e <= 64,
            a == n,
            0 < n,
            0 < d,
            b == d * p2(e as int),
            p2(e as int) <= a,
            p2(e as int) >= 1,
            e > 0 ==> b * 0x80_0000 <= a,
            b <= u64::MAX,
        decreases a - b,
    {
        proof {
            lemma_p2(e as int);
            lemma_small_exponent(e as int);
            let x = p2(e as int);
            assert(d * (2 * x) == 2 * (d * x)) by (nonlinear_arith);
            assert(x <= d * x) by (nonlinear_arith)
                requires
                    1 <= d,
                    1 <= x,
            ;
        }
        b = b * 2;
        e = e + 1;
    }
    if e == 0 {
        assert(n * p2(0) == n && d * p2(0) == d) by {
            lemma_p2(0);
        }
        while a < b * 0x80_0000
            invariant
                -90 <= e <= 0,
                b == d,
                0 < n,
                0 < d,
                a == n * p2(-e as int),
                a < b * 0x100_0000,
                b <= u64::MAX,
                p2(-e as int) >= 1,
                p2(-e as int) <= a,
            decreases b * 0x100_0000 - a,
        {
            proof {
                lemma_p2(-e as int);
                lemma_small_exponent_wide(-e as int);
                let x = p2(-e as int);
                assert(n * (2 * x) == 2 * (n * x)) by (nonlinear_arith);
                assert(x <= n * x) by (nonlinear_arith)
                    requires
                        1 <= n,
                        1 <= x,
                ;
            }
            a = a * 2;
            e = e - 1;
        }
    }
    proof {
        assert(in_binade(n as int, d as int, e as int)) by {
            lemma_p2(0);
            assert(d * p2(0) == d);
        }
        let f = exponent(n as int, d as int);
        lemma_binade_unique(n as int, d as int, e as int, f);
    }
    let q: u128 = a / b;
    let r: u128 = a % b;
    assert(0x80_0000 <= q < 0x100_0000) by (nonlinear_arith)
        requires
            q == a / b,
            b * 0x80_0000 <= a < b * 0x100_0000,
            0 < b,
    ;
    let m: u128 = if 2 * r < b || (2 * r == b && q % 2 == 0) { q } else { q + 1 };
    Single { m: m as u64, e }
}

/// A power of two that fits into 64 bits has an exponent below 64.
proof fn lemma_small_exponent(k: int)
    requires
        0 <= k,
        p2(k) <= u64::MAX,
    ensures
        k < 64,
{
    vstd::arithmetic::power2::lemma2_to64();
    if k > 64 {
        vstd::arithmetic::power2::lemma_pow2_strictly_increases(64, k as nat);
    }
}

/// A power of two below `2^88` has an exponent below 88.
proof fn lemma_small_exponent_wide(k: int)
    requires
        0 <= k,
        p2(k) < u64::MAX * 0x100_0000,
    ensures
        k < 88,
{
    vstd::arithmetic::power2::lemma2_to64();
    vstd::arithmetic::power2::lemma_pow2_adds(64, 24);
    if k > 88 {
        vstd::arithmetic::power2::lemma_pow2_strictly_increases(88, k as nat);
    }
}

/// The power of two, for exponents up to 64.
fn power(k: i32) -> (r: u128)
    requires
        0 <= k <= 64,
    ensures
        r == p2(k as int),
        1 <= r <= 0x1_0000_0000_0000_0000,
{
    let mut r: u128 = 1;
    let mut i: i32 = 0;
    proof {
        lemma_p2(k as int);
        vstd::arithmetic::power2::lemma2_to64();
        if k < 64 {
            lemma_p2_grows(k as int, 64);
        }
    }
    while i < k
        invariant
            0 <= i <= k <= 64,
            r == p2(i as int),
            1 <= r <= p2(k as int),
            p2(k as int) <= 0x1_0000_0000_0000_0000,
        decreases k - i,
    {
        proof {
            lemma_p2(i as int);
            lemma_p2_grows(i as int, i + 1);
            if i + 1 < k {
                lemma_p2_grows(i + 1, k as int);
            }
        }
        r = r * 2;
        i = i + 1;
    }
    r
}

/// Whether a number can be calculated with here: its significand has at most
/// 24 bits, or is `2^24`, and its exponent is moderate.
pub open spec fn moderate(v: Single) -> bool {
    v.m <= 0x100_0000 && -1000 <= v.e <= 1000
}

/// The integer as a single-precision number.
pub fn from_int(n: u64) -> (r: Single)
    ensures
        r.parts() == rounded(n as int, 1),
        r.m <= 0x100_0000,
        -90 <= r.e <= 64,
        0 < n ==> in_binade(n as int, 1, r.e as int),
{
    round_quotient(n, 1)
}

/// The product of two numbers.
pub fn times(a: Single, b: Single) -> (r: Single)
    requires
        moderate(a),
        moderate(b),
    ensures
        r.parts() == product(a.parts(), b.parts()),
        r.m <= 0x100_0000,
        a.e + b.e - 90 <= r.e <= a.e + b.e + 64,
{
    assert(a.m * b.m <= 0x100_0000 * 0x100_0000) by (nonlinear_arith)
        requires
            a.m <= 0x100_0000,
            b.m <= 0x100_0000,
    ;
    let r: Single = round_quotient(a.m * b.m, 1);
    Single { m: r.m, e: r.e + a.e + b.e }
}

/// The quotient of two numbers.
pub fn over(a: Single, b: Single) -> (r: Single)
    requires
        moderate(a),
        moderate(b),
        0 < b.m,
    ensures
        r.parts() == quotient(a.parts(), b.parts()),
        r.m <= 0x100_0000,
        a.e - b.e - 90 <= r.e <= a.e - b.e + 64,
{
    let r: Single = round_quotient(a.m, b.m);
    Single { m: r.m, e: r.e + a.e - b.e }
}

/// One minus a number of at most one with a negative exponent.
pub fn one_minus(a: Single) -> (r: Single)
    requires
        -63 <= a.e <= 0,
        a.m <= p2(-a.e as int),
    ensures
        r.parts() == complement(a.parts()),
        r.m <= 0x100_0000,
        a.e - 90 <= r.e <= a.e + 64,
{
    proof {
        vstd::arithmetic::power2::lemma2_to64();
        vstd::arithmetic::power2::lemma2_to64_rest();
        if -a.e < 63 {
            lemma_p2_grows(-a.e as int, 63);
        }
    }
    let one: u128 = power(-a.e);
    let r: Single = round_quotient((one - a.m as u128) as u64, 1);
    Single { m: r.m, e: r.e + a.e }
}

/// Whether the first number is below the second.
pub fn is_below(a: Single, b: Single) -> (r: bool)
    requires
        moderate(a),
        moderate(b),
    ensures
        r == below(a.parts(), b.parts()),
{
    if a.e >= b.e {
        if a.m == 0 {
            return 0 < b.m;
        }
        if a.e - b.e > 64 {
            proof {
                lemma_p2_grows(64, a.e - b.e);
                vstd::arithmetic::power2::lemma2_to64();
                let x = p2(a.e - b.e);
                assert(x <= a.m * x) by (nonlinear_arith)
                    requires
                        1 <= a.m,
                        1 <= x,
                ;
            }
            return false;
        }
        let p: u128 = power(a.e - b.e);
        assert(a.m * p <= 0x100_0000 * 0x1_0000_0000_0000_0000) by (nonlinear_arith)
            requires
                a.m <= 0x100_0000,
                p <= 0x1_0000_0000_0000_0000,
        ;
        (a.m as u128) * p < b.m as u128
    } else {
        if b.m == 0 {
            return false;
        }
        if b.e - a.e > 64 {
            proof {
                lemma_p2_grows(64, b.e - a.e);
                vstd::arithmetic::power2::lemma2_to64();
                let x = p2(b.e - a.e);
                assert(x <= b.m * x) by (nonlinear_arith)
                    requires
                        1 <= b.m,
                        1 <= x,
                ;
            }
            return true;
        }
        let p: u128 = power(b.e - a.e);
        assert(b.m * p <= 0x100_0000 * 0x1_0000_0000_0000_0000) by (nonlinear_arith)
            requires
                b.m <= 0x100_0000,
                p <= 0x1_0000_0000_0000_0000,
        ;
        (a.m as u128) < (b.m as u128) * p
    }
}

/// `m * 2^e` for an exponent that is not negative, at most the largest index.
fn shifted_up(v: Single) -> (r: usize)
    requires
        v.m <= 0x100_0000,
        0 <= v.e <= 10000,
    ensures
        r == crate::pixels::min_of(v.m * p2(v.e as int), usize::MAX as int),
{
    if v.m == 0 {
        assert(0 * p2(v.e as int) == 0);
        return 0;
    }
    if v.e > 64 {
        proof {
            lemma_p2_grows(64, v.e as int);
            vstd::arithmetic::power2::lemma2_to64();
            let x = p2(v.e as int);
            assert(x <= v.m * x) by (nonlinear_arith)
                requires
                    1 <= v.m,
                    1 <= x,
            ;
        }
        return usize::MAX;
    }
    let p: u128 = power(v.e);
    assert(v.m * p <= 0x100_0000 * 0x1_0000_0000_0000_0000) by (nonlinear_arith)
        requires
            v.m <= 0x100_0000,
            p <= 0x1_0000_0000_0000_0000,
    ;
    let t: u128 = (v.m as u128) * p;
    if t > usize::MAX as u128 {
        usize::MAX
    } else {
        t as usize
    }
}

/// The whole part of a number, at most the largest index.
pub fn truncated(v: Single) -> (r: usize)
    requires
        v.m <= 0x100_0000,
        -10000 <= v.e <= 10000,
    ensures
        r == crate::pixels::min_of(whole(v.parts()), usize::MAX as int),
{
    if v.e >= 0 {
        return shifted_up(v);
    }
    if v.e < -64 {
        proof {
            lemma_p2_grows(64, -v.e as int);
            vstd::arithmetic::power2::lemma2_to64();
            vstd::arithmetic::div_mod::lemma_basic_div(v.m as int, p2(-v.e as int));
        }
        return 0;
    }
    let p: u128 = power(-v.e);
    assert(v.m as u128 / p <= v.m) by (nonlinear_arith)
        requires
            1 <= p,
    ;
    ((v.m as u128) / p) as usize
}

/// The integer nearest to a number, ties up, at most the largest index.
pub fn rounded_off(v: Single) -> (r: usize)
    requires
        v.m <= 0x100_0000,
        -10000 <= v.e <= 10000,
    ensures
        r == crate::pixels::min_of(nearest(v.parts()), usize::MAX as int),
{
    if v.e >= 0 {
        return shifted_up(v);
    }
    if v.e < -64 {
        proof {
            lemma_p2_grows(64, -v.e as int);
            vstd::arithmetic::power2::lemma2_to64();
            let p = p2(-v.e as int);
            vstd::arithmetic::div_mod::lemma_basic_div(2 * v.m + p, 2 * p);
        }
        return 0;
    }
    let p: u128 = power(-v.e);
    let t: u128 = (2 * (v.m as u128) + p) / (2 * p);
    assert(t <= v.m + 1) by (nonlinear_arith)
        requires
            t == (2 * v.m + p) / (2 * p) as int,
            1 <= p,
    ;
    t as usize
}

/// Significand and exponent of a finite number that is not negative.
pub open spec fn parts_of(x: F32) -> (int, int) {
    let frac = x.magnitude() % 0x80_0000;
    let field = x.magnitude() / 0x80_0000;
    if field == 0 {
        (frac, -149)
    } else {
        (0x80_0000 + frac, field - 150)
    }
}

/// The integer nearest to `x * n` in single precision, at most the largest
/// index. Negative numbers and NaN give 0.
pub open spec fn scaled(x: F32, n: int) -> int {
    if x.nan() || x.bits >= 0x8000_0000 || (!x.finite() && n == 0) {
        0
    } else if !x.finite() {
        usize::MAX as int
    } else {
        crate::pixels::min_of(nearest(product(parts_of(x), rounded(n, 1))), usize::MAX as int)
    }
}

/// The integer nearest to `x * n` in single precision.
pub fn scale_index(x: F32, n: usize) -> (r: usize)
    ensures
        r == scaled(x, n as int),
{
    if x.is_nan() || x.bits >= 0x8000_0000 {
        return 0;
    }
    if x.bits >= 0x7f80_0000 {
        return if n == 0 { 0 } else { usize::MAX };
    }
    let frac: u32 = x.bits % 0x80_0000;
    let field: u32 = x.bits / 0x80_0000;
    let v: Single = if field == 0 {
        Single { m: frac as u64, e: -149 }
    } else {
        Single { m: (0x80_0000 + frac) as u64, e: field as i32 - 150 }
    };
    rounded_off(times(v, from_int(n as u64)))
}

/// The share `p * (1 - m / 255)` in single precision, cut to an integer.
pub open spec fn remaining(p: int, m: int) -> int {
    whole(product(rounded(p, 1), complement(rounded(m, 255))))
}

/// A proper fraction with a denominator of 255 has a moderate exponent.
proof fn lemma_fraction(m: int)
    requires
        0 <= m <= 255,
    ensures
        -40 <= rounded(m, 255).1 <= 0,
        0 <= rounded(m, 255).0 <= p2(-rounded(m, 255).1),
{
    lemma_p2(0);
    vstd::arithmetic::power2::lemma2_to64();
    if m > 0 {
        let x = p2(32 - 0);
        assert(x == 0x1_0000_0000);
        assert(x <= m * x) by (nonlinear_arith)
            requires
                1 <= m,
                1 <= x,
        ;
        let e = -32 + lemma_fraction_binade(m, 0);
        lemma_binade_unique(m, 255, e, exponent(m, 255));
    }
}

/// Finds the binade of `m / 255` from `2^-8` on.
proof fn lemma_fraction_binade(m: int, k: int) -> (r: int)
    requires
        1 <= m <= 255,
        0 <= k <= 9,
        255 * 0x80_0000 <= m * p2(32 - k),
    ensures
        0 <= r <= 9,
        in_binade(m, 255, r - 32),
        half_even(m * p2(32 - r), 255) <= p2(32 - r),
    decreases 9 - k,
{
    vstd::arithmetic::power2::lemma2_to64();
    if m * p2(32 - k) < 255 * 0x100_0000 {
        let x = p2(32 - k);
        assert(m * x <= 255 * x) by (nonlinear_arith)
            requires
                m <= 255,
                1 <= x,
        ;
        assert(x >= 0x80_0000);
        k
    } else {
        lemma_p2(31 - k);
        let x = p2(31 - k);
        assert(m * (2 * x) == 2 * (m * x)) by (nonlinear_arith);
        if k == 9 {
            assert(m * 0x80_0000 <= 255 * 0x80_0000);
        }
        lemma_fraction_binade(m, k + 1)
    }
}

/// What is left of a byte after taking the share `m / 255` away.
pub fn take_share(p: u8, m: u8) -> (r: u8)
    ensures
        r == crate::pixels::min_of(remaining(p as int, m as int), 255),
{
    proof {
        lemma_fraction(m as int);
    }
    let left: Single = one_minus(round_quotient(m as u64, 255));
    let t: usize = truncated(times(from_int(p as u64), left));
    if t > 255 {
        255
    } else {
        t as u8
    }
}

/// A number with an exponent from -200 on, as a multiple of `2^-200`.
pub open spec fn scaled_value(v: (int, int)) -> int {
    v.0 * p2(v.1 + 200)
}

pub proof fn lemma_p2_adds(a: int, b: int)
    requires
        0 <= a,
        0 <= b,
    ensures
        p2(a) * p2(b) == p2(a + b),
        p2(a) >= 1,
        p2(b) >= 1,
        p2(a + b) >= 1,
{
    vstd::arithmetic::power2::lemma_pow2_adds(a as nat, b as nat);
    lemma_p2(a);
    lemma_p2(b);
    lemma_p2(a + b);
}

/// A number of at least one lies in a binade.
proof fn lemma_binade_from(n: int, d: int, e: int) -> (r: int)
    requires
        0 < d,
        0 <= e,
        d * p2(e) * 0x80_0000 <= n,
    ensures
        in_binade(n, d, r),
        r >= e,
    decreases n - d * p2(e),
{
    lemma_p2(e);
    let x = p2(e);
    assert(d * (2 * x) == 2 * (d * x) && d * x >= 1) by (nonlinear_arith)
        requires
            0 < d,
            1 <= x,
    ;
    if n < d * x * 0x100_0000 {
        e
    } else {
        lemma_binade_from(n, d, e + 1)
    }
}

/// A small number lies in a binade.
proof fn lemma_binade_below(n: int, d: int, e: int) -> (r: int)
    requires
        0 < n,
        0 < d < 0x1_0000_0000_0000_0000,
        0 <= e <= 100,
        n * p2(e) < d * 0x100_0000,
    ensures
        in_binade(n, d, r),
        -100 <= r <= 0,
    decreases 100 - e,
{
    lemma_p2(e);
    let x = p2(e);
    assert(n * (2 * x) == 2 * (n * x)) by (nonlinear_arith);
    if d * 0x80_0000 <= n * x {
        if e == 0 {
            assert(n * p2(0) == n && d * p2(0) == d);
        }
        -e
    } else {
        if e >= 90 {
            lemma_p2_wide(e);
            assert(x <= n * x) by (nonlinear_arith)
                requires
                    1 <= n,
                    1 <= x,
            ;
        }
        lemma_binade_below(n, d, e + 1)
    }
}

proof fn lemma_p2_wide(e: int)
    requires
        90 <= e,
    ensures
        p2(e) >= 0x1_0000_0000_0000_0000 * 0x80_0000,
{
    vstd::arithmetic::power2::lemma2_to64();
    lemma_p2_adds(64, 24);
    assert(p2(64) == 0x1_0000_0000_0000_0000 && p2(24) == 0x100_0000);
    assert(p2(88) == 0x1_0000_0000_0000_0000 * 0x100_0000);
    lemma_p2_grows(88, e);
}

/// Every positive quotient of moderate size lies in a binade.
pub proof fn lemma_binade_exists(n: int, d: int)
    requires
        0 < n,
        0 < d < 0x1_0000_0000_0000_0000,
    ensures
        in_binade(n, d, exponent(n, d)),
        exponent(n, d) >= -100,
{
    lemma_p2(0);
    assert(n * p2(0) == n && d * p2(0) == d);
    let e = if n < d * 0x100_0000 {
        lemma_binade_below(n, d, 0)
    } else {
        lemma_binade_from(n, d, 0)
    };
    lemma_binade_unique(n, d, e, exponent(n, d));
}

/// Rounding raises a number by at most one part in `2^24`.
pub proof fn lemma_rounded_above(n: int, d: int)
    requires
        0 <= n,
        0 < d < 0x1_0000_0000_0000_0000,
    ensures
        0x100_0000 * (d * scaled_value(rounded(n, d))) <= 0x100_0001 * (n * p2(200)),
        rounded(n, d).1 >= -100,
        0 <= rounded(n, d).0,
{
    lemma_p2(200);
    if n == 0 {
        assert(scaled_value((0int, 0int)) == 0 * p2(200));
    } else {
        lemma_binade_exists(n, d);
        let e = exponent(n, d);
        let m = rounded(n, d).0;
        if e >= 0 {
            lemma_p2_adds(e, 200);
            let c = d * p2(e);
            assert(c > 0) by (nonlinear_arith)
                requires
                    c == d * p2(e),
                    0 < d,
                    1 <= p2(e),
            ;
            lemma_half_even_above(n, c);
            assert(0x100_0000 * (c * m) <= 0x100_0001 * n) by (nonlinear_arith)
                requires
                    2 * (c * m) <= 2 * n + c,
                    c * 0x80_0000 <= n,
            ;
            let (x, y) = (p2(e), p2(200));
            assert(d * (m * (x * y)) == (c * m) * y) by (nonlinear_arith)
                requires
                    c == d * x,
            ;
            assert(0x100_0000 * ((c * m) * y) <= 0x100_0001 * (n * y)) by (nonlinear_arith)
                requires
                    0x100_0000 * (c * m) <= 0x100_0001 * n,
                    1 <= y,
            ;
        } else {
            lemma_p2_adds(-e, e + 200);
            let a = n * p2(-e);
            lemma_half_even_above(a, d);
            assert(0x100_0000 * (d * m) <= 0x100_0001 * a) by (nonlinear_arith)
                requires
                    2 * (d * m) <= 2 * a + d,
                    d * 0x80_0000 <= a,
            ;
            let (x, y) = (p2(-e), p2(e + 200));
            assert(d * (m * y) == (d * m) * y) by (nonlinear_arith);
            assert(n * (x * y) == a * y) by (nonlinear_arith)
                requires
                    a == n * x,
            ;
            assert(0x100_0000 * ((d * m) * y) <= 0x100_0001 * (a * y)) by (nonlinear_arith)
                requires
                    0x100_0000 * (d * m) <= 0x100_0001 * a,
                    1 <= y,
            ;
        }
    }
}

proof fn lemma_half_even_above(n: int, d: int)
    requires
        0 < d,
        0 <= n,
    ensures
        2 * (d * half_even(n, d)) <= 2 * n + d,
        0 <= half_even(n, d),
{
    vstd::arithmetic::div_mod::lemma_fundamental_div_mod(n, d);
    let (q, r) = (n / d, n % d);
    assert(0 <= q) by (nonlinear_arith)
        requires
            q == n / d,
            0 < d,
            0 <= n,
    ;
    assert(d * (q + 1) == d * q + d) by (nonlinear_arith);
}

/// Integers up to `2^24` are kept exactly.
pub proof fn lemma_small_integers_are_exact(n: int)
    requires
        1 <= n <= 0x100_0000,
    ensures
        scaled_value(rounded(n, 1)) == n * p2(200),
        -100 <= rounded(n, 1).1 <= 1,
        0 < rounded(n, 1).0,
{
    lemma_binade_exists(n, 1);
    let e = exponent(n, 1);
    if e > 0 {
        lemma_p2(0);
        lemma_p2(1);
        lemma_p2_grows(0, e);
        if e > 1 {
            lemma_p2_grows(1, e);
        }
        assert(e == 1 && n == 0x100_0000);
        lemma_p2(200);
        assert(half_even(0x100_0000, 2) == 0x80_0000);
        assert(0x80_0000 * (2 * p2(200)) == 0x100_0000 * p2(200));
    } else {
        lemma_p2_adds(-e, e + 200);
        lemma_p2(0);
        let a = n * p2(-e);
        if e == 0 {
            assert(p2(-e) == 1);
            assert(n * 1 == n);
            assert(1 * p2(e) == 1);
        }
        assert(half_even(a, 1) == a);
        let (x, y) = (p2(-e), p2(e + 200));
        assert((n * x) * y == n * (x * y)) by (nonlinear_arith);
        assert(1 <= n * x) by (nonlinear_arith)
            requires
                1 <= n,
                1 <= x,
        ;
    }
}

/// A quotient of two numbers is at most one part in `2^24` above the exact one.
pub proof fn lemma_quotient_above(a: (int, int), b: (int, int))
    requires
        0 <= a.0,
        0 < b.0 <= 0x100_0000,
        -200 <= a.1 <= 64,
        -40 <= b.1 <= 1,
        a.0 > 0 ==> a.1 >= -50,
    ensures
        0x100_0000 * (scaled_value(b) * scaled_value(quotient(a, b))) <= 0x100_0001 * (scaled_value(a) * p2(200)),
        0 <= quotient(a, b).0,
        quotient(a, b).1 >= -301,
{
    let r = rounded(a.0, b.0);
    lemma_rounded_above(a.0, b.0);
    let q = quotient(a, b);
    if a.0 == 0 {
        assert(scaled_value(q) == 0 * p2(q.1 + 200));
        assert(scaled_value(b) * 0 == 0);
        assert(scaled_value(a) == 0 * p2(a.1 + 200));
        assert(0 * p2(200) == 0);
    } else {
        lemma_p2_adds(q.1 + 200, b.1 + 200);
        lemma_p2_adds(r.1 + 200, a.1 + 200);
        let (x, y) = (p2(q.1 + 200), p2(b.1 + 200));
        let (u, v) = (p2(r.1 + 200), p2(a.1 + 200));
        assert(x * y == u * v);
        let t = p2(200);
        assert((b.0 * y) * (r.0 * x) == (b.0 * (r.0 * u)) * v) by (nonlinear_arith)
            requires
                x * y == u * v,
        ;
        assert(0x100_0000 * ((b.0 * (r.0 * u)) * v) <= 0x100_0001 * ((a.0 * t) * v)) by (nonlinear_arith)
            requires
                0x100_0000 * (b.0 * (r.0 * u)) <= 0x100_0001 * (a.0 * t),
                1 <= v,
        ;
        assert((a.0 * t) * v == (a.0 * v) * t) by (nonlinear_arith);
    }
}

/// A product of an integer and a number is at most one part in `2^24` above
/// the exact one.
pub proof fn lemma_product_above(t: int, v: (int, int))
    requires
        1 <= t <= 0x100_0000,
        0 <= v.0,
        -60 <= v.1,
    ensures
        0x100_0000 * scaled_value(product(rounded(t, 1), v)) <= 0x100_0001 * (t * scaled_value(v)),
        product(rounded(t, 1), v).0 >= 0,
{
    lemma_small_integers_are_exact(t);
    let b = rounded(t, 1);
    assert(0 <= b.0 * v.0) by (nonlinear_arith)
        requires
            0 <= b.0,
            0 <= v.0,
    ;
    lemma_rounded_above(b.0 * v.0, 1);
    let r = rounded(b.0 * v.0, 1);
    let p = product(b, v);
    lemma_product_exponents(t, v);
    if b.0 * v.0 == 0 {
        assert(v.0 == 0) by (nonlinear_arith)
            requires
                b.0 * v.0 == 0,
                0 < b.0,
        ;
        assert(scaled_value(p) == 0 * p2(p.1 + 200));
        assert(scaled_value(v) == 0 * p2(v.1 + 200));
        assert(t * 0 == 0);
    } else {
        lemma_p2_adds(p.1 + 200, 200);
        lemma_p2_adds(r.1 + 200, b.1 + v.1 + 200);
        lemma_p2_adds(b.1 + 200, v.1 + 200);
        lemma_p2_adds(b.1 + v.1 + 200, 200);
        let (x, z) = (p2(p.1 + 200), p2(200));
        let (u, w) = (p2(r.1 + 200), p2(b.1 + v.1 + 200));
        let (f, g) = (p2(b.1 + 200), p2(v.1 + 200));
        assert(x * z == u * w && f * g == w * z);
        assert((r.0 * x) * z == (r.0 * u) * w) by (nonlinear_arith)
            requires
                x * z == u * w,
        ;
        assert(0x100_0000 * ((r.0 * u) * w) <= 0x100_0001 * ((b.0 * v.0 * z) * w)) by (nonlinear_arith)
            requires
                0x100_0000 * (r.0 * u) <= 0x100_0001 * (b.0 * v.0 * z),
                1 <= w,
        ;
        assert((b.0 * v.0 * z) * w == (b.0 * f) * (v.0 * g)) by (nonlinear_arith)
            requires
                f * g == w * z,
        ;
        assert((b.0 * f) * (v.0 * g) == (t * (v.0 * g)) * z) by (nonlinear_arith)
            requires
                b.0 * f == t * z,
        ;
        assert(0x100_0000 * (r.0 * x) <= 0x100_0001 * (t * (v.0 * g))) by (nonlinear_arith)
            requires
                0x100_0000 * ((r.0 * x) * z) <= 0x100_0001 * ((t * (v.0 * g)) * z),
                1 <= z,
        ;
    }
}

pub proof fn lemma_product_exponents(t: int, v: (int, int))
    requires
        1 <= t <= 0x100_0000,
        0 <= v.0,
        -60 <= v.1,
    ensures
        rounded(t, 1).1 >= -30,
        product(rounded(t, 1), v).1 >= -190,
{
    lemma_binade_exists(t, 1);
    let e = exponent(t, 1);
    if e < -30 {
        lemma_p2_grows(30, -e);
        vstd::arithmetic::power2::lemma2_to64();
        let x = p2(-e);
        assert(x <= t * x) by (nonlinear_arith)
            requires
                1 <= t,
                1 <= x,
        ;
    }
    assert(0 <= rounded(t, 1).0 * v.0) by (nonlinear_arith)
        requires
            0 <= rounded(t, 1).0,
            0 <= v.0,
    ;
    lemma_rounded_above(rounded(t, 1).0 * v.0, 1);
}

/// Comparing numbers is comparing their multiples of `2^-200`.
pub proof fn lemma_below_is_order(a: (int, int), b: (int, int))
    requires
        -200 <= a.1,
        -200 <= b.1,
    ensures
        below(a, b) <==> scaled_value(a) < scaled_value(b),
{
    if a.1 >= b.1 {
        lemma_p2_adds(a.1 - b.1, b.1 + 200);
        let (x, y) = (p2(a.1 - b.1), p2(b.1 + 200));
        assert(a.0 * (x * y) == (a.0 * x) * y) by (nonlinear_arith);
        assert((a.0 * x) * y < b.0 * y <==> a.0 * x < b.0) by (nonlinear_arith)
            requires
                1 <= y,
        ;
    } else {
        lemma_p2_adds(b.1 - a.1, a.1 + 200);
        let (x, y) = (p2(b.1 - a.1), p2(a.1 + 200));
        assert(b.0 * (x * y) == (b.0 * x) * y) by (nonlinear_arith);
        assert(a.0 * y < (b.0 * x) * y <==> a.0 < b.0 * x) by (nonlinear_arith)
            requires
                1 <= y,
        ;
    }
}

/// A number below `s + 1` has a whole part of at most `s`.
pub proof fn lemma_whole_at_most(v: (int, int), s: int)
    requires
        -200 <= v.1,
        0 <= v.0,
        scaled_value(v) < (s + 1) * p2(200),
    ensures
        whole(v) <= s,
{
    if v.1 >= 0 {
        lemma_p2_adds(v.1, 200);
        let (x, y) = (p2(v.1), p2(200));
        assert(v.0 * (x * y) == (v.0 * x) * y) by (nonlinear_arith);
        assert(v.0 * x < s + 1) by (nonlinear_arith)
            requires
                (v.0 * x) * y < (s + 1) * y,
                1 <= y,
        ;
    } else {
        lemma_p2_adds(-v.1, v.1 + 200);
        let (x, y) = (p2(-v.1), p2(v.1 + 200));
        assert((s + 1) * (x * y) == ((s + 1) * x) * y) by (nonlinear_arith);
        assert(v.0 < (s + 1) * x) by (nonlinear_arith)
            requires
                v.0 * y < ((s + 1) * x) * y,
                1 <= y,
        ;
        assert(v.0 / x <= s) by (nonlinear_arith)
            requires
                v.0 < (s + 1) * x,
                1 <= x,
        ;
    }
}

/// Exponents of an integer of 64 bits as a number.
pub proof fn lemma_integer_exponents(n: int)
    requires
        0 < n < 0x1_0000_0000_0000_0000,
    ensures
        -24 <= rounded(n, 1).1 <= 64,
        0x80_0000 <= rounded(n, 1).0 <= 0x100_0000,
        0x400 <= n <= 0x800 ==> rounded(n, 1).1 <= -11,
{
    lemma_binade_exists(n, 1);
    lemma_rounded_positive(n, 1);
    let e = exponent(n, 1);
    vstd::arithmetic::power2::lemma2_to64();
    if e < -24 {
        lemma_p2_grows(24, -e);
        let x = p2(-e);
        assert(x <= n * x) by (nonlinear_arith)
            requires
                1 <= n,
                1 <= x,
        ;
    }
    if e > 64 {
        lemma_p2_grows(64, e);
    }
    if n <= 0x800 && e > -11 {
        if e >= 0 {
            lemma_p2(e);
        } else {
            if -e < 11 {
                lemma_p2_grows(-e, 11);
            }
            let x = p2(-e);
            assert(n * x <= 0x800 * x) by (nonlinear_arith)
                requires
                    n <= 0x800,
                    1 <= x,
            ;
            assert(x <= 0x400);
        }
    }
}

/// Exponent of a quotient of two significands.
pub proof fn lemma_quotient_exponent(n: int, d: int)
    requires
        0x80_0000 <= n <= 0x100_0000,
        0x80_0000 <= d <= 0x100_0000,
    ensures
        rounded(n, d).1 >= -25,
{
    lemma_binade_exists(n, d);
    let e = exponent(n, d);
    if e < -25 {
        vstd::arithmetic::power2::lemma2_to64();
        lemma_p2_grows(25, -e);
        let x = p2(-e);
        assert(0x80_0000 * x <= n * x) by (nonlinear_arith)
            requires
                0x80_0000 <= n,
                1 <= x,
        ;
    }
}

/// A significand of 24 bits times a power of two is kept exactly.
pub proof fn lemma_exact(m: int, k: int)
    requires
        0x80_0000 <= m < 0x100_0000,
        0 <= k,
    ensures
        rounded(m * p2(k), 1) == (m, k),
{
    lemma_p2(k);
    let x = p2(k);
    let n = m * x;
    assert(0x80_0000 * x <= n < 0x100_0000 * x && 0 < n) by (nonlinear_arith)
        requires
            n == m * x,
            0x80_0000 <= m < 0x100_0000,
            1 <= x,
    ;
    assert(in_binade(n, 1, k));
    lemma_binade_unique(n, 1, k, exponent(n, 1));
    vstd::arithmetic::div_mod::lemma_div_by_multiple(m, x);
    vstd::arithmetic::div_mod::lemma_mod_multiples_basic(m, x);
    assert(1 * x == x);
}

/// One as a number.
pub proof fn lemma_one()
    ensures
        rounded(1, 1) == (0x80_0000int, -23int),
        p2(23) == 0x80_0000,
        p2(24) == 0x100_0000,
{
    vstd::arithmetic::power2::lemma2_to64();
    assert(in_binade(1, 1, -23)) by {
        assert(1 * p2(23) == 0x80_0000);
    }
    lemma_binade_unique(1, 1, -23, exponent(1, 1));
    assert(1 * p2(23) == 0x80_0000);
    assert(half_even(0x80_0000, 1) == 0x80_0000);
}

/// Multiplying by one keeps the whole part.
pub proof fn lemma_times_one(a: (int, int))
    requires
        0x80_0000 <= a.0 <= 0x100_0000,
    ensures
        whole(product(a, rounded(1, 1))) == whole(a),
{
    lemma_one();
    if a.0 < 0x100_0000 {
        lemma_exact(a.0, 23);
    } else {
        lemma_exact(0x80_0000, 24);
        assert(0x100_0000 * 0x80_0000 == 0x80_0000 * p2(24));
        lemma_whole_carry(a.1);
    }
}

/// A significand of `2^24` is one of `2^23` with the next exponent.
proof fn lemma_whole_carry(e: int)
    ensures
        whole((0x80_0000int, e + 1)) == whole((0x100_0000int, e)),
{
    if e >= 0 {
        lemma_p2(e);
        assert(0x80_0000 * p2(e + 1) == 0x100_0000 * p2(e));
    } else if e == -1 {
        lemma_p2(0);
        let x = p2(-e);
        assert(x == 2);
        assert(0x100_0000int / x == 0x80_0000) by (nonlinear_arith)
            requires
                x == 2,
        ;
    } else {
        lemma_p2(-e - 1);
        let x = p2(-(e + 1));
        assert(p2(-e) == 2 * x);
        vstd::arithmetic::div_mod::lemma_div_denominator(0x100_0000, 2, x);
        assert(0x100_0000int / 2 == 0x80_0000);
        assert(0x80_0000int / x == 0x100_0000int / (2 * x));
    }
}

/// A number that is an integer has that whole part.
proof fn lemma_whole_exact(v: (int, int), s: int)
    requires
        0 <= s,
        -200 <= v.1,
        scaled_value(v) == s * p2(200),
    ensures
        whole(v) == s,
{
    if v.1 >= 0 {
        lemma_p2_adds(v.1, 200);
        let (x, y) = (p2(v.1), p2(200));
        assert(v.0 * (x * y) == (v.0 * x) * y) by (nonlinear_arith);
        assert(v.0 * x == s) by (nonlinear_arith)
            requires
                (v.0 * x) * y == s * y,
                1 <= y,
        ;
    } else {
        lemma_p2_adds(-v.1, v.1 + 200);
        let (x, y) = (p2(-v.1), p2(v.1 + 200));
        assert(s * (x * y) == (s * x) * y) by (nonlinear_arith);
        assert(v.0 == s * x) by (nonlinear_arith)
            requires
                v.0 * y == (s * x) * y,
                1 <= y,
        ;
        vstd::arithmetic::div_mod::lemma_div_by_multiple(s, x);
    }
}

proof fn lemma_whole_zero(e: int)
    ensures
        whole((0int, e)) == 0,
{
    if e >= 0 {
        assert(0 * p2(e) == 0);
    } else {
        lemma_p2(-e);
        vstd::arithmetic::div_mod::lemma_div_of0(p2(-e));
    }
}

/// Taking nothing away leaves a byte as it is, and taking all of it leaves 0.
pub proof fn shares_at_the_ends(p: int)
    requires
        0 <= p <= 255,
    ensures
        remaining(p, 0) == p,
        remaining(p, 255) == 0,
{
    lemma_one();
    lemma_p2(0);
    assert(rounded(0, 255) == (0int, 0int));
    assert(complement((0int, 0int)) == rounded(1, 1));
    let a = rounded(p, 1);
    if p > 0 {
        lemma_small_integers_are_exact(p);
        lemma_integer_exponents(p);
        lemma_times_one(a);
        lemma_whole_exact(a, p);
    } else {
        let r = product(a, rounded(1, 1));
        assert(0 * rounded(1, 1).0 == 0);
        lemma_whole_zero(r.1);
    }
    assert(in_binade(255, 255, -23)) by {
        assert(255 * p2(23) == 255 * 0x80_0000);
    }
    lemma_binade_unique(255, 255, -23, exponent(255, 255));
    assert(255 * p2(23) == 255 * 0x80_0000);
    assert(half_even(255int * 0x80_0000, 255) == 0x80_0000);
    assert(rounded(255, 255) == (0x80_0000int, -23int));
    let none = complement(rounded(255, 255));
    assert(none == (0int, -23int));
    assert(a.0 * 0 == 0);
    lemma_whole_zero(product(a, none).1);
}

/// A number that is an integer is its own nearest integer.
proof fn lemma_nearest_exact(v: (int, int), s: int)
    requires
        0 <= s,
        -200 <= v.1,
        scaled_value(v) == s * p2(200),
    ensures
        nearest(v) == s,
{
    lemma_whole_exact(v, s);
    if v.1 < 0 {
        lemma_p2_adds(-v.1, v.1 + 200);
        let (x, y) = (p2(-v.1), p2(v.1 + 200));
        assert(s * (x * y) == (s * x) * y) by (nonlinear_arith);
        assert(v.0 == s * x) by (nonlinear_arith)
            requires
                v.0 * y == (s * x) * y,
                1 <= y,
        ;
        assert((2 * v.0 + x) / (2 * x) == s) by (nonlinear_arith)
            requires
                v.0 == s * x,
                1 <= x,
                0 <= s,
        ;
    }
}

/// All of a side of up to `2^24` pixels is that side, and none of it is 0.
pub proof fn whole_and_empty_shares(n: int)
    requires
        0 <= n <= 0x100_0000,
    ensures
        scaled(F32 { bits: 0x3f80_0000 }, n) == n,
        scaled(F32 { bits: 0 }, n) == 0,
{
    lemma_one();
    let one = F32 { bits: 0x3f80_0000 };
    assert(parts_of(one) == (0x80_0000int, -23int));
    let a = rounded(n, 1);
    let zero = F32 { bits: 0 };
    assert(parts_of(zero) == (0int, -149int));
    let none = product(parts_of(zero), a);
    assert(0 * a.0 == 0);
    lemma_nearest_zero(none.1);
    if n == 0 {
        let p = product(parts_of(one), a);
        assert(0x80_0000 * 0 == 0);
        lemma_nearest_zero(p.1);
    } else {
        lemma_small_integers_are_exact(n);
        lemma_integer_exponents(n);
        if a.0 < 0x100_0000 {
            lemma_exact(a.0, 23);
            assert(0x80_0000 * a.0 == a.0 * p2(23));
            lemma_nearest_exact(a, n);
        } else {
            lemma_exact(0x80_0000, 24);
            assert(0x80_0000 * a.0 == 0x80_0000 * p2(24));
            let b = (0x80_0000int, a.1 + 1);
            lemma_p2(a.1 + 200);
            assert(a == (0x100_0000int, a.1));
            let x = p2(a.1 + 200);
            assert(p2(b.1 + 200) == 2 * x);
            assert(scaled_value(b) == 0x80_0000 * (2 * x));
            assert(scaled_value(a) == 0x100_0000 * x);
            lemma_nearest_exact(b, n);
        }
    }
}

proof fn lemma_nearest_zero(e: int)
    ensures
        nearest((0int, e)) == 0,
{
    if e >= 0 {
        assert(0 * p2(e) == 0);
    } else {
        lemma_p2(-e);
        let x = p2(-e);
        assert((2 * 0 + x) / (2 * x) == 0) by (nonlinear_arith)
            requires
                1 <= x,
        ;
    }
}

/// Rounding does not bring an integer below a smaller one of up to 24 bits.
pub proof fn lemma_rounded_at_least(n: int, t: int)
    requires
        1 <= t <= 0x80_0000,
        t <= n < 0x1_0000_0000_0000_0000,
    ensures
        scaled_value(rounded(n, 1)) >= t * p2(200),
{
    let u = p2(200);
    lemma_p2(200);
    if n <= 0x100_0000 {
        lemma_small_integers_are_exact(n);
        assert(t * u <= n * u) by (nonlinear_arith)
            requires
                t <= n,
                1 <= u,
        ;
    } else {
        lemma_binade_exists(n, 1);
        lemma_rounded_positive(n, 1);
        let e = exponent(n, 1);
        let m = rounded(n, 1).0;
        if e < 0 {
            lemma_p2(-e);
            let x = p2(-e);
            assert(n <= n * x) by (nonlinear_arith)
                requires
                    1 <= x,
                    0 < n,
            ;
        }
        lemma_p2_adds(e, 200);
        lemma_p2(e);
        let x = p2(e);
        assert(t * u <= m * (x * u)) by (nonlinear_arith)
            requires
                1 <= t <= 0x80_0000,
                0x80_0000 <= m,
                1 <= x,
                1 <= u,
        ;
    }
}

/// The exponent of a quotient of at least a half, and of at least one.
proof fn lemma_quotient_exponent_from(n: int, d: int)
    requires
        0 < n,
        0 < d < 0x1_0000_0000_0000_0000,
        d <= 2 * n,
    ensures
        rounded(n, d).1 >= -24,
        d <= n ==> rounded(n, d).1 >= -23,
        0x80_0000 <= rounded(n, d).0,
{
    lemma_binade_exists(n, d);
    lemma_rounded_positive(n, d);
    let e = exponent(n, d);
    vstd::arithmetic::power2::lemma2_to64();
    if e < -24 {
        if 25 < -e {
            lemma_p2_grows(25, -e);
        }
        let x = p2(-e);
        assert(d * 0x100_0000 <= n * x) by (nonlinear_arith)
            requires
                d <= 2 * n,
                0 < n,
                0x200_0000 <= x,
        ;
    }
    if e < -23 && d <= n {
        if 24 < -e {
            lemma_p2_grows(24, -e);
        }
        let x = p2(-e);
        assert(d * 0x100_0000 <= n * x) by (nonlinear_arith)
            requires
                d <= n,
                0 < n,
                0x100_0000 <= x,
        ;
    }
}

/// A number over one that is not larger gives at least one.
pub proof fn lemma_quotient_from_one(a: (int, int), b: (int, int))
    requires
        0x80_0000 <= a.0 <= 0x100_0000,
        0x80_0000 <= b.0 <= 0x100_0000,
        -200 <= a.1,
        -200 <= b.1,
        scaled_value(b) <= scaled_value(a),
    ensures
        0x80_0000 <= quotient(a, b).0,
        -23 <= quotient(a, b).1,
{
    lemma_quotient_exponent_from(a.0, b.0);
    vstd::arithmetic::power2::lemma2_to64();
    if a.1 < b.1 {
        lemma_p2_adds(b.1 - a.1, a.1 + 200);
        let (x, y) = (p2(b.1 - a.1), p2(a.1 + 200));
        lemma_p2(a.1 + 200);
        assert(b.0 * x <= a.0) by (nonlinear_arith)
            requires
                b.0 * (x * y) <= a.0 * y,
                1 <= y,
        ;
        if 1 < b.1 - a.1 {
            lemma_p2_grows(1, b.1 - a.1);
        }
        assert(2 * b.0 <= b.0 * x) by (nonlinear_arith)
            requires
                2 <= x,
                0 < b.0,
        ;
        assert(a.0 == 0x100_0000 && b.0 == 0x80_0000);
        if b.1 - a.1 > 1 {
            if 2 < b.1 - a.1 {
                lemma_p2_grows(2, b.1 - a.1);
            }
            assert(4 * b.0 <= b.0 * x) by (nonlinear_arith)
                requires
                    4 <= x,
                    0 < b.0,
            ;
        }
        assert(in_binade(0x100_0000, 0x80_0000, -22)) by {
            assert(0x100_0000 * p2(22) == 0x80_0000 * 0x80_0000);
        }
        lemma_binade_unique(0x100_0000, 0x80_0000, -22, exponent(0x100_0000, 0x80_0000));
    } else if a.1 == b.1 {
        let y = p2(a.1 + 200);
        lemma_p2(a.1 + 200);
        assert(b.0 <= a.0) by (nonlinear_arith)
            requires
                b.0 * y <= a.0 * y,
                1 <= y,
        ;
    }
}

/// A number of at least one that is not above one is one.
pub proof fn lemma_one_is_smallest(q: (int, int))
    requires
        0x80_0000 <= q.0,
        -23 <= q.1,
        !below(rounded(1, 1), q),
    ensures
        q == rounded(1, 1),
{
    lemma_one();
    lemma_below_is_order(rounded(1, 1), q);
    let u = p2(177);
    lemma_p2(177);
    if q.1 > -23 {
        lemma_p2_adds(q.1 + 23, 177);
        vstd::arithmetic::power2::lemma2_to64();
        if 1 < q.1 + 23 {
            lemma_p2_grows(1, q.1 + 23);
        }
        let x = p2(q.1 + 23);
        assert(0x80_0000 * u < q.0 * (x * u)) by (nonlinear_arith)
            requires
                0x80_0000 <= q.0,
                2 <= x,
                1 <= u,
        ;
    }
    assert(q.0 <= 0x80_0000) by (nonlinear_arith)
        requires
            q.0 * u <= 0x80_0000 * u,
            1 <= u,
    ;
}

/// An integer of eleven bits is its own whole part.
pub proof fn lemma_whole_of_integer(n: int)
    requires
        0x400 <= n <= 0x800,
    ensures
        whole(rounded(n, 1)) == n,
{
    lemma_small_integers_are_exact(n);
    lemma_integer_exponents(n);
    let a = rounded(n, 1);
    lemma_p2_adds(-a.1, a.1 + 200);
    lemma_p2(-a.1);
    lemma_p2(a.1 + 200);
    let (x, y) = (p2(-a.1), p2(a.1 + 200));
    assert(a.0 == n * x) by (nonlinear_arith)
        requires
            a.0 * y == n * (x * y),
            1 <= y,
    ;
    vstd::arithmetic::div_mod::lemma_div_by_multiple(n, x);
}

/// A number of 24 significant bits is nearest to `n / d`: it is at most half of
/// its last bit away, and where it is exactly that its last bit is 0. Its first
/// bit is set.
pub proof fn rounding_is_nearest(n: int, d: int)
    requires
        0 < n,
        0 < d < 0x1_0000_0000_0000_0000,
    ensures
        ({
            let (m, e) = rounded(n, d);
            let (v, u, unit) = if e >= 0 { (m * (d * p2(e)), n, d * p2(e)) } else { (m * d, n * p2(-e), d) };
            &&& 0x80_0000 <= m <= 0x100_0000
            &&& -unit <= 2 * (v - u) <= unit
            &&& 2 * (v - u) == unit || 2 * (v - u) == -unit ==> m % 2 == 0
        }),
        rounded(0, d) == (0int, 0int),
{
    lemma_binade_exists(n, d);
    lemma_rounded_positive(n, d);
    let e = exponent(n, d);
    if e >= 0 {
        lemma_p2(e);
        let c = d * p2(e);
        assert(c > 0) by (nonlinear_arith)
            requires
                c == d * p2(e),
                0 < d,
                1 <= p2(e),
        ;
        lemma_half_even_nearest(n, c);
    } else {
        lemma_p2(-e);
        lemma_half_even_nearest(n * p2(-e), d);
    }
}

proof fn lemma_half_even_nearest(n: int, d: int)
    requires
        0 < d,
    ensures
        -d <= 2 * (half_even(n, d) * d - n) <= d,
        2 * (half_even(n, d) * d - n) == d || 2 * (half_even(n, d) * d - n) == -d ==> half_even(n, d) % 2 == 0,
{
    vstd::arithmetic::div_mod::lemma_fundamental_div_mod(n, d);
    let (q, r) = (n / d, n % d);
    assert(q * d == d * q && (q + 1) * d == d * q + d) by (nonlinear_arith);
}

/// The whole part of a number is the largest integer that is not above it.
pub proof fn whole_parts_are_rounded_down(m: int, e: int)
    ensures
        e >= 0 ==> whole((m, e)) == m * p2(e),
        e < 0 ==> whole((m, e)) * p2(-e) <= m < (whole((m, e)) + 1) * p2(-e),
{
    if e < 0 {
        lemma_p2(-e);
        let (q, x) = (m / p2(-e), p2(-e));
        vstd::arithmetic::div_mod::lemma_fundamental_div_mod(m, x);
        assert(q * x == x * q && (q + 1) * x == x * q + x) by (nonlinear_arith);
    }
}

/// The nearest integer to a number is at most a half away, and above it where
/// it is exactly that.
pub proof fn nearest_integers_are_half_away(m: int, e: int)
    ensures
        e >= 0 ==> nearest((m, e)) == m * p2(e),
        e < 0 ==> -p2(-e) < 2 * (nearest((m, e)) * p2(-e) - m) <= p2(-e),
{
    if e < 0 {
        lemma_p2(-e);
        let x = p2(-e);
        let q = (2 * m + x) / (2 * x);
        vstd::arithmetic::div_mod::lemma_fundamental_div_mod(2 * m + x, 2 * x);
        assert((2 * x) * q == 2 * (q * x)) by (nonlinear_arith);
    }
}

/// A product is the rounded product of the significands, with the exponents
/// added, and a quotient is the rounded quotient, with one exponent taken off
/// the other. The smaller of two numbers is told by the integers that they are
/// at a common exponent.
pub proof fn significands_and_exponents_part(a: (int, int), b: (int, int))
    ensures
        product(a, b).0 == rounded(a.0 * b.0, 1).0 && product(a, b).1 == rounded(a.0 * b.0, 1).1 + a.1 + b.1,
        quotient(a, b).0 == rounded(a.0, b.0).0 && quotient(a, b).1 == rounded(a.0, b.0).1 + a.1 - b.1,
        a.1 == b.1 ==> (below(a, b) <==> a.0 < b.0),
        product(a, b) == product(b, a),
{
    lemma_p2(0);
    assert(a.0 * p2(0) == a.0 && b.0 * p2(0) == b.0);
    assert(a.0 * b.0 == b.0 * a.0) by (nonlinear_arith);
}

proof fn lemma_half_even_below(n: int, d: int)
    requires
        0 < d,
        0 <= n,
    ensures
        2 * (d * half_even(n, d)) >= 2 * n - d,
        0 <= half_even(n, d),
{
    lemma_half_even_above(n, d);
    lemma_half_even_nearest(n, d);
    let q = half_even(n, d);
    assert(q * d == d * q) by (nonlinear_arith);
}

/// Rounding lowers a number by at most one part in `2^24`.
proof fn lemma_rounded_below(n: int, d: int)
    requires
        0 <= n,
        0 < d < 0x1_0000_0000_0000_0000,
    ensures
        0x100_0000 * (d * scaled_value(rounded(n, d))) >= 0xff_ffff * (n * p2(200)),
        rounded(n, d).1 >= -100,
        0 <= rounded(n, d).0,
{
    lemma_p2(200);
    if n == 0 {
        assert(scaled_value((0int, 0int)) == 0 * p2(200));
    } else {
        lemma_binade_exists(n, d);
        let e = exponent(n, d);
        let m = rounded(n, d).0;
        if e >= 0 {
            lemma_p2_adds(e, 200);
            let c = d * p2(e);
            assert(c > 0) by (nonlinear_arith)
                requires
                    c == d * p2(e),
                    0 < d,
                    1 <= p2(e),
            ;
            lemma_half_even_below(n, c);
            assert(0x100_0000 * (c * m) >= 0xff_ffff * n) by (nonlinear_arith)
                requires
                    2 * (c * m) >= 2 * n - c,
                    c * 0x80_0000 <= n,
            ;
            let (x, y) = (p2(e), p2(200));
            assert(d * (m * (x * y)) == (c * m) * y) by (nonlinear_arith)
                requires
                    c == d * x,
            ;
            assert(0x100_0000 * ((c * m) * y) >= 0xff_ffff * (n * y)) by (nonlinear_arith)
                requires
                    0x100_0000 * (c * m) >= 0xff_ffff * n,
                    1 <= y,
            ;
        } else {
            lemma_p2_adds(-e, e + 200);
            let a = n * p2(-e);
            lemma_half_even_below(a, d);
            assert(0x100_0000 * (d * m) >= 0xff_ffff * a) by (nonlinear_arith)
                requires
                    2 * (d * m) >= 2 * a - d,
                    d * 0x80_0000 <= a,
            ;
            let (x, y) = (p2(-e), p2(e + 200));
            assert(d * (m * y) == (d * m) * y) by (nonlinear_arith);
            assert(n * (x * y) == a * y) by (nonlinear_arith)
                requires
                    a == n * x,
            ;
            assert(0x100_0000 * ((d * m) * y) >= 0xff_ffff * (a * y)) by (nonlinear_arith)
                requires
                    0x100_0000 * (d * m) >= 0xff_ffff * a,
                    1 <= y,
            ;
        }
    }
}

/// A product with a small integer is at most one part in `2^24` below the exact
/// one.
pub proof fn lemma_product_below(t: int, v: (int, int))
    requires
        1 <= t <= 0x100_0000,
        0 <= v.0,
        -60 <= v.1,
    ensures
        0x100_0000 * scaled_value(product(rounded(t, 1), v)) >= 0xff_ffff * (t * scaled_value(v)),
        product(rounded(t, 1), v).0 >= 0,
{
    lemma_small_integers_are_exact(t);
    let b = rounded(t, 1);
    assert(0 <= b.0 * v.0) by (nonlinear_arith)
        requires
            0 <= b.0,
            0 <= v.0,
    ;
    lemma_rounded_below(b.0 * v.0, 1);
    let r = rounded(b.0 * v.0, 1);
    let p = product(b, v);
    lemma_product_exponents(t, v);
    if b.0 * v.0 == 0 {
        assert(v.0 == 0) by (nonlinear_arith)
            requires
                b.0 * v.0 == 0,
                0 < b.0,
        ;
        assert(scaled_value(p) == 0 * p2(p.1 + 200));
        assert(scaled_value(v) == 0 * p2(v.1 + 200));
        assert(t * 0 == 0);
    } else {
        lemma_p2_adds(p.1 + 200, 200);
        lemma_p2_adds(r.1 + 200, b.1 + v.1 + 200);
        lemma_p2_adds(b.1 + 200, v.1 + 200);
        lemma_p2_adds(b.1 + v.1 + 200, 200);
        let (x, z) = (p2(p.1 + 200), p2(200));
        let (u, w) = (p2(r.1 + 200), p2(b.1 + v.1 + 200));
        let (f, g) = (p2(b.1 + 200), p2(v.1 + 200));
        assert(x * z == u * w && f * g == w * z);
        assert((r.0 * x) * z == (r.0 * u) * w) by (nonlinear_arith)
            requires
                x * z == u * w,
        ;
        assert(0x100_0000 * ((r.0 * u) * w) >= 0xff_ffff * ((b.0 * v.0 * z) * w)) by (nonlinear_arith)
            requires
                0x100_0000 * (r.0 * u) >= 0xff_ffff * (b.0 * v.0 * z),
                1 <= w,
        ;
        assert((b.0 * v.0 * z) * w == (b.0 * f) * (v.0 * g)) by (nonlinear_arith)
            requires
                f * g == w * z,
        ;
        assert((b.0 * f) * (v.0 * g) == (t * (v.0 * g)) * z) by (nonlinear_arith)
            requires
                b.0 * f == t * z,
        ;
        assert(0x100_0000 * (r.0 * x) >= 0xff_ffff * (t * (v.0 * g))) by (nonlinear_arith)
            requires
                0x100_0000 * ((r.0 * x) * z) >= 0xff_ffff * ((t * (v.0 * g)) * z),
                1 <= z,
        ;
    }
}

/// A fraction of `n` in pixels is nearest to the exact product: at most half a
/// pixel away, and one part in `2^24` of it, which single precision loses. `x`
/// is a number from `2^-37` on, and the product is at most `2^31`.
pub proof fn scaled_positions_are_nearest(x: F32, n: int)
    requires
        x.bits >= 0x2d00_0000,
        x.bits < 0x7f80_0000,
        1 <= n <= 0x100_0000,
        n * scaled_value(parts_of(x)) <= 0x7fff_fff0 * p2(200),
    ensures
        ({
            let exact = n * scaled_value(parts_of(x));
            let got = scaled(x, n) * p2(200);
            0x200_0000 * (got - exact) <= 0x100_0000 * p2(200) + 2 * exact && 0x200_0000 * (exact - got) <= 0x100_0000 * p2(200)
                + 2 * exact
        }),
{
    let v = parts_of(x);
    let z = p2(200);
    lemma_p2(200);
    assert(v.0 >= 0x80_0000 && -60 <= v.1);
    let q = product(rounded(n, 1), v);
    significands_and_exponents_part(rounded(n, 1), v);
    assert(q == product(v, rounded(n, 1)));
    lemma_product_above(n, v);
    lemma_product_below(n, v);
    lemma_product_exponents(n, v);
    nearest_integers_are_half_away(q.0, q.1);
    let near = nearest(q);
    let s = scaled_value(q);
    let exact = n * scaled_value(v);
    if q.1 >= 0 {
        lemma_p2_adds(q.1, 200);
        let (a, b) = (p2(q.1), p2(200));
        assert(q.0 * (a * b) == (q.0 * a) * b) by (nonlinear_arith);
        assert(near * z == s);
    } else {
        lemma_p2_adds(-q.1, q.1 + 200);
        let (a, b) = (p2(-q.1), p2(q.1 + 200));
        assert(a * b == z);
        assert(-z < 2 * (near * z - s) <= z) by (nonlinear_arith)
            requires
                -a < 2 * (near * a - q.0) <= a,
                a * b == z,
                s == q.0 * b,
                1 <= b,
        ;
    }
    assert(-z <= 2 * (near * z - s) <= z);
    assert(near <= 0x8000_00ff) by (nonlinear_arith)
        requires
            2 * (near * z - s) <= z,
            0x100_0000 * s <= 0x100_0001 * exact,
            exact <= 0x7fff_fff0 * z,
            1 <= z,
    ;
    assert(scaled(x, n) == near);
}

/// A quotient is at most one part in `2^24` below the exact one.
pub proof fn lemma_quotient_below(a: (int, int), b: (int, int))
    requires
        0 <= a.0,
        0 < b.0 <= 0x100_0000,
        -200 <= a.1 <= 64,
        -40 <= b.1 <= 1,
        a.0 > 0 ==> a.1 >= -50,
    ensures
        0x100_0000 * (scaled_value(b) * scaled_value(quotient(a, b))) >= 0xff_ffff * (scaled_value(a) * p2(200)),
        0 <= quotient(a, b).0,
        quotient(a, b).1 >= -301,
{
    let r = rounded(a.0, b.0);
    lemma_rounded_below(a.0, b.0);
    let q = quotient(a, b);
    if a.0 == 0 {
        assert(scaled_value(q) == 0 * p2(q.1 + 200));
        assert(scaled_value(b) * 0 == 0);
        assert(scaled_value(a) == 0 * p2(a.1 + 200));
        assert(0 * p2(200) == 0);
    } else {
        lemma_p2_adds(q.1 + 200, b.1 + 200);
        lemma_p2_adds(r.1 + 200, a.1 + 200);
        let (x, y) = (p2(q.1 + 200), p2(b.1 + 200));
        let (u, v) = (p2(r.1 + 200), p2(a.1 + 200));
        assert(x * y == u * v);
        let t = p2(200);
        assert((b.0 * y) * (r.0 * x) == (b.0 * (r.0 * u)) * v) by (nonlinear_arith)
            requires
                x * y == u * v,
        ;
        assert(0x100_0000 * ((b.0 * (r.0 * u)) * v) >= 0xff_ffff * ((a.0 * t) * v)) by (nonlinear_arith)
            requires
                0x100_0000 * (b.0 * (r.0 * u)) >= 0xff_ffff * (a.0 * t),
                1 <= v,
        ;
        assert((a.0 * t) * v == (a.0 * v) * t) by (nonlinear_arith);
    }
}

/// A number that is not below an integer has a whole part that is not.
pub proof fn lemma_whole_at_least(v: (int, int), s: int)
    requires
        -200 <= v.1,
        0 <= v.0,
        s * p2(200) <= scaled_value(v),
    ensures
        s <= whole(v),
{
    whole_parts_are_rounded_down(v.0, v.1);
    lemma_p2(200);
    let z = p2(200);
    let t = whole(v);
    if v.1 >= 0 {
        lemma_p2_adds(v.1, 200);
        let (x, y) = (p2(v.1), p2(200));
        assert(v.0 * (x * y) == (v.0 * x) * y) by (nonlinear_arith);
        assert(s <= t) by (nonlinear_arith)
            requires
                s * z <= t * z,
                1 <= z,
        ;
    } else {
        lemma_p2_adds(-v.1, v.1 + 200);
        let (x, y) = (p2(-v.1), p2(v.1 + 200));
        assert(s < t + 1) by (nonlinear_arith)
            requires
                s * z <= v.0 * y,
                v.0 < (t + 1) * x,
                x * y == z,
                1 <= y,
                1 <= x,
        ;
    }
}

/// A power of two with an exponent of at least one is at least two.
pub proof fn lemma_p2_least(k: int)
    requires
        1 <= k,
    ensures
        2 <= p2(k),
{
    lemma_p2(0);
    lemma_p2_grows(0, k);
}

/// A number has the significand and the exponent of its format: 23 bits behind a
/// set first one, and 150 off the exponent field, or no first bit in the lowest
/// range.
pub proof fn parts_follow_the_format(x: F32)
    requires
        x.bits < 0x7f80_0000,
    ensures
        x.bits < 0x80_0000 ==> parts_of(x) == (x.bits as int, -149int),
        x.bits >= 0x80_0000 ==> parts_of(x) == (0x80_0000 + x.bits as int % 0x80_0000, x.bits as int / 0x80_0000 - 150),
        scaled(x, 0) == 0,
        x.bits == 0 ==> parts_of(x).0 == 0,
{
    assert(rounded(0, 1) == (0int, 0int));
    let q = product(parts_of(x), (0int, 0int));
    assert(parts_of(x).0 * 0 == 0);
    assert(q.0 == 0);
    nearest_integers_are_half_away(q.0, q.1);
    if q.1 < 0 {
        lemma_p2(-q.1);
        let (t, y) = (nearest(q), p2(-q.1));
        assert(t == 0) by (nonlinear_arith)
            requires
                -y < 2 * (t * y) <= y,
                1 <= y,
        ;
    } else {
        assert(0 * p2(q.1) == 0);
    }
}

/// One number is below another where its value is.
pub proof fn order_is_that_of_values(a: (int, int), b: (int, int))
    requires
        -200 <= a.1,
        -200 <= b.1,
    ensures
        below(a, b) <==> a.0 * p2(a.1 + 200) < b.0 * p2(b.1 + 200),
{
    lemma_below_is_order(a, b);
}

} // verus!
