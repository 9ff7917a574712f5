//! IEEE 754 numbers by their bit patterns.
//!
//! The library stores and compares such numbers; it does not calculate with
//! them. Comparison goes by an integer key: for two numbers that are not NaN
//! the keys are ordered as the numbers are, with both zeros at key 0.
use vstd::prelude::*;

verus! {

/// A single-precision number.
#[derive(Clone, Copy, Debug, PartialEq, Eq, Structural)]
pub struct F32 {
    /// The bit pattern.
    pub bits: u32,
}

/// A double-precision number.
#[derive(Clone, Copy, Debug, PartialEq, Eq, Structural)]
pub struct F64 {
    /// The bit pattern.
    pub bits: u64,
}

impl F32 {
    /// The bit pattern without the sign.
    pub open spec fn magnitude(self) -> int {
        self.bits as int % 0x8000_0000
    }

    /// Whether the number is neither infinite nor NaN.
    pub open spec fn finite(self) -> bool {
        self.magnitude() < 0x7f80_0000
    }

    /// Whether the number is NaN.
    pub open spec fn nan(self) -> bool {
        self.magnitude() > 0x7f80_0000
    }

    /// The key by which numbers are compared.
    pub open spec fn key(self) -> int {
        if self.bits < 0x8000_0000 {
            self.magnitude()
        } else {
            -self.magnitude()
        }
    }

    /// Whether the number differs from zero. NaN does.
    pub fn is_nonzero(self) -> (r: bool)
        ensures
            r == (self.magnitude() != 0),
    {
        self.bits % 0x8000_0000 != 0
    }

    /// Whether the number is NaN.
    pub fn is_nan(self) -> (r: bool)
        ensures
            r == self.nan(),
    {
        self.bits % 0x8000_0000 > 0x7f80_0000
    }

    /// The key by which numbers are compared.
    pub fn order(self) -> (r: i64)
        ensures
            r == self.key(),
    {
        if self.bits < 0x8000_0000 {
            self.bits as i64
        } else {
            -((self.bits - 0x8000_0000) as i64)
        }
    }

    /// The number with the opposite sign.
    pub fn negated(self) -> (r: F32)
        ensures
            r == self.opposite(),
    {
        if self.bits < 0x8000_0000 {
            F32 { bits: self.bits + 0x8000_0000 }
        } else {
            F32 { bits: self.bits - 0x8000_0000 }
        }
    }

    /// The number with the opposite sign.
    pub open spec fn opposite(self) -> F32 {
        if self.bits < 0x8000_0000 {
            F32 { bits: (self.bits + 0x8000_0000) as u32 }
        } else {
            F32 { bits: (self.bits - 0x8000_0000) as u32 }
        }
    }
}

/// Changing the sign twice gives the number back.
pub proof fn negating_twice_restores(v: F32)
    ensures
        v.opposite().opposite() == v,
        v.opposite().key() == -v.key(),
{
}

impl F64 {
    /// The bit pattern without the sign.
    pub open spec fn magnitude(self) -> int {
        self.bits as int % 0x8000_0000_0000_0000
    }

    /// Whether the number is neither infinite nor NaN.
    pub open spec fn finite(self) -> bool {
        self.magnitude() < 0x7ff0_0000_0000_0000
    }

    /// Whether the number is NaN.
    pub open spec fn nan(self) -> bool {
        self.magnitude() > 0x7ff0_0000_0000_0000
    }

    /// Whether the number is NaN.
    pub fn is_nan(self) -> (r: bool)
        ensures
            r == self.nan(),
    {
        self.bits % 0x8000_0000_0000_0000 > 0x7ff0_0000_0000_0000
    }

    /// The key by which numbers are compared.
    pub open spec fn key(self) -> int {
        if self.bits < 0x8000_0000_0000_0000 {
            self.magnitude()
        } else {
            -self.magnitude()
        }
    }

    /// Whether the number is neither infinite nor NaN.
    pub fn is_finite(self) -> (r: bool)
        ensures
            r == self.finite(),
    {
        self.bits % 0x8000_0000_0000_0000 < 0x7ff0_0000_0000_0000
    }

    /// The key by which finite numbers are compared.
    pub fn order(self) -> (r: i128)
        ensures
            r == self.key(),
    {
        if self.bits < 0x8000_0000_0000_0000 {
            self.bits as i128
        } else {
            -((self.bits - 0x8000_0000_0000_0000) as i128)
        }
    }
}

/// The key of a number is that of its bits: the bits themselves without a sign,
/// and their opposite behind the sign bit. So the order of the keys is that of
/// the numbers, and both zeros have the key 0.
pub proof fn keys_follow_the_bits(v: F32, u: F64)
    ensures
        v.bits < 0x8000_0000 ==> v.key() == v.bits,
        v.bits >= 0x8000_0000 ==> v.key() == 0x8000_0000 - v.bits,
        v.finite() <==> v.bits < 0x7f80_0000 || 0x8000_0000 <= v.bits < 0xff80_0000,
        v.nan() <==> 0x7f80_0000 < v.bits < 0x8000_0000 || 0xff80_0000 < v.bits,
        u.bits < 0x8000_0000_0000_0000 ==> u.key() == u.bits,
        u.bits >= 0x8000_0000_0000_0000 ==> u.key() == 0x8000_0000_0000_0000 - u.bits,
        u.finite() <==> u.bits < 0x7ff0_0000_0000_0000 || 0x8000_0000_0000_0000 <= u.bits < 0xfff0_0000_0000_0000,
        u.nan() <==> 0x7ff0_0000_0000_0000 < u.bits < 0x8000_0000_0000_0000 || 0xfff0_0000_0000_0000 < u.bits,
{
}

/// Changing the sign changes the sign bit alone.
pub proof fn negating_changes_the_sign_bit(v: F32)
    ensures
        v.bits < 0x8000_0000 ==> v.opposite().bits == v.bits + 0x8000_0000,
        v.bits >= 0x8000_0000 ==> v.opposite().bits == v.bits - 0x8000_0000,
{
}

} // verus!
