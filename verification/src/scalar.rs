//! Single-precision numbers as bit patterns.
//!
//! The library never computes with binary floating point itself. It carries
//! every number as the 32 bits of its IEEE-754 binary32 encoding and only ever
//! *compares* such numbers, which is plain integer work: apart from the
//! not-a-number patterns, binary32 values are ordered like sign-magnitude
//! integers. Arithmetic is supplied by the caller as functions on `Scalar`.

use vstd::prelude::*;

verus! {

/// The bit that holds the sign.
pub const SIGN_BIT: u32 = 0x8000_0000u32;

/// Bit pattern of positive infinity, the largest magnitude of a number.
pub const INFINITY_BITS: u32 = 0x7F80_0000u32;

/// Bit pattern of the number one.
pub const ONE_BITS: u32 = 0x3F80_0000u32;

/// Bit pattern of the difference between one and the next larger number.
pub const EPSILON_BITS: u32 = 0x3400_0000u32;

/// A binary32 number, held by its bit pattern.
#[derive(Clone, Copy, Debug)]
pub struct Scalar {
    pub bits: u32,
}

/// The magnitude part of a bit pattern: the pattern without its sign bit.
pub open spec fn magnitude_of(bits: u32) -> int {
    if bits >= SIGN_BIT {
        bits - SIGN_BIT
    } else {
        bits as int
    }
}

impl Scalar {
    /// True for the patterns that encode no number.
    pub open spec fn nan(self) -> bool {
        magnitude_of(self.bits) > INFINITY_BITS
    }

    /// An integer that orders the numbers as their values are ordered.
    /// The two zeros share the key 0.
    pub open spec fn key(self) -> int {
        if self.bits >= SIGN_BIT {
            -magnitude_of(self.bits)
        } else {
            magnitude_of(self.bits)
        }
    }

    /// `self < other` as numbers; false when either is not a number.
    pub open spec fn spec_lt(self, other: Scalar) -> bool {
        !self.nan() && !other.nan() && self.key() < other.key()
    }

    /// `self <= other` as numbers; false when either is not a number.
    pub open spec fn spec_le(self, other: Scalar) -> bool {
        !self.nan() && !other.nan() && self.key() <= other.key()
    }

    /// `self == other` as numbers; false when either is not a number.
    pub open spec fn spec_same(self, other: Scalar) -> bool {
        !self.nan() && !other.nan() && self.key() == other.key()
    }

    /// The smaller of two numbers. A side that is not a number yields the
    /// other side; of two equal numbers the first is taken.
    pub open spec fn spec_min(self, other: Scalar) -> Scalar {
        if self.nan() {
            other
        } else if other.nan() {
            self
        } else if other.key() < self.key() {
            other
        } else {
            self
        }
    }

    /// The larger of two numbers. A side that is not a number yields the
    /// other side; of two equal numbers the first is taken.
    pub open spec fn spec_max(self, other: Scalar) -> Scalar {
        if self.nan() {
            other
        } else if other.nan() {
            self
        } else if other.key() > self.key() {
            other
        } else {
            self
        }
    }

    /// The number with the given bit pattern.
    pub fn from_bits(bits: u32) -> (r: Scalar)
        ensures
            r.bits == bits,
    {
        Scalar { bits }
    }

    /// The bit pattern of the number.
    pub fn to_bits(self) -> (r: u32)
        ensures
            r == self.bits,
    {
        self.bits
    }

    /// Positive zero.
    pub fn zero() -> (r: Scalar)
        ensures
            r.bits == 0,
            !r.nan(),
            r.key() == 0,
    {
        Scalar { bits: 0 }
    }

    /// The number one.
    pub fn one() -> (r: Scalar)
        ensures
            r.bits == ONE_BITS,
            !r.nan(),
            r.key() == ONE_BITS,
    {
        Scalar { bits: ONE_BITS }
    }

    /// Positive infinity: no number has a larger key.
    pub fn infinity() -> (r: Scalar)
        ensures
            r.bits == INFINITY_BITS,
            !r.nan(),
            forall|s: Scalar| !s.nan() ==> s.key() <= r.key(),
    {
        Scalar { bits: INFINITY_BITS }
    }

    /// Negative infinity: no number has a smaller key.
    pub fn neg_infinity() -> (r: Scalar)
        ensures
            r.bits == INFINITY_BITS + SIGN_BIT,
            !r.nan(),
            forall|s: Scalar| !s.nan() ==> r.key() <= s.key(),
    {
        Scalar { bits: 0xFF80_0000u32 }
    }

    fn magnitude(self) -> (m: u32)
        ensures
            m == magnitude_of(self.bits),
    {
        if self.bits >= SIGN_BIT {
            self.bits - SIGN_BIT
        } else {
            self.bits
        }
    }

    pub(crate) fn ordered_key(self) -> (k: i64)
        ensures
            k == self.key(),
    {
        let m: u32 = self.magnitude();
        if self.bits >= SIGN_BIT {
            -(m as i64)
        } else {
            m as i64
        }
    }

    /// True for a pattern that encodes no number.
    pub fn is_nan(self) -> (r: bool)
        ensures
            r == self.nan(),
    {
        self.magnitude() > INFINITY_BITS
    }

    /// `self < other`, as binary32 compares.
    pub fn lt(self, other: Scalar) -> (r: bool)
        ensures
            r == self.spec_lt(other),
    {
        !self.is_nan() && !other.is_nan() && self.ordered_key() < other.ordered_key()
    }

    /// `self <= other`, as binary32 compares.
    pub fn le(self, other: Scalar) -> (r: bool)
        ensures
            r == self.spec_le(other),
    {
        !self.is_nan() && !other.is_nan() && self.ordered_key() <= other.ordered_key()
    }

    /// `self > other`, as binary32 compares.
    pub fn gt(self, other: Scalar) -> (r: bool)
        ensures
            r == other.spec_lt(self),
    {
        other.lt(self)
    }

    /// `self >= other`, as binary32 compares.
    pub fn ge(self, other: Scalar) -> (r: bool)
        ensures
            r == other.spec_le(self),
    {
        other.le(self)
    }

    /// `self == other`, as binary32 compares: the two zeros are the same.
    pub fn same(self, other: Scalar) -> (r: bool)
        ensures
            r == self.spec_same(other),
    {
        !self.is_nan() && !other.is_nan() && self.ordered_key() == other.ordered_key()
    }

    /// The number without its sign.
    pub open spec fn spec_abs(self) -> Scalar {
        Scalar { bits: magnitude_of(self.bits) as u32 }
    }

    /// The number without its sign.
    pub fn abs(self) -> (r: Scalar)
        ensures
            r == self.spec_abs(),
            r.nan() == self.nan(),
            !self.nan() ==> r.key() >= 0 && (r.key() == self.key() || r.key() == -self.key()),
    {
        Scalar { bits: self.magnitude() }
    }

    /// The smaller of two numbers; see `spec_min`.
    pub fn min(self, other: Scalar) -> (r: Scalar)
        ensures
            r == self.spec_min(other),
    {
        if self.is_nan() {
            other
        } else if other.is_nan() {
            self
        } else if other.ordered_key() < self.ordered_key() {
            other
        } else {
            self
        }
    }

    /// The larger of two numbers; see `spec_max`.
    pub fn max(self, other: Scalar) -> (r: Scalar)
        ensures
            r == self.spec_max(other),
    {
        if self.is_nan() {
            other
        } else if other.is_nan() {
            self
        } else if other.ordered_key() > self.ordered_key() {
            other
        } else {
            self
        }
    }
}

} // verus!
