//! Binary64 numbers held by their bit patterns, with the IEEE 754 ordering.

use vstd::prelude::*;
use vstd::std_specs::cmp::PartialEqSpecImpl;

verus! {

/// The bit that carries the sign of a binary64 number.
pub const SIGN_BIT: u64 = 0x8000_0000_0000_0000;

/// The bit pattern of positive infinity; every larger magnitude is a NaN.
pub const INFINITY_BITS: u64 = 0x7FF0_0000_0000_0000;

/// The pattern of the NaN that an operation without a result returns.
pub const NAN_BITS: u64 = 0x7FF8_0000_0000_0000;

/// The bit pattern of the binary64 number nearest to 2π.
pub const TWO_PI_BITS: u64 = 0x4019_21FB_5444_2D18;

/// A real number in IEEE 754 binary64 format, held by its bit pattern.
///
/// The pattern is the whole value: one sign bit, eleven exponent bits and
/// fifty-two fraction bits, from the most significant bit down.
#[derive(Clone, Copy, Debug)]
pub struct Real {
    pub bits: u64,
}

impl Real {
    /// The sign bit is set. This holds of negative zero and of NaNs with the bit set, too.
    pub open spec fn spec_is_negative(self) -> bool {
        self.bits >= SIGN_BIT
    }

    /// The bit pattern without its sign bit.
    pub open spec fn spec_magnitude(self) -> u64 {
        if self.bits >= SIGN_BIT {
            (self.bits - SIGN_BIT) as u64
        } else {
            self.bits
        }
    }

    /// The pattern is not a number.
    pub open spec fn spec_is_nan(self) -> bool {
        self.spec_magnitude() > INFINITY_BITS
    }

    /// The pattern is a number other than an infinity.
    pub open spec fn spec_is_finite(self) -> bool {
        self.spec_magnitude() < INFINITY_BITS
    }

    /// The place of a number in the order of the numbers: the magnitudes of
    /// binary64 numbers grow with their patterns, a negative number stands
    /// below zero by its magnitude, and both zeros stand at 0.
    pub open spec fn rank(self) -> int {
        if self.spec_is_negative() {
            -(self.spec_magnitude() as int)
        } else {
            self.spec_magnitude() as int
        }
    }

    /// IEEE 754 `<`: false whenever a NaN is compared.
    pub open spec fn spec_lt(self, other: Real) -> bool {
        !self.spec_is_nan() && !other.spec_is_nan() && self.rank() < other.rank()
    }

    /// IEEE 754 `>`: false whenever a NaN is compared.
    pub open spec fn spec_gt(self, other: Real) -> bool {
        other.spec_lt(self)
    }

    /// IEEE 754 `<=`: false whenever a NaN is compared.
    pub open spec fn spec_le(self, other: Real) -> bool {
        !self.spec_is_nan() && !other.spec_is_nan() && self.rank() <= other.rank()
    }

    /// IEEE 754 `==`: a NaN equals nothing, and the two zeros are equal.
    pub open spec fn spec_same(self, other: Real) -> bool {
        !self.spec_is_nan() && !other.spec_is_nan() && self.rank() == other.rank()
    }

    /// The number with the sign bit cleared.
    pub open spec fn spec_abs(self) -> Real {
        Real { bits: self.spec_magnitude() }
    }

    /// The number with the sign bit set or cleared.
    pub open spec fn spec_signed(self, negative: bool) -> Real {
        Real {
            bits: if negative {
                (self.spec_magnitude() + SIGN_BIT) as u64
            } else {
                self.spec_magnitude()
            },
        }
    }

    /// Positive zero.
    pub open spec fn spec_zero() -> Real {
        Real { bits: 0 }
    }

    /// The binary64 number nearest to 2π.
    pub open spec fn spec_two_pi() -> Real {
        Real { bits: TWO_PI_BITS }
    }

    /// The number with the given pattern.
    pub fn from_bits(bits: u64) -> (r: Real)
        ensures
            r.bits == bits,
    {
        Real { bits }
    }

    /// The pattern of the number.
    pub fn to_bits(&self) -> (r: u64)
        ensures
            r == self.bits,
    {
        self.bits
    }

    /// Positive zero.
    pub fn zero() -> (r: Real)
        ensures
            r == Real::spec_zero(),
    {
        Real { bits: 0 }
    }

    /// The binary64 number nearest to 2π.
    pub fn two_pi() -> (r: Real)
        ensures
            r == Real::spec_two_pi(),
    {
        Real { bits: TWO_PI_BITS }
    }

    /// Whether the sign bit is set.
    pub fn is_negative(&self) -> (r: bool)
        ensures
            r == self.spec_is_negative(),
    {
        self.bits >= SIGN_BIT
    }

    /// The pattern without its sign bit.
    pub fn magnitude(&self) -> (r: u64)
        ensures
            r == self.spec_magnitude(),
    {
        if self.bits >= SIGN_BIT {
            self.bits - SIGN_BIT
        } else {
            self.bits
        }
    }

    /// Whether the pattern is not a number.
    pub fn is_nan(&self) -> (r: bool)
        ensures
            r == self.spec_is_nan(),
    {
        self.magnitude() > INFINITY_BITS
    }

    /// Whether the pattern is a number other than an infinity.
    pub fn is_finite(&self) -> (r: bool)
        ensures
            r == self.spec_is_finite(),
    {
        self.magnitude() < INFINITY_BITS
    }

    /// The number without its sign.
    pub fn abs(&self) -> (r: Real)
        ensures
            r == self.spec_abs(),
    {
        Real { bits: self.magnitude() }
    }

    /// IEEE 754 `<`.
    pub fn lt(&self, other: &Real) -> (r: bool)
        ensures
            r == self.spec_lt(*other),
    {
        if self.is_nan() || other.is_nan() {
            return false;
        }
        let a: u64 = self.magnitude();
        let b: u64 = other.magnitude();
        if self.is_negative() {
            if other.is_negative() {
                b < a
            } else {
                a > 0 || b > 0
            }
        } else {
            if other.is_negative() {
                false
            } else {
                a < b
            }
        }
    }

    /// IEEE 754 `>`.
    pub fn gt(&self, other: &Real) -> (r: bool)
        ensures
            r == self.spec_gt(*other),
    {
        other.lt(self)
    }

    /// IEEE 754 `<=`.
    pub fn le(&self, other: &Real) -> (r: bool)
        ensures
            r == self.spec_le(*other),
    {
        if self.is_nan() || other.is_nan() {
            return false;
        }
        !other.lt(self)
    }

    /// IEEE 754 `==`.
    pub fn same(&self, other: &Real) -> (r: bool)
        ensures
            r == self.spec_same(*other),
    {
        if self.is_nan() || other.is_nan() {
            return false;
        }
        self.bits == other.bits || (self.magnitude() == 0 && other.magnitude() == 0)
    }
}

/// `==` on numbers is IEEE 754 equality, not equality of patterns.
impl PartialEq for Real {
    fn eq(&self, other: &Real) -> (r: bool) {
        self.same(other)
    }
}

impl PartialEqSpecImpl for Real {
    open spec fn obeys_eq_spec() -> bool {
        true
    }

    open spec fn eq_spec(&self, other: &Real) -> bool {
        self.spec_same(*other)
    }
}

/// Among numbers, `<=` is `<` or `==`, and any two numbers compare one way or the other.
pub proof fn lemma_order_is_total(a: Real, b: Real)
    requires
        !a.spec_is_nan(),
        !b.spec_is_nan(),
    ensures
        a.spec_le(b) <==> (a.spec_lt(b) || a.spec_same(b)),
        a.spec_le(b) <==> !a.spec_gt(b),
        a.spec_lt(b) || a.spec_same(b) || a.spec_gt(b),
{
}

} // verus!
