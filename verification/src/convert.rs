//! Conversions between binary64 numbers and 64-bit integers.

use crate::fields::{lemma_units_monotone, lemma_units_of_from_units, FRACTION_SPAN};
use crate::number::{Real, INFINITY_BITS, SIGN_BIT};
use crate::rounding::{
    lemma_round_representable, lemma_scaled_is_representable, nearest, round_pack,
};
use vstd::arithmetic::div_mod::{lemma_div_by_multiple, lemma_div_multiples_vanish_quotient};
use vstd::arithmetic::power2::{
    lemma2_to64, lemma2_to64_rest, lemma_pow2_adds, lemma_pow2_pos,
    lemma_pow2_strictly_increases, pow2,
};
use vstd::bits::{lemma_u64_shl_is_mul, lemma_u64_shr_is_div};
use vstd::prelude::*;

verus! {

/// The exponent field of 1.0.
pub const EXPONENT_BIAS: u64 = 1023;

/// The number of units of 2^-1074 that make up 1.
pub open spec fn units_per_one() -> nat {
    pow2(1074)
}

impl Real {
    /// The magnitude with its fractional part cut off: the whole ones in the
    /// size of the number. An infinity counts as the number that its pattern
    /// would stand for with one more exponent, which is beyond every integer
    /// of 64 bits.
    pub open spec fn spec_whole_part(self) -> nat {
        self.spec_units() / units_per_one()
    }

    /// The number rounded towards zero and brought into the range of `i64`;
    /// a NaN gives 0.
    pub open spec fn spec_to_int(self) -> i64 {
        if self.spec_is_nan() {
            0
        } else if self.spec_is_negative() {
            if self.spec_whole_part() >= 0x8000_0000_0000_0000 {
                i64::MIN
            } else {
                (-(self.spec_whole_part() as int)) as i64
            }
        } else {
            if self.spec_whole_part() > i64::MAX {
                i64::MAX
            } else {
                self.spec_whole_part() as i64
            }
        }
    }

    /// The whole part, from the significand and the power of two that scales it.
    proof fn lemma_whole_part(self)
        ensures
            self.spec_significand() >= 0,
            self.spec_scale() >= 0 ==> self.spec_whole_part() == self.spec_significand() * pow2(
                self.spec_scale() as nat,
            ),
            self.spec_scale() < 0 ==> self.spec_whole_part() == self.spec_significand() / (pow2(
                (-self.spec_scale()) as nat,
            ) as int),
    {
        let s = self.spec_significand();
        let a = self.spec_unit_scale();
        let one = pow2(1074) as int;
        lemma_pow2_pos(1074);
        lemma_pow2_pos(a);
        assert(s >= 0) by (nonlinear_arith)
            requires
                s == (if self.spec_magnitude() as int / 0x10_0000_0000_0000 == 0 {
                    self.spec_magnitude() as int % 0x10_0000_0000_0000
                } else {
                    0x10_0000_0000_0000 + self.spec_magnitude() as int % 0x10_0000_0000_0000
                }),
        ;
        assert(s * pow2(a) >= 0) by (nonlinear_arith)
            requires
                s >= 0,
                pow2(a) > 0,
        ;
        if self.spec_scale() >= 0 {
            let k = self.spec_scale() as nat;
            lemma_pow2_adds(k, 1074);
            lemma_pow2_pos(k);
            assert(s * pow2(k) >= 0) by (nonlinear_arith)
                requires
                    s >= 0,
                    pow2(k) > 0,
            ;
            lemma_div_by_multiple(s * pow2(k), one);
            assert(s * pow2(a) == (s * pow2(k)) * one) by (nonlinear_arith)
                requires
                    pow2(a) == pow2(k) * one,
            ;
        } else {
            let k = (-self.spec_scale()) as nat;
            lemma_pow2_adds(a, k);
            lemma_pow2_pos(k);
            lemma_div_multiples_vanish_quotient(pow2(a) as int, s, pow2(k) as int);
            assert(s * pow2(a) == pow2(a) * s && one == pow2(a) * pow2(k)) by (nonlinear_arith)
                requires
                    one == pow2(a) * pow2(k),
            ;
        }
    }

    /// Converts to an integer: the fractional part is dropped, a number beyond
    /// the range of `i64` gives the nearest end of the range, and a NaN gives 0.
    pub fn to_int(&self) -> (r: i64)
        ensures
            r == self.spec_to_int(),
    {
        let m: u64 = self.magnitude();
        if m > INFINITY_BITS {
            return 0;
        }
        let field: u64 = m / FRACTION_SPAN;
        let fraction: u64 = m % FRACTION_SPAN;
        let negative = self.is_negative();
        proof {
            lemma2_to64();
            lemma2_to64_rest();
            self.lemma_whole_part();
        }
        if field < EXPONENT_BIAS {
            proof {
                let k = (-self.spec_scale()) as nat;
                lemma_pow2_strictly_increases(52, 53);
                if k > 53 {
                    lemma_pow2_strictly_increases(53, k);
                }
                assert(self.spec_significand() < pow2(k));
                assert(self.spec_whole_part() == 0) by (nonlinear_arith)
                    requires
                        self.spec_whole_part() == self.spec_significand() / (pow2(k) as int),
                        0 <= self.spec_significand() < pow2(k),
                ;
            }
            return 0;
        }
        if field >= 1086 {
            proof {
                let k = self.spec_scale() as nat;
                if k > 11 {
                    lemma_pow2_strictly_increases(11, k);
                }
                assert(self.spec_whole_part() >= 0x8000_0000_0000_0000) by (nonlinear_arith)
                    requires
                        self.spec_whole_part() == self.spec_significand() * pow2(k),
                        self.spec_significand() >= 0x10_0000_0000_0000,
                        pow2(k) >= 0x800,
                ;
            }
            return if negative {
                i64::MIN
            } else {
                i64::MAX
            };
        }
        let significand: u64 = FRACTION_SPAN + fraction;
        let whole: u64 = if field >= 1075 {
            let shift: u64 = field - 1075;
            proof {
                if shift < 10 {
                    lemma_pow2_strictly_increases(shift as nat, 10);
                }
                assert(significand * pow2(shift as nat) < 0x8000_0000_0000_0000)
                    by (nonlinear_arith)
                    requires
                        significand < 0x20_0000_0000_0000,
                        pow2(shift as nat) <= 0x400,
                ;
                lemma_u64_shl_is_mul(significand, shift);
            }
            significand << shift
        } else {
            let shift: u64 = 1075 - field;
            proof {
                lemma_u64_shr_is_div(significand, shift);
                lemma_pow2_pos(shift as nat);
            }
            significand >> shift
        };
        assert(whole == self.spec_whole_part());
        assert(whole < 0x8000_0000_0000_0000) by {
            if field < 1075 {
                let shift = (1075 - field) as nat;
                lemma_pow2_pos(shift);
                assert(significand as int / (pow2(shift) as int) <= significand)
                    by (nonlinear_arith)
                    requires
                        pow2(shift) > 0,
                ;
            }
        }
        if negative {
            -(whole as i64)
        } else {
            whole as i64
        }
    }

    /// The size of an integer.
    pub open spec fn spec_int_size(n: i64) -> nat {
        if n < 0 {
            (-(n as int)) as nat
        } else {
            n as nat
        }
    }

    /// The binary64 number nearest to `n`, a tie going to the even significand.
    pub open spec fn spec_from_int(n: i64) -> Real {
        nearest(Real::spec_int_size(n) * units_per_one()).spec_signed(n < 0)
    }

    /// Converts an integer to the nearest binary64 number.
    pub fn from_int(n: i64) -> (r: Real)
        ensures
            r == Real::spec_from_int(n),
    {
        let size: u64 = if n == i64::MIN {
            SIGN_BIT
        } else if n < 0 {
            (-n) as u64
        } else {
            n as u64
        };
        let bits: u64 = round_pack(size as u128, 1074);
        Real { bits: if n < 0 { bits + SIGN_BIT } else { bits } }
    }
}

/// An integer of at most 53 bits survives the way to a number and back: the
/// conversion to a number is exact there, and the conversion back finds it again.
pub proof fn lemma_int_round_trip(n: i64)
    requires
        -0x20_0000_0000_0000 <= n <= 0x20_0000_0000_0000,
    ensures
        Real::spec_from_int(n).spec_is_finite(),
        Real::spec_from_int(n).spec_is_negative() == (n < 0),
        Real::spec_from_int(n).spec_units() == Real::spec_int_size(n) * units_per_one(),
        Real::spec_from_int(n).spec_to_int() == n,
{
    lemma2_to64();
    lemma2_to64_rest();
    let m = Real::spec_int_size(n);
    let one = units_per_one();
    let u = m * one;
    lemma_pow2_pos(1074);
    if m == 0x20_0000_0000_0000 {
        lemma_pow2_adds(1074, 1);
        assert(u == 0x10_0000_0000_0000 * pow2(1075)) by (nonlinear_arith)
            requires
                u == 0x20_0000_0000_0000 * one,
                pow2(1075) == one * 2,
        ;
        lemma_scaled_is_representable(0x10_0000_0000_0000, 1075);
    } else {
        lemma_scaled_is_representable(m, 1074);
    }
    lemma_round_representable(u);
    lemma_units_of_from_units(u);
    let x = Real::spec_from_int(n);
    assert(x.spec_units() == u);
    lemma_div_by_multiple(m as int, one as int);
    assert(x.spec_whole_part() == m);
}

/// A whole number other than zero, of at most 53 bits, is the number that
/// the conversion of its integer gives: the two conversions are inverse to
/// each other there.
pub proof fn lemma_whole_number_round_trip(x: Real)
    requires
        x.spec_is_finite(),
        x.spec_units() % units_per_one() == 0,
        0 < x.spec_whole_part() <= 0x20_0000_0000_0000,
    ensures
        Real::spec_from_int(x.spec_to_int()) == x,
{
    let one = units_per_one();
    let whole = x.spec_whole_part();
    let n = x.spec_to_int();
    lemma_pow2_pos(1074);
    assert(x.spec_units() == whole * one) by (nonlinear_arith)
        requires
            whole == x.spec_units() / one,
            x.spec_units() % one == 0,
            one > 0,
    ;
    lemma_int_round_trip(n);
    lemma_units_monotone(Real::spec_from_int(n), x);
}

} // verus!
