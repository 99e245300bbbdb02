//! The product of binary64 numbers, rounded to the nearest number.

use crate::convert::{lemma_int_round_trip, units_per_one};
use crate::fields::{
    floor_log2, lemma_floor_log2_bounds, lemma_from_units_of_units, lemma_no_size,
    lemma_units_of_from_units,
};
use crate::number::{Real, INFINITY_BITS, NAN_BITS, SIGN_BIT};
use crate::rounding::{
    lemma_nearest_fraction_of_zero, lemma_nearest_fraction_scaled, lemma_nearest_fraction_whole,
    lemma_round_representable, lemma_round_units_at_least, nearest_fraction, round_fraction,
    round_pack,
};
use vstd::arithmetic::div_mod::lemma_div_by_multiple;
use vstd::arithmetic::power2::{
    lemma2_to64, lemma2_to64_rest, lemma_pow2_adds, lemma_pow2_pos,
    lemma_pow2_strictly_increases, pow2,
};
use vstd::prelude::*;

verus! {

impl Real {
    /// The product, rounded to nearest, a tie going to the even significand.
    ///
    /// The sizes of the factors are multiplied exactly; their product counts
    /// units of 2^-2148 and is rounded to units of 2^-1074. The product is
    /// negative where one factor is. An infinity times zero is a NaN.
    pub open spec fn spec_mul(self, rhs: Real) -> Real {
        if self.spec_is_nan() || rhs.spec_is_nan() {
            Real { bits: NAN_BITS }
        } else if !self.spec_is_finite() || !rhs.spec_is_finite() {
            if self.spec_magnitude() == 0 || rhs.spec_magnitude() == 0 {
                Real { bits: NAN_BITS }
            } else {
                Real { bits: INFINITY_BITS }.spec_signed(
                    self.spec_is_negative() != rhs.spec_is_negative(),
                )
            }
        } else {
            nearest_fraction(self.spec_units() * rhs.spec_units(), 1074).spec_signed(
                self.spec_is_negative() != rhs.spec_is_negative(),
            )
        }
    }

    /// The product, rounded to nearest.
    pub fn mul(&self, rhs: &Real) -> (r: Real)
        ensures
            r == self.spec_mul(*rhs),
    {
        let x: u64 = self.magnitude();
        let y: u64 = rhs.magnitude();
        let negative: bool = self.is_negative() != rhs.is_negative();
        let sign: u64 = if negative {
            SIGN_BIT
        } else {
            0
        };
        if x > INFINITY_BITS || y > INFINITY_BITS {
            return Real { bits: NAN_BITS };
        }
        if x == INFINITY_BITS || y == INFINITY_BITS {
            return if x == 0 || y == 0 {
                Real { bits: NAN_BITS }
            } else {
                Real { bits: INFINITY_BITS + sign }
            };
        }
        proof {
            lemma2_to64();
            lemma2_to64_rest();
            lemma_no_size(*self);
            lemma_no_size(*rhs);
        }
        let ghost ux = self.spec_units();
        let ghost uy = rhs.spec_units();
        if x == 0 || y == 0 {
            proof {
                assert(ux * uy == 0) by (nonlinear_arith)
                    requires
                        ux == 0 || uy == 0,
                ;
                lemma_nearest_fraction_of_zero(1074);
            }
            return Real { bits: sign };
        }
        let sx: u64 = self.significand();
        let sy: u64 = rhs.significand();
        let ax: u64 = self.unit_scale();
        let ay: u64 = rhs.unit_scale();
        proof {
            assert(sx * sy < 0x400_0000_0000_0000_0000_0000_0000) by (nonlinear_arith)
                requires
                    sx < 0x20_0000_0000_0000,
                    sy < 0x20_0000_0000_0000,
            ;
            lemma_pow2_pos(ax as nat);
            lemma_pow2_pos(ay as nat);
            assert(sx >= 1 && sy >= 1) by (nonlinear_arith)
                requires
                    ux == sx * pow2(ax as nat),
                    uy == sy * pow2(ay as nat),
                    ux > 0,
                    uy > 0,
                    sx >= 0,
                    sy >= 0,
            ;
        }
        let n: u128 = (sx as u128) * (sy as u128);
        let e: u64 = ax + ay;
        proof {
            lemma_pow2_adds(ax as nat, ay as nat);
            assert(ux * uy == n * pow2(e as nat)) by (nonlinear_arith)
                requires
                    ux == sx * pow2(ax as nat),
                    uy == sy * pow2(ay as nat),
                    n == sx * sy,
                    pow2(e as nat) == pow2(ax as nat) * pow2(ay as nat),
            ;
            assert(n >= 1) by (nonlinear_arith)
                requires
                    n == sx * sy,
                    sx >= 1,
                    sy >= 1,
            ;
        }
        let bits: u64 = if e >= 1074 {
            let up: u64 = e - 1074;
            proof {
                lemma_pow2_adds(up as nat, 1074);
                lemma_pow2_pos(up as nat);
                assert(n * pow2(up as nat) >= 1) by (nonlinear_arith)
                    requires
                        n >= 1,
                        pow2(up as nat) >= 1,
                ;
                assert(n * pow2(e as nat) == (n * pow2(up as nat)) * pow2(1074))
                    by (nonlinear_arith)
                    requires
                        pow2(e as nat) == pow2(up as nat) * pow2(1074),
                ;
                lemma_nearest_fraction_scaled((n * pow2(up as nat)) as nat, 0, 1074);
            }
            if up > 2045 {
                proof {
                    let u = (n * pow2(up as nat)) as nat;
                    // both factors are normal, so the product is beyond the range
                    assert(ax >= 1075 && ay >= 1075);
                    assert(sx >= 0x10_0000_0000_0000 && sy >= 0x10_0000_0000_0000);
                    lemma_pow2_adds(52, 52);
                    lemma_pow2_adds(104, 2046);
                    if up > 2046 {
                        lemma_pow2_strictly_increases(2046, up as nat);
                    }
                    assert(u >= pow2(2150)) by (nonlinear_arith)
                        requires
                            u == n * pow2(up as nat),
                            n == sx * sy,
                            sx >= 0x10_0000_0000_0000,
                            sy >= 0x10_0000_0000_0000,
                            pow2(104) == 0x10_0000_0000_0000 * 0x10_0000_0000_0000,
                            pow2(up as nat) >= pow2(2046),
                            pow2(2150) == pow2(104) * pow2(2046),
                    ;
                    lemma_pow2_pos(2150);
                    lemma_floor_log2_bounds(u);
                    let p = floor_log2(u);
                    if p < 2098 {
                        lemma_pow2_strictly_increases(p + 1, 2150);
                    }
                    if p > 2098 {
                        lemma_pow2_strictly_increases(2098, p);
                    }
                    lemma_round_units_at_least(u);
                }
                INFINITY_BITS
            } else {
                round_pack(n, up)
            }
        } else {
            proof {
                lemma_nearest_fraction_scaled(n as nat, (1074 - e) as nat, e as nat);
            }
            round_fraction(n, 1074 - e)
        };
        Real { bits: bits + sign }
    }
}

/// Whole numbers are multiplied without error: the product of the numbers for
/// two integers is the number for their product, as long as the three of them
/// have no more than 53 bits.
pub proof fn lemma_mul_of_integers(a: i64, b: i64)
    requires
        -0x20_0000_0000_0000 <= a <= 0x20_0000_0000_0000,
        -0x20_0000_0000_0000 <= b <= 0x20_0000_0000_0000,
        -0x20_0000_0000_0000 <= a * b <= 0x20_0000_0000_0000,
    ensures
        Real::spec_from_int(a).spec_mul(Real::spec_from_int(b)).spec_is_finite(),
        Real::spec_from_int(a).spec_mul(Real::spec_from_int(b)).spec_units() == Real::spec_int_size(
            (a * b) as i64,
        ) * units_per_one(),
        Real::spec_from_int(a).spec_mul(Real::spec_from_int(b)).spec_to_int() == a * b,
{
    lemma2_to64();
    lemma2_to64_rest();
    let x = Real::spec_from_int(a);
    let y = Real::spec_from_int(b);
    let one = units_per_one();
    let sa = Real::spec_int_size(a);
    let sb = Real::spec_int_size(b);
    let size = Real::spec_int_size((a * b) as i64);
    lemma_int_round_trip(a);
    lemma_int_round_trip(b);
    lemma_int_round_trip((a * b) as i64);
    lemma_pow2_pos(1074);
    assert(size == sa * sb) by (nonlinear_arith)
        requires
            size == (if a * b < 0 {
                -(a * b)
            } else {
                a * b
            }),
            sa == (if a < 0 {
                -a
            } else {
                a as int
            }),
            sb == (if b < 0 {
                -b
            } else {
                b as int
            }),
    ;
    let w = size * one;
    let product = x.spec_units() * y.spec_units();
    assert(product == w * pow2(1074)) by (nonlinear_arith)
        requires
            product == (sa * one) * (sb * one),
            w == (sa * sb) * one,
            one == pow2(1074),
    ;
    let rounded = nearest_fraction(product, 1074);
    if w == 0 {
        assert(product == 0) by (nonlinear_arith)
            requires
                product == w * pow2(1074),
                w == 0,
        ;
        lemma_nearest_fraction_of_zero(1074);
        assert(size == 0) by (nonlinear_arith)
            requires
                size * one == 0,
                one > 0,
                size >= 0,
        ;
    } else {
        lemma_nearest_fraction_scaled(w, 0, 1074);
        lemma_nearest_fraction_whole(w);
        // the size of the product belongs to the number for `a * b`
        let z = Real::spec_from_int((a * b) as i64);
        lemma_from_units_of_units(z);
        lemma_round_representable(w);
        lemma_units_of_from_units(w);
    }
    let r = x.spec_mul(y);
    assert(r.spec_magnitude() == rounded.spec_magnitude());
    assert(r.spec_units() == w);
    lemma_div_by_multiple(size as int, one as int);
    assert(r.spec_whole_part() == size);
    assert((a < 0) != (b < 0) <==> a * b < 0 || (a * b == 0 && (a < 0 || b < 0)))
        by (nonlinear_arith);
}

/// A finite number times a zero is a zero, and as an integer it is 0.
pub proof fn lemma_mul_by_zero(x: Real, zero: Real)
    requires
        x.spec_is_finite(),
        zero.spec_magnitude() == 0,
    ensures
        x.spec_mul(zero).spec_magnitude() == 0,
        x.spec_mul(zero).spec_to_int() == 0,
{
    lemma_no_size(zero);
    assert(x.spec_units() * zero.spec_units() == 0) by (nonlinear_arith)
        requires
            zero.spec_units() == 0,
    ;
    lemma_nearest_fraction_of_zero(1074);
    let product = x.spec_mul(zero);
    lemma_no_size(product);
    lemma_pow2_pos(1074);
    assert(0nat / units_per_one() == 0) by (nonlinear_arith)
        requires
            units_per_one() > 0,
    ;
}

/// A zero times any number is a zero or a NaN, and as an integer it is 0.
pub proof fn lemma_mul_of_zero(zero: Real, y: Real)
    requires
        zero.spec_magnitude() == 0,
    ensures
        zero.spec_mul(y).spec_to_int() == 0,
{
    let product = zero.spec_mul(y);
    if y.spec_is_finite() {
        lemma_no_size(zero);
        assert(zero.spec_units() * y.spec_units() == 0) by (nonlinear_arith)
            requires
                zero.spec_units() == 0,
        ;
        lemma_nearest_fraction_of_zero(1074);
        lemma_no_size(product);
        lemma_pow2_pos(1074);
        assert(0nat / units_per_one() == 0) by (nonlinear_arith)
            requires
                units_per_one() > 0,
        ;
    } else {
        assert(product.spec_is_nan());
    }
}

} // verus!
