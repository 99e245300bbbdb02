//! The least non-negative remainder: the truncating remainder, lifted by the
//! modulus where it is below zero.

use crate::fields::{
    excess, lemma_floor_log2_unique, lemma_from_units_of_units, lemma_units_monotone,
};
use crate::number::{Real, INFINITY_BITS, NAN_BITS, SIGN_BIT};
use crate::rounding::{
    lemma_round_representable, nearest, power_of_two, round_half_even, round_pack, round_units,
};
use vstd::arithmetic::div_mod::lemma_fundamental_div_mod_converse;
use vstd::arithmetic::power2::{
    lemma2_to64, lemma2_to64_rest, lemma_pow2_adds, lemma_pow2_pos,
    lemma_pow2_strictly_increases, pow2,
};
use vstd::prelude::*;

verus! {

/// How far apart the exponents of two numbers may be for the smaller number
/// to show in their rounded difference at all. Beyond that the difference
/// rounds to the larger number.
pub const FAR_APART: u64 = 60;

/// A number that is small beside another does not show in their rounded
/// difference: where the exponents are more than `FAR_APART` apart, the
/// difference of the sizes rounds to the larger size.
proof fn lemma_far_below(big: Real, small: Real)
    requires
        big.spec_is_finite(),
        small.spec_is_finite(),
        big.spec_unit_scale() > small.spec_unit_scale() + FAR_APART,
    ensures
        small.spec_units() <= big.spec_units(),
        nearest((big.spec_units() - small.spec_units()) as nat) == big.spec_abs(),
{
    lemma2_to64();
    lemma2_to64_rest();
    let ub = big.spec_units();
    let us = small.spec_units();
    let sb = big.spec_significand();
    let ss = small.spec_significand();
    let ab = big.spec_unit_scale();
    let a_small = small.spec_unit_scale();
    let mb = big.spec_magnitude() as int;
    let ms = small.spec_magnitude() as int;
    lemma_from_units_of_units(big);
    assert(0x10_0000_0000_0000 <= sb < 0x20_0000_0000_0000 && 0 <= ss < 0x20_0000_0000_0000)
        by (nonlinear_arith)
        requires
            ab > 60,
            0 <= mb,
            0 <= ms,
            ab == (if mb / 0x10_0000_0000_0000 == 0 {
                0
            } else {
                mb / 0x10_0000_0000_0000 - 1
            }),
            sb == (if mb / 0x10_0000_0000_0000 == 0 {
                mb % 0x10_0000_0000_0000
            } else {
                0x10_0000_0000_0000 + mb % 0x10_0000_0000_0000
            }),
            ss == (if ms / 0x10_0000_0000_0000 == 0 {
                ms % 0x10_0000_0000_0000
            } else {
                0x10_0000_0000_0000 + ms % 0x10_0000_0000_0000
            }),
    ;
    // half of the spacing of the numbers just below `big`
    let h = pow2((ab - 2) as nat);
    lemma_pow2_pos((ab - 2) as nat);
    lemma_pow2_adds((ab - 2) as nat, 2);
    lemma_pow2_adds((ab - 2) as nat, 1);
    lemma_pow2_pos(a_small);
    lemma_pow2_adds(a_small, 53);
    if a_small + 53 < ab - 2 {
        lemma_pow2_strictly_increases(a_small + 53, (ab - 2) as nat);
    }
    assert(us < h) by (nonlinear_arith)
        requires
            us == ss * pow2(a_small),
            0 <= ss < 0x20_0000_0000_0000,
            pow2(a_small + 53) == pow2(a_small) * 0x20_0000_0000_0000,
            pow2(a_small + 53) <= h,
            pow2(a_small) > 0,
    ;
    assert(ub == sb * (4 * h));
    assert(us <= ub) by (nonlinear_arith)
        requires
            ub == sb * (4 * h),
            sb >= 1,
            us < h,
            h > 0,
    ;
    let v = (ub - us) as nat;
    if us == 0 {
        lemma_round_representable(ub);
    } else if sb > 0x10_0000_0000_0000 {
        let a = 4 * h;
        lemma_pow2_adds(52, ab);
        lemma_pow2_adds(53, ab);
        assert(pow2(52 + ab) <= v < pow2(53 + ab)) by (nonlinear_arith)
            requires
                v == sb * a - us,
                0 < us < h,
                a == 4 * h,
                0x10_0000_0000_0000 < sb < 0x20_0000_0000_0000,
                pow2(52 + ab) == 0x10_0000_0000_0000 * a,
                pow2(53 + ab) == 0x20_0000_0000_0000 * a,
        ;
        lemma_floor_log2_unique(v, 52 + ab);
        assert(excess(v) == ab);
        assert(v == (sb - 1) * a + (a - us)) by (nonlinear_arith)
            requires
                v == sb * a - us,
        ;
        lemma_fundamental_div_mod_converse(v as int, a as int, sb - 1, a - us);
        assert(round_half_even(v, a) == sb);
        assert(round_units(v) == ub);
        lemma_round_representable(ub);
    } else {
        let a = 2 * h;
        lemma_pow2_adds(51, ab);
        lemma_pow2_adds(52, ab);
        lemma_pow2_adds((ab - 1) as nat, 1);
        assert(pow2(51 + ab) <= v < pow2(52 + ab)) by (nonlinear_arith)
            requires
                v == sb * (2 * a) - us,
                0 < us < h,
                a == 2 * h,
                sb == 0x10_0000_0000_0000,
                pow2(51 + ab) == 0x8_0000_0000_0000 * (2 * a),
                pow2(52 + ab) == 0x10_0000_0000_0000 * (2 * a),
        ;
        lemma_floor_log2_unique(v, 51 + ab);
        assert(excess(v) == ab - 1);
        assert(pow2((ab - 1) as nat) == a);
        assert(v == 0x1F_FFFF_FFFF_FFFF * a + (a - us)) by (nonlinear_arith)
            requires
                v == sb * (2 * a) - us,
                sb == 0x10_0000_0000_0000,
        ;
        lemma_fundamental_div_mod_converse(v as int, a as int, 0x1F_FFFF_FFFF_FFFF, a - us);
        assert(round_half_even(v, a) == 0x20_0000_0000_0000);
        assert(round_units(v) == ub) by (nonlinear_arith)
            requires
                round_units(v) == 0x20_0000_0000_0000 * a,
                ub == sb * (2 * a),
                sb == 0x10_0000_0000_0000,
        ;
        lemma_round_representable(ub);
    }
}

/// The pattern of the number nearest to the difference of two sizes.
fn gap(big: &Real, small: &Real) -> (bits: u64)
    requires
        big.spec_is_finite(),
        small.spec_is_finite(),
        small.spec_magnitude() <= big.spec_magnitude(),
    ensures
        small.spec_units() <= big.spec_units(),
        bits == nearest((big.spec_units() - small.spec_units()) as nat).bits,
        bits <= INFINITY_BITS,
{
    let sb: u64 = big.significand();
    let ss: u64 = small.significand();
    let ab: u64 = big.unit_scale();
    let a_small: u64 = small.unit_scale();
    proof {
        lemma2_to64();
        lemma2_to64_rest();
        lemma_units_monotone(*small, *big);
        lemma_from_units_of_units(*big);
        assert(a_small <= ab) by (nonlinear_arith)
            requires
                big.spec_magnitude() >= small.spec_magnitude(),
                ab == (if big.spec_magnitude() as int / 0x10_0000_0000_0000 == 0 {
                    0
                } else {
                    big.spec_magnitude() as int / 0x10_0000_0000_0000 - 1
                }),
                a_small == (if small.spec_magnitude() as int / 0x10_0000_0000_0000 == 0 {
                    0
                } else {
                    small.spec_magnitude() as int / 0x10_0000_0000_0000 - 1
                }),
        ;
    }
    let apart: u64 = ab - a_small;
    if apart > FAR_APART {
        proof {
            lemma_far_below(*big, *small);
        }
        return big.magnitude();
    }
    let scale: u128 = power_of_two(apart);
    proof {
        lemma_pow2_pos(apart as nat);
        lemma_pow2_pos(a_small as nat);
        lemma_pow2_adds(apart as nat, a_small as nat);
        if apart < 60 {
            lemma_pow2_strictly_increases(apart as nat, 60);
        }
        assert(sb * scale < 0x2_0000_0000_0000_0000_0000_0000_0000) by (nonlinear_arith)
            requires
                sb < 0x20_0000_0000_0000,
                scale <= 0x1000_0000_0000_0000,
        ;
        assert(sb * scale >= ss) by (nonlinear_arith)
            requires
                big.spec_units() == sb * pow2(ab as nat),
                small.spec_units() == ss * pow2(a_small as nat),
                small.spec_units() <= big.spec_units(),
                pow2(ab as nat) == scale * pow2(a_small as nat),
                pow2(a_small as nat) > 0,
        ;
    }
    let n: u128 = (sb as u128) * scale - (ss as u128);
    proof {
        assert(n * pow2(a_small as nat) == big.spec_units() - small.spec_units())
            by (nonlinear_arith)
            requires
                n == sb * scale - ss,
                big.spec_units() == sb * pow2(ab as nat),
                small.spec_units() == ss * pow2(a_small as nat),
                pow2(ab as nat) == scale * pow2(a_small as nat),
        ;
    }
    round_pack(n, a_small)
}

impl Real {
    /// A truncating remainder modulo `modulus` made non-negative: a number
    /// below zero is moved up by `|modulus|`, any other is left as it is.
    ///
    /// Moving up is an addition, rounded to nearest, a tie going to the even
    /// significand. The two numbers have opposite signs there, so the sizes
    /// are subtracted, and the sign is that of the larger one.
    pub open spec fn spec_lift(self, modulus: Real) -> Real {
        if !self.spec_lt(Real::spec_zero()) {
            self
        } else if modulus.spec_is_nan() {
            Real { bits: NAN_BITS }
        } else if !self.spec_is_finite() {
            if modulus.spec_is_finite() {
                self
            } else {
                Real { bits: NAN_BITS }
            }
        } else if !modulus.spec_is_finite() {
            Real { bits: INFINITY_BITS }
        } else if modulus.spec_units() >= self.spec_units() {
            nearest((modulus.spec_units() - self.spec_units()) as nat)
        } else {
            nearest((self.spec_units() - modulus.spec_units()) as nat).spec_signed(true)
        }
    }

    /// The least non-negative remainder: the truncating remainder, lifted.
    pub open spec fn spec_rem_euclid(self, rhs: Real) -> Real {
        self.spec_rem(rhs).spec_lift(rhs)
    }

    /// Makes a truncating remainder modulo `modulus` non-negative: a remainder
    /// below zero is moved up by `|modulus|`, any other is returned as it is.
    pub fn lift(&self, modulus: &Real) -> (r: Real)
        ensures
            r == self.spec_lift(*modulus),
    {
        if !self.lt(&Real::zero()) {
            return *self;
        }
        let x: u64 = self.magnitude();
        let m: u64 = modulus.magnitude();
        if m > INFINITY_BITS {
            return Real { bits: NAN_BITS };
        }
        if x == INFINITY_BITS {
            return if m == INFINITY_BITS {
                Real { bits: NAN_BITS }
            } else {
                *self
            };
        }
        if m == INFINITY_BITS {
            return Real { bits: INFINITY_BITS };
        }
        let size = modulus.abs();
        proof {
            lemma_units_monotone(*self, *modulus);
            assert(size.spec_units() == modulus.spec_units());
        }
        if m >= x {
            Real { bits: gap(&size, self) }
        } else {
            let bits: u64 = gap(self, &size);
            Real { bits: bits + SIGN_BIT }
        }
    }

    /// The least non-negative remainder of `self` modulo `rhs`.
    pub fn rem_euclid(&self, rhs: &Real) -> (r: Real)
        ensures
            r == self.spec_rem_euclid(*rhs),
    {
        self.rem(rhs).lift(rhs)
    }
}

} // verus!
