//! The truncating remainder of binary64 numbers. It is exact: no rounding takes
//! part in it, so it is computed on whole numbers of units.

use crate::fields::{
    lemma_from_units_of_units, lemma_no_size, lemma_units_monotone, lemma_units_of_from_units,
    representable, FRACTION_SPAN,
};
use crate::number::{Real, INFINITY_BITS, NAN_BITS, SIGN_BIT};
use crate::rounding::{lemma_scaled_is_representable, pack};
use vstd::arithmetic::div_mod::{lemma_mul_mod_noop_left, lemma_truncate_middle};
use vstd::arithmetic::power2::{
    lemma2_to64, lemma2_to64_rest, lemma_pow2_adds, lemma_pow2_pos, pow2,
};
use vstd::prelude::*;

verus! {

impl Real {
    /// The remainder of the division whose quotient is cut towards zero.
    ///
    /// For a finite `self` and a finite `rhs` other than zero it is the
    /// remainder of the two magnitudes, counted in units, with the sign of
    /// `self`. A finite number divided by an infinity is its own remainder.
    /// Nothing else has a remainder.
    pub open spec fn spec_rem(self, rhs: Real) -> Real {
        if !self.spec_is_finite() || rhs.spec_is_nan() || rhs.spec_magnitude() == 0 {
            Real { bits: NAN_BITS }
        } else if !rhs.spec_is_finite() {
            self
        } else {
            Real::spec_from_units(self.spec_units() % rhs.spec_units()).spec_signed(
                self.spec_is_negative(),
            )
        }
    }

    /// The remainder of the division whose quotient is cut towards zero.
    pub fn rem(&self, rhs: &Real) -> (r: Real)
        ensures
            r == self.spec_rem(*rhs),
    {
        let x: u64 = self.magnitude();
        let y: u64 = rhs.magnitude();
        if x >= INFINITY_BITS || y > INFINITY_BITS || y == 0 {
            return Real { bits: NAN_BITS };
        }
        if y == INFINITY_BITS {
            return *self;
        }
        proof {
            lemma2_to64();
            lemma2_to64_rest();
            lemma_units_monotone(*self, *rhs);
            lemma_no_size(*rhs);
            lemma_from_units_of_units(*self);
        }
        if x < y {
            proof {
                let ux = self.spec_units();
                let uy = rhs.spec_units();
                assert(ux % uy == ux) by (nonlinear_arith)
                    requires
                        0 <= ux < uy,
                ;
            }
            return *self;
        }
        let sx: u64 = self.significand();
        let sy: u64 = rhs.significand();
        let ax: u64 = self.unit_scale();
        let ay: u64 = rhs.unit_scale();
        proof {
            lemma_pow2_pos(ay as nat);
            assert(sy > 0) by (nonlinear_arith)
                requires
                    rhs.spec_units() == sy * pow2(ay as nat),
                    rhs.spec_units() > 0,
                    sy >= 0,
            ;
            assert(ay <= ax) by (nonlinear_arith)
                requires
                    x >= y,
                    ax == (if x as int / 0x10_0000_0000_0000 == 0 {
                        0
                    } else {
                        x as int / 0x10_0000_0000_0000 - 1
                    }),
                    ay == (if y as int / 0x10_0000_0000_0000 == 0 {
                        0
                    } else {
                        y as int / 0x10_0000_0000_0000 - 1
                    }),
            ;
        }
        let steps: u64 = ax - ay;
        let mut r: u64 = sx % sy;
        let mut i: u64 = 0;
        proof {
            assert(sx * pow2(0) == sx) by (nonlinear_arith)
                requires
                    pow2(0) == 1,
            ;
        }
        while i < steps
            invariant
                i <= steps,
                0 < sy < 2 * FRACTION_SPAN,
                r == (sx * pow2(i as nat)) % (sy as int),
            decreases steps - i,
        {
            proof {
                let whole = sx * pow2(i as nat);
                lemma_pow2_adds(i as nat, 1);
                lemma2_to64();
                assert(sx * pow2((i + 1) as nat) == whole * 2) by (nonlinear_arith)
                    requires
                        whole == sx * pow2(i as nat),
                        pow2((i + 1) as nat) == pow2(i as nat) * 2,
                ;
                lemma_mul_mod_noop_left(whole, 2, sy as int);
                assert(r * 2 == 2 * r) by (nonlinear_arith);
            }
            r = (2 * r) % sy;
            i = i + 1;
        }
        proof {
            let whole = sx * pow2(steps as nat);
            let base = pow2(ay as nat) as int;
            lemma_pow2_pos(steps as nat);
            lemma_pow2_adds(steps as nat, ay as nat);
            assert(whole >= 0) by (nonlinear_arith)
                requires
                    whole == sx * pow2(steps as nat),
                    sx >= 0,
                    pow2(steps as nat) > 0,
            ;
            lemma_truncate_middle(whole, base, sy as int);
            assert(base * whole == self.spec_units()) by (nonlinear_arith)
                requires
                    whole == sx * pow2(steps as nat),
                    base == pow2(ay as nat),
                    pow2(ax as nat) == pow2(steps as nat) * pow2(ay as nat),
                    self.spec_units() == sx * pow2(ax as nat),
            ;
            assert(base * sy == rhs.spec_units()) by (nonlinear_arith)
                requires
                    base == pow2(ay as nat),
                    rhs.spec_units() == sy * pow2(ay as nat),
            ;
            assert(base * (whole % (sy as int)) == r * pow2(ay as nat)) by (nonlinear_arith)
                requires
                    r == whole % (sy as int),
                    base == pow2(ay as nat),
            ;
            assert(self.spec_units() % rhs.spec_units() == r * pow2(ay as nat));
        }
        let bits: u64 = pack(r, ay);
        proof {
            lemma_units_of_packed(bits, (r * pow2(ay as nat)) as nat);
        }
        Real { bits: if self.is_negative() { bits + SIGN_BIT } else { bits } }
    }
}

/// The pattern of a number made of units has no sign bit.
proof fn lemma_units_of_packed(bits: u64, u: nat)
    requires
        representable(u),
        bits == Real::spec_from_units(u).bits,
    ensures
        bits < INFINITY_BITS,
{
    lemma_units_of_from_units(u);
}

/// For finite numbers, and a divisor other than zero, the remainder is the
/// remainder of the magnitudes in units, and it has the sign of the dividend.
pub proof fn lemma_rem_units(x: Real, y: Real)
    requires
        x.spec_is_finite(),
        y.spec_is_finite(),
        y.spec_magnitude() != 0,
    ensures
        x.spec_rem(y).spec_is_finite(),
        x.spec_rem(y).spec_units() == x.spec_units() % y.spec_units(),
        x.spec_rem(y).spec_is_negative() == x.spec_is_negative(),
        x.spec_rem(y).spec_magnitude() < y.spec_magnitude(),
{
    lemma2_to64();
    lemma2_to64_rest();
    let ux = x.spec_units();
    let uy = y.spec_units();
    lemma_no_size(y);
    assert(uy > 0);
    let u = ux % uy;
    assert(0 <= u < uy) by (nonlinear_arith)
        requires
            u == ux % uy,
            uy > 0,
            ux >= 0,
    ;
    lemma_remainder_is_representable(x, y);
    lemma_units_of_from_units(u);
    let r = Real::spec_from_units(u);
    let signed = r.spec_signed(x.spec_is_negative());
    assert(signed.spec_magnitude() == r.spec_magnitude());
    assert(signed.spec_units() == r.spec_units());
    lemma_units_monotone(signed, y);
}

/// The remainder of two magnitudes is the size of a finite number.
proof fn lemma_remainder_is_representable(x: Real, y: Real)
    requires
        x.spec_is_finite(),
        y.spec_is_finite(),
        y.spec_units() > 0,
    ensures
        representable(x.spec_units() % y.spec_units()),
{
    lemma2_to64();
    lemma2_to64_rest();
    let ux = x.spec_units();
    let uy = y.spec_units();
    lemma_from_units_of_units(x);
    lemma_units_monotone(x, y);
    if ux < uy {
        assert(ux % uy == ux) by (nonlinear_arith)
            requires
                0 <= ux < uy,
        ;
    } else {
        let sx = x.spec_significand();
        let sy = y.spec_significand();
        let ax = x.spec_unit_scale();
        let ay = y.spec_unit_scale();
        let mx = x.spec_magnitude() as int;
        let my = y.spec_magnitude() as int;
        lemma_pow2_pos(ay);
        assert(ay <= ax && ay <= 2045 && 0 <= sx && 0 <= sy < 0x20_0000_0000_0000)
            by (nonlinear_arith)
            requires
                mx >= my,
                0 <= my < 0x7FF0_0000_0000_0000,
                ax == (if mx / 0x10_0000_0000_0000 == 0 {
                    0
                } else {
                    mx / 0x10_0000_0000_0000 - 1
                }),
                ay == (if my / 0x10_0000_0000_0000 == 0 {
                    0
                } else {
                    my / 0x10_0000_0000_0000 - 1
                }),
                sx == (if mx / 0x10_0000_0000_0000 == 0 {
                    mx % 0x10_0000_0000_0000
                } else {
                    0x10_0000_0000_0000 + mx % 0x10_0000_0000_0000
                }),
                sy == (if my / 0x10_0000_0000_0000 == 0 {
                    my % 0x10_0000_0000_0000
                } else {
                    0x10_0000_0000_0000 + my % 0x10_0000_0000_0000
                }),
        ;
        assert(sy > 0) by (nonlinear_arith)
            requires
                uy == sy * pow2(ay),
                uy > 0,
                sy >= 0,
        ;
        let steps = (ax - ay) as nat;
        let whole = sx * pow2(steps);
        let base = pow2(ay) as int;
        lemma_pow2_pos(steps);
        lemma_pow2_adds(steps, ay);
        assert(whole >= 0) by (nonlinear_arith)
            requires
                whole == sx * pow2(steps),
                sx >= 0,
                pow2(steps) > 0,
        ;
        lemma_truncate_middle(whole, base, sy);
        let r = whole % sy;
        assert(0 <= r < sy) by (nonlinear_arith)
            requires
                r == whole % sy,
                sy > 0,
                whole >= 0,
        ;
        assert(base * whole == ux) by (nonlinear_arith)
            requires
                whole == sx * pow2(steps),
                base == pow2(ay),
                pow2(ax) == pow2(steps) * pow2(ay),
                ux == sx * pow2(ax),
        ;
        assert(base * sy == uy) by (nonlinear_arith)
            requires
                base == pow2(ay),
                uy == sy * pow2(ay),
        ;
        assert(ux % uy == r * pow2(ay)) by (nonlinear_arith)
            requires
                (base * whole) % (base * sy) == base * r,
                base * whole == ux,
                base * sy == uy,
                base == pow2(ay),
        ;
        lemma_scaled_is_representable(r as nat, ay);
    }
}

} // verus!
