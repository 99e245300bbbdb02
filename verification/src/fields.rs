//! The fields of a binary64 pattern, and the exact size of a finite number.
//!
//! Every finite binary64 number is a whole multiple of 2^-1074, the smallest
//! positive number. Counted in such units a magnitude is a natural number,
//! and the exact operations on numbers are operations on natural numbers.

use crate::number::{Real, INFINITY_BITS};
use vstd::arithmetic::power2::{
    lemma2_to64, lemma2_to64_rest, lemma_pow2_adds, lemma_pow2_pos,
    lemma_pow2_strictly_increases, pow2,
};
use vstd::prelude::*;

verus! {

/// The number of patterns that share one exponent: 2 to the power 52.
pub const FRACTION_SPAN: u64 = 0x10_0000_0000_0000;

/// The largest exponent field of a finite number.
pub const MAX_FINITE_FIELD: u64 = 2046;

/// The position of the leading bit of `m`: the largest `p` with `2^p <= m`, for `m >= 1`.
pub open spec fn floor_log2(m: nat) -> nat
    decreases m,
{
    if m <= 1 {
        0
    } else {
        1 + floor_log2(m / 2)
    }
}

/// The leading bit of `m` stands at `floor_log2(m)`.
pub proof fn lemma_floor_log2_bounds(m: nat)
    requires
        m >= 1,
    ensures
        pow2(floor_log2(m)) <= m < pow2(floor_log2(m) + 1),
    decreases m,
{
    lemma2_to64();
    if m > 1 {
        lemma_floor_log2_bounds(m / 2);
        let p = floor_log2(m / 2);
        lemma_pow2_adds(p, 1);
        lemma_pow2_adds(p + 1, 1);
    }
}

/// Only one power of two has `m` between itself and its double.
pub proof fn lemma_floor_log2_unique(m: nat, p: nat)
    requires
        pow2(p) <= m < pow2(p + 1),
    ensures
        floor_log2(m) == p,
{
    lemma_pow2_pos(p);
    lemma_floor_log2_bounds(m);
    let q = floor_log2(m);
    if q < p {
        if q + 1 < p {
            lemma_pow2_strictly_increases(q + 1, p);
        }
    } else if q > p {
        if p + 1 < q {
            lemma_pow2_strictly_increases(p + 1, q);
        }
    }
}

/// The number of bits by which `u` is longer than a significand.
pub open spec fn excess(u: nat) -> nat {
    if floor_log2(u) > 52 {
        (floor_log2(u) - 52) as nat
    } else {
        0
    }
}

/// `u` units are the size of a finite number: `u` has no more than 53
/// significant bits and is below 2^2098 units, which is 2^1024.
pub open spec fn representable(u: nat) -> bool {
    u % pow2(excess(u)) == 0 && u < pow2(2098)
}

impl Real {
    /// The eleven exponent bits, as a number from 0 to 2047.
    pub open spec fn spec_exponent_field(self) -> int {
        self.spec_magnitude() as int / FRACTION_SPAN as int
    }

    /// The fifty-two fraction bits.
    pub open spec fn spec_fraction(self) -> int {
        self.spec_magnitude() as int % FRACTION_SPAN as int
    }

    /// The significand as an integer: the fraction, with the implicit leading
    /// bit unless the number is subnormal.
    pub open spec fn spec_significand(self) -> int {
        if self.spec_exponent_field() == 0 {
            self.spec_fraction()
        } else {
            FRACTION_SPAN as int + self.spec_fraction()
        }
    }

    /// The power of two that scales the significand: the magnitude of a finite
    /// number is `spec_significand() * 2^spec_scale()`.
    pub open spec fn spec_scale(self) -> int {
        if self.spec_exponent_field() == 0 {
            -1074
        } else {
            self.spec_exponent_field() - 1075
        }
    }

    /// The power of two that scales the significand to units of 2^-1074.
    pub open spec fn spec_unit_scale(self) -> nat {
        (self.spec_scale() + 1074) as nat
    }

    /// The magnitude of a finite number in units of 2^-1074.
    pub open spec fn spec_units(self) -> nat {
        (self.spec_significand() * pow2(self.spec_unit_scale())) as nat
    }

    /// The number that is `u` units large and not negative, where `u` is
    /// representable.
    ///
    /// Up to 2^53 units the pattern is `u` itself. Beyond that the significand
    /// is `u` without its `excess(u)` trailing zeros, and `excess(u)` is one
    /// less than the exponent field: the leading bit of the significand,
    /// which a pattern does not hold, adds the one that is missing.
    pub open spec fn spec_from_units(u: nat) -> Real {
        Real { bits: (excess(u) * FRACTION_SPAN + u / pow2(excess(u))) as u64 }
    }

    /// The significand of a number, as [`Real::spec_significand`] has it.
    pub fn significand(&self) -> (r: u64)
        ensures
            r == self.spec_significand(),
            r < 2 * FRACTION_SPAN,
    {
        let m: u64 = self.magnitude();
        if m / FRACTION_SPAN == 0 {
            m % FRACTION_SPAN
        } else {
            FRACTION_SPAN + m % FRACTION_SPAN
        }
    }

    /// The power of two that scales the significand to units of 2^-1074.
    pub fn unit_scale(&self) -> (r: u64)
        ensures
            r == self.spec_unit_scale(),
            r <= MAX_FINITE_FIELD,
            self.spec_is_finite() ==> r < MAX_FINITE_FIELD,
    {
        let field: u64 = self.magnitude() / FRACTION_SPAN;
        if field == 0 {
            0
        } else {
            field - 1
        }
    }
}

/// A pattern is its exponent field times 2^52 plus its fraction, and the
/// fields of a number made that way are the ones it was made of.
pub proof fn lemma_fields(field: int, fraction: int)
    requires
        0 <= field <= 2047,
        0 <= fraction < FRACTION_SPAN,
    ensures
        0 <= field * FRACTION_SPAN + fraction < 0x8000_0000_0000_0000,
        (field * FRACTION_SPAN + fraction) / (FRACTION_SPAN as int) == field,
        (field * FRACTION_SPAN + fraction) % (FRACTION_SPAN as int) == fraction,
        field <= 2046 <==> field * FRACTION_SPAN + fraction < INFINITY_BITS,
{
    let span = FRACTION_SPAN as int;
    let m = field * span + fraction;
    assert(0 <= m < 0x8000_0000_0000_0000 && (field <= 2046 <==> m < 0x7FF0_0000_0000_0000))
        by (nonlinear_arith)
        requires
            m == field * span + fraction,
            0 <= field <= 2047,
            0 <= fraction < span,
            span == 0x10_0000_0000_0000,
    ;
    assert(m / span == field && m % span == fraction) by (nonlinear_arith)
        requires
            m == field * span + fraction,
            0 <= fraction < span,
            span > 0,
    ;
}

/// Counting the units of a finite number and making a number of that many
/// units gives the number back, without its sign.
pub proof fn lemma_from_units_of_units(x: Real)
    requires
        x.spec_is_finite(),
    ensures
        representable(x.spec_units()),
        Real::spec_from_units(x.spec_units()) == x.spec_abs(),
{
    lemma2_to64();
    lemma2_to64_rest();
    let span = FRACTION_SPAN as int;
    let m = x.spec_magnitude() as int;
    let field = x.spec_exponent_field();
    let fraction = x.spec_fraction();
    assert(m == field * span + fraction && 0 <= fraction < span && 0 <= field <= 2046)
        by (nonlinear_arith)
        requires
            field == m / span,
            fraction == m % span,
            0 <= m < 0x7FF0_0000_0000_0000,
            span == 0x10_0000_0000_0000,
    ;
    let s = x.spec_significand();
    let a = x.spec_unit_scale();
    let u = x.spec_units();
    lemma_pow2_pos(a);
    if field == 0 {
        assert(u == fraction) by (nonlinear_arith)
            requires
                u == fraction * pow2(0),
                pow2(0) == 1,
                fraction >= 0,
        ;
        if u >= 1 {
            lemma_floor_log2_bounds(u);
            if floor_log2(u) > 52 {
                lemma_pow2_strictly_increases(52, floor_log2(u));
            }
        }
        assert(excess(u) == 0);
        lemma_pow2_strictly_increases(52, 2098);
    } else {
        assert(a == field - 1);
        lemma_pow2_adds(52, a);
        lemma_pow2_adds(53, a);
        assert(pow2(52 + a) <= u < pow2(53 + a)) by (nonlinear_arith)
            requires
                u == s * pow2(a),
                0x10_0000_0000_0000 <= s < 0x20_0000_0000_0000,
                pow2(52 + a) == 0x10_0000_0000_0000 * pow2(a),
                pow2(53 + a) == 0x20_0000_0000_0000 * pow2(a),
                pow2(a) > 0,
        ;
        lemma_floor_log2_unique(u, 52 + a);
        assert(excess(u) == a);
        assert(u as int / (pow2(a) as int) == s && u as int % (pow2(a) as int) == 0)
            by (nonlinear_arith)
            requires
                u == s * pow2(a),
                pow2(a) > 0,
                s >= 0,
        ;
        if 53 + a < 2098 {
            lemma_pow2_strictly_increases(53 + a, 2098);
        }
        assert(a * span + s == m) by (nonlinear_arith)
            requires
                a == field - 1,
                s == span + fraction,
                m == field * span + fraction,
        ;
    }
}

/// A number made of `u` units is finite, not negative, and `u` units large.
pub proof fn lemma_units_of_from_units(u: nat)
    requires
        representable(u),
    ensures
        Real::spec_from_units(u).spec_is_finite(),
        !Real::spec_from_units(u).spec_is_negative(),
        Real::spec_from_units(u).spec_units() == u,
{
    lemma2_to64();
    lemma2_to64_rest();
    let span = FRACTION_SPAN as int;
    let q = excess(u);
    let x = Real::spec_from_units(u);
    if u == 0 {
        assert(0int / (pow2(0) as int) == 0);
        lemma_fields(0, 0);
        assert(x.bits == 0);
        assert(x.spec_units() == 0) by (nonlinear_arith)
            requires
                x.spec_units() == 0 * pow2(0),
        ;
    } else {
        lemma_floor_log2_bounds(u);
        let p = floor_log2(u);
        if p <= 52 {
            if p < 52 {
                lemma_pow2_strictly_increases(p + 1, 53);
            }
            assert(u < 0x20_0000_0000_0000);
            assert(u as int / (pow2(0) as int) == u);
            if u < span {
                lemma_fields(0, u as int);
                assert(x.spec_units() == u) by (nonlinear_arith)
                    requires
                        x.spec_units() == u * pow2(0),
                        pow2(0) == 1,
                ;
            } else {
                lemma_fields(1, u - span);
                assert(x.spec_units() == u) by (nonlinear_arith)
                    requires
                        x.spec_units() == u * pow2(0),
                        pow2(0) == 1,
                ;
            }
        } else {
            lemma_pow2_pos(q);
            lemma_pow2_adds(52, q);
            lemma_pow2_adds(53, q);
            let s = u as int / (pow2(q) as int);
            assert(u == s * pow2(q) && 0x10_0000_0000_0000 <= s < 0x20_0000_0000_0000)
                by (nonlinear_arith)
                requires
                    s == u as int / (pow2(q) as int),
                    u as int % (pow2(q) as int) == 0,
                    pow2(q) > 0,
                    0x10_0000_0000_0000 * pow2(q) <= u < 0x20_0000_0000_0000 * pow2(q),
            ;
            if p >= 2098 {
                if p > 2098 {
                    lemma_pow2_strictly_increases(2098, p);
                }
            }
            assert(q <= 2045);
            lemma_fields(q as int + 1, s - span);
            assert(q * span + s == (q + 1) * span + (s - span)) by (nonlinear_arith);
            assert(x.spec_magnitude() == q * span + s);
            assert(x.spec_exponent_field() == q + 1);
            assert(x.spec_significand() == s);
            assert(x.spec_unit_scale() == q);
        }
    }
}

/// Among finite numbers the larger pattern is the larger number.
pub proof fn lemma_units_monotone(x: Real, y: Real)
    requires
        x.spec_is_finite(),
        y.spec_is_finite(),
    ensures
        x.spec_magnitude() < y.spec_magnitude() <==> x.spec_units() < y.spec_units(),
        x.spec_magnitude() == y.spec_magnitude() <==> x.spec_units() == y.spec_units(),
{
    if x.spec_magnitude() < y.spec_magnitude() {
        lemma_units_increase(x, y);
    } else if y.spec_magnitude() < x.spec_magnitude() {
        lemma_units_increase(y, x);
    }
}

proof fn lemma_units_increase(x: Real, y: Real)
    requires
        x.spec_is_finite(),
        y.spec_is_finite(),
        x.spec_magnitude() < y.spec_magnitude(),
    ensures
        x.spec_units() < y.spec_units(),
{
    lemma2_to64();
    lemma2_to64_rest();
    let span = FRACTION_SPAN as int;
    let mx = x.spec_magnitude() as int;
    let my = y.spec_magnitude() as int;
    let ex = x.spec_exponent_field();
    let ey = y.spec_exponent_field();
    let fx = x.spec_fraction();
    let fy = y.spec_fraction();
    assert(mx == ex * span + fx && 0 <= fx < span && my == ey * span + fy && 0 <= fy < span && ex
        <= ey && (ex == ey ==> fx < fy) && 0 <= ex) by (nonlinear_arith)
        requires
            ex == mx / span,
            fx == mx % span,
            ey == my / span,
            fy == my % span,
            0 <= mx < my,
            span == 0x10_0000_0000_0000,
    ;
    let sx = x.spec_significand();
    let sy = y.spec_significand();
    let ax = x.spec_unit_scale();
    let ay = y.spec_unit_scale();
    lemma_pow2_pos(ax);
    lemma_pow2_pos(ay);
    if ex == ey {
        assert(sx * pow2(ax) < sy * pow2(ay)) by (nonlinear_arith)
            requires
                0 <= sx < sy,
                ax == ay,
                pow2(ax) > 0,
        ;
    } else if ex == 0 {
        assert(sx * pow2(ax) < sy * pow2(ay)) by (nonlinear_arith)
            requires
                0 <= sx < 0x10_0000_0000_0000,
                0x10_0000_0000_0000 <= sy,
                pow2(ax) == 1,
                pow2(ay) >= 1,
        ;
    } else {
        assert(ax + 1 <= ay);
        lemma_pow2_adds(ax, 1);
        if ax + 1 < ay {
            lemma_pow2_strictly_increases(ax + 1, ay);
        }
        assert(sx * pow2(ax) < sy * pow2(ay)) by (nonlinear_arith)
            requires
                0 <= sx < 0x20_0000_0000_0000,
                0x10_0000_0000_0000 <= sy,
                2 * pow2(ax) <= pow2(ay),
                pow2(ax) > 0,
        ;
    }
}

/// The sizes of the neighbours of a number, which are the numbers whose
/// patterns are one more and one less: the neighbour above is one step of the
/// significand away, and so is the neighbour below, but at a power of two
/// above the subnormal numbers, where it is half a step away.
pub proof fn lemma_neighbours(x: Real)
    requires
        x.spec_is_finite(),
        x.spec_magnitude() > 0,
    ensures
        ({
            let above = Real { bits: (x.spec_magnitude() + 1) as u64 };
            let below = Real { bits: (x.spec_magnitude() - 1) as u64 };
            let s = x.spec_significand();
            let step = pow2(x.spec_unit_scale());
            &&& above.spec_units() == (s + 1) * step
            &&& s != FRACTION_SPAN || x.spec_unit_scale() == 0 ==> below.spec_units() == (s - 1)
                * step
            &&& s == FRACTION_SPAN && x.spec_unit_scale() > 0 ==> 2 * below.spec_units() == (2 * s
                - 1) * step
        }),
{
    lemma2_to64();
    lemma2_to64_rest();
    let span = FRACTION_SPAN as int;
    let m = x.spec_magnitude() as int;
    let e = x.spec_exponent_field();
    let fr = x.spec_fraction();
    assert(m == e * span + fr && 0 <= fr < span && 0 <= e <= 2046) by (nonlinear_arith)
        requires
            e == m / span,
            fr == m % span,
            0 <= m < 0x7FF0_0000_0000_0000,
            span == 0x10_0000_0000_0000,
    ;
    let s = x.spec_significand();
    let a = x.spec_unit_scale();
    let step = pow2(a);
    lemma_pow2_pos(a);
    let above = Real { bits: (m + 1) as u64 };
    let below = Real { bits: (m - 1) as u64 };
    // the neighbour above
    if fr < span - 1 {
        lemma_fields(e, fr + 1);
        assert(e * span + (fr + 1) == m + 1);
        assert(above.spec_significand() == s + 1);
        assert(above.spec_unit_scale() == a);
    } else {
        lemma_fields(e + 1, 0);
        assert((e + 1) * span + 0 == m + 1) by (nonlinear_arith)
            requires
                m == e * span + fr,
                fr == span - 1,
        ;
        assert(above.spec_significand() == span);
        assert(above.spec_unit_scale() == e);
        if e == 0 {
            assert(span * pow2(0) == (s + 1) * step) by (nonlinear_arith)
                requires
                    s == span - 1,
                    step == pow2(0),
            ;
        } else {
            lemma_pow2_adds(a, 1);
            assert(span * pow2(e as nat) == (s + 1) * step) by (nonlinear_arith)
                requires
                    s == 2 * span - 1,
                    pow2(e as nat) == step * 2,
            ;
        }
    }
    // the neighbour below
    if fr > 0 {
        lemma_fields(e, fr - 1);
        assert(e * span + (fr - 1) == m - 1);
        assert(below.spec_significand() == s - 1);
        assert(below.spec_unit_scale() == a);
    } else {
        lemma_fields(e - 1, span - 1);
        assert((e - 1) * span + (span - 1) == m - 1) by (nonlinear_arith)
            requires
                m == e * span + fr,
                fr == 0,
        ;
        if e == 1 {
            assert(below.spec_significand() == span - 1);
            assert(below.spec_unit_scale() == 0);
        } else {
            assert(below.spec_significand() == 2 * span - 1);
            assert(below.spec_unit_scale() == e - 2);
            lemma_pow2_adds((e - 2) as nat, 1);
            assert(2 * ((2 * span - 1) * pow2((e - 2) as nat)) == (2 * s - 1) * step)
                by (nonlinear_arith)
                requires
                    s == span,
                    step == pow2((e - 2) as nat) * 2,
            ;
        }
    }
}

/// Only the two zeros have no size.
pub proof fn lemma_no_size(x: Real)
    requires
        x.spec_is_finite(),
    ensures
        x.spec_units() == 0 <==> x.spec_magnitude() == 0,
{
    let zero = Real { bits: 0 };
    assert(zero.spec_units() == 0) by {
        lemma_fields(0, 0);
        assert(0 * pow2(0) == 0) by (nonlinear_arith);
    }
    lemma_units_monotone(x, zero);
}

impl Real {
    /// The size of a finite number with its sign: below zero for a negative number.
    pub open spec fn spec_signed_units(self) -> int {
        if self.spec_is_negative() {
            -(self.spec_units() as int)
        } else {
            self.spec_units() as int
        }
    }
}

/// The order of the finite numbers is the order of their sizes, taken with
/// their signs.
pub proof fn lemma_order_by_size(a: Real, b: Real)
    requires
        a.spec_is_finite(),
        b.spec_is_finite(),
    ensures
        a.spec_lt(b) <==> a.spec_signed_units() < b.spec_signed_units(),
        a.spec_le(b) <==> a.spec_signed_units() <= b.spec_signed_units(),
        a.spec_same(b) <==> a.spec_signed_units() == b.spec_signed_units(),
{
    lemma_units_monotone(a, b);
    lemma_no_size(a);
    lemma_no_size(b);
}


} // verus!
