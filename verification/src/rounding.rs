//! Rounding an exact size to the nearest binary64 number.

use crate::fields::{
    excess, floor_log2, lemma_floor_log2_bounds, lemma_floor_log2_unique,
    lemma_units_of_from_units, representable, FRACTION_SPAN,
};
use crate::number::{Real, INFINITY_BITS};
use vstd::arithmetic::div_mod::{lemma_div_multiples_vanish_quotient, lemma_truncate_middle};
use vstd::arithmetic::power2::{
    lemma2_to64, lemma2_to64_rest, lemma_pow2_adds, lemma_pow2_pos,
    lemma_pow2_strictly_increases, pow2,
};
use vstd::prelude::*;

verus! {

/// `m / d` rounded to the nearest integer, a tie going to the even neighbour.
pub open spec fn round_half_even(m: nat, d: nat) -> nat {
    let q = m / d;
    let r = m % d;
    if 2 * r > d || (2 * r == d && q % 2 == 1) {
        q + 1
    } else {
        q
    }
}

/// `u` units rounded to a size with no more than 53 significant bits: the
/// nearest such size, and of two that are equally near the one whose
/// significand is even.
pub open spec fn round_units(u: nat) -> nat {
    round_half_even(u, pow2(excess(u))) * pow2(excess(u))
}

/// The number nearest to `u` units that is not negative. Sizes from 2^1024 on
/// round to infinity.
pub open spec fn nearest(u: nat) -> Real {
    if round_units(u) >= pow2(2098) {
        Real { bits: INFINITY_BITS }
    } else {
        Real::spec_from_units(round_units(u))
    }
}

/// The bit of `n` at which `n / 2^k` is rounded: the bit that stands for one
/// unit, or the last bit of a 53-bit significand where that stands higher.
pub open spec fn rounding_position(n: nat, k: nat) -> nat {
    if excess(n) > k {
        excess(n)
    } else {
        k
    }
}

/// The number nearest to `n / 2^k` units that is not negative, a tie going to
/// the even significand. The quotient is rounded once, at the place at which
/// the result has its last bit. Sizes from 2^1024 on round to infinity.
pub open spec fn nearest_fraction(n: nat, k: nat) -> Real {
    let q = rounding_position(n, k);
    let u = round_half_even(n, pow2(q)) * pow2((q - k) as nat);
    if u >= pow2(2098) {
        Real { bits: INFINITY_BITS }
    } else {
        Real::spec_from_units(u)
    }
}

/// How far apart two whole numbers are.
pub open spec fn distance(a: nat, b: nat) -> int {
    if a >= b {
        a - b
    } else {
        b - a
    }
}

/// No multiple of `d` is nearer to `n` than the rounded quotient times `d`.
pub proof fn lemma_nearest_multiple(n: nat, d: nat, m: nat)
    requires
        d > 0,
    ensures
        distance(round_half_even(n, d) * d, n) <= distance(m * d, n),
{
    let q = n / d;
    let r = n % d;
    let rounded = round_half_even(n, d);
    assert(n == q * d + r && 0 <= r < d) by (nonlinear_arith)
        requires
            q == n / d,
            r == n % d,
            d > 0,
    ;
    let lower = q * d;
    let chosen = rounded * d;
    let other = m * d;
    let up = 2 * r > d || (2 * r == d && q % 2 == 1);
    assert(up ==> 2 * r >= d);
    assert(!up ==> 2 * r <= d);
    assert(chosen == (if up {
        lower + d
    } else {
        lower
    })) by (nonlinear_arith)
        requires
            chosen == rounded * d,
            lower == q * d,
            rounded == (if up {
                q + 1
            } else {
                q
            }),
    ;
    if m <= q {
        assert(other <= lower) by (nonlinear_arith)
            requires
                other == m * d,
                lower == q * d,
                m <= q,
                d > 0,
        ;
        assert(distance(other, n) >= r);
    } else {
        assert(other >= lower + d) by (nonlinear_arith)
            requires
                other == m * d,
                lower == q * d,
                m >= q + 1,
                d > 0,
        ;
        assert(distance(other, n) >= d - r);
    }
    if up {
        assert(distance(chosen, n) == d - r);
    } else {
        assert(distance(chosen, n) == r);
    }
}

/// Rounding finds a nearest number: no finite number is nearer to `n / 2^k`
/// units than the number that [`nearest_fraction`] takes. The sizes are
/// compared in units of 2^-k units, in which all of them are whole.
pub proof fn lemma_rounding_is_nearest(n: nat, k: nat, w: nat)
    requires
        representable(w),
    ensures
        ({
            let q = rounding_position(n, k);
            let rounded = round_half_even(n, pow2(q)) * pow2((q - k) as nat);
            distance(rounded * pow2(k), n) <= distance(w * pow2(k), n)
        }),
{
    lemma2_to64();
    lemma2_to64_rest();
    let q = rounding_position(n, k);
    let d = pow2(q);
    let quotient = round_half_even(n, d);
    let rounded = quotient * pow2((q - k) as nat);
    let scaled = w * pow2(k);
    lemma_pow2_pos(q);
    lemma_pow2_pos(k);
    lemma_pow2_adds((q - k) as nat, k);
    assert(rounded * pow2(k) == quotient * d) by (nonlinear_arith)
        requires
            rounded == quotient * pow2((q - k) as nat),
            d == pow2((q - k) as nat) * pow2(k),
    ;
    if q == k {
        lemma_nearest_multiple(n, d, w);
    } else {
        // the place of rounding is set by the length of `n`
        let p = floor_log2(n);
        assert(q == p - 52 && q > k);
        lemma_floor_log2_bounds(n);
        lemma_pow2_adds(q, 52);
        let lower = n / d;
        assert(lower >= 0x10_0000_0000_0000 && lower * d <= n) by (nonlinear_arith)
            requires
                lower == n / d,
                d > 0,
                n >= d * 0x10_0000_0000_0000,
        ;
        let pw = floor_log2(w);
        if w >= 1 && pw + k >= p {
            // `w` is as long as `n`, so it ends in as many zeros
            let ew = excess(w);
            assert(ew >= q - k);
            let extra = (ew - (q - k)) as nat;
            lemma_pow2_adds((q - k) as nat, extra);
            lemma_pow2_pos(ew);
            lemma_pow2_pos(extra);
            let c = (w / pow2(ew)) * pow2(extra);
            assert(w == c * pow2((q - k) as nat)) by (nonlinear_arith)
                requires
                    c == (w / pow2(ew)) * pow2(extra),
                    w % pow2(ew) == 0,
                    pow2(ew) == pow2((q - k) as nat) * pow2(extra),
                    pow2(ew) > 0,
            ;
            assert(scaled == c * d) by (nonlinear_arith)
                requires
                    scaled == w * pow2(k),
                    w == c * pow2((q - k) as nat),
                    d == pow2((q - k) as nat) * pow2(k),
            ;
            assert(c >= 0) by (nonlinear_arith)
                requires
                    c == (w / pow2(ew)) * pow2(extra),
                    pow2(ew) > 0,
                    pow2(extra) > 0,
            ;
            lemma_nearest_multiple(n, d, c as nat);
        } else {
            // `w` is shorter than `n`, so it lies below every number that `n` can round to
            if w >= 1 {
                lemma_floor_log2_bounds(w);
                lemma_pow2_adds(pw + 1, k);
                if pw + 1 + k < p {
                    lemma_pow2_strictly_increases(pw + 1 + k, p);
                }
                assert(scaled < pow2(p)) by (nonlinear_arith)
                    requires
                        scaled == w * pow2(k),
                        w < pow2(pw + 1),
                        pow2(pw + 1 + k) == pow2(pw + 1) * pow2(k),
                        pow2(pw + 1 + k) <= pow2(p),
                        pow2(k) > 0,
                ;
            } else {
                lemma_pow2_pos(p);
                assert(scaled == 0) by (nonlinear_arith)
                    requires
                        scaled == w * pow2(k),
                        w == 0,
                ;
            }
            assert(lower * d >= pow2(p)) by (nonlinear_arith)
                requires
                    lower >= 0x10_0000_0000_0000,
                    pow2(p) == d * 0x10_0000_0000_0000,
                    d > 0,
            ;
            lemma_nearest_multiple(n, d, lower);
        }
    }
}

/// Rounding moves a size by no more than half the place value of the last
/// bit that is kept.
pub proof fn lemma_round_units_is_near(u: nat)
    ensures
        2 * distance(round_units(u), u) <= pow2(excess(u)),
{
    let d = pow2(excess(u));
    lemma_pow2_pos(excess(u));
    let q = u / d;
    let r = u % d;
    let rounded = round_half_even(u, d);
    assert(u == q * d + r && 0 <= r < d) by (nonlinear_arith)
        requires
            q == u / d,
            r == u % d,
            d > 0,
    ;
    let up = 2 * r > d || (2 * r == d && q % 2 == 1);
    assert(rounded * d == (if up {
        q * d + d
    } else {
        q * d
    })) by (nonlinear_arith)
        requires
            rounded == (if up {
                q + 1
            } else {
                q
            }),
    ;
}

/// Rounding a whole number of units finds a nearest size: no size of a finite
/// number is nearer to `u` than `round_units(u)`.
pub proof fn lemma_round_units_is_nearest(u: nat, w: nat)
    requires
        representable(w),
    ensures
        distance(round_units(u), u) <= distance(w, u),
{
    lemma2_to64();
    lemma_rounding_is_nearest(u, 0, w);
    assert(round_units(u) * pow2(0) == round_units(u) && w * pow2(0) == w) by (nonlinear_arith)
        requires
            pow2(0) == 1,
    ;
}

/// A whole number of units is rounded as [`nearest`] rounds it.
pub proof fn lemma_nearest_fraction_whole(u: nat)
    ensures
        nearest_fraction(u, 0) == nearest(u),
{
}

/// A power of two that dividend and divisor share does not change the result.
pub proof fn lemma_nearest_fraction_scaled(n: nat, k: nat, c: nat)
    requires
        n >= 1,
    ensures
        nearest_fraction(n * pow2(c), k + c) == nearest_fraction(n, k),
{
    let q = rounding_position(n, k);
    lemma_floor_log2_scaled(n, c);
    assert(rounding_position(n * pow2(c), k + c) == q + c);
    lemma_pow2_adds(q, c);
    lemma_pow2_pos(q);
    lemma_pow2_pos(c);
    lemma_round_scaled(n, pow2(q), pow2(c));
    assert((q + c - (k + c)) as nat == (q - k) as nat);
}

/// Nothing, however it is scaled, rounds to positive zero.
pub proof fn lemma_nearest_fraction_of_zero(k: nat)
    ensures
        nearest_fraction(0, k) == (Real { bits: 0 }),
{
    let d = pow2(k);
    lemma_pow2_pos(k);
    lemma_pow2_pos(2098);
    lemma2_to64();
    assert(0nat / d == 0 && 0nat % d == 0) by (nonlinear_arith)
        requires
            d > 0,
    ;
    assert(excess(0) == 0);
    assert(round_half_even(0, d) == 0);
    assert(0 * pow2(0) == 0) by (nonlinear_arith);
    assert(0int / (pow2(0) as int) == 0);
}

/// A size that a finite number has is left as it is.
pub proof fn lemma_round_representable(u: nat)
    requires
        representable(u),
    ensures
        round_units(u) == u,
        nearest(u) == Real::spec_from_units(u),
{
    let d = pow2(excess(u));
    lemma_pow2_pos(excess(u));
    assert(round_half_even(u, d) * d == u) by (nonlinear_arith)
        requires
            round_half_even(u, d) == u / d,
            u % d == 0,
            d > 0,
    ;
}

/// A rounded size below 2^1024 is the size of a finite number.
pub proof fn lemma_round_units_representable(u: nat)
    requires
        round_units(u) < pow2(2098),
    ensures
        representable(round_units(u)),
        nearest(u).spec_is_finite(),
        !nearest(u).spec_is_negative(),
        nearest(u).spec_units() == round_units(u),
{
    lemma2_to64();
    lemma2_to64_rest();
    let q = excess(u);
    let d = pow2(q);
    lemma_pow2_pos(q);
    let rounded = round_half_even(u, d);
    if q == 0 {
        assert(rounded == u && rounded * d == u) by (nonlinear_arith)
            requires
                d == 1,
                rounded == (if 2 * (u % d) > d || (2 * (u % d) == d && (u / d) % 2 == 1) {
                    u / d + 1
                } else {
                    u / d
                }),
        ;
    } else {
        lemma_floor_log2_bounds(u);
        lemma_pow2_adds(q, 52);
        lemma_pow2_adds(q, 53);
        assert(0x10_0000_0000_0000 <= u / d < 0x20_0000_0000_0000) by (nonlinear_arith)
            requires
                d > 0,
                d * 0x10_0000_0000_0000 <= u < d * 0x20_0000_0000_0000,
        ;
        lemma_pow2_adds(52, q);
        lemma_pow2_adds(52, 2046);
        if q >= 2046 {
            if q > 2046 {
                lemma_pow2_strictly_increases(2046, q);
            }
            assert(rounded * d >= pow2(2098)) by (nonlinear_arith)
                requires
                    rounded >= 0x10_0000_0000_0000,
                    d >= pow2(2046),
                    pow2(2098) == 0x10_0000_0000_0000 * pow2(2046),
            ;
        }
        if rounded == 0x20_0000_0000_0000 {
            lemma_pow2_adds(q, 1);
            assert(rounded * d == 0x10_0000_0000_0000 * pow2(q + 1)) by (nonlinear_arith)
                requires
                    rounded == 0x20_0000_0000_0000,
                    pow2(q + 1) == d * 2,
            ;
            if q + 1 >= 2046 {
                if q + 1 > 2046 {
                    lemma_pow2_strictly_increases(2046, q + 1);
                }
                assert(0x10_0000_0000_0000 * pow2(q + 1) >= pow2(2098)) by (nonlinear_arith)
                    requires
                        pow2(q + 1) >= pow2(2046),
                        pow2(2098) == 0x10_0000_0000_0000 * pow2(2046),
                ;
            }
            lemma_scaled_is_representable(0x10_0000_0000_0000, q + 1);
        } else {
            lemma_scaled_is_representable(rounded, q);
        }
    }
    lemma_units_of_from_units(round_units(u));
}

/// Rounding is monotone: it does not carry a size past a representable size
/// that is not smaller.
pub proof fn lemma_round_units_below(u: nat, w: nat)
    requires
        u <= w,
        representable(w),
    ensures
        round_units(u) <= w,
{
    let q = excess(u);
    let d = pow2(q);
    lemma_pow2_pos(q);
    lemma_floor_log2_monotone(u, w);
    let qw = excess(w);
    assert(q <= qw);
    let extra = (qw - q) as nat;
    lemma_pow2_adds(q, extra);
    lemma_pow2_pos(extra);
    // w is a whole multiple of d
    let dw = pow2(qw);
    lemma_pow2_pos(qw);
    let kw = w / dw;
    assert(w == (kw * pow2(extra)) * d) by (nonlinear_arith)
        requires
            kw == w / dw,
            w % dw == 0,
            dw == d * pow2(extra),
            dw > 0,
    ;
    let multiple = kw * pow2(extra);
    let quotient = u / d;
    assert(u == quotient * d + u % d && 0 <= u % d < d) by (nonlinear_arith)
        requires
            quotient == u / d,
            d > 0,
    ;
    if u % d == 0 {
        assert(round_half_even(u, d) == quotient);
        assert(multiple >= quotient) by (nonlinear_arith)
            requires
                multiple * d >= quotient * d,
                d > 0,
        ;
    } else {
        assert(multiple >= quotient + 1) by (nonlinear_arith)
            requires
                multiple * d >= quotient * d + u % d,
                u % d > 0,
                d > 0,
        ;
        assert(round_half_even(u, d) <= quotient + 1);
    }
    assert(round_half_even(u, d) * d <= multiple * d) by (nonlinear_arith)
        requires
            round_half_even(u, d) <= multiple,
            d > 0,
    ;
}

/// A size rounds to no less than the power of two of its leading bit.
pub proof fn lemma_round_units_at_least(u: nat)
    requires
        u >= 1,
    ensures
        round_units(u) >= pow2(floor_log2(u)),
{
    lemma2_to64();
    lemma2_to64_rest();
    let q = excess(u);
    let d = pow2(q);
    lemma_pow2_pos(q);
    lemma_floor_log2_bounds(u);
    if q == 0 {
        assert(round_half_even(u, d) * d >= u) by (nonlinear_arith)
            requires
                d == 1,
                round_half_even(u, d) >= u / d,
        ;
    } else {
        lemma_pow2_adds(q, 52);
        assert(u / d >= 0x10_0000_0000_0000) by (nonlinear_arith)
            requires
                d > 0,
                u >= d * 0x10_0000_0000_0000,
        ;
        assert(round_half_even(u, d) * d >= d * 0x10_0000_0000_0000) by (nonlinear_arith)
            requires
                round_half_even(u, d) >= 0x10_0000_0000_0000,
                d > 0,
        ;
    }
}

/// Rounding a quotient does not depend on a factor that dividend and divisor share.
pub proof fn lemma_round_scaled(n: nat, d: nat, c: nat)
    requires
        d > 0,
        c > 0,
    ensures
        round_half_even(n * c, d * c) == round_half_even(n, d),
{
    lemma_div_multiples_vanish_quotient(c as int, n as int, d as int);
    lemma_truncate_middle(n as int, c as int, d as int);
    let q = n / d;
    let r = n % d;
    assert((c * n) / (c * d) == q);
    assert((c * n) % (c * d) == c * r);
    assert(n * c == c * n && d * c == c * d) by (nonlinear_arith);
    assert((2 * (c * r) > c * d) == (2 * r > d) && (2 * (c * r) == c * d) == (2 * r == d))
        by (nonlinear_arith)
        requires
            c > 0,
    ;
}

/// A whole number of fewer than 54 bits, scaled by a power of two within the
/// range of the exponents, is the size of a finite number.
pub proof fn lemma_scaled_is_representable(s: nat, e: nat)
    requires
        s < 2 * FRACTION_SPAN,
        e <= 2045,
    ensures
        representable((s * pow2(e)) as nat),
    decreases e,
{
    lemma2_to64();
    lemma2_to64_rest();
    lemma_pow2_pos(e);
    let u = (s * pow2(e)) as nat;
    assert(s * pow2(e) >= 0) by (nonlinear_arith)
        requires
            pow2(e) > 0,
    ;
    if s == 0 {
        assert(u == 0) by (nonlinear_arith)
            requires
                u == 0 * pow2(e),
        ;
        lemma_pow2_pos(2098);
        assert(0nat % pow2(0) == 0);
    } else if s >= FRACTION_SPAN {
        lemma_pow2_adds(52, e);
        lemma_pow2_adds(53, e);
        assert(pow2(52 + e) <= u < pow2(53 + e)) by (nonlinear_arith)
            requires
                u == s * pow2(e),
                0x10_0000_0000_0000 <= s < 0x20_0000_0000_0000,
                pow2(52 + e) == 0x10_0000_0000_0000 * pow2(e),
                pow2(53 + e) == 0x20_0000_0000_0000 * pow2(e),
                pow2(e) > 0,
        ;
        lemma_floor_log2_unique(u, 52 + e);
        assert(u as int % (pow2(e) as int) == 0) by (nonlinear_arith)
            requires
                u == s * pow2(e),
                pow2(e) > 0,
        ;
        if 53 + e < 2098 {
            lemma_pow2_strictly_increases(53 + e, 2098);
        }
    } else if e == 0 {
        assert(u == s) by (nonlinear_arith)
            requires
                u == s * pow2(0),
                pow2(0) == 1,
        ;
        lemma_floor_log2_bounds(u);
        if floor_log2(u) > 52 {
            lemma_pow2_strictly_increases(52, floor_log2(u));
        }
        assert(u % pow2(0) == 0);
        lemma_pow2_strictly_increases(52, 2098);
    } else {
        lemma_pow2_adds((e - 1) as nat, 1);
        assert((2 * s) * pow2((e - 1) as nat) == s * pow2(e)) by (nonlinear_arith)
            requires
                pow2(e) == pow2((e - 1) as nat) * 2,
        ;
        lemma_scaled_is_representable(2 * s, (e - 1) as nat);
    }
}

/// The leading bit of a scaled number stands higher by the scale.
pub proof fn lemma_floor_log2_scaled(n: nat, k: nat)
    requires
        n >= 1,
    ensures
        floor_log2(n * pow2(k)) == floor_log2(n) + k,
{
    let p = floor_log2(n);
    lemma_floor_log2_bounds(n);
    lemma_pow2_adds(p, k);
    lemma_pow2_adds(p + 1, k);
    lemma_pow2_pos(k);
    assert(pow2(p + k) <= n * pow2(k) < pow2(p + 1 + k)) by (nonlinear_arith)
        requires
            pow2(p) <= n < pow2(p + 1),
            pow2(p + k) == pow2(p) * pow2(k),
            pow2(p + 1 + k) == pow2(p + 1) * pow2(k),
            pow2(k) > 0,
    ;
    lemma_floor_log2_unique(n * pow2(k), p + k);
}

/// The leading bit of the larger number does not stand lower.
pub proof fn lemma_floor_log2_monotone(m: nat, n: nat)
    requires
        m <= n,
    ensures
        floor_log2(m) <= floor_log2(n),
{
    if m >= 1 {
        lemma_floor_log2_bounds(m);
        lemma_floor_log2_bounds(n);
        let p = floor_log2(m);
        let q = floor_log2(n);
        if q < p {
            if q + 1 < p {
                lemma_pow2_strictly_increases(q + 1, p);
            }
        }
    }
}

/// Packs `s * 2^e` units into the pattern of a number that is not negative.
pub(crate) fn pack(s: u64, e: u64) -> (bits: u64)
    requires
        s < 2 * FRACTION_SPAN,
        e <= 2045,
    ensures
        bits == Real::spec_from_units((s * pow2(e as nat)) as nat).bits,
        representable((s * pow2(e as nat)) as nat),
{
    let ghost u: nat = (s * pow2(e as nat)) as nat;
    proof {
        lemma2_to64();
        lemma2_to64_rest();
        lemma_pow2_pos(e as nat);
        assert(s * pow2(e as nat) >= 0) by (nonlinear_arith)
            requires
                s >= 0,
                pow2(e as nat) > 0,
        ;
    }
    if s == 0 {
        proof {
            assert(u == 0) by (nonlinear_arith)
                requires
                    u == 0 * pow2(e as nat),
            ;
            lemma_pow2_pos(2098);
            assert(0nat % pow2(0) == 0);
            assert(0int / (pow2(0) as int) == 0);
        }
        return 0;
    }
    let mut t: u64 = s;
    let mut k: u64 = e;
    while t < FRACTION_SPAN && k > 0
        invariant
            1 <= t < 2 * FRACTION_SPAN,
            k <= e,
            t * pow2(k as nat) == u,
        decreases k,
    {
        proof {
            lemma2_to64();
            lemma_pow2_adds((k - 1) as nat, 1);
            assert((2 * t) * pow2((k - 1) as nat) == t * pow2(k as nat)) by (nonlinear_arith)
                requires
                    pow2(k as nat) == pow2((k - 1) as nat) * 2,
            ;
        }
        t = 2 * t;
        k = k - 1;
    }
    proof {
        let span = FRACTION_SPAN as int;
        lemma_pow2_pos(k as nat);
        if t >= FRACTION_SPAN {
            lemma_pow2_adds(52, k as nat);
            lemma_pow2_adds(53, k as nat);
            assert(pow2(52 + k as nat) <= u < pow2(53 + k as nat)) by (nonlinear_arith)
                requires
                    u == t * pow2(k as nat),
                    0x10_0000_0000_0000 <= t < 0x20_0000_0000_0000,
                    pow2(52 + k as nat) == 0x10_0000_0000_0000 * pow2(k as nat),
                    pow2(53 + k as nat) == 0x20_0000_0000_0000 * pow2(k as nat),
                    pow2(k as nat) > 0,
            ;
            lemma_floor_log2_unique(u, 52 + k as nat);
            assert(excess(u) == k);
            assert(u as int / (pow2(k as nat) as int) == t && u as int % (pow2(k as nat) as int)
                == 0) by (nonlinear_arith)
                requires
                    u == t * pow2(k as nat),
                    pow2(k as nat) > 0,
                    t >= 0,
            ;
            if 53 + k < 2098 {
                lemma_pow2_strictly_increases(53 + k as nat, 2098);
            }
        } else {
            assert(u == t) by (nonlinear_arith)
                requires
                    u == t * pow2(0),
                    pow2(0) == 1,
            ;
            lemma_floor_log2_bounds(u);
            if floor_log2(u) > 52 {
                lemma_pow2_strictly_increases(52, floor_log2(u));
            }
            assert(excess(u) == 0);
            assert(u as int / (pow2(0) as int) == u);
            assert(u % pow2(0) == 0);
            lemma_pow2_strictly_increases(52, 2098);
        }
    }
    k * FRACTION_SPAN + t
}

/// 2 to the power `k`.
pub(crate) fn power_of_two(k: u64) -> (r: u128)
    requires
        k <= 126,
    ensures
        r == pow2(k as nat),
{
    let mut r: u128 = 1;
    let mut i: u64 = 0;
    proof {
        lemma2_to64();
    }
    while i < k
        invariant
            i <= k,
            k <= 126,
            r == pow2(i as nat),
        decreases k - i,
    {
        proof {
            lemma2_to64();
            lemma_pow2_adds(i as nat, 1);
            lemma_pow2_strictly_increases((i + 1) as nat, 127);
            lemma_pow2_adds(63, 64);
            lemma2_to64_rest();
        }
        r = r * 2;
        i = i + 1;
    }
    r
}

/// The position of the leading bit of `n`.
pub(crate) fn leading_position(n: u128) -> (p: u64)
    requires
        n >= 1,
    ensures
        p == floor_log2(n as nat),
        p <= 127,
{
    let mut p: u64 = 0;
    let mut t: u128 = n;
    proof {
        lemma2_to64();
        lemma2_to64_rest();
        lemma_floor_log2_bounds(n as nat);
        lemma_pow2_adds(64, 64);
        if floor_log2(n as nat) >= 128 {
            if floor_log2(n as nat) > 128 {
                lemma_pow2_strictly_increases(128, floor_log2(n as nat));
            }
        }
    }
    while t > 1
        invariant
            t >= 1,
            floor_log2(n as nat) == p + floor_log2(t as nat),
            floor_log2(n as nat) <= 127,
        decreases t,
    {
        t = t / 2;
        p = p + 1;
    }
    p
}

/// Rounds `n * 2^e` units to the nearest number and returns its pattern.
pub(crate) fn round_pack(n: u128, e: u64) -> (bits: u64)
    requires
        e <= 2045,
    ensures
        bits == nearest((n * pow2(e as nat)) as nat).bits,
        bits <= INFINITY_BITS,
{
    let ghost u: nat = (n * pow2(e as nat)) as nat;
    proof {
        lemma2_to64();
        lemma2_to64_rest();
        lemma_pow2_pos(e as nat);
        assert(n * pow2(e as nat) >= 0) by (nonlinear_arith)
            requires
                n >= 0,
                pow2(e as nat) > 0,
        ;
    }
    if n < 0x20_0000_0000_0000 {
        proof {
            lemma_scaled_is_representable(n as nat, e as nat);
            lemma_round_representable(u);
            lemma_units_of_from_units(u);
        }
        return pack(n as u64, e);
    }
    let p: u64 = leading_position(n);
    proof {
        lemma_floor_log2_bounds(n as nat);
        if p < 53 {
            lemma_pow2_strictly_increases((p + 1) as nat, 54);
            lemma_pow2_strictly_increases(53, 54);
        }
        assert(p >= 53);
    }
    let q: u64 = p - 52;
    let d: u128 = power_of_two(q);
    proof {
        lemma_pow2_pos(q as nat);
        lemma_pow2_adds(q as nat, 52);
        lemma_pow2_adds(q as nat, 53);
        lemma_pow2_adds((q - 1) as nat, 1);
    }
    let quotient: u128 = n / d;
    let rest: u128 = n % d;
    let half: u128 = d / 2;
    proof {
        assert(0x10_0000_0000_0000 <= quotient < 0x20_0000_0000_0000) by (nonlinear_arith)
            requires
                quotient == n / d,
                d > 0,
                d * 0x10_0000_0000_0000 <= n < d * 0x20_0000_0000_0000,
        ;
    }
    let rounded: u64 = if rest > half || (rest == half && quotient % 2 == 1) {
        (quotient + 1) as u64
    } else {
        quotient as u64
    };
    let t: u64 = q + e;
    proof {
        assert(rounded == round_half_even(n as nat, d as nat));
        lemma_floor_log2_scaled(n as nat, e as nat);
        assert(excess(u) == t);
        lemma_pow2_adds(q as nat, e as nat);
        lemma_round_scaled(n as nat, d as nat, pow2(e as nat));
        assert(round_units(u) == rounded * pow2(t as nat));
    }
    let (s, k): (u64, u64) = if rounded == 2 * FRACTION_SPAN {
        (FRACTION_SPAN, t + 1)
    } else {
        (rounded, t)
    };
    proof {
        lemma_pow2_adds(t as nat, 1);
        lemma_pow2_pos(t as nat);
        lemma_pow2_pos(k as nat);
        assert(s * pow2(k as nat) == rounded * pow2(t as nat)) by (nonlinear_arith)
            requires
                rounded == 0x20_0000_0000_0000 ==> s == 0x10_0000_0000_0000 && pow2(k as nat)
                    == pow2(t as nat) * 2,
                rounded != 0x20_0000_0000_0000 ==> s == rounded && k == t,
        ;
        lemma_pow2_adds(52, k as nat);
        lemma_pow2_adds(53, k as nat);
        if k > 2046 {
            lemma_pow2_strictly_increases(2046, k as nat);
        }
        if k < 2045 {
            lemma_pow2_strictly_increases(k as nat, 2045);
        }
        lemma_pow2_adds(52, 2046);
        lemma_pow2_adds(53, 2045);
        assert(k <= 2045 <==> s * pow2(k as nat) < pow2(2098)) by (nonlinear_arith)
            requires
                0x10_0000_0000_0000 <= s < 0x20_0000_0000_0000,
                k <= 2045 ==> pow2(k as nat) <= pow2(2045),
                k > 2045 ==> pow2(k as nat) >= pow2(2046),
                pow2(2098) == 0x10_0000_0000_0000 * pow2(2046),
                pow2(2098) == 0x20_0000_0000_0000 * pow2(2045),
                pow2(k as nat) > 0,
        ;
    }
    if k > 2045 {
        INFINITY_BITS
    } else {
        proof {
            lemma_round_units_representable(u);
        }
        pack(s, k)
    }
}

/// Rounds `n / 2^k` units to the nearest number and returns its pattern.
pub(crate) fn round_fraction(n: u128, k: u64) -> (bits: u64)
    requires
        1 <= k <= 1074,
        n < 0x400_0000_0000_0000_0000_0000_0000,
    ensures
        bits == nearest_fraction(n as nat, k as nat).bits,
        bits < INFINITY_BITS,
{
    proof {
        lemma2_to64();
        lemma2_to64_rest();
        lemma_pow2_adds(53, 53);
    }
    let ghost position = rounding_position(n as nat, k as nat);
    let p: u64 = if n == 0 {
        0
    } else {
        leading_position(n)
    };
    proof {
        if n >= 1 {
            lemma_floor_log2_bounds(n as nat);
            if p > 105 {
                if p > 106 {
                    lemma_pow2_strictly_increases(106, p as nat);
                }
            }
        }
        assert(p <= 105);
    }
    let over: u64 = if p > 52 {
        p - 52
    } else {
        0
    };
    let q: u64 = if over > k {
        over
    } else {
        k
    };
    assert(q == position);
    if q > 107 {
        proof {
            lemma_pow2_strictly_increases(107, q as nat);
            lemma_pow2_adds(106, 1);
            let d = pow2(q as nat);
            assert(n as nat / d == 0 && n as nat % d == n) by (nonlinear_arith)
                requires
                    0 <= n < d,
            ;
            assert(round_half_even(n as nat, d) == 0);
            assert(0 * pow2((q - k) as nat) == 0) by (nonlinear_arith);
            lemma_pow2_pos(2098);
            assert(0int / (pow2(0) as int) == 0);
        }
        return 0;
    }
    let d: u128 = power_of_two(q);
    proof {
        lemma_pow2_pos(q as nat);
        lemma_pow2_adds((q - 1) as nat, 1);
        lemma_pow2_adds(q as nat, 53);
    }
    let quotient: u128 = n / d;
    let rest: u128 = n % d;
    let half: u128 = d / 2;
    proof {
        if n >= 1 {
            // n < 2^(p + 1) <= 2^(q + 53)
            if p + 1 < q + 53 {
                lemma_pow2_strictly_increases((p + 1) as nat, (q + 53) as nat);
            }
        }
        assert(quotient < 0x20_0000_0000_0000) by (nonlinear_arith)
            requires
                quotient == n / d,
                d > 0,
                n < d * 0x20_0000_0000_0000,
        ;
    }
    let rounded: u64 = if rest > half || (rest == half && quotient % 2 == 1) {
        (quotient + 1) as u64
    } else {
        quotient as u64
    };
    let t: u64 = q - k;
    assert(rounded == round_half_even(n as nat, d as nat));
    let (s, e): (u64, u64) = if rounded == 2 * FRACTION_SPAN {
        (FRACTION_SPAN, t + 1)
    } else {
        (rounded, t)
    };
    proof {
        lemma_pow2_adds(t as nat, 1);
        lemma_pow2_pos(t as nat);
        assert(s * pow2(e as nat) == rounded * pow2(t as nat)) by (nonlinear_arith)
            requires
                rounded == 0x20_0000_0000_0000 ==> s == 0x10_0000_0000_0000 && pow2(e as nat)
                    == pow2(t as nat) * 2,
                rounded != 0x20_0000_0000_0000 ==> s == rounded && e == t,
        ;
        lemma_scaled_is_representable(s as nat, e as nat);
        lemma_units_of_from_units((s * pow2(e as nat)) as nat);
    }
    pack(s, e)
}

} // verus!
