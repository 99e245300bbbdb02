//! The decimal text of binary64 numbers, for messages: the shortest text that
//! reads back as the same number.
//!
//! Every number has a range of sizes that round to it: from halfway down to
//! its neighbour below to halfway up to its neighbour above, the two ends
//! included where its significand is even. The text is the decimal number in
//! that range with the fewest digits, and of several the one nearest to the
//! number itself.

use crate::digits::{
    add_digits, append_digits, are_digits, canonical_from, digits_of, digits_text, digits_value,
    is_canonical, less_digits, lemma_pow10_monotone, lemma_pow10_positive, lemma_pow5_positive,
    lemma_text_is_padded,
    lemma_text_of_canonical, lemma_value_bound, lemma_value_push, lemma_value_split,
    padded_digits, pow10, pow5, times_digit, unit_digits, zero_low,
};
use crate::fields::{lemma_neighbours, lemma_no_size, FRACTION_SPAN};
use crate::number::Real;
use crate::text::decimal_digits;
use vstd::arithmetic::div_mod::lemma_fundamental_div_mod_converse;
use vstd::arithmetic::power2::{lemma2_to64, lemma_pow2_adds, lemma_pow2_pos, pow2};
use vstd::prelude::*;

verus! {

/// The decimal text of `n / 10^places`: the whole part, and after a point the
/// decimal places, where there are any.
pub open spec fn decimal_text(n: nat, places: nat) -> Seq<char> {
    if places == 0 {
        decimal_digits(n)
    } else {
        decimal_digits(n / pow10(places)) + "."@ + padded_digits(n % pow10(places), places)
    }
}

/// The power of two below which the sizes of the numbers with unit scale `a`
/// are counted here: a quarter of the distance between neighbours, which is
/// 2^(a - 1076). The halfway points between neighbours are whole in it.
pub const QUARTER_SHIFT: u64 = 1076;

/// The number of decimal places in which `m * 2^(a - 1076)` is whole.
pub open spec fn grid_places(a: nat) -> nat {
    if a >= QUARTER_SHIFT {
        0
    } else {
        (QUARTER_SHIFT - a) as nat
    }
}

/// `m * 2^(a - 1076)` as a whole number of units of 10^-`grid_places(a)`.
pub open spec fn grid(m: nat, a: nat) -> nat {
    if a >= QUARTER_SHIFT {
        m * pow2((a - QUARTER_SHIFT) as nat)
    } else {
        m * pow5((QUARTER_SHIFT - a) as nat)
    }
}

/// `n` lies in the range from `lo` to `hi`, the ends counted where `inclusive`.
pub open spec fn fits(n: nat, lo: nat, hi: nat, inclusive: bool) -> bool {
    if inclusive {
        lo <= n <= hi
    } else {
        lo < n < hi
    }
}

/// `c` with its `k` lowest decimal places set to zero.
pub open spec fn floor_to(c: nat, k: nat) -> nat {
    (c / pow10(k)) * pow10(k)
}

/// A multiple of 10^k next to `c` lies in the range.
pub open spec fn works(c: nat, lo: nat, hi: nat, inclusive: bool, k: nat) -> bool {
    fits(floor_to(c, k), lo, hi, inclusive) || fits(floor_to(c, k) + pow10(k), lo, hi, inclusive)
}

/// The highest power of ten, `top` at most, that has a multiple next to `c`
/// in the range: the number of places that the shortest text can leave out.
pub open spec fn shortest_level(c: nat, lo: nat, hi: nat, inclusive: bool, top: nat) -> nat
    decreases top,
{
    if top == 0 || works(c, lo, hi, inclusive, top) {
        top
    } else {
        shortest_level(c, lo, hi, inclusive, (top - 1) as nat)
    }
}

/// Of the two multiples of 10^k next to `c`, the one in the range; where both
/// are, the nearer one, and the upper one where they are equally near.
pub open spec fn choice(c: nat, lo: nat, hi: nat, inclusive: bool, k: nat) -> nat {
    let down = floor_to(c, k);
    let up = down + pow10(k);
    if fits(up, lo, hi, inclusive) && (!fits(down, lo, hi, inclusive) || 2 * c >= down + up) {
        up
    } else {
        down
    }
}

impl Real {
    /// How far below the number the range of the sizes that round to it
    /// begins, in quarters of the distance to the neighbour above: 2 as a
    /// rule, and 1 where the neighbour below is only half as far away, which
    /// is so at a power of two above the subnormal numbers.
    pub open spec fn spec_lower_gap(self) -> nat {
        if self.spec_significand() == FRACTION_SPAN && self.spec_unit_scale() > 0 {
            1
        } else {
            2
        }
    }

    /// The size of the number, in units of 10^-`grid_places`.
    pub open spec fn spec_centre(self) -> nat {
        grid((4 * self.spec_significand()) as nat, self.spec_unit_scale())
    }

    /// The lower end of the range of the sizes that round to the number.
    pub open spec fn spec_range_low(self) -> nat {
        grid((4 * self.spec_significand() - self.spec_lower_gap()) as nat, self.spec_unit_scale())
    }

    /// The upper end of the range of the sizes that round to the number.
    pub open spec fn spec_range_high(self) -> nat {
        grid((4 * self.spec_significand() + 2) as nat, self.spec_unit_scale())
    }

    /// The ends of the range round to the number too: ties go to the even
    /// significand.
    pub open spec fn spec_range_is_closed(self) -> bool {
        self.spec_significand() % 2 == 0
    }

    /// The number of decimal places, counted from the last place of the
    /// centre, that the shortest text leaves out.
    pub open spec fn spec_short_level(self) -> nat {
        shortest_level(
            self.spec_centre(),
            self.spec_range_low(),
            self.spec_range_high(),
            self.spec_range_is_closed(),
            decimal_digits(self.spec_range_high()).len(),
        )
    }

    /// The shortest decimal number that rounds to the number, in units of
    /// 10^-`grid_places`.
    pub open spec fn spec_short_digits(self) -> nat {
        choice(
            self.spec_centre(),
            self.spec_range_low(),
            self.spec_range_high(),
            self.spec_range_is_closed(),
            self.spec_short_level(),
        )
    }

    /// The size of a finite number other than zero in decimal, as short as it
    /// can be.
    pub open spec fn spec_short_text(self) -> Seq<char> {
        let places = grid_places(self.spec_unit_scale());
        let level = self.spec_short_level();
        let cut = if level < places {
            level
        } else {
            places
        };
        decimal_text(self.spec_short_digits() / pow10(cut), (places - cut) as nat)
    }

    /// The number in decimal: `NaN`, or the sign, where it is negative, and
    /// then `inf`, `0`, or the shortest decimal text that rounds to the size
    /// of the number.
    pub open spec fn spec_to_text(self) -> Seq<char> {
        if self.spec_is_nan() {
            "NaN"@
        } else {
            (if self.spec_is_negative() {
                "-"@
            } else {
                ""@
            }) + (if !self.spec_is_finite() {
                "inf"@
            } else if self.spec_magnitude() == 0 {
                "0"@
            } else {
                self.spec_short_text()
            })
        }
    }

    /// The number in decimal, as short as it can be and still read back as
    /// the same number.
    pub fn to_text(&self) -> (r: String)
        ensures
            r@ == self.spec_to_text(),
    {
        if self.is_nan() {
            return String::from_str("NaN");
        }
        let mut text = String::from_str(
            if self.is_negative() {
                "-"
            } else {
                ""
            },
        );
        if !self.is_finite() {
            text.append("inf");
            return text;
        }
        if self.magnitude() == 0 {
            text.append("0");
            return text;
        }
        let significand: u64 = self.significand();
        let scale: u64 = self.unit_scale();
        let gap: u64 = if significand == FRACTION_SPAN && scale > 0 {
            1
        } else {
            2
        };
        proof {
            lemma_no_size(*self);
            lemma_pow2_pos(scale as nat);
            assert(significand >= 1) by (nonlinear_arith)
                requires
                    self.spec_units() == significand * pow2(scale as nat),
                    self.spec_units() > 0,
                    significand >= 0,
            ;
        }
        let centre = grid_digits(4 * significand, scale);
        let low = grid_digits(4 * significand - gap, scale);
        let high = grid_digits(4 * significand + 2, scale);
        let places: u64 = if scale >= QUARTER_SHIFT {
            0
        } else {
            QUARTER_SHIFT - scale
        };
        proof {
            lemma_text_of_canonical_len(high@);
            assert(digits_value(centre@) == self.spec_centre());
            assert(digits_value(low@) == self.spec_range_low());
            assert(digits_value(high@) == self.spec_range_high());
            lemma_pow2_pos(if scale >= 1076 { (scale - 1076) as nat } else { 0 });
            lemma_pow5_positive(if scale >= 1076 { 0 } else { (1076 - scale) as nat });
            assert(self.spec_range_high() > 0) by (nonlinear_arith)
                requires
                    self.spec_range_high() == (if scale >= 1076 {
                        (4 * significand + 2) * pow2((scale - 1076) as nat)
                    } else {
                        (4 * significand + 2) * pow5((1076 - scale) as nat)
                    }),
                    scale >= 1076 ==> pow2((scale - 1076) as nat) > 0,
                    scale < 1076 ==> pow5((1076 - scale) as nat) > 0,
                    significand >= 1,
            ;
            assert(high@.len() == decimal_digits(self.spec_range_high()).len());
        }
        let ghost sign = text@;
        let (chosen, level) = shortest_digits(&low, &centre, &high, significand % 2 == 0);
        proof {
            assert(level == self.spec_short_level());
            assert(digits_value(chosen@) == self.spec_short_digits());
        }
        let cut: usize = if (level as u64) < places {
            level
        } else {
            places as usize
        };
        let digits = canonical_from(&chosen, cut);
        if places - cut as u64 == 0 {
            append_whole(&mut text, &digits);
        } else {
            append_fraction(&mut text, digits, places - cut as u64);
        }
        proof {
            assert(text@ == sign + self.spec_short_text());
        }
        text
    }
}

/// Canonical digits are as many as the decimal text of their number has
/// characters.
pub proof fn lemma_text_of_canonical_len(d: Seq<u8>)
    requires
        is_canonical(d),
    ensures
        d.len() > 0 ==> decimal_digits(digits_value(d)).len() == d.len(),
        d.len() == 0 ==> digits_value(d) == 0,
{
    if d.len() > 0 {
        lemma_text_of_canonical(d);
        lemma_digits_text_len(d);
    }
}

/// The text of digits has one character for each digit.
pub proof fn lemma_digits_text_len(d: Seq<u8>)
    ensures
        digits_text(d).len() == d.len(),
    decreases d.len(),
{
    if d.len() > 0 {
        lemma_digits_text_len(d.drop_first());
    }
}

/// The shortest text stands for a size in the range of the sizes that round
/// to the number, and no shorter decimal number next to the number does.
pub proof fn lemma_shortest(c: nat, lo: nat, hi: nat, inclusive: bool, top: nat)
    requires
        lo < c < hi,
    ensures
        ({
            let level = shortest_level(c, lo, hi, inclusive, top);
            &&& level <= top
            &&& fits(choice(c, lo, hi, inclusive, level), lo, hi, inclusive)
            &&& forall|k: nat| level < k <= top ==> !#[trigger] works(c, lo, hi, inclusive, k)
        }),
    decreases top,
{
    if top == 0 || works(c, lo, hi, inclusive, top) {
        if top == 0 {
            assert(floor_to(c, 0) == c) by (nonlinear_arith)
                requires
                    floor_to(c, 0) == (c / pow10(0)) * pow10(0),
                    pow10(0) == 1,
            ;
        }
    } else {
        lemma_shortest(c, lo, hi, inclusive, (top - 1) as nat);
    }
}

/// The range of a number ends halfway to its neighbours: counted in quarters
/// of the distance to the neighbour above, the number stands at 4 times its
/// significand, the upper end of the range 2 above it and the lower end
/// `spec_lower_gap` below it, and each end is the mean of the number and the
/// neighbour on that side. The neighbours are the numbers whose patterns are
/// one more and one less.
pub proof fn lemma_range_is_between_neighbours(x: Real)
    requires
        x.spec_is_finite(),
        x.spec_magnitude() > 0,
    ensures
        ({
            let above = Real { bits: (x.spec_magnitude() + 1) as u64 };
            let below = Real { bits: (x.spec_magnitude() - 1) as u64 };
            let quarter_steps = 4 * x.spec_significand();
            let step = pow2(x.spec_unit_scale());
            &&& (quarter_steps + 2) * step == 2 * (x.spec_units() + above.spec_units())
            &&& (quarter_steps - x.spec_lower_gap()) * step == 2 * (x.spec_units()
                + below.spec_units())
        }),
{
    lemma_neighbours(x);
    let above = Real { bits: (x.spec_magnitude() + 1) as u64 };
    let below = Real { bits: (x.spec_magnitude() - 1) as u64 };
    let s = x.spec_significand();
    let step = pow2(x.spec_unit_scale());
    assert((4 * s + 2) * step == 2 * (s * step + (s + 1) * step)) by (nonlinear_arith);
    assert((4 * s - 2) * step == 2 * (s * step + (s - 1) * step)) by (nonlinear_arith);
    assert((4 * s - 1) * step == 2 * (s * step) + (2 * s - 1) * step) by (nonlinear_arith);
    assert(x.spec_units() == s * step) by (nonlinear_arith)
        requires
            x.spec_units() == (s * step) as nat,
            s >= 0,
            step >= 0,
    ;
}

/// The shortest text of a number stands for a size in the range of the sizes
/// that round to the number, and no decimal number next to the number that
/// leaves out more places does.
pub proof fn lemma_short_text_reads_back(x: Real)
    requires
        x.spec_is_finite(),
        x.spec_magnitude() > 0,
    ensures
        x.spec_range_low() < x.spec_centre() < x.spec_range_high(),
        fits(
            x.spec_short_digits(),
            x.spec_range_low(),
            x.spec_range_high(),
            x.spec_range_is_closed(),
        ),
        forall|k: nat|
            x.spec_short_level() < k <= decimal_digits(x.spec_range_high()).len()
                ==> !#[trigger] works(
                x.spec_centre(),
                x.spec_range_low(),
                x.spec_range_high(),
                x.spec_range_is_closed(),
                k,
            ),
{
    let s = x.spec_significand();
    let a = x.spec_unit_scale();
    lemma_no_size(x);
    lemma_pow2_pos(a);
    assert(s >= 1) by (nonlinear_arith)
        requires
            x.spec_units() == s * pow2(a),
            x.spec_units() > 0,
            pow2(a) > 0,
    ;
    let factor: nat = if a >= 1076 {
        pow2((a - 1076) as nat)
    } else {
        pow5((1076 - a) as nat)
    };
    if a >= 1076 {
        lemma_pow2_pos((a - 1076) as nat);
    } else {
        lemma_pow5_positive((1076 - a) as nat);
    }
    let gap = x.spec_lower_gap();
    assert((4 * s - gap) * factor < (4 * s) * factor < (4 * s + 2) * factor) by (nonlinear_arith)
        requires
            factor > 0,
            1 <= gap <= 2,
            s >= 1,
    ;
    lemma_shortest(
        x.spec_centre(),
        x.spec_range_low(),
        x.spec_range_high(),
        x.spec_range_is_closed(),
        decimal_digits(x.spec_range_high()).len(),
    );
}

/// The digits of `m * 2^(a - 1076)`, counted in units of 10^-`grid_places(a)`.
fn grid_digits(m: u64, a: u64) -> (d: Vec<u8>)
    ensures
        is_canonical(d@),
        digits_value(d@) == grid(m as nat, a as nat),
{
    if a >= QUARTER_SHIFT {
        scaled_up(m, a - QUARTER_SHIFT)
    } else {
        scaled_by_fives(m, QUARTER_SHIFT - a)
    }
}

/// The digits of `s * 5^k`.
fn scaled_by_fives(s: u64, k: u64) -> (d: Vec<u8>)
    ensures
        is_canonical(d@),
        digits_value(d@) == s * pow5(k as nat),
{
    let mut d = digits_of(s);
    let mut i: u64 = 0;
    proof {
        assert(s * pow5(0) == s) by (nonlinear_arith)
            requires
                pow5(0) == 1,
        ;
    }
    while i < k
        invariant
            i <= k,
            is_canonical(d@),
            digits_value(d@) == s * pow5(i as nat),
        decreases k - i,
    {
        proof {
            assert(pow5((i + 1) as nat) == 5 * pow5(i as nat));
            assert(5 * (s * pow5(i as nat)) == s * (5 * pow5(i as nat))) by (nonlinear_arith);
        }
        d = times_digit(&d, 5);
        i = i + 1;
    }
    d
}

/// Whether a number in digits lies in the range from `lo` to `hi`.
fn fits_digits(n: &Vec<u8>, lo: &Vec<u8>, hi: &Vec<u8>, inclusive: bool) -> (r: bool)
    requires
        are_digits(n@),
        are_digits(lo@),
        are_digits(hi@),
    ensures
        r == fits(digits_value(n@), digits_value(lo@), digits_value(hi@), inclusive),
{
    if inclusive {
        !less_digits(n, lo) && !less_digits(hi, n)
    } else {
        less_digits(lo, n) && less_digits(n, hi)
    }
}

/// Finds the shortest decimal number in the range next to `c`: its digits,
/// and the number of places that it leaves out.
fn shortest_digits(lo: &Vec<u8>, c: &Vec<u8>, hi: &Vec<u8>, inclusive: bool) -> (r: (
    Vec<u8>,
    usize,
))
    requires
        are_digits(lo@),
        are_digits(c@),
        are_digits(hi@),
    ensures
        are_digits(r.0@),
        r.1 == shortest_level(
            digits_value(c@),
            digits_value(lo@),
            digits_value(hi@),
            inclusive,
            hi@.len(),
        ),
        digits_value(r.0@) == choice(
            digits_value(c@),
            digits_value(lo@),
            digits_value(hi@),
            inclusive,
            r.1 as nat,
        ),
{
    let ghost centre = digits_value(c@);
    let ghost low = digits_value(lo@);
    let ghost high = digits_value(hi@);
    let mut k: usize = hi.len();
    loop
        invariant
            k <= hi@.len(),
            are_digits(lo@),
            are_digits(c@),
            are_digits(hi@),
            centre == digits_value(c@),
            low == digits_value(lo@),
            high == digits_value(hi@),
            shortest_level(centre, low, high, inclusive, hi@.len()) == shortest_level(
                centre,
                low,
                high,
                inclusive,
                k as nat,
            ),
        decreases k,
    {
        let down = zero_low(c, k);
        let unit = unit_digits(k);
        let up = add_digits(&down, &unit);
        let down_fits = fits_digits(&down, lo, hi, inclusive);
        let up_fits = fits_digits(&up, lo, hi, inclusive);
        if k == 0 || down_fits || up_fits {
            let twice = add_digits(c, c);
            let both = add_digits(&down, &up);
            if up_fits && (!down_fits || !less_digits(&twice, &both)) {
                return (up, k);
            } else {
                return (down, k);
            }
        }
        k = k - 1;
    }
}

/// The digits of `s * 2^doublings`.
fn scaled_up(s: u64, doublings: u64) -> (d: Vec<u8>)
    ensures
        is_canonical(d@),
        digits_value(d@) == s * pow2(doublings as nat),
{
    let mut d = digits_of(s);
    let mut i: u64 = 0;
    proof {
        lemma2_to64();
        assert(s * pow2(0) == s) by (nonlinear_arith)
            requires
                pow2(0) == 1,
        ;
    }
    while i < doublings
        invariant
            i <= doublings,
            is_canonical(d@),
            digits_value(d@) == s * pow2(i as nat),
        decreases doublings - i,
    {
        proof {
            lemma2_to64();
            lemma_pow2_adds(i as nat, 1);
            assert(2 * (s * pow2(i as nat)) == s * (pow2(i as nat) * 2)) by (nonlinear_arith);
        }
        d = times_digit(&d, 2);
        i = i + 1;
    }
    d
}

/// Appends a whole number in digits.
fn append_whole(text: &mut String, d: &Vec<u8>)
    requires
        is_canonical(d@),
    ensures
        final(text)@ == old(text)@ + decimal_digits(digits_value(d@)),
{
    if d.len() == 0 {
        proof {
            reveal_strlit("0");
            assert(digits_value(d@) == 0);
            assert("0"@ =~= decimal_digits(0));
        }
        text.append("0");
    } else {
        proof {
            lemma_text_of_canonical(d@);
            assert(d@.subrange(0, d@.len() as int) =~= d@);
        }
        append_digits(text, d, 0, d.len());
    }
}

/// Appends a number in digits with a point before the last `places` digits.
fn append_fraction(text: &mut String, d: Vec<u8>, places: u64)
    requires
        is_canonical(d@),
        places > 0,
    ensures
        final(text)@ == old(text)@ + decimal_text(digits_value(d@), places as nat),
{
    let ghost n = digits_value(d@);
    let ghost unit = pow10(places as nat);
    let ghost start = text@;
    proof {
        lemma_pow10_positive(places as nat);
    }
    let mut d = d;
    if d.len() as u64 > places {
        let cut: usize = places as usize;
        proof {
            let low = d@.take(cut as int);
            let high = d@.skip(cut as int);
            lemma_value_split(d@, cut as int);
            assert(are_digits(low));
            assert(are_digits(high));
            assert(high.last() == d@.last());
            lemma_value_bound(low);
            assert(n == digits_value(high) * unit + digits_value(low)) by (nonlinear_arith)
                requires
                    n == digits_value(low) + unit * digits_value(high),
            ;
            lemma_fundamental_div_mod_converse(
                n as int,
                unit as int,
                digits_value(high) as int,
                digits_value(low) as int,
            );
            lemma_text_of_canonical(high);
            lemma_text_is_padded(low);
            assert(d@.subrange(cut as int, d@.len() as int) =~= high);
            assert(d@.subrange(0, cut as int) =~= low);
        }
        append_digits(text, &d, cut, d.len());
        text.append(".");
        append_digits(text, &d, 0, cut);
        proof {
            let whole = decimal_digits(n / unit);
            let rest = padded_digits(n % unit, places as nat);
            assert((start + whole + "."@) + rest =~= start + (whole + "."@ + rest));
        }
    } else {
        proof {
            reveal_strlit("0");
            lemma_value_bound(d@);
            lemma_pow10_monotone(d@.len(), places as nat);
            assert(n / unit == 0 && n % unit == n) by (nonlinear_arith)
                requires
                    0 <= n < unit,
            ;
            assert("0"@ =~= decimal_digits(0));
        }
        text.append("0");
        text.append(".");
        while (d.len() as u64) < places
            invariant
                are_digits(d@),
                digits_value(d@) == n,
                d@.len() <= places,
            decreases places - d@.len(),
        {
            proof {
                lemma_value_push(d@, 0);
                assert(0 * pow10(d@.len()) == 0) by (nonlinear_arith);
            }
            d.push(0);
        }
        proof {
            lemma_text_is_padded(d@);
            assert(d@.subrange(0, d@.len() as int) =~= d@);
        }
        append_digits(text, &d, 0, d.len());
        proof {
            let whole = decimal_digits(n / unit);
            let rest = padded_digits(n % unit, places as nat);
            assert((start + whole + "."@) + rest =~= start + (whole + "."@ + rest));
        }
    }
}

} // verus!
