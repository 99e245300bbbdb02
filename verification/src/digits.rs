//! Whole numbers as decimal digits, for exact decimal text.

use crate::text::{decimal_digits, digit_char, digit_str};
use vstd::prelude::*;

verus! {

/// 10 to the power `k`.
pub open spec fn pow10(k: nat) -> nat
    decreases k,
{
    if k == 0 {
        1
    } else {
        10 * pow10((k - 1) as nat)
    }
}

/// 5 to the power `k`.
pub open spec fn pow5(k: nat) -> nat
    decreases k,
{
    if k == 0 {
        1
    } else {
        5 * pow5((k - 1) as nat)
    }
}

/// Each element is a decimal digit.
pub open spec fn are_digits(d: Seq<u8>) -> bool {
    forall|i: int| 0 <= i < d.len() ==> #[trigger] d[i] < 10
}

/// The digits have no zero in the highest place; zero has no digits at all.
pub open spec fn is_canonical(d: Seq<u8>) -> bool {
    are_digits(d) && (d.len() > 0 ==> d.last() != 0)
}

/// The number that the digits stand for, the lowest place first.
pub open spec fn digits_value(d: Seq<u8>) -> nat
    decreases d.len(),
{
    if d.len() == 0 {
        0
    } else {
        d[0] as nat + 10 * digits_value(d.drop_first())
    }
}

/// The digits as text, the highest place first.
pub open spec fn digits_text(d: Seq<u8>) -> Seq<char>
    decreases d.len(),
{
    if d.len() == 0 {
        Seq::<char>::empty()
    } else {
        digits_text(d.drop_first()).push(digit_char(d[0] as int))
    }
}

/// The last `places` decimal digits of `n`, with zeros in front where `n` is short.
pub open spec fn padded_digits(n: nat, places: nat) -> Seq<char>
    decreases places,
{
    if places == 0 {
        Seq::<char>::empty()
    } else {
        padded_digits(n / 10, (places - 1) as nat).push(digit_char((n % 10) as int))
    }
}

/// A power of ten is not zero.
pub proof fn lemma_pow10_positive(k: nat)
    ensures
        pow10(k) > 0,
    decreases k,
{
    if k > 0 {
        lemma_pow10_positive((k - 1) as nat);
    }
}

/// A power of five is not zero.
pub proof fn lemma_pow5_positive(k: nat)
    ensures
        pow5(k) > 0,
    decreases k,
{
    if k > 0 {
        lemma_pow5_positive((k - 1) as nat);
    }
}

/// A digit in a new highest place adds its place value.
pub proof fn lemma_value_push(d: Seq<u8>, x: u8)
    ensures
        digits_value(d.push(x)) == digits_value(d) + x * pow10(d.len()),
    decreases d.len(),
{
    let longer = d.push(x);
    if d.len() == 0 {
        assert(longer.drop_first() =~= Seq::<u8>::empty());
        assert(digits_value(longer.drop_first()) == 0);
        assert(digits_value(longer) == longer[0] as nat + 10 * digits_value(longer.drop_first()));
        assert(x * pow10(0) == x) by (nonlinear_arith)
            requires
                pow10(0) == 1,
        ;
    } else {
        let rest = d.drop_first();
        assert(longer.drop_first() =~= rest.push(x));
        lemma_value_push(rest, x);
        assert(digits_value(longer) == longer[0] as nat + 10 * digits_value(longer.drop_first()));
        assert(digits_value(d) == d[0] as nat + 10 * digits_value(rest));
        let low = pow10(rest.len());
        assert(pow10(d.len()) == 10 * low);
        assert(10 * (x * low) == x * (10 * low)) by (nonlinear_arith);
    }
}

/// Digits stand for a number below the power of ten of their count.
pub proof fn lemma_value_bound(d: Seq<u8>)
    requires
        are_digits(d),
    ensures
        digits_value(d) < pow10(d.len()),
    decreases d.len(),
{
    if d.len() > 0 {
        assert(are_digits(d.drop_first()));
        lemma_value_bound(d.drop_first());
    }
}

/// Canonical digits stand for a number that fills their highest place.
pub proof fn lemma_value_of_canonical(d: Seq<u8>)
    requires
        is_canonical(d),
        d.len() > 0,
    ensures
        digits_value(d) >= pow10((d.len() - 1) as nat),
    decreases d.len(),
{
    if d.len() > 1 {
        let rest = d.drop_first();
        assert(are_digits(rest));
        assert(rest.last() == d.last());
        lemma_value_of_canonical(rest);
    } else {
        assert(d[0] == d.last());
    }
}

/// The lower places and the higher places of a number.
pub proof fn lemma_value_split(d: Seq<u8>, j: int)
    requires
        0 <= j <= d.len(),
    ensures
        digits_value(d) == digits_value(d.take(j)) + pow10(j as nat) * digits_value(d.skip(j)),
    decreases j,
{
    if j == 0 {
        assert(d.take(0) =~= Seq::<u8>::empty());
        assert(d.skip(0) =~= d);
        assert(digits_value(d.take(0)) == 0);
        assert(pow10(0) * digits_value(d) == digits_value(d)) by (nonlinear_arith)
            requires
                pow10(0) == 1,
        ;
    } else {
        let rest = d.drop_first();
        let low = d.take(j);
        lemma_value_split(rest, j - 1);
        assert(low.drop_first() =~= rest.take(j - 1));
        assert(rest.skip(j - 1) =~= d.skip(j));
        assert(low[0] == d[0]);
        assert(digits_value(low) == low[0] as nat + 10 * digits_value(low.drop_first()));
        assert(digits_value(d) == d[0] as nat + 10 * digits_value(rest));
        let high = digits_value(d.skip(j));
        let below = pow10((j - 1) as nat);
        assert(pow10(j as nat) == 10 * below);
        assert(10 * (below * high) == (10 * below) * high) by (nonlinear_arith);
    }
}

/// The text of canonical digits is the decimal text of their number.
pub proof fn lemma_text_of_canonical(d: Seq<u8>)
    requires
        is_canonical(d),
        d.len() > 0,
    ensures
        digits_text(d) == decimal_digits(digits_value(d)),
    decreases d.len(),
{
    let n = digits_value(d);
    let rest = d.drop_first();
    if d.len() == 1 {
        assert(rest =~= Seq::<u8>::empty());
        assert(digits_text(rest) =~= Seq::<char>::empty());
        assert(n == d[0]);
        assert(digits_text(d) =~= seq![digit_char(d[0] as int)]);
    } else {
        assert(are_digits(rest));
        assert(rest.last() == d.last());
        lemma_value_of_canonical(rest);
        lemma_pow10_positive((rest.len() - 1) as nat);
        lemma_text_of_canonical(rest);
        let high = digits_value(rest);
        assert(n / 10 == high && n % 10 == d[0]) by (nonlinear_arith)
            requires
                n == d[0] + 10 * high,
                0 <= d[0] < 10,
        ;
    }
}

/// The text of digits is their number in as many places as there are digits.
pub proof fn lemma_text_is_padded(d: Seq<u8>)
    requires
        are_digits(d),
    ensures
        digits_text(d) == padded_digits(digits_value(d), d.len()),
    decreases d.len(),
{
    if d.len() > 0 {
        let n = digits_value(d);
        let rest = d.drop_first();
        assert(are_digits(rest));
        lemma_text_is_padded(rest);
        let high = digits_value(rest);
        assert(n / 10 == high && n % 10 == d[0]) by (nonlinear_arith)
            requires
                n == d[0] + 10 * high,
                0 <= d[0] < 10,
        ;
    }
}

/// The text of digits begins with the digit of the highest place.
pub proof fn lemma_text_of_top(d: Seq<u8>)
    requires
        d.len() > 0,
    ensures
        digits_text(d) == seq![digit_char(d.last() as int)] + digits_text(d.drop_last()),
    decreases d.len(),
{
    if d.len() == 1 {
        assert(d.drop_first() =~= Seq::<u8>::empty());
        assert(d.drop_last() =~= Seq::<u8>::empty());
        assert(digits_text(d.drop_first()) =~= Seq::<char>::empty());
        assert(digits_text(d) =~= seq![digit_char(d[0] as int)]);
        assert(seq![digit_char(d.last() as int)] + digits_text(d.drop_last()) =~= seq![
            digit_char(d[0] as int),
        ]);
    } else {
        let rest = d.drop_first();
        lemma_text_of_top(rest);
        assert(rest.last() == d.last());
        assert(rest.drop_last() =~= d.drop_last().drop_first());
        assert(d.drop_last()[0] == d[0]);
        assert(digits_text(d) =~= seq![digit_char(d.last() as int)] + digits_text(d.drop_last()));
    }
}

/// The canonical digits of `n`, the lowest place first.
pub fn digits_of(n: u64) -> (d: Vec<u8>)
    ensures
        is_canonical(d@),
        digits_value(d@) == n,
{
    let mut d: Vec<u8> = Vec::new();
    let mut m: u64 = n;
    proof {
        assert(digits_value(d@) == 0);
        assert(m * pow10(0) == m) by (nonlinear_arith)
            requires
                pow10(0) == 1,
        ;
    }
    while m > 0
        invariant
            are_digits(d@),
            digits_value(d@) + m * pow10(d@.len()) == n,
            m == 0 ==> is_canonical(d@),
        decreases m,
    {
        let digit: u8 = (m % 10) as u8;
        proof {
            lemma_value_push(d@, digit);
            let k = d@.len();
            assert(digit * pow10(k) + (m / 10) * pow10(k + 1) == m * pow10(k)) by (nonlinear_arith)
                requires
                    digit == m % 10,
                    pow10(k + 1) == 10 * pow10(k),
            ;
        }
        d.push(digit);
        m = m / 10;
    }
    d
}

/// Multiplies a number in digits by a single digit.
pub(crate) fn times_digit(d: &Vec<u8>, factor: u8) -> (r: Vec<u8>)
    requires
        is_canonical(d@),
        1 <= factor <= 9,
    ensures
        is_canonical(r@),
        digits_value(r@) == factor * digits_value(d@),
{
    let mut r: Vec<u8> = Vec::new();
    let mut carry: u8 = 0;
    let mut i: usize = 0;
    proof {
        assert(d@.take(0) =~= Seq::<u8>::empty());
        assert(digits_value(r@) == 0 && digits_value(d@.take(0)) == 0);
        assert(carry * pow10(0) == 0 && factor * 0 == 0) by (nonlinear_arith)
            requires
                carry == 0,
        ;
    }
    while i < d.len()
        invariant
            i <= d@.len(),
            is_canonical(d@),
            1 <= factor <= 9,
            carry <= 8,
            r@.len() == i,
            are_digits(r@),
            digits_value(r@) + carry * pow10(i as nat) == factor * digits_value(d@.take(i as int)),
            i > 0 && d@[i - 1] != 0 ==> carry > 0 || r@.last() != 0,
        decreases d@.len() - i,
    {
        proof {
            assert(d@[i as int] < 10);
            assert(d@[i as int] * factor <= 81) by (nonlinear_arith)
                requires
                    d@[i as int] <= 9,
                    factor <= 9,
            ;
            assert(d@[i as int] != 0 ==> d@[i as int] * factor >= 1) by (nonlinear_arith)
                requires
                    factor >= 1,
            ;
        }
        let t: u8 = d[i] * factor + carry;
        let digit: u8 = t % 10;
        proof {
            let k = i as nat;
            lemma_value_push(r@, digit);
            assert(d@.take(i + 1) =~= d@.take(i as int).push(d@[i as int]));
            lemma_value_push(d@.take(i as int), d@[i as int]);
            assert(digit * pow10(k) + (t / 10) * pow10(k + 1) == (d@[i as int] * factor + carry)
                * pow10(k)) by (nonlinear_arith)
                requires
                    t == d@[i as int] * factor + carry,
                    digit == t % 10,
                    pow10(k + 1) == 10 * pow10(k),
            ;
            assert(factor * (digits_value(d@.take(i as int)) + d@[i as int] * pow10(k)) == factor
                * digits_value(d@.take(i as int)) + (d@[i as int] * factor) * pow10(k))
                by (nonlinear_arith);
            assert((d@[i as int] * factor + carry) * pow10(k) == (d@[i as int] * factor) * pow10(k)
                + carry * pow10(k)) by (nonlinear_arith);
        }
        r.push(digit);
        carry = t / 10;
        i = i + 1;
    }
    proof {
        assert(d@.take(d@.len() as int) =~= d@);
    }
    if carry > 0 {
        proof {
            lemma_value_push(r@, carry);
        }
        r.push(carry);
    }
    r
}

/// Appends the text of the digits from `from` up to `to`, the highest place first.
pub(crate) fn append_digits(text: &mut String, d: &Vec<u8>, from: usize, to: usize)
    requires
        are_digits(d@),
        from <= to <= d@.len(),
    ensures
        final(text)@ == old(text)@ + digits_text(d@.subrange(from as int, to as int)),
{
    let mut i: usize = to;
    proof {
        assert(d@.subrange(to as int, to as int) =~= Seq::<u8>::empty());
        assert(text@ + digits_text(Seq::<u8>::empty()) =~= text@);
    }
    while i > from
        invariant
            from <= i <= to,
            to <= d@.len(),
            are_digits(d@),
            text@ + digits_text(d@.subrange(from as int, i as int)) == old(text)@ + digits_text(
                d@.subrange(from as int, to as int),
            ),
        decreases i,
    {
        proof {
            lemma_text_of_top(d@.subrange(from as int, i as int));
            assert(d@.subrange(from as int, i as int).drop_last() =~= d@.subrange(
                from as int,
                i - 1,
            ));
            assert(d@.subrange(from as int, i as int).last() == d@[i - 1]);
        }
        let ghost before = text@;
        i = i - 1;
        text.append(digit_str(d[i] as usize));
        proof {
            let low = digits_text(d@.subrange(from as int, i as int));
            assert((before + seq![digit_char(d@[i as int] as int)]) + low =~= before + (seq![
                digit_char(d@[i as int] as int),
            ] + low));
        }
    }
    proof {
        assert(d@.subrange(from as int, from as int) =~= Seq::<u8>::empty());
        assert(text@ + digits_text(Seq::<u8>::empty()) =~= text@);
    }
}

/// The digit in place `i`, which is 0 beyond the highest place.
pub open spec fn digit_at(d: Seq<u8>, i: int) -> nat {
    if 0 <= i < d.len() {
        d[i] as nat
    } else {
        0
    }
}

/// The number that the `i` lowest places stand for.
pub open spec fn low_value(d: Seq<u8>, i: nat) -> nat {
    if i <= d.len() {
        digits_value(d.take(i as int))
    } else {
        digits_value(d)
    }
}

/// A higher power of ten is not smaller.
pub proof fn lemma_pow10_monotone(a: nat, b: nat)
    requires
        a <= b,
    ensures
        pow10(a) <= pow10(b),
    decreases b,
{
    if a < b {
        lemma_pow10_monotone(a, (b - 1) as nat);
    }
}

/// The powers of ten multiply as their exponents add.
pub proof fn lemma_pow10_adds(a: nat, b: nat)
    ensures
        pow10(a + b) == pow10(a) * pow10(b),
    decreases b,
{
    if b == 0 {
        assert(pow10(a) * pow10(0) == pow10(a)) by (nonlinear_arith)
            requires
                pow10(0) == 1,
        ;
    } else {
        lemma_pow10_adds(a, (b - 1) as nat);
        assert(pow10(a + b) == 10 * pow10((a + b - 1) as nat));
        assert(10 * (pow10(a) * pow10((b - 1) as nat)) == pow10(a) * (10 * pow10((b - 1) as nat)))
            by (nonlinear_arith);
    }
}

/// One place more adds the digit of that place, and the places below a place
/// stand for less than its place value.
pub proof fn lemma_low_value_step(d: Seq<u8>, i: nat)
    requires
        are_digits(d),
    ensures
        low_value(d, i + 1) == low_value(d, i) + digit_at(d, i as int) * pow10(i),
        low_value(d, i) < pow10(i),
        i >= d.len() ==> low_value(d, i) == digits_value(d),
{
    if i < d.len() {
        let low = d.take(i as int);
        assert(d.take(i as int + 1) =~= low.push(d[i as int]));
        lemma_value_push(low, d[i as int]);
        assert(are_digits(low));
        lemma_value_bound(low);
    } else {
        assert(d.take(d.len() as int) =~= d);
        lemma_value_bound(d);
        lemma_pow10_monotone(d.len(), i);
        assert(0 * pow10(i) == 0) by (nonlinear_arith);
    }
}

/// The digit in place `i`, which is 0 beyond the highest place.
fn digit_of(d: &Vec<u8>, i: usize) -> (r: u8)
    requires
        are_digits(d@),
    ensures
        r == digit_at(d@, i as int),
        r <= 9,
{
    if i < d.len() {
        d[i]
    } else {
        0
    }
}

/// The sum of two numbers in digits.
pub(crate) fn add_digits(a: &Vec<u8>, b: &Vec<u8>) -> (r: Vec<u8>)
    requires
        are_digits(a@),
        are_digits(b@),
    ensures
        are_digits(r@),
        digits_value(r@) == digits_value(a@) + digits_value(b@),
{
    let places: usize = if a.len() > b.len() {
        a.len()
    } else {
        b.len()
    };
    let mut r: Vec<u8> = Vec::new();
    let mut carry: u8 = 0;
    let mut i: usize = 0;
    proof {
        assert(a@.take(0) =~= Seq::<u8>::empty());
        assert(b@.take(0) =~= Seq::<u8>::empty());
        assert(digits_value(Seq::<u8>::empty()) == 0);
        assert(carry * pow10(0) == 0) by (nonlinear_arith)
            requires
                carry == 0,
        ;
    }
    while i < places
        invariant
            i <= places,
            places >= a@.len(),
            places >= b@.len(),
            are_digits(a@),
            are_digits(b@),
            are_digits(r@),
            r@.len() == i,
            carry <= 1,
            digits_value(r@) + carry * pow10(i as nat) == low_value(a@, i as nat) + low_value(
                b@,
                i as nat,
            ),
        decreases places - i,
    {
        let x: u8 = digit_of(a, i);
        let y: u8 = digit_of(b, i);
        let t: u8 = x + y + carry;
        let digit: u8 = t % 10;
        proof {
            let k = i as nat;
            lemma_low_value_step(a@, k);
            lemma_low_value_step(b@, k);
            lemma_value_push(r@, digit);
            assert(digit * pow10(k) + (t / 10) * pow10(k + 1) == (x + y + carry) * pow10(k))
                by (nonlinear_arith)
                requires
                    t == x + y + carry,
                    digit == t % 10,
                    pow10(k + 1) == 10 * pow10(k),
            ;
            assert((x + y + carry) * pow10(k) == x * pow10(k) + y * pow10(k) + carry * pow10(k))
                by (nonlinear_arith);
        }
        r.push(digit);
        carry = t / 10;
        i = i + 1;
    }
    proof {
        lemma_low_value_step(a@, places as nat);
        lemma_low_value_step(b@, places as nat);
    }
    if carry > 0 {
        proof {
            lemma_value_push(r@, carry);
        }
        r.push(carry);
    } else {
        proof {
            assert(carry * pow10(places as nat) == 0) by (nonlinear_arith)
                requires
                    carry == 0,
            ;
        }
    }
    r
}

/// Whether the first number in digits is less than the second.
pub(crate) fn less_digits(a: &Vec<u8>, b: &Vec<u8>) -> (r: bool)
    requires
        are_digits(a@),
        are_digits(b@),
    ensures
        r == (digits_value(a@) < digits_value(b@)),
{
    let places: usize = if a.len() > b.len() {
        a.len()
    } else {
        b.len()
    };
    let mut less: bool = false;
    let mut i: usize = 0;
    proof {
        assert(a@.take(0) =~= Seq::<u8>::empty());
        assert(b@.take(0) =~= Seq::<u8>::empty());
    }
    while i < places
        invariant
            i <= places,
            places >= a@.len(),
            places >= b@.len(),
            are_digits(a@),
            are_digits(b@),
            less == (low_value(a@, i as nat) < low_value(b@, i as nat)),
        decreases places - i,
    {
        let x: u8 = digit_of(a, i);
        let y: u8 = digit_of(b, i);
        proof {
            let k = i as nat;
            lemma_low_value_step(a@, k);
            lemma_low_value_step(b@, k);
            let low_a = low_value(a@, k);
            let low_b = low_value(b@, k);
            let unit = pow10(k);
            assert((low_a + x * unit < low_b + y * unit) == (x < y || (x == y && low_a < low_b)))
                by (nonlinear_arith)
                requires
                    0 <= low_a < unit,
                    0 <= low_b < unit,
                    0 <= x,
                    0 <= y,
            ;
        }
        less = x < y || (x == y && less);
        i = i + 1;
    }
    proof {
        lemma_low_value_step(a@, places as nat);
        lemma_low_value_step(b@, places as nat);
    }
    less
}

/// The number in digits with its `k` lowest places set to zero.
pub(crate) fn zero_low(c: &Vec<u8>, k: usize) -> (r: Vec<u8>)
    requires
        are_digits(c@),
    ensures
        are_digits(r@),
        digits_value(r@) == (digits_value(c@) / pow10(k as nat)) * pow10(k as nat),
{
    let ghost unit = pow10(k as nat);
    proof {
        lemma_pow10_positive(k as nat);
    }
    if k >= c.len() {
        proof {
            lemma_value_bound(c@);
            lemma_pow10_monotone(c@.len(), k as nat);
            assert((digits_value(c@) / unit) * unit == 0) by (nonlinear_arith)
                requires
                    0 <= digits_value(c@) < unit,
            ;
        }
        return Vec::new();
    }
    let mut r: Vec<u8> = Vec::new();
    let mut i: usize = 0;
    while i < k
        invariant
            i <= k,
            r@.len() == i,
            are_digits(r@),
            digits_value(r@) == 0,
        decreases k - i,
    {
        proof {
            lemma_value_push(r@, 0);
            assert(0 * pow10(i as nat) == 0) by (nonlinear_arith);
        }
        r.push(0);
        i = i + 1;
    }
    proof {
        assert(c@.subrange(k as int, k as int) =~= Seq::<u8>::empty());
        assert(unit * 0 == 0) by (nonlinear_arith);
    }
    while i < c.len()
        invariant
            k <= i <= c@.len(),
            r@.len() == i,
            are_digits(c@),
            are_digits(r@),
            unit == pow10(k as nat),
            digits_value(r@) == unit * digits_value(c@.subrange(k as int, i as int)),
        decreases c@.len() - i,
    {
        proof {
            let part = c@.subrange(k as int, i as int);
            let x = c@[i as int];
            assert(c@.subrange(k as int, i + 1) =~= part.push(x));
            lemma_value_push(part, x);
            lemma_value_push(r@, x);
            lemma_pow10_adds(k as nat, (i - k) as nat);
            assert(unit * (digits_value(part) + x * pow10((i - k) as nat)) == unit * digits_value(
                part,
            ) + x * (unit * pow10((i - k) as nat))) by (nonlinear_arith);
        }
        r.push(c[i]);
        i = i + 1;
    }
    proof {
        let low = c@.take(k as int);
        let high = c@.skip(k as int);
        assert(c@.subrange(k as int, c@.len() as int) =~= high);
        lemma_value_split(c@, k as int);
        assert(are_digits(low));
        lemma_value_bound(low);
        assert(digits_value(c@) == digits_value(high) * unit + digits_value(low)
            && unit * digits_value(high) == digits_value(high) * unit) by (nonlinear_arith)
            requires
                digits_value(c@) == digits_value(low) + unit * digits_value(high),
        ;
        vstd::arithmetic::div_mod::lemma_fundamental_div_mod_converse(
            digits_value(c@) as int,
            unit as int,
            digits_value(high) as int,
            digits_value(low) as int,
        );
    }
    r
}

/// The digits of 10 to the power `k`.
pub(crate) fn unit_digits(k: usize) -> (r: Vec<u8>)
    ensures
        are_digits(r@),
        digits_value(r@) == pow10(k as nat),
{
    let mut r: Vec<u8> = Vec::new();
    let mut i: usize = 0;
    while i < k
        invariant
            i <= k,
            r@.len() == i,
            are_digits(r@),
            digits_value(r@) == 0,
        decreases k - i,
    {
        proof {
            lemma_value_push(r@, 0);
            assert(0 * pow10(i as nat) == 0) by (nonlinear_arith);
        }
        r.push(0);
        i = i + 1;
    }
    proof {
        lemma_value_push(r@, 1);
        assert(1 * pow10(k as nat) == pow10(k as nat)) by (nonlinear_arith);
    }
    r.push(1);
    r
}

/// The canonical digits of the number without its `from` lowest places.
pub(crate) fn canonical_from(d: &Vec<u8>, from: usize) -> (r: Vec<u8>)
    requires
        are_digits(d@),
    ensures
        is_canonical(r@),
        digits_value(r@) == digits_value(d@) / pow10(from as nat),
{
    let mut r: Vec<u8> = Vec::new();
    proof {
        lemma_pow10_positive(from as nat);
    }
    if from >= d.len() {
        proof {
            lemma_value_bound(d@);
            lemma_pow10_monotone(d@.len(), from as nat);
            assert(digits_value(d@) / pow10(from as nat) == 0) by (nonlinear_arith)
                requires
                    0 <= digits_value(d@) < pow10(from as nat),
            ;
        }
        return r;
    }
    let mut i: usize = from;
    proof {
        assert(d@.subrange(from as int, from as int) =~= r@);
    }
    while i < d.len()
        invariant
            from <= i <= d@.len(),
            r@ == d@.subrange(from as int, i as int),
        decreases d@.len() - i,
    {
        proof {
            assert(d@.subrange(from as int, i + 1) =~= d@.subrange(from as int, i as int).push(
                d@[i as int],
            ));
        }
        r.push(d[i]);
        i = i + 1;
    }
    proof {
        let low = d@.take(from as int);
        let high = d@.skip(from as int);
        assert(d@.subrange(from as int, d@.len() as int) =~= high);
        lemma_value_split(d@, from as int);
        assert(are_digits(low));
        assert(are_digits(high));
        lemma_value_bound(low);
        assert(digits_value(d@) == digits_value(high) * pow10(from as nat) + digits_value(low))
            by (nonlinear_arith)
            requires
                digits_value(d@) == digits_value(low) + pow10(from as nat) * digits_value(high),
        ;
        vstd::arithmetic::div_mod::lemma_fundamental_div_mod_converse(
            digits_value(d@) as int,
            pow10(from as nat) as int,
            digits_value(high) as int,
            digits_value(low) as int,
        );
    }
    let ghost whole = digits_value(r@);
    while r.len() > 0 && r[r.len() - 1] == 0
        invariant
            are_digits(r@),
            digits_value(r@) == whole,
        decreases r@.len(),
    {
        proof {
            let shorter = r@.drop_last();
            assert(r@ =~= shorter.push(0));
            lemma_value_push(shorter, 0);
            assert(0 * pow10(shorter.len()) == 0) by (nonlinear_arith);
            assert(are_digits(shorter));
        }
        r.pop();
    }
    r
}

} // verus!
