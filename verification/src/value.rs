//! The values that flow through a pipeline, each kind with its validity rule.

use crate::error::{FlameError, FlameErrorView};
use crate::fields::{
    excess, lemma_fields, lemma_floor_log2_unique, lemma_from_units_of_units, lemma_no_size,
    lemma_units_monotone,
};
use crate::number::{lemma_order_is_total, Real, SIGN_BIT};
use crate::remainder::lemma_rem_units;
use crate::rounding::{
    distance, lemma_floor_log2_monotone, lemma_round_units_below, lemma_round_units_is_near,
    lemma_round_units_representable, nearest, round_units,
};
use vstd::arithmetic::power2::{
    lemma2_to64, lemma2_to64_rest, lemma_pow2_adds, lemma_pow2_pos,
    lemma_pow2_strictly_increases, pow2,
};
use vstd::prelude::*;
use vstd::std_specs::cmp::PartialEqSpecImpl;

verus! {

/// A value of the pipeline: exactly one of five kinds.
///
/// A value is never changed in place; a transformation makes a new one. The
/// constructors [`FlameType::new_angle`] and [`FlameType::new_bounded`] make
/// valid values only, and the stages of the library keep values valid; what
/// valid means is said by [`FlameValue::wf`].
#[derive(Debug)]
pub enum FlameType {
    /// An angle in radians, at least 0 and below 2π.
    Angle(Real),
    /// A vector of any length.
    Vector(Vec<Real>),
    /// A number that lies within its bounds, both bounds included.
    Bounded { value: Real, min: Real, max: Real },
    /// A signed 64-bit integer.
    Integer(i64),
    /// A truth value.
    Boolean(bool),
}

/// A value as contracts see it: the vector is a mathematical sequence.
pub enum FlameValue {
    Angle(Real),
    Vector(Seq<Real>),
    Bounded { value: Real, min: Real, max: Real },
    Integer(i64),
    Boolean(bool),
}

impl View for FlameType {
    type V = FlameValue;

    open spec fn view(&self) -> FlameValue {
        match self {
            FlameType::Angle(a) => FlameValue::Angle(*a),
            FlameType::Vector(v) => FlameValue::Vector(v@),
            FlameType::Bounded { value, min, max } => FlameValue::Bounded {
                value: *value,
                min: *min,
                max: *max,
            },
            FlameType::Integer(n) => FlameValue::Integer(*n),
            FlameType::Boolean(b) => FlameValue::Boolean(*b),
        }
    }
}

/// What a fallible operation returned, as contracts see it.
pub open spec fn outcome_view(r: Result<FlameType, FlameError>) -> Result<
    FlameValue,
    FlameErrorView,
> {
    match r {
        Ok(v) => Ok(v@),
        Err(e) => Err(e@),
    }
}

/// A least non-negative remainder modulo 2π brought below 2π: a remainder
/// that has reached 2π stands for the angle 0.
///
/// A negative number very near to zero is lifted to a sum that rounds to 2π.
/// A full turn is the same angle as none, so 0 is returned for it.
pub open spec fn wrapped(lifted: Real) -> Real {
    if lifted.spec_same(Real::spec_two_pi()) {
        Real::spec_zero()
    } else {
        lifted
    }
}

/// The angle that stands for `radians`: its least non-negative remainder
/// modulo 2π, at least 0 and below 2π.
pub open spec fn normalized_angle(radians: Real) -> Real {
    wrapped(radians.spec_rem_euclid(Real::spec_two_pi()))
}

/// `a` is a NaN, or it is at least 0 and below 2π.
///
/// Every angle that normalization returns is of this kind. The NaN is there
/// because an infinite number of radians and a NaN have no remainder.
pub open spec fn is_angle(a: Real) -> bool {
    a.spec_is_nan() || (Real::spec_zero().spec_le(a) && a.spec_lt(Real::spec_two_pi()))
}

/// `value` is neither below `min` nor above `max`.
///
/// Both bounds are inside the range. A NaN is neither below nor above
/// anything, so it is in every range, and every number is in a range with a
/// NaN for a bound.
pub open spec fn in_range(value: Real, min: Real, max: Real) -> bool {
    !value.spec_lt(min) && !value.spec_gt(max)
}

/// The message of the error for a value outside its bounds, made of the
/// decimal texts of the three numbers.
pub open spec fn range_message(value: Seq<char>, min: Seq<char>, max: Seq<char>) -> Seq<char> {
    "Value "@ + value + " not in range ["@ + min + ", "@ + max + "]"@
}

/// The error for a value outside its bounds.
pub fn range_error(value: &str, min: &str, max: &str) -> (e: FlameError)
    ensures
        e@ == FlameErrorView::BoundError(range_message(value@, min@, max@)),
{
    let message = String::from_str("Value ").concat(value).concat(" not in range [").concat(
        min,
    ).concat(", ").concat(max).concat("]");
    FlameError::BoundError(message)
}

/// What [`FlameType::new_bounded`] returns.
pub open spec fn checked_bounded(value: Real, min: Real, max: Real) -> Result<
    FlameValue,
    FlameErrorView,
> {
    if in_range(value, min, max) {
        Ok(FlameValue::Bounded { value, min, max })
    } else {
        Err(
            FlameErrorView::BoundError(
                range_message(value.spec_to_text(), min.spec_to_text(), max.spec_to_text()),
            ),
        )
    }
}

impl FlameValue {
    /// The validity rule of the value's kind: an angle is at least 0 and
    /// below 2π unless it is a NaN, and a bounded number lies within its bounds.
    pub open spec fn wf(self) -> bool {
        match self {
            FlameValue::Angle(a) => is_angle(a),
            FlameValue::Bounded { value, min, max } => in_range(value, min, max),
            _ => true,
        }
    }
}

impl FlameType {
    /// Makes an angle of any number of radians, normalized modulo 2π: the
    /// angle of a finite number is at least 0 and below 2π.
    pub fn new_angle(radians: Real) -> (r: Self)
        ensures
            r@ == FlameValue::Angle(normalized_angle(radians)),
            r@.wf(),
            radians.spec_is_finite() ==> Real::spec_zero().spec_le(normalized_angle(radians))
                && normalized_angle(radians).spec_lt(Real::spec_two_pi()),
    {
        proof {
            lemma_angle_range(radians);
        }
        let turn = Real::two_pi();
        let lifted = radians.rem_euclid(&turn);
        if lifted.same(&turn) {
            FlameType::Angle(Real::zero())
        } else {
            FlameType::Angle(lifted)
        }
    }

    /// Makes a bounded number, or fails where `value` is below `min` or above
    /// `max`. The three numbers are kept as they are: nothing is clamped.
    pub fn new_bounded(value: Real, min: Real, max: Real) -> (r: Result<Self, FlameError>)
        ensures
            outcome_view(r) == checked_bounded(value, min, max),
            r is Ok ==> r.unwrap()@.wf(),
    {
        if value.lt(&min) || value.gt(&max) {
            Err(
                range_error(
                    value.to_text().as_str(),
                    min.to_text().as_str(),
                    max.to_text().as_str(),
                ),
            )
        } else {
            Ok(FlameType::Bounded { value, min, max })
        }
    }
}

/// Two values are equal where they are of one kind and their payloads are
/// equal: numbers as numbers, vectors place by place.
pub open spec fn same_value(a: FlameValue, b: FlameValue) -> bool {
    match (a, b) {
        (FlameValue::Angle(x), FlameValue::Angle(y)) => x.spec_same(y),
        (FlameValue::Vector(v), FlameValue::Vector(w)) => {
            &&& v.len() == w.len()
            &&& forall|i: int| 0 <= i < v.len() ==> #[trigger] v[i].spec_same(w[i])
        },
        (
            FlameValue::Bounded { value: v1, min: lo1, max: hi1 },
            FlameValue::Bounded { value: v2, min: lo2, max: hi2 },
        ) => v1.spec_same(v2) && lo1.spec_same(lo2) && hi1.spec_same(hi2),
        (FlameValue::Integer(n), FlameValue::Integer(m)) => n == m,
        (FlameValue::Boolean(x), FlameValue::Boolean(y)) => x == y,
        _ => false,
    }
}

fn same_numbers(v: &Vec<Real>, w: &Vec<Real>) -> (r: bool)
    ensures
        r == same_value(FlameValue::Vector(v@), FlameValue::Vector(w@)),
{
    if v.len() != w.len() {
        return false;
    }
    let mut i: usize = 0;
    while i < v.len()
        invariant
            i <= v@.len(),
            v@.len() == w@.len(),
            forall|j: int| 0 <= j < i ==> #[trigger] v@[j].spec_same(w@[j]),
        decreases v@.len() - i,
    {
        if !v[i].same(&w[i]) {
            return false;
        }
        i = i + 1;
    }
    true
}

/// `==` on values compares kinds and payloads; numbers are compared as
/// numbers, so that a NaN equals nothing and the two zeros are equal.
impl PartialEq for FlameType {
    fn eq(&self, other: &FlameType) -> (r: bool) {
        match (self, other) {
            (FlameType::Angle(x), FlameType::Angle(y)) => x.same(y),
            (FlameType::Vector(v), FlameType::Vector(w)) => same_numbers(v, w),
            (
                FlameType::Bounded { value: v1, min: lo1, max: hi1 },
                FlameType::Bounded { value: v2, min: lo2, max: hi2 },
            ) => v1.same(v2) && lo1.same(lo2) && hi1.same(hi2),
            (FlameType::Integer(n), FlameType::Integer(m)) => *n == *m,
            (FlameType::Boolean(x), FlameType::Boolean(y)) => *x == *y,
            _ => false,
        }
    }
}

impl PartialEqSpecImpl for FlameType {
    open spec fn obeys_eq_spec() -> bool {
        true
    }

    open spec fn eq_spec(&self, other: &FlameType) -> bool {
        same_value(self@, other@)
    }
}

impl Clone for FlameType {
    fn clone(&self) -> (r: Self)
        ensures
            r@ == self@,
    {
        match self {
            FlameType::Angle(a) => FlameType::Angle(*a),
            FlameType::Vector(v) => {
                let copy = v.clone();
                assert(copy@ =~= v@);
                FlameType::Vector(copy)
            },
            FlameType::Bounded { value, min, max } => FlameType::Bounded {
                value: *value,
                min: *min,
                max: *max,
            },
            FlameType::Integer(n) => FlameType::Integer(*n),
            FlameType::Boolean(b) => FlameType::Boolean(*b),
        }
    }
}

/// Normalization is total: every number of radians gives an angle. A finite
/// number gives an angle that is at least 0 and below 2π, and anything else
/// gives a NaN.
pub proof fn lemma_angle_range(radians: Real)
    ensures
        is_angle(normalized_angle(radians)),
        normalized_angle(radians).spec_is_nan() <==> !radians.spec_is_finite(),
        radians.spec_is_finite() ==> Real::spec_zero().spec_le(normalized_angle(radians))
            && normalized_angle(radians).spec_lt(Real::spec_two_pi()),
{
    let two_pi = Real::spec_two_pi();
    let r = radians.spec_rem(two_pi);
    let lifted = radians.spec_rem_euclid(two_pi);
    if radians.spec_is_finite() {
        lemma_rem_units(radians, two_pi);
        if r.spec_lt(Real::spec_zero()) {
            lemma_units_monotone(r, two_pi);
            lemma_from_units_of_units(two_pi);
            let v = (two_pi.spec_units() - r.spec_units()) as nat;
            lemma_round_units_below(v, two_pi.spec_units());
            lemma_round_units_representable(v);
            lemma_units_monotone(lifted, two_pi);
        }
        lemma_order_is_total(lifted, two_pi);
    }
}

/// A finite number of radians that is not negative gives an angle below 2π
/// that differs from it by a whole multiple of 2π, exactly: counted in units
/// of 2^-1074, the angle is the remainder of the radians divided by 2π.
pub proof fn lemma_angle_exact(radians: Real)
    requires
        radians.spec_is_finite(),
        !radians.spec_is_negative(),
    ensures
        Real::spec_zero().spec_le(normalized_angle(radians)),
        normalized_angle(radians).spec_lt(Real::spec_two_pi()),
        normalized_angle(radians).spec_units() == radians.spec_units()
            % Real::spec_two_pi().spec_units(),
{
    lemma_rem_units(radians, Real::spec_two_pi());
}

/// A finite negative number of radians gives the angle nearest to 2π less the
/// remainder of its size, and 0 where that is 2π itself; where the remainder
/// is zero, the angle is zero, with the sign of the radians.
pub proof fn lemma_angle_of_negative(radians: Real)
    requires
        radians.spec_is_finite(),
        radians.spec_is_negative(),
    ensures
        ({
            let turn = Real::spec_two_pi().spec_units();
            let rest = radians.spec_units() % turn;
            &&& rest < turn
            &&& rest == 0 ==> normalized_angle(radians) == Real { bits: SIGN_BIT }
            &&& rest > 0 ==> normalized_angle(radians) == wrapped(nearest((turn - rest) as nat))
        }),
{
    let two_pi = Real::spec_two_pi();
    let r = radians.spec_rem(two_pi);
    lemma_rem_units(radians, two_pi);
    lemma_units_monotone(r, two_pi);
    lemma_no_size(r);
}

/// The angle `a` and the radians `x` are `k` turns apart, but for the
/// rounding of one sum: counted in units of 2^-1074, `a` is within 2^1023 of
/// `x + k * 2π`. That is half the distance between two neighbours among the
/// numbers from 4 to 8, less than 4.5 parts in 10^16.
pub open spec fn turns_apart(a: Real, x: Real, k: int) -> bool {
    let target = x.spec_signed_units() + k * Real::spec_two_pi().spec_units();
    let angle = a.spec_units() as int;
    -pow2(1024) <= 2 * (angle - target) <= pow2(1024)
}

/// The angle of a finite number of radians is congruent to it modulo 2π,
/// within the rounding of one sum: it differs from the radians by a whole
/// number of turns and by no more than 2^-51.
pub proof fn lemma_angle_is_congruent(radians: Real)
    requires
        radians.spec_is_finite(),
    ensures
        exists|k: int| #[trigger] turns_apart(normalized_angle(radians), radians, k),
{
    lemma2_to64();
    lemma2_to64_rest();
    let two_pi = Real::spec_two_pi();
    let turn = two_pi.spec_units();
    let a = normalized_angle(radians);
    let size = radians.spec_units();
    let r = radians.spec_rem(two_pi);
    lemma_rem_units(radians, two_pi);
    lemma_units_monotone(r, two_pi);
    lemma_no_size(r);
    lemma_no_size(two_pi);
    lemma_pow2_pos(1024);
    let q = (size / turn) as int;
    let rest = size % turn;
    assert(size == q * turn + rest && 0 <= rest < turn && q >= 0) by (nonlinear_arith)
        requires
            q == size / turn,
            rest == size % turn,
            turn > 0,
            size >= 0,
    ;
    if !radians.spec_is_negative() {
        assert(size + (-q) * turn == rest) by (nonlinear_arith)
            requires
                size == q * turn + rest,
        ;
        assert(turns_apart(a, radians, -q));
    } else if rest == 0 {
        assert(-size + q * turn == 0) by (nonlinear_arith)
            requires
                size == q * turn + rest,
                rest == 0,
        ;
        assert(a.spec_units() == 0);
        assert(turns_apart(a, radians, q));
    } else {
        let e = (turn - rest) as nat;
        let lifted = nearest(e);
        lemma_from_units_of_units(two_pi);
        lemma_round_units_below(e, turn);
        lemma_round_units_representable(e);
        lemma_round_units_is_near(e);
        // the last bit of a number below 2π stands no higher than that of 2π
        lemma_fields(1025, 0x9_21FB_5444_2D18);
        assert(two_pi.spec_significand() == 0x19_21FB_5444_2D18);
        assert(two_pi.spec_unit_scale() == 1024);
        lemma_pow2_adds(52, 1024);
        lemma_pow2_adds(53, 1024);
        assert(pow2(1076) <= turn < pow2(1077)) by (nonlinear_arith)
            requires
                turn == 0x19_21FB_5444_2D18 * pow2(1024),
                pow2(1076) == 0x10_0000_0000_0000 * pow2(1024),
                pow2(1077) == 0x20_0000_0000_0000 * pow2(1024),
                pow2(1024) > 0,
        ;
        lemma_floor_log2_unique(turn, 1076);
        lemma_floor_log2_monotone(e, turn);
        assert(excess(e) <= 1024);
        if excess(e) < 1024 {
            lemma_pow2_strictly_increases(excess(e), 1024);
        }
        assert(lifted.spec_units() == round_units(e));
        lemma_units_monotone(lifted, two_pi);
        if lifted.spec_same(two_pi) {
            assert(round_units(e) == turn);
            assert(a == Real::spec_zero());
            assert(a.spec_units() == 0) by {
                lemma_no_size(a);
            }
            // no turn is added: the radians are within the rounding of zero
            assert(-size + (q + 1) * turn == e) by (nonlinear_arith)
                requires
                    size == q * turn + rest,
                    e == turn - rest,
            ;
            assert(-size + q * turn == -rest) by (nonlinear_arith)
                requires
                    size == q * turn + rest,
            ;
            assert(distance(round_units(e), e) == rest);
            assert(turns_apart(a, radians, q));
        } else {
            assert(-size + (q + 1) * turn == e) by (nonlinear_arith)
                requires
                    size == q * turn + rest,
                    e == turn - rest,
            ;
            assert(turns_apart(a, radians, q + 1));
        }
    }
}

/// Among numbers, a value is in range exactly where it lies between the
/// bounds, both included: construction succeeds if and only if
/// `min <= value <= max`, and then keeps the three numbers unchanged.
pub proof fn lemma_bounded_construction(value: Real, min: Real, max: Real)
    requires
        !value.spec_is_nan(),
        !min.spec_is_nan(),
        !max.spec_is_nan(),
    ensures
        checked_bounded(value, min, max) is Ok <==> (min.spec_le(value) && value.spec_le(max)),
        checked_bounded(value, min, max) is Ok ==> checked_bounded(value, min, max)
            == Ok::<FlameValue, FlameErrorView>(FlameValue::Bounded { value, min, max }),
{
    lemma_order_is_total(value, min);
    lemma_order_is_total(value, max);
}

} // verus!
