//! What a stage of a pipeline is, and the two stages that the library brings along.

use crate::error::{FlameError, FlameErrorView};
use crate::convert::{lemma_int_round_trip, lemma_whole_number_round_trip, units_per_one};
use crate::fields::{lemma_no_size, lemma_units_monotone};
use crate::multiply::{lemma_mul_by_zero, lemma_mul_of_integers, lemma_mul_of_zero};
use crate::rounding::{lemma_nearest_fraction_of_zero, lemma_nearest_fraction_whole};
use crate::number::Real;
use crate::value::{checked_bounded, normalized_angle, outcome_view, FlameType, FlameValue};
use vstd::arithmetic::power2::lemma_pow2_pos;
use vstd::prelude::*;

verus! {

/// A stage of a pipeline: it turns a value into a new value, or fails.
///
/// What a stage returns depends on its input and on its own configuration
/// alone, so each of the three methods has a spec function that says what it
/// returns. A verified implementation defines the spec functions and is
/// checked against them.
pub trait Transform {
    /// What [`Transform::apply`] returns for `input`. The body here stands for
    /// no stage in particular: an implementation gives its own.
    open spec fn transformed(&self, input: FlameValue) -> Result<FlameValue, FlameErrorView> {
        arbitrary()
    }

    /// What [`Transform::validate_bounds`] returns. A stage that has nothing to
    /// check is always valid.
    open spec fn bounds_valid(&self) -> bool {
        true
    }

    /// What [`Transform::name`] returns. The body here stands for no stage in
    /// particular: an implementation gives its own.
    open spec fn name_text(&self) -> Seq<char> {
        arbitrary()
    }

    /// Transforms `input`. A valid input never gives an invalid value: the
    /// stage returns a valid one or an error.
    fn apply(&self, input: &FlameType) -> (r: Result<FlameType, FlameError>)
        ensures
            outcome_view(r) == self.transformed(input@),
            input@.wf() && r is Ok ==> r.unwrap()@.wf(),
    ;

    /// Checks, without looking at any input, that the stage may run. A pipeline
    /// asks this before it applies the stage.
    fn validate_bounds(&self) -> (r: bool)
        ensures
            r == self.bounds_valid(),
    ;

    /// The name of the stage, for messages. It never changes.
    fn name(&self) -> (r: &str)
        ensures
            r@ == self.name_text(),
    ;
}

/// The stage that returns its input unchanged.
pub struct IdentityTransform;

impl Transform for IdentityTransform {
    open spec fn transformed(&self, input: FlameValue) -> Result<FlameValue, FlameErrorView> {
        Ok(input)
    }

    open spec fn name_text(&self) -> Seq<char> {
        "Identity"@
    }

    fn apply(&self, input: &FlameType) -> (r: Result<FlameType, FlameError>) {
        Ok(input.clone())
    }

    fn validate_bounds(&self) -> (r: bool) {
        true
    }

    fn name(&self) -> (r: &str) {
        "Identity"
    }
}

/// The stage that multiplies numbers by a factor.
pub struct ScaleTransform {
    pub factor: Real,
}

/// An integer scaled by `factor`: converted to a number, multiplied, and
/// converted back, which drops the fractional part of the product.
pub open spec fn scaled_integer(n: i64, factor: Real) -> i64 {
    Real::spec_from_int(n).spec_mul(factor).spec_to_int()
}

/// Each number of `v` multiplied by `factor`.
pub open spec fn scaled_vector(v: Seq<Real>, factor: Real) -> Seq<Real> {
    Seq::new(v.len(), |i: int| v[i].spec_mul(factor))
}

/// What scaling by `factor` makes of `input`.
///
/// An angle is normalized again after the multiplication. Of a bounded number
/// the value and both bounds are multiplied and the result is checked again, so
/// that scaling can fail there, and only there: a negative factor turns the
/// bounds around. A truth value passes through unchanged.
pub open spec fn scaled(factor: Real, input: FlameValue) -> Result<FlameValue, FlameErrorView> {
    match input {
        FlameValue::Integer(n) => Ok(FlameValue::Integer(scaled_integer(n, factor))),
        FlameValue::Bounded { value, min, max } => checked_bounded(
            value.spec_mul(factor),
            min.spec_mul(factor),
            max.spec_mul(factor),
        ),
        FlameValue::Vector(v) => Ok(FlameValue::Vector(scaled_vector(v, factor))),
        FlameValue::Angle(a) => Ok(FlameValue::Angle(normalized_angle(a.spec_mul(factor)))),
        FlameValue::Boolean(b) => Ok(FlameValue::Boolean(b)),
    }
}

impl ScaleTransform {
    fn scale_vector(&self, v: &Vec<Real>) -> (r: Vec<Real>)
        ensures
            r@ == scaled_vector(v@, self.factor),
    {
        let mut out: Vec<Real> = Vec::new();
        let mut i: usize = 0;
        while i < v.len()
            invariant
                i <= v@.len(),
                out@.len() == i,
                forall|j: int| 0 <= j < i ==> out@[j] == v@[j].spec_mul(self.factor),
            decreases v@.len() - i,
        {
            out.push(v[i].mul(&self.factor));
            i = i + 1;
        }
        assert(out@ =~= scaled_vector(v@, self.factor));
        out
    }
}

impl Transform for ScaleTransform {
    open spec fn transformed(&self, input: FlameValue) -> Result<FlameValue, FlameErrorView> {
        scaled(self.factor, input)
    }

    open spec fn name_text(&self) -> Seq<char> {
        "Scale"@
    }

    fn apply(&self, input: &FlameType) -> (r: Result<FlameType, FlameError>) {
        match input {
            FlameType::Integer(n) => Ok(
                FlameType::Integer(Real::from_int(*n).mul(&self.factor).to_int()),
            ),
            FlameType::Bounded { value, min, max } => FlameType::new_bounded(
                value.mul(&self.factor),
                min.mul(&self.factor),
                max.mul(&self.factor),
            ),
            FlameType::Vector(v) => Ok(FlameType::Vector(self.scale_vector(v))),
            FlameType::Angle(a) => Ok(FlameType::new_angle(a.mul(&self.factor))),
            FlameType::Boolean(b) => Ok(FlameType::Boolean(*b)),
        }
    }

    fn validate_bounds(&self) -> (r: bool) {
        true
    }

    fn name(&self) -> (r: &str) {
        "Scale"
    }
}

/// Scaling an integer by a whole factor multiplies it, as long as the
/// integer, the factor and the product have no more than 53 bits.
pub proof fn lemma_scale_by_integer(n: i64, k: i64)
    requires
        -0x20_0000_0000_0000 <= n <= 0x20_0000_0000_0000,
        -0x20_0000_0000_0000 <= k <= 0x20_0000_0000_0000,
        -0x20_0000_0000_0000 <= n * k <= 0x20_0000_0000_0000,
    ensures
        scaled_integer(n, Real::spec_from_int(k)) == n * k,
{
    lemma_mul_of_integers(n, k);
}

/// Scale composition for whole factors: scaling an integer by `a` and then by
/// `b` gives the same integer as scaling it once by the product of the two
/// factors, namely `n * a * b`, as long as none of the numbers on the way has
/// more than 53 bits. For the integer 0 no such limit is needed, see
/// [`lemma_scale_composition_of_zero`]. With factors that are not whole the
/// cast after the first stage can cut off a fraction that the single stage
/// would have kept, and the two results differ.
pub proof fn lemma_scale_composition(n: i64, a: i64, b: i64)
    requires
        -0x20_0000_0000_0000 <= n <= 0x20_0000_0000_0000,
        -0x20_0000_0000_0000 <= a <= 0x20_0000_0000_0000,
        -0x20_0000_0000_0000 <= b <= 0x20_0000_0000_0000,
        -0x20_0000_0000_0000 <= n * a <= 0x20_0000_0000_0000,
        -0x20_0000_0000_0000 <= a * b <= 0x20_0000_0000_0000,
        -0x20_0000_0000_0000 <= n * a * b <= 0x20_0000_0000_0000,
    ensures
        scaled_integer(scaled_integer(n, Real::spec_from_int(a)), Real::spec_from_int(b)) == n * a
            * b,
        scaled_integer(n, Real::spec_from_int(a).spec_mul(Real::spec_from_int(b))) == n * a * b,
{
    lemma_scale_by_integer(n, a);
    lemma_scale_by_integer((n * a) as i64, b);
    let product = Real::spec_from_int(a).spec_mul(Real::spec_from_int(b));
    let whole = Real::spec_from_int((a * b) as i64);
    lemma_mul_of_integers(a, b);
    lemma_int_round_trip((a * b) as i64);
    lemma_int_round_trip(n);
    lemma_units_monotone(product, whole);
    assert(n * (a * b) == n * a * b) by (nonlinear_arith);
    if a * b != 0 {
        assert((a < 0) != (b < 0) <==> a * b < 0) by (nonlinear_arith)
            requires
                a * b != 0,
        ;
        assert(product == whole);
        lemma_scale_by_integer(n, (a * b) as i64);
    } else {
        // the product of the factors is a zero of either sign
        assert(product.spec_units() == 0) by (nonlinear_arith)
            requires
                product.spec_units() == Real::spec_int_size((a * b) as i64) * units_per_one(),
                Real::spec_int_size((a * b) as i64) == 0,
        ;
        lemma_no_size(product);
        lemma_mul_by_zero(Real::spec_from_int(n), product);
        assert(n * a * b == 0) by (nonlinear_arith)
            requires
                a * b == 0,
        ;
    }
}

/// Scaling the integer 0 gives 0, whatever the factor is.
pub proof fn lemma_scale_of_zero(factor: Real)
    ensures
        scaled_integer(0, factor) == 0,
{
    lemma_nearest_fraction_of_zero(0);
    lemma_nearest_fraction_whole(0);
    assert(0 * units_per_one() == 0) by (nonlinear_arith);
    assert(Real::spec_from_int(0) == Real { bits: 0 });
    lemma_mul_of_zero(Real::spec_from_int(0), factor);
}

/// Scale composition for the integer 0: scaling it by `a` and then by `b`
/// gives 0, and so does scaling it once by the product of the two factors,
/// whatever the factors are.
pub proof fn lemma_scale_composition_of_zero(a: Real, b: Real)
    ensures
        scaled_integer(scaled_integer(0, a), b) == 0,
        scaled_integer(0, a.spec_mul(b)) == 0,
{
    lemma_scale_of_zero(a);
    lemma_scale_of_zero(b);
    lemma_scale_of_zero(a.spec_mul(b));
}

/// Scale composition, stated of the factors themselves: where the two factors
/// are whole numbers other than zero, with the integers `a.spec_to_int()` and
/// `b.spec_to_int()`, and the product of the integer and the two factors has
/// no more than 53 bits, scaling the integer by `a` and then by `b` gives the
/// same as scaling it once by the product of the factors.
pub proof fn lemma_scale_composition_of_whole_factors(n: i64, a: Real, b: Real)
    requires
        a.spec_is_finite(),
        b.spec_is_finite(),
        a.spec_magnitude() > 0,
        b.spec_magnitude() > 0,
        a.spec_units() % units_per_one() == 0,
        b.spec_units() % units_per_one() == 0,
        -0x20_0000_0000_0000 <= n * a.spec_to_int() * b.spec_to_int() <= 0x20_0000_0000_0000,
    ensures
        scaled_integer(scaled_integer(n, a), b) == n * a.spec_to_int() * b.spec_to_int(),
        scaled_integer(n, a.spec_mul(b)) == n * a.spec_to_int() * b.spec_to_int(),
{
    let x = a.spec_to_int() as int;
    let y = b.spec_to_int() as int;
    if n == 0 {
        lemma_scale_composition_of_zero(a, b);
        assert(n * x * y == 0) by (nonlinear_arith)
            requires
                n == 0,
        ;
    } else {
        let one = units_per_one();
        lemma_pow2_pos(1074);
        lemma_no_size(a);
        lemma_no_size(b);
        assert(a.spec_whole_part() >= 1 && b.spec_whole_part() >= 1) by (nonlinear_arith)
            requires
                a.spec_whole_part() == a.spec_units() / one,
                b.spec_whole_part() == b.spec_units() / one,
                a.spec_units() % one == 0,
                b.spec_units() % one == 0,
                a.spec_units() > 0,
                b.spec_units() > 0,
                one > 0,
        ;
        assert(x != 0 && y != 0);
        assert(-0x20_0000_0000_0000 <= x <= 0x20_0000_0000_0000 && -0x20_0000_0000_0000 <= y
            <= 0x20_0000_0000_0000 && -0x20_0000_0000_0000 <= n <= 0x20_0000_0000_0000
            && -0x20_0000_0000_0000 <= n * x <= 0x20_0000_0000_0000 && -0x20_0000_0000_0000 <= x
            * y <= 0x20_0000_0000_0000) by (nonlinear_arith)
            requires
                -0x20_0000_0000_0000 <= n * x * y <= 0x20_0000_0000_0000,
                n != 0,
                x != 0,
                y != 0,
        ;
        lemma_whole_number_round_trip(a);
        lemma_whole_number_round_trip(b);
        lemma_scale_composition(n, a.spec_to_int(), b.spec_to_int());
    }
}

} // verus!
