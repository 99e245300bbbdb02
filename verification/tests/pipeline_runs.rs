use flamelang::{
    FlameError, FlameType, IdentityTransform, Pipeline, Real, ScaleTransform, Transform,
};
use std::cell::Cell;
use std::rc::Rc;

fn num(x: f64) -> Real {
    Real::from_bits(x.to_bits())
}

fn val(r: Real) -> f64 {
    f64::from_bits(r.to_bits())
}

/// Counts how often it is asked and applied, and adds one to an integer.
struct Counting {
    checks: Rc<Cell<usize>>,
    calls: Rc<Cell<usize>>,
}

impl Transform for Counting {
    fn apply(&self, input: &FlameType) -> Result<FlameType, FlameError> {
        self.calls.set(self.calls.get() + 1);
        match input {
            FlameType::Integer(n) => Ok(FlameType::Integer(n + 1)),
            other => Ok(other.clone()),
        }
    }

    fn validate_bounds(&self) -> bool {
        self.checks.set(self.checks.get() + 1);
        true
    }

    fn name(&self) -> &str {
        "Counting"
    }
}

/// Always fails with a type error.
struct Failing;

impl Transform for Failing {
    fn apply(&self, _input: &FlameType) -> Result<FlameType, FlameError> {
        Err(FlameError::TypeError("cannot go on".to_string()))
    }

    fn validate_bounds(&self) -> bool {
        true
    }

    fn name(&self) -> &str {
        "Failing"
    }
}

/// Fails its bound check, and counts how often it is applied none the less.
struct Unchecked {
    calls: Rc<Cell<usize>>,
}

impl Transform for Unchecked {
    fn apply(&self, input: &FlameType) -> Result<FlameType, FlameError> {
        self.calls.set(self.calls.get() + 1);
        Ok(input.clone())
    }

    fn validate_bounds(&self) -> bool {
        false
    }

    fn name(&self) -> &str {
        "Unchecked"
    }
}

#[test]
fn empty_pipeline_returns_the_seed() {
    let pipeline = Pipeline::new("empty".to_string());
    assert_eq!(pipeline.layer_count(), 0);
    assert_eq!(pipeline.execute(FlameType::Integer(42)).unwrap(), FlameType::Integer(42));
    assert_eq!(pipeline.execute(FlameType::Boolean(true)).unwrap(), FlameType::Boolean(true));
}

#[test]
fn pipeline_keeps_its_name() {
    let mut pipeline = Pipeline::new("Example Pipeline".to_string());
    assert_eq!(pipeline.name, "Example Pipeline");
    pipeline.add_layer(IdentityTransform);
    assert_eq!(pipeline.name, "Example Pipeline");
}

#[test]
fn layer_count_grows_by_one_with_each_stage() {
    let mut pipeline = Pipeline::new("count".to_string());
    for expected in 1..=12 {
        pipeline.add_layer(IdentityTransform);
        assert_eq!(pipeline.layer_count(), expected);
    }
    let _ = pipeline.execute(FlameType::Integer(1));
    assert_eq!(pipeline.layer_count(), 12);
}

#[test]
fn end_to_end_identity_then_scale() {
    let mut pipeline = Pipeline::new("two".to_string());
    pipeline.add_layer(IdentityTransform);
    pipeline.add_layer(ScaleTransform { factor: num(2.0) });
    assert_eq!(pipeline.execute(FlameType::Integer(5)).unwrap(), FlameType::Integer(10));
}

#[test]
fn end_to_end_four_stages_with_a_cast_in_between() {
    let mut pipeline = Pipeline::new("four".to_string());
    pipeline.add_layer(IdentityTransform);
    pipeline.add_layer(ScaleTransform { factor: num(1.5) });
    pipeline.add_layer(IdentityTransform);
    pipeline.add_layer(ScaleTransform { factor: num(2.0) });
    assert_eq!(pipeline.execute(FlameType::Integer(10)).unwrap(), FlameType::Integer(30));
}

#[test]
fn five_stage_example() {
    let mut pipeline = Pipeline::new("5-Layer Flamelang Pipeline".to_string());
    pipeline.add_layer(IdentityTransform);
    pipeline.add_layer(IdentityTransform);
    pipeline.add_layer(ScaleTransform { factor: num(1.5) });
    pipeline.add_layer(IdentityTransform);
    pipeline.add_layer(ScaleTransform { factor: num(2.0) });
    assert_eq!(pipeline.layer_count(), 5);
    assert_eq!(pipeline.execute(FlameType::Integer(10)).unwrap(), FlameType::Integer(30));
}

#[test]
fn the_cast_after_each_stage_drops_the_fraction() {
    // 3 * 1.5 = 4.5 is cut to 4 before the second stage doubles it
    let mut pipeline = Pipeline::new("cut".to_string());
    pipeline.add_layer(ScaleTransform { factor: num(1.5) });
    pipeline.add_layer(ScaleTransform { factor: num(2.0) });
    assert_eq!(pipeline.execute(FlameType::Integer(3)).unwrap(), FlameType::Integer(8));

    let mut single = Pipeline::new("single".to_string());
    single.add_layer(ScaleTransform { factor: num(3.0) });
    assert_eq!(single.execute(FlameType::Integer(3)).unwrap(), FlameType::Integer(9));
}

#[test]
fn scale_two_then_three_equals_scale_six_on_five() {
    let mut chained = Pipeline::new("chained".to_string());
    chained.add_layer(ScaleTransform { factor: num(2.0) });
    chained.add_layer(ScaleTransform { factor: num(3.0) });
    let mut single = Pipeline::new("single".to_string());
    single.add_layer(ScaleTransform { factor: num(2.0 * 3.0) });
    assert_eq!(chained.execute(FlameType::Integer(5)).unwrap(), FlameType::Integer(30));
    assert_eq!(single.execute(FlameType::Integer(5)).unwrap(), FlameType::Integer(30));
}

#[test]
fn scale_half_then_two_is_not_scale_one() {
    let mut chained = Pipeline::new("chained".to_string());
    chained.add_layer(ScaleTransform { factor: num(0.5) });
    chained.add_layer(ScaleTransform { factor: num(2.0) });
    let mut single = Pipeline::new("single".to_string());
    single.add_layer(ScaleTransform { factor: num(0.5 * 2.0) });
    assert_eq!(chained.execute(FlameType::Integer(1)).unwrap(), FlameType::Integer(0));
    assert_eq!(single.execute(FlameType::Integer(1)).unwrap(), FlameType::Integer(1));
}

#[test]
fn chained_scaling_follows_the_cast_per_stage() {
    let factors = [(2.0, 3.0), (0.5, 2.0), (1.5, 1.5), (-2.5, 0.3), (0.1, 10.0), (1e10, 1e10)];
    let seeds = [0_i64, 1, -1, 3, 5, 7, 10, -10, 999, 123456789, i64::MAX, i64::MIN];
    for (a, b) in factors {
        for n in seeds {
            let mut pipeline = Pipeline::new("chain".to_string());
            pipeline.add_layer(ScaleTransform { factor: num(a) });
            pipeline.add_layer(ScaleTransform { factor: num(b) });
            let first = ((n as f64) * a) as i64;
            let second = ((first as f64) * b) as i64;
            assert_eq!(
                pipeline.execute(FlameType::Integer(n)).unwrap(),
                FlameType::Integer(second),
                "{} scaled by {} and {}",
                n,
                a,
                b
            );
        }
    }
}

#[test]
fn scaling_by_whole_factors_multiplies() {
    for n in [-7_i64, -1, 0, 1, 2, 5, 1000, 94906265] {
        for a in [-3_i64, -1, 0, 1, 2, 10, 94906265] {
            for b in [-5_i64, 0, 1, 3] {
                if (n * a * b).abs() > (1 << 53) || (n * a).abs() > (1 << 53) {
                    continue;
                }
                let mut chained = Pipeline::new("chained".to_string());
                chained.add_layer(ScaleTransform { factor: Real::from_int(a) });
                chained.add_layer(ScaleTransform { factor: Real::from_int(b) });
                let mut single = Pipeline::new("single".to_string());
                let product = Real::from_int(a).mul(&Real::from_int(b));
                single.add_layer(ScaleTransform { factor: product });
                let expected = FlameType::Integer(n * a * b);
                assert_eq!(chained.execute(FlameType::Integer(n)).unwrap(), expected);
                assert_eq!(single.execute(FlameType::Integer(n)).unwrap(), expected);
            }
        }
    }
}

#[test]
fn stages_run_in_the_order_of_their_appends() {
    // (5 + 1) * 2 = 12, while (5 * 2) + 1 = 11
    let checks = Rc::new(Cell::new(0));
    let calls = Rc::new(Cell::new(0));
    let mut pipeline = Pipeline::new("order".to_string());
    pipeline.add_layer(Counting { checks: checks.clone(), calls: calls.clone() });
    pipeline.add_layer(ScaleTransform { factor: num(2.0) });
    assert_eq!(pipeline.execute(FlameType::Integer(5)).unwrap(), FlameType::Integer(12));

    let mut other = Pipeline::new("other order".to_string());
    other.add_layer(ScaleTransform { factor: num(2.0) });
    other.add_layer(Counting { checks: checks.clone(), calls: calls.clone() });
    assert_eq!(other.execute(FlameType::Integer(5)).unwrap(), FlameType::Integer(11));
    assert_eq!(calls.get(), 2);
    assert_eq!(checks.get(), 2);
}

#[test]
fn a_failing_stage_ends_the_run_with_its_own_error() {
    let checks = Rc::new(Cell::new(0));
    let calls = Rc::new(Cell::new(0));
    let mut pipeline = Pipeline::new("fail fast".to_string());
    pipeline.add_layer(IdentityTransform);
    pipeline.add_layer(Failing);
    pipeline.add_layer(Counting { checks: checks.clone(), calls: calls.clone() });
    pipeline.add_layer(Counting { checks: checks.clone(), calls: calls.clone() });
    match pipeline.execute(FlameType::Integer(1)) {
        Err(FlameError::TypeError(message)) => assert_eq!(message, "cannot go on"),
        _ => panic!("Expected TypeError"),
    }
    // the stages after the failing one were neither asked nor applied
    assert_eq!(checks.get(), 0);
    assert_eq!(calls.get(), 0);
}

#[test]
fn stages_before_a_failure_run_once_each() {
    let checks = Rc::new(Cell::new(0));
    let calls = Rc::new(Cell::new(0));
    let mut pipeline = Pipeline::new("before".to_string());
    pipeline.add_layer(Counting { checks: checks.clone(), calls: calls.clone() });
    pipeline.add_layer(Counting { checks: checks.clone(), calls: calls.clone() });
    pipeline.add_layer(Failing);
    pipeline.add_layer(Counting { checks: checks.clone(), calls: calls.clone() });
    assert!(pipeline.execute(FlameType::Integer(1)).is_err());
    assert_eq!(checks.get(), 2);
    assert_eq!(calls.get(), 2);
}

#[test]
fn a_failed_bound_check_ends_the_run_before_the_stage_is_applied() {
    let unchecked_calls = Rc::new(Cell::new(0));
    let checks = Rc::new(Cell::new(0));
    let calls = Rc::new(Cell::new(0));
    let mut pipeline = Pipeline::new("checked".to_string());
    pipeline.add_layer(IdentityTransform);
    pipeline.add_layer(Unchecked { calls: unchecked_calls.clone() });
    pipeline.add_layer(Counting { checks: checks.clone(), calls: calls.clone() });
    match pipeline.execute(FlameType::Integer(1)) {
        Err(FlameError::BoundError(message)) => {
            assert_eq!(message, "Layer 1: Unchecked failed bound validation")
        }
        _ => panic!("Expected BoundError"),
    }
    assert_eq!(unchecked_calls.get(), 0);
    assert_eq!(checks.get(), 0);
    assert_eq!(calls.get(), 0);
}

#[test]
fn a_failed_bound_check_names_the_index_in_decimal() {
    let mut pipeline = Pipeline::new("long".to_string());
    for _ in 0..123 {
        pipeline.add_layer(IdentityTransform);
    }
    pipeline.add_layer(Unchecked { calls: Rc::new(Cell::new(0)) });
    let e = pipeline.execute(FlameType::Boolean(false)).unwrap_err();
    assert_eq!(e.to_string(), "Bound check failed: Layer 123: Unchecked failed bound validation");
}

#[test]
fn a_bound_error_of_scaling_passes_through_unchanged() {
    // scaling by -1 turns the bounds around: -1 lies above the new upper bound -2
    let seed = FlameType::new_bounded(num(1.0), num(0.0), num(2.0)).unwrap();
    let mut pipeline = Pipeline::new("bounds".to_string());
    pipeline.add_layer(IdentityTransform);
    pipeline.add_layer(ScaleTransform { factor: num(-1.0) });
    pipeline.add_layer(ScaleTransform { factor: num(2.0) });
    match pipeline.execute(seed) {
        Err(FlameError::BoundError(message)) => {
            assert_eq!(message, "Value -1 not in range [-0, -2]")
        }
        _ => panic!("Expected BoundError"),
    }
}

#[test]
fn running_twice_gives_the_same_result() {
    let mut pipeline = Pipeline::new("twice".to_string());
    pipeline.add_layer(ScaleTransform { factor: num(1.5) });
    pipeline.add_layer(IdentityTransform);
    pipeline.add_layer(ScaleTransform { factor: num(-0.25) });
    let seeds = vec![
        FlameType::Integer(17),
        FlameType::Boolean(true),
        FlameType::new_angle(num(1.0)),
        FlameType::Vector(vec![num(1.0), num(2.0), num(3.0)]),
        FlameType::new_bounded(num(0.0), num(0.0), num(0.0)).unwrap(),
    ];
    for seed in seeds {
        let first = pipeline.execute(seed.clone());
        let second = pipeline.execute(seed.clone());
        match (first, second) {
            (Ok(a), Ok(b)) => assert_eq!(a, b),
            (Err(a), Err(b)) => assert_eq!(a.to_string(), b.to_string()),
            _ => panic!("the two runs ended differently"),
        }
    }
}

#[test]
fn running_twice_gives_the_same_error() {
    let mut pipeline = Pipeline::new("twice".to_string());
    pipeline.add_layer(ScaleTransform { factor: num(-3.0) });
    let seed = FlameType::new_bounded(num(1.0), num(0.0), num(2.0)).unwrap();
    let first = pipeline.execute(seed.clone()).unwrap_err();
    let second = pipeline.execute(seed).unwrap_err();
    assert_eq!(first.to_string(), second.to_string());
    assert_eq!(first.to_string(), "Bound check failed: Value -3 not in range [-0, -6]");
}

#[test]
fn identity_returns_every_kind_unchanged() {
    let values = vec![
        FlameType::Angle(num(1.5)),
        FlameType::Vector(vec![num(1.0), num(-2.0)]),
        FlameType::Bounded { value: num(1.0), min: num(0.0), max: num(2.0) },
        FlameType::Integer(42),
        FlameType::Boolean(true),
    ];
    let identity = IdentityTransform;
    assert_eq!(identity.name(), "Identity");
    assert!(identity.validate_bounds());
    for v in values {
        assert_eq!(identity.apply(&v).unwrap(), v);
    }
}

#[test]
fn scale_multiplies_each_kind() {
    let scale = ScaleTransform { factor: num(2.0) };
    assert_eq!(scale.name(), "Scale");
    assert!(scale.validate_bounds());
    assert_eq!(scale.apply(&FlameType::Integer(10)).unwrap(), FlameType::Integer(20));
    assert_eq!(
        scale.apply(&FlameType::Vector(vec![num(1.0), num(2.0), num(3.0)])).unwrap(),
        FlameType::Vector(vec![num(2.0), num(4.0), num(6.0)])
    );
    assert_eq!(scale.apply(&FlameType::Vector(vec![])).unwrap(), FlameType::Vector(vec![]));
    assert_eq!(
        scale.apply(&FlameType::new_angle(num(std::f64::consts::PI / 4.0))).unwrap(),
        FlameType::Angle(num(std::f64::consts::PI / 2.0))
    );
    assert_eq!(
        scale.apply(&FlameType::new_bounded(num(5.0), num(0.0), num(10.0)).unwrap()).unwrap(),
        FlameType::Bounded { value: num(10.0), min: num(0.0), max: num(20.0) }
    );
}

#[test]
fn scale_leaves_a_truth_value_alone() {
    let scale = ScaleTransform { factor: num(123.0) };
    assert_eq!(scale.apply(&FlameType::Boolean(true)).unwrap(), FlameType::Boolean(true));
    assert_eq!(scale.apply(&FlameType::Boolean(false)).unwrap(), FlameType::Boolean(false));
}

#[test]
fn scale_normalizes_an_angle_again() {
    let scale = ScaleTransform { factor: num(3.0) };
    let two_pi = 2.0 * std::f64::consts::PI;
    match scale.apply(&FlameType::new_angle(num(3.0))).unwrap() {
        FlameType::Angle(a) => {
            assert_eq!(val(a), (3.0_f64 * 3.0).rem_euclid(two_pi));
            assert!(val(a) < two_pi);
        }
        _ => panic!("Expected Angle"),
    }
    let back = ScaleTransform { factor: num(-1.0) };
    match back.apply(&FlameType::new_angle(num(1.0))).unwrap() {
        FlameType::Angle(a) => assert_eq!(val(a), (-1.0_f64).rem_euclid(two_pi)),
        _ => panic!("Expected Angle"),
    }
}

#[test]
fn scale_keeps_an_angle_below_two_pi() {
    // two to the power -60 times -1 is lifted to a sum that rounds to 2π
    let tiny = FlameType::new_angle(Real::from_bits(0x3C30_0000_0000_0000));
    let back = ScaleTransform { factor: num(-1.0) };
    assert_eq!(back.apply(&tiny).unwrap(), FlameType::Angle(num(0.0)));
    let two_pi = 2.0 * std::f64::consts::PI;
    for factor in [-1.0, -1e-17, -1e-300, 3.5, -3.5, 1e17, -1e17] {
        for radians in [1e-18, 1.0, 3.0, 6.0, 6.283185307179585] {
            let scale = ScaleTransform { factor: num(factor) };
            match scale.apply(&FlameType::new_angle(num(radians))).unwrap() {
                FlameType::Angle(a) => assert!(0.0 <= val(a) && val(a) < two_pi),
                _ => panic!("Expected Angle"),
            }
        }
    }
}

#[test]
fn scale_of_an_integer_cuts_towards_zero_and_saturates() {
    let cases = [
        (7_i64, 0.5, 3_i64),
        (-7, 0.5, -3),
        (10, 1.5, 15),
        (1, 0.999, 0),
        (-1, 0.999, 0),
        (i64::MAX, 2.0, i64::MAX),
        (i64::MIN, 2.0, i64::MIN),
        (i64::MAX, -2.0, i64::MIN),
        (5, f64::NAN, 0),
        (5, f64::INFINITY, i64::MAX),
        (-5, f64::INFINITY, i64::MIN),
        (0, f64::INFINITY, 0),
        (9007199254740993, 1.0, 9007199254740992),
    ];
    for (n, factor, expected) in cases {
        let scale = ScaleTransform { factor: num(factor) };
        assert_eq!(
            scale.apply(&FlameType::Integer(n)).unwrap(),
            FlameType::Integer(expected),
            "{} scaled by {}",
            n,
            factor
        );
        assert_eq!(((n as f64) * factor) as i64, expected);
    }
}

#[test]
fn scale_of_a_bounded_number_fails_only_where_the_check_fails() {
    let bounded = FlameType::new_bounded(num(1.0), num(0.0), num(2.0)).unwrap();
    assert!(ScaleTransform { factor: num(3.0) }.apply(&bounded).is_ok());
    assert!(ScaleTransform { factor: num(0.0) }.apply(&bounded).is_ok());
    assert!(ScaleTransform { factor: num(f64::NAN) }.apply(&bounded).is_ok());
    assert!(ScaleTransform { factor: num(-1.0) }.apply(&bounded).is_err());
    let point = FlameType::new_bounded(num(0.0), num(0.0), num(0.0)).unwrap();
    assert!(ScaleTransform { factor: num(-1.0) }.apply(&point).is_ok());
}

#[test]
fn validation_error_names_index_and_stage() {
    match flamelang::pipeline::validation_error(0, "Scale") {
        FlameError::BoundError(message) => {
            assert_eq!(message, "Layer 0: Scale failed bound validation")
        }
        _ => panic!("Expected BoundError"),
    }
    match flamelang::pipeline::validation_error(4096, "") {
        FlameError::BoundError(message) => {
            assert_eq!(message, "Layer 4096:  failed bound validation")
        }
        _ => panic!("Expected BoundError"),
    }
}

#[test]
fn name_is_the_name_that_the_pipeline_was_made_with() {
    let pipeline = Pipeline::new("5-Layer Flamelang Pipeline".to_string());
    assert_eq!(pipeline.name(), "5-Layer Flamelang Pipeline");
    assert_eq!(Pipeline::new(String::new()).name(), "");
}

#[test]
fn layer_name_gives_the_names_in_order() {
    let mut pipeline = Pipeline::new("names".to_string());
    assert_eq!(pipeline.layer_name(0), None);
    pipeline.add_layer(IdentityTransform);
    pipeline.add_layer(ScaleTransform { factor: num(2.0) });
    pipeline.add_layer(Failing);
    assert_eq!(pipeline.layer_name(0), Some("Identity"));
    assert_eq!(pipeline.layer_name(1), Some("Scale"));
    assert_eq!(pipeline.layer_name(2), Some("Failing"));
    assert_eq!(pipeline.layer_name(3), None);
    assert_eq!(pipeline.layer_name(usize::MAX), None);
}

#[test]
fn run_layer_runs_one_stage() {
    let unchecked_calls = Rc::new(Cell::new(0));
    let mut pipeline = Pipeline::new("steps".to_string());
    pipeline.add_layer(ScaleTransform { factor: num(2.0) });
    pipeline.add_layer(ScaleTransform { factor: num(1.5) });
    pipeline.add_layer(Unchecked { calls: unchecked_calls.clone() });
    pipeline.add_layer(Failing);
    let seed = FlameType::Integer(5);
    assert_eq!(pipeline.run_layer(0, &seed).unwrap().unwrap(), FlameType::Integer(10));
    assert_eq!(pipeline.run_layer(1, &seed).unwrap().unwrap(), FlameType::Integer(7));
    match pipeline.run_layer(2, &seed) {
        Some(Err(FlameError::BoundError(message))) => {
            assert_eq!(message, "Layer 2: Unchecked failed bound validation")
        }
        _ => panic!("Expected BoundError"),
    }
    assert_eq!(unchecked_calls.get(), 0);
    match pipeline.run_layer(3, &seed) {
        Some(Err(FlameError::TypeError(message))) => assert_eq!(message, "cannot go on"),
        _ => panic!("Expected TypeError"),
    }
    assert!(pipeline.run_layer(4, &seed).is_none());
}

#[test]
fn a_run_is_its_steps_in_order() {
    let mut pipeline = Pipeline::new("steps".to_string());
    pipeline.add_layer(IdentityTransform);
    pipeline.add_layer(ScaleTransform { factor: num(1.5) });
    pipeline.add_layer(IdentityTransform);
    pipeline.add_layer(ScaleTransform { factor: num(2.0) });
    let mut value = FlameType::Integer(10);
    for idx in 0..pipeline.layer_count() {
        value = pipeline.run_layer(idx, &value).unwrap().unwrap();
    }
    assert_eq!(value, FlameType::Integer(30));
    assert_eq!(pipeline.execute(FlameType::Integer(10)).unwrap(), value);
}
