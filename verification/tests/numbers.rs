use flamelang::text::decimal_string;
use flamelang::Real;

fn num(x: f64) -> Real {
    Real::from_bits(x.to_bits())
}

fn val(r: Real) -> f64 {
    f64::from_bits(r.to_bits())
}

/// A small generator of 64-bit patterns: the same sequence on every run.
struct Patterns {
    state: u64,
}

impl Patterns {
    fn next(&mut self) -> u64 {
        self.state ^= self.state << 13;
        self.state ^= self.state >> 7;
        self.state ^= self.state << 17;
        self.state
    }
}

fn special_values() -> Vec<f64> {
    vec![
        0.0,
        -0.0,
        1.0,
        -1.0,
        0.5,
        -0.5,
        0.999,
        1.5,
        2.0,
        3.0,
        10.0,
        -10.0,
        1e-300,
        1e300,
        -1e300,
        5e-324,
        -5e-324,
        f64::MIN_POSITIVE,
        f64::MAX,
        f64::MIN,
        f64::EPSILON,
        f64::INFINITY,
        f64::NEG_INFINITY,
        f64::NAN,
        -f64::NAN,
        9007199254740992.0,
        9007199254740994.0,
        9223372036854775807.0,
        -9223372036854775808.0,
        9223372036854774784.0,
        -9223372036854777856.0,
        4611686018427387904.0,
        1e19,
        -1e19,
        2.0 * std::f64::consts::PI,
        std::f64::consts::PI,
    ]
}

fn same_number(ours: Real, theirs: f64) -> bool {
    if theirs.is_nan() {
        val(ours).is_nan()
    } else {
        ours.to_bits() == theirs.to_bits()
    }
}

#[test]
fn bits_go_in_and_out_unchanged() {
    let some =
        [0_u64, 1, 0x8000_0000_0000_0000, 0x7FF0_0000_0000_0000, u64::MAX, 0x4019_21FB_5444_2D18];
    for bits in some {
        assert_eq!(Real::from_bits(bits).to_bits(), bits);
    }
    assert_eq!(val(Real::zero()), 0.0);
    assert_eq!(Real::zero().to_bits(), 0);
    assert_eq!(val(Real::two_pi()), 2.0 * std::f64::consts::PI);
}

#[test]
fn classification_agrees_with_hardware() {
    for x in special_values() {
        let r = num(x);
        assert_eq!(r.is_nan(), x.is_nan(), "is_nan of {}", x);
        assert_eq!(r.is_finite(), x.is_finite(), "is_finite of {}", x);
        assert_eq!(r.is_negative(), x.is_sign_negative(), "is_negative of {}", x);
        assert_eq!(r.magnitude(), x.abs().to_bits(), "magnitude of {}", x);
        assert_eq!(r.abs().to_bits(), x.abs().to_bits(), "abs of {}", x);
    }
}

#[test]
fn significand_and_scale_give_the_number_back() {
    // a finite number is its significand times 2 to the power of its scale, in
    // units of 2^-1074
    let cases: [(f64, u64, u64); 8] = [
        (0.0, 0, 0),
        (5e-324, 1, 0),
        (f64::MIN_POSITIVE, 1 << 52, 0),
        (1.0, 1 << 52, 1022),
        (-1.0, 1 << 52, 1022),
        (1.5, 3 << 51, 1022),
        (10.0, 5 << 50, 1025),
        (f64::MAX, (1 << 53) - 1, 2045),
    ];
    for (x, significand, scale) in cases {
        assert_eq!(num(x).significand(), significand, "significand of {:e}", x);
        assert_eq!(num(x).unit_scale(), scale, "scale of {:e}", x);
    }
    let mut patterns = Patterns { state: 0x510E_527F_ADE6_82D1 };
    for _ in 0..5000 {
        let x = f64::from_bits(patterns.next());
        if x.is_finite() && x != 0.0 && x.abs() >= f64::MIN_POSITIVE {
            let s = num(x).significand() as f64;
            let e = num(x).unit_scale() as i32 - 1074;
            assert_eq!(s * 2.0_f64.powi(e.max(-1000)) * 2.0_f64.powi(e - e.max(-1000)), x.abs());
        }
    }
}

#[test]
fn ordering_agrees_with_hardware_on_special_values() {
    let values = special_values();
    for &a in &values {
        for &b in &values {
            assert_eq!(num(a).lt(&num(b)), a < b, "{} < {}", a, b);
            assert_eq!(num(a).gt(&num(b)), a > b, "{} > {}", a, b);
            assert_eq!(num(a).le(&num(b)), a <= b, "{} <= {}", a, b);
            assert_eq!(num(a).same(&num(b)), a == b, "{} == {}", a, b);
            assert_eq!(num(a) == num(b), a == b, "{} == {}", a, b);
        }
    }
}

#[test]
fn ordering_agrees_with_hardware_on_many_patterns() {
    let mut patterns = Patterns { state: 0x9E37_79B9_7F4A_7C15 };
    for _ in 0..20000 {
        let a = f64::from_bits(patterns.next());
        let b = f64::from_bits(patterns.next());
        assert_eq!(num(a).lt(&num(b)), a < b);
        assert_eq!(num(a).gt(&num(b)), a > b);
        assert_eq!(num(a).le(&num(b)), a <= b);
        assert_eq!(num(a).same(&num(b)), a == b);
    }
}

#[test]
fn a_nan_compares_with_nothing() {
    let nan = num(f64::NAN);
    let one = num(1.0);
    assert!(!nan.lt(&one) && !nan.gt(&one) && !nan.le(&one) && !nan.same(&one));
    assert!(!one.lt(&nan) && !one.gt(&nan) && !one.le(&nan) && !one.same(&nan));
    assert!(!nan.same(&nan) && !nan.le(&nan));
}

#[test]
fn the_two_zeros_are_equal() {
    let plus = num(0.0);
    let minus = num(-0.0);
    assert!(plus.same(&minus) && plus.le(&minus) && minus.le(&plus));
    assert!(!plus.lt(&minus) && !minus.lt(&plus));
    assert_ne!(plus.to_bits(), minus.to_bits());
}

#[test]
fn from_int_gives_exact_values_for_small_integers() {
    assert_eq!(val(Real::from_int(0)), 0.0);
    assert_eq!(Real::from_int(0).to_bits(), 0);
    assert_eq!(val(Real::from_int(1)), 1.0);
    assert_eq!(val(Real::from_int(-1)), -1.0);
    assert_eq!(val(Real::from_int(5)), 5.0);
    assert_eq!(val(Real::from_int(10)), 10.0);
    assert_eq!(val(Real::from_int(-123456789)), -123456789.0);
    assert_eq!(val(Real::from_int(9007199254740992)), 9007199254740992.0);
}

#[test]
fn from_int_rounds_ties_to_even() {
    // 2^53 + 1 lies halfway between 2^53 and 2^53 + 2
    assert_eq!(val(Real::from_int(9007199254740993)), 9007199254740992.0);
    // 2^53 + 3 lies halfway between 2^53 + 2 and 2^53 + 4
    assert_eq!(val(Real::from_int(9007199254740995)), 9007199254740996.0);
    assert_eq!(val(Real::from_int(-9007199254740993)), -9007199254740992.0);
    // the largest integer rounds up to 2^63
    assert_eq!(val(Real::from_int(i64::MAX)), 9223372036854775808.0);
    assert_eq!(val(Real::from_int(i64::MIN)), -9223372036854775808.0);
}

#[test]
fn from_int_agrees_with_hardware_near_every_power_of_two() {
    for p in 0..63 {
        let base: i64 = 1_i64 << p;
        for delta in -5_i64..=5 {
            let n = base.wrapping_add(delta);
            assert_eq!(Real::from_int(n).to_bits(), (n as f64).to_bits(), "{}", n);
            let m = n.wrapping_neg();
            assert_eq!(Real::from_int(m).to_bits(), (m as f64).to_bits(), "{}", m);
        }
        if p >= 54 {
            // around the halfway points of the rounding step
            let step: i64 = 1_i64 << (p - 52);
            for k in 0..8_i64 {
                for delta in -1_i64..=1 {
                    let n = base + k * step + step / 2 + delta;
                    assert_eq!(Real::from_int(n).to_bits(), (n as f64).to_bits(), "{}", n);
                    assert_eq!(Real::from_int(-n).to_bits(), ((-n) as f64).to_bits(), "-{}", n);
                }
            }
        }
    }
}

#[test]
fn from_int_agrees_with_hardware_on_many_integers() {
    let mut patterns = Patterns { state: 0x1234_5678_9ABC_DEF1 };
    for _ in 0..20000 {
        let raw = patterns.next();
        let shift = patterns.next() % 64;
        let n = (raw >> shift) as i64;
        assert_eq!(Real::from_int(n).to_bits(), (n as f64).to_bits(), "{}", n);
        let m = n.wrapping_neg();
        assert_eq!(Real::from_int(m).to_bits(), (m as f64).to_bits(), "{}", m);
    }
}

#[test]
fn to_int_cuts_towards_zero() {
    assert_eq!(num(0.0).to_int(), 0);
    assert_eq!(num(-0.0).to_int(), 0);
    assert_eq!(num(0.999).to_int(), 0);
    assert_eq!(num(-0.999).to_int(), 0);
    assert_eq!(num(1.0).to_int(), 1);
    assert_eq!(num(1.999).to_int(), 1);
    assert_eq!(num(-1.999).to_int(), -1);
    assert_eq!(num(15.0).to_int(), 15);
    assert_eq!(num(4.5).to_int(), 4);
    assert_eq!(num(-4.5).to_int(), -4);
    assert_eq!(num(5e-324).to_int(), 0);
    assert_eq!(num(4503599627370496.5).to_int(), 4503599627370496);
    assert_eq!(num(9007199254740992.0).to_int(), 9007199254740992);
}

#[test]
fn to_int_saturates_and_maps_nan_to_zero() {
    assert_eq!(num(f64::NAN).to_int(), 0);
    assert_eq!(num(-f64::NAN).to_int(), 0);
    assert_eq!(num(f64::INFINITY).to_int(), i64::MAX);
    assert_eq!(num(f64::NEG_INFINITY).to_int(), i64::MIN);
    assert_eq!(num(1e19).to_int(), i64::MAX);
    assert_eq!(num(-1e19).to_int(), i64::MIN);
    assert_eq!(num(9223372036854775808.0).to_int(), i64::MAX);
    assert_eq!(num(-9223372036854775808.0).to_int(), i64::MIN);
    assert_eq!(num(9223372036854774784.0).to_int(), 9223372036854774784);
    assert_eq!(num(-9223372036854774784.0).to_int(), -9223372036854774784);
    assert_eq!(num(f64::MAX).to_int(), i64::MAX);
    assert_eq!(num(f64::MIN).to_int(), i64::MIN);
}

#[test]
fn to_int_agrees_with_hardware() {
    for x in special_values() {
        assert_eq!(num(x).to_int(), x as i64, "{}", x);
    }
    let mut patterns = Patterns { state: 0x0F0F_1234_5678_9ABC };
    for _ in 0..20000 {
        let x = f64::from_bits(patterns.next());
        assert_eq!(num(x).to_int(), x as i64, "{}", x);
        // numbers near the range of the integers
        let exponent = 1023 + patterns.next() % 66;
        let y = f64::from_bits((patterns.next() & 0x800F_FFFF_FFFF_FFFF) | (exponent << 52));
        assert_eq!(num(y).to_int(), y as i64, "{}", y);
    }
}

#[test]
fn integers_up_to_two_to_the_53_survive_the_round_trip() {
    let limit: i64 = 1 << 53;
    for n in [0, 1, -1, 2, 3, 1000, -1000, limit - 1, limit, -limit, 1 - limit, 123456789012345] {
        assert_eq!(Real::from_int(n).to_int(), n);
    }
    assert_eq!(Real::from_int(limit + 1).to_int(), limit);
}

#[test]
fn products_are_exact_where_they_can_be() {
    assert_eq!(val(num(2.0).mul(&num(3.0))), 6.0);
    assert_eq!(val(num(10.0).mul(&num(1.5))), 15.0);
    assert_eq!(val(num(-2.5).mul(&num(4.0))), -10.0);
    assert_eq!(num(0.0).mul(&num(-1.0)).to_bits(), (-0.0_f64).to_bits());
    assert_eq!(val(num(1e200).mul(&num(1e200))), f64::INFINITY);
    assert!(val(num(0.0).mul(&num(f64::INFINITY))).is_nan());
    assert_eq!(val(num(0.1).mul(&num(3.0))), 0.1 * 3.0);
}

/// What lifting returns on the hardware: a number below zero is moved up by
/// the size of the modulus.
fn lifted(r: f64, modulus: f64) -> f64 {
    if r < 0.0 {
        r + modulus.abs()
    } else {
        r
    }
}

#[test]
fn lifting_moves_a_negative_remainder_up() {
    assert_eq!(val(num(-1.0).lift(&num(3.0))), 2.0);
    assert_eq!(val(num(-1.0).lift(&num(-3.0))), 2.0);
    assert_eq!(val(num(-0.25).lift(&num(1.0))), 0.75);
    assert_eq!(val(num(-5.0).lift(&num(3.0))), -2.0);
    assert_eq!(num(-3.0).lift(&num(3.0)).to_bits(), 0.0_f64.to_bits());
    assert_eq!(val(num(-0.1).lift(&num(0.3))), -0.1 + 0.3);
    assert_eq!(val(num(-1e-20).lift(&num(1.0))), 1.0);
    assert_eq!(val(num(-1.0).lift(&num(f64::INFINITY))), f64::INFINITY);
    assert_eq!(val(num(f64::NEG_INFINITY).lift(&num(1.0))), f64::NEG_INFINITY);
    assert!(val(num(f64::NEG_INFINITY).lift(&num(f64::INFINITY))).is_nan());
    assert!(val(num(-1.0).lift(&num(f64::NAN))).is_nan());
}

#[test]
fn lifting_leaves_other_numbers_alone() {
    for x in [0.0, -0.0, 1.0, 2.5, 1e300, 5e-324, f64::INFINITY] {
        for m in [1.0, -1.0, 0.0, f64::NAN, f64::INFINITY, 1e-300] {
            assert_eq!(num(x).lift(&num(m)).to_bits(), x.to_bits(), "{} lifted by {}", x, m);
        }
    }
    assert!(val(num(f64::NAN).lift(&num(1.0))).is_nan());
}

#[test]
fn lifting_agrees_with_hardware_on_special_values() {
    let values = special_values();
    for &a in &values {
        for &b in &values {
            assert!(same_number(num(a).lift(&num(b)), lifted(a, b)), "{} lifted by {}", a, b);
        }
    }
}

#[test]
fn lifting_agrees_with_hardware_on_many_patterns() {
    let mut patterns = Patterns { state: 0x6A09_E667_F3BC_C908 };
    for round in 0..30000 {
        let a = f64::from_bits(patterns.next() | 0x8000_0000_0000_0000);
        let mut b = f64::from_bits(patterns.next());
        if round % 4 != 0 {
            // bring the exponent of the modulus near that of the number
            let offset = patterns.next() % 140;
            let field = ((a.to_bits() >> 52) & 0x7FF).wrapping_add(offset).wrapping_sub(70) & 0x7FF;
            b = f64::from_bits((b.to_bits() & 0x800F_FFFF_FFFF_FFFF) | (field << 52));
        }
        if round % 16 == 1 {
            // a modulus whose significand is a power of two
            b = f64::from_bits(b.to_bits() & 0xFFF0_0000_0000_0000);
        }
        assert!(same_number(num(a).lift(&num(b)), lifted(a, b)), "{:e} lifted by {:e}", a, b);
    }
}

#[test]
fn lifting_rounds_ties_to_even() {
    // 2^53 - (2^-1 + ...) and its neighbours: the difference has more than 53 bits
    let big = 9007199254740992.0_f64;
    for small in [0.5, 1.0, 1.5, 2.5, 3.0, 0.25, 0.75, 1.25, 1e-5, 4503599627370497.0] {
        for scale in [1.0, 2.0, 1024.0, 1e-200, 1e200] {
            let a = -small * scale;
            let b = big * scale;
            assert!(same_number(num(a).lift(&num(b)), lifted(a, b)), "{:e} lifted by {:e}", a, b);
            let c = (big + 2.0) * scale;
            assert!(same_number(num(a).lift(&num(c)), lifted(a, c)), "{:e} lifted by {:e}", a, c);
        }
    }
}

#[test]
fn remainders_of_small_numbers() {
    assert_eq!(val(num(7.0).rem(&num(3.0))), 1.0);
    assert_eq!(val(num(-7.0).rem(&num(3.0))), -1.0);
    assert_eq!(val(num(7.0).rem(&num(-3.0))), 1.0);
    assert_eq!(val(num(7.5).rem(&num(2.0))), 1.5);
    assert!(val(num(7.0).rem(&num(0.0))).is_nan());
    assert_eq!(val(num(7.0).rem(&num(f64::INFINITY))), 7.0);
    assert_eq!(val(num(7.0).rem_euclid(&num(3.0))), 1.0);
    assert_eq!(val(num(-7.0).rem_euclid(&num(3.0))), 2.0);
    assert_eq!(val(num(-7.0).rem_euclid(&num(-3.0))), 2.0);
    assert_eq!(val(num(7.0).rem_euclid(&num(-3.0))), 1.0);
    assert_eq!(num(-6.0).rem_euclid(&num(3.0)).to_bits(), (-6.0_f64).rem_euclid(3.0).to_bits());
}

#[test]
fn arithmetic_agrees_with_hardware_on_special_values() {
    let values = special_values();
    for &a in &values {
        for &b in &values {
            assert!(same_number(num(a).mul(&num(b)), a * b), "{} * {}", a, b);
            assert!(same_number(num(a).rem(&num(b)), a % b), "{} % {}", a, b);
            assert!(same_number(num(a).rem_euclid(&num(b)), a.rem_euclid(b)), "{} mod {}", a, b);
        }
    }
}

#[test]
fn arithmetic_agrees_with_hardware_on_many_patterns() {
    let mut patterns = Patterns { state: 0x2545_F491_4F6C_DD1D };
    for round in 0..6000 {
        let a = f64::from_bits(patterns.next());
        let mut b = f64::from_bits(patterns.next());
        if round % 2 == 0 {
            // bring the two exponents close together, so that sums and
            // remainders have work to do
            let step = (patterns.next() % 8) << 52;
            let close = (a.to_bits() & 0x7FF0_0000_0000_0000).wrapping_add(step);
            b = f64::from_bits(
                (b.to_bits() & 0x800F_FFFF_FFFF_FFFF) | (close & 0x7FF0_0000_0000_0000),
            );
        }
        assert!(same_number(num(a).mul(&num(b)), a * b), "{:e} * {:e}", a, b);
        if round % 2 == 0 {
            assert!(same_number(num(a).rem(&num(b)), a % b), "{:e} % {:e}", a, b);
            let ours = num(a).rem_euclid(&num(b));
            assert!(same_number(ours, a.rem_euclid(b)), "{:e} mod {:e}", a, b);
        }
    }
}

#[test]
fn products_near_the_ends_of_the_range_agree_with_hardware() {
    let mut patterns = Patterns { state: 0xBB67_AE85_84CA_A73B };
    for round in 0..30000 {
        let a = f64::from_bits(patterns.next());
        let field_a = ((a.to_bits() >> 52) & 0x7FF) as i64;
        // the sum of the two exponent fields for products near the smallest
        // numbers, near the smallest normal number, near 1 and near the largest
        let target = [1023_i64 - 52, 1023, 2046, 1023 + 2046][round % 4];
        let offset = (patterns.next() % 120) as i64 - 60;
        let field_b = (target + offset - field_a).clamp(0, 2046) as u64;
        let b = f64::from_bits((patterns.next() & 0x800F_FFFF_FFFF_FFFF) | (field_b << 52));
        assert!(same_number(num(a).mul(&num(b)), a * b), "{:e} * {:e}", a, b);
    }
}

#[test]
fn products_of_subnormal_numbers_agree_with_hardware() {
    let mut patterns = Patterns { state: 0x3C6E_F372_FE94_F82B };
    for _ in 0..10000 {
        let a = f64::from_bits(patterns.next() & 0x800F_FFFF_FFFF_FFFF);
        let b = f64::from_bits(patterns.next());
        let field = 1023_u64 + patterns.next() % 60;
        let c = f64::from_bits((patterns.next() & 0x800F_FFFF_FFFF_FFFF) | field << 52);
        assert!(same_number(num(a).mul(&num(b)), a * b), "{:e} * {:e}", a, b);
        assert!(same_number(num(a).mul(&num(c)), a * c), "{:e} * {:e}", a, c);
        assert!(same_number(num(c).mul(&num(a)), c * a), "{:e} * {:e}", c, a);
    }
}

#[test]
fn products_round_ties_to_even() {
    // (2^52 + 1) * (2^52 + 1) = 2^104 + 2^53 + 1 and its kin need rounding
    let cases = [
        (4503599627370497.0_f64, 4503599627370497.0_f64),
        (4503599627370497.0, 3.0),
        (9007199254740991.0, 9007199254740991.0),
        (9007199254740991.0, 1.5),
        (6755399441055744.0, 1.0000000000000002),
        (0.1, 0.1),
        (1.0000000000000002, 1.0000000000000002),
        (5e-324, 0.5),
        (5e-324, 0.75),
        (5e-324, 1.5),
        (1.5e-323, 0.5),
        (2.2250738585072014e-308, 0.5),
        (2.225073858507201e-308, 1.0000000000000002),
        (f64::MAX, 1.0000000000000002),
        (f64::MAX, 0.9999999999999999),
        (1.3407807929942597e154, 1.3407807929942597e154),
        (1.3407807929942596e154, 1.3407807929942597e154),
    ];
    for (a, b) in cases {
        assert!(same_number(num(a).mul(&num(b)), a * b), "{:e} * {:e}", a, b);
        assert!(same_number(num(-a).mul(&num(b)), -a * b), "{:e} * {:e}", -a, b);
        assert!(same_number(num(b).mul(&num(a)), b * a), "{:e} * {:e}", b, a);
    }
}

#[test]
fn decimal_text_of_numbers() {
    assert_eq!(num(15.0).to_text(), "15");
    assert_eq!(num(0.0).to_text(), "0");
    assert_eq!(num(-0.0).to_text(), "-0");
    assert_eq!(num(-2.5).to_text(), "-2.5");
    assert_eq!(num(0.5).to_text(), "0.5");
    assert_eq!(num(0.1).to_text(), "0.1");
    assert_eq!(num(0.3).to_text(), "0.3");
    assert_eq!(num(0.1 + 0.2).to_text(), "0.30000000000000004");
    assert_eq!(num(0.0625).to_text(), "0.0625");
    assert_eq!(num(100.25).to_text(), "100.25");
    assert_eq!(num(1005.0).to_text(), "1005");
    assert_eq!(num(1234.0).to_text(), "1234");
    assert_eq!(num(1e21).to_text(), "1000000000000000000000");
    assert_eq!(num(1e23).to_text(), "100000000000000000000000");
    assert_eq!(num(1e-7).to_text(), "0.0000001");
    assert_eq!(num(2.0 * std::f64::consts::PI).to_text(), "6.283185307179586");
    assert_eq!(num(9007199254740993.0).to_text(), "9007199254740992");
    assert_eq!(num(5e-324).to_text(), format!("{}", 5e-324));
    assert_eq!(num(5e-324).to_text().len(), 2 + 324);
    assert_eq!(num(f64::MAX).to_text(), format!("{}", f64::MAX));
    assert_eq!(num(f64::MIN_POSITIVE).to_text(), format!("{}", f64::MIN_POSITIVE));
    assert_eq!(num(f64::NAN).to_text(), "NaN");
    assert_eq!(num(-f64::NAN).to_text(), "NaN");
    assert_eq!(num(f64::INFINITY).to_text(), "inf");
    assert_eq!(num(f64::NEG_INFINITY).to_text(), "-inf");
}

#[test]
fn decimal_text_reads_back_as_the_same_number() {
    let mut patterns = Patterns { state: 0xA54F_F53A_5F1D_36F1 };
    for x in special_values() {
        if x.is_nan() {
            continue;
        }
        let text = num(x).to_text();
        assert_eq!(text.parse::<f64>().unwrap().to_bits(), x.to_bits(), "text {}", text);
    }
    for _ in 0..300 {
        let x = f64::from_bits(patterns.next());
        if x.is_nan() {
            continue;
        }
        let text = num(x).to_text();
        assert_eq!(text.parse::<f64>().unwrap().to_bits(), x.to_bits(), "text {}", text);
    }
}

#[test]
fn decimal_text_is_the_text_of_the_standard_formatter() {
    for x in special_values() {
        assert_eq!(num(x).to_text(), format!("{}", x), "text of {:e}", x);
    }
    // powers of two, where the neighbour below is nearer than the one above
    for field in [1_u64, 2, 3, 52, 53, 54, 1000, 1022, 1023, 1024, 1076, 1077, 1100, 2046] {
        for fraction in [0_u64, 1, 2, 3, 0xF_FFFF_FFFF_FFFF, 0xF_FFFF_FFFF_FFFE] {
            let x = f64::from_bits(field << 52 | fraction);
            assert_eq!(num(x).to_text(), format!("{}", x), "text of {:e}", x);
        }
    }
    for bits in 0_u64..40 {
        let x = f64::from_bits(bits);
        assert_eq!(num(x).to_text(), format!("{}", x), "text of {:e}", x);
    }
}

#[test]
fn decimal_text_agrees_with_the_standard_formatter_on_many_patterns() {
    let mut patterns = Patterns { state: 0x1F83_D9AB_FB41_BD6B };
    for round in 0..1500 {
        let mut x = f64::from_bits(patterns.next());
        if round % 3 != 0 {
            // numbers of a common size
            let field = 1023 - 40 + patterns.next() % 100;
            x = f64::from_bits((x.to_bits() & 0x800F_FFFF_FFFF_FFFF) | (field << 52));
        }
        if round % 5 == 0 {
            // significands that end in zeros
            x = f64::from_bits(x.to_bits() & !((1_u64 << (patterns.next() % 53)) - 1));
        }
        assert_eq!(num(x).to_text(), format!("{}", x), "text of {:e}", x);
    }
}

#[test]
fn decimal_text_of_short_decimal_numbers() {
    let mut patterns = Patterns { state: 0x5BE0_CD19_137E_2179 };
    for _ in 0..2000 {
        // numbers that were written with a few digits
        let digits = patterns.next() % 1_000_000;
        let places = patterns.next() % 12;
        let x = digits as f64 / 10_f64.powi(places as i32);
        assert_eq!(num(x).to_text(), format!("{}", x), "text of {:e}", x);
        let y = digits as f64 * 10_f64.powi(places as i32 * 3);
        assert_eq!(num(y).to_text(), format!("{}", y), "text of {:e}", y);
    }
}

#[test]
fn digits_stand_lowest_place_first() {
    assert_eq!(flamelang::digits::digits_of(0), Vec::<u8>::new());
    assert_eq!(flamelang::digits::digits_of(7), vec![7]);
    assert_eq!(flamelang::digits::digits_of(1205), vec![5, 0, 2, 1]);
    assert_eq!(flamelang::digits::digits_of(10), vec![0, 1]);
    assert_eq!(
        flamelang::digits::digits_of(u64::MAX),
        vec![5, 1, 6, 1, 5, 5, 9, 0, 7, 3, 7, 0, 4, 4, 7, 6, 4, 4, 8, 1]
    );
}

#[test]
fn decimal_text_of_indices() {
    assert_eq!(decimal_string(0), "0");
    assert_eq!(decimal_string(7), "7");
    assert_eq!(decimal_string(9), "9");
    assert_eq!(decimal_string(10), "10");
    assert_eq!(decimal_string(42), "42");
    assert_eq!(decimal_string(100), "100");
    assert_eq!(decimal_string(1234567890), "1234567890");
    assert_eq!(decimal_string(usize::MAX), usize::MAX.to_string());
    for n in 0..2000_usize {
        assert_eq!(decimal_string(n), n.to_string());
    }
}
