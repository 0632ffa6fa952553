use photonic_handlers::double::Double;
use photonic_handlers::float::{
    absolute, at_most, byte_of, clamped, divided, from_count, halved, less, maximum, minimum, minus,
    narrowed, negated, over, plus, raised_count, remainder_euclid, round_number, same, square_root,
    times, to_count, whole_part,
};

fn double(value: f64) -> Double {
    Double { bits: value.to_bits() }
}

fn value(d: Double) -> f64 {
    f64::from_bits(d.bits)
}

fn agrees(d: Double, expected: f64) -> bool {
    let actual = value(d);
    (actual.is_nan() && expected.is_nan()) || actual.to_bits() == expected.to_bits()
}

const VALUES: [f64; 28] = [
    0.0,
    -0.0,
    -1e-320,
    1.0,
    -1.0,
    0.1,
    -0.3,
    1.5,
    2.5,
    -2.5,
    3.0,
    7.25,
    1e-9,
    -1e-9,
    1e300,
    -1e300,
    1e-300,
    5e-324,
    2.2250738585072014e-308,
    1.7976931348623157e308,
    123456789.987654321,
    0.05,
    255.4999999,
    1024.0,
    9007199254740993.0,
    std::f64::consts::PI,
    f64::INFINITY,
    f64::NEG_INFINITY,
];

#[test]
fn arithmetic_is_rounded_like_the_machine_rounds_it() {
    for a in VALUES {
        for b in VALUES {
            let (x, y) = (double(a), double(b));
            assert!(agrees(plus(x, y), a + b), "{a} + {b}");
            assert!(agrees(minus(x, y), a - b), "{a} - {b}");
            assert!(agrees(times(x, y), a * b), "{a} * {b}");
            assert!(agrees(over(x, y), a / b), "{a} / {b}");
            if b != 0.0 {
                assert!(agrees(divided(x, y), a / b), "{a} / {b}");
            }
            assert!(same(maximum(x, y), double(a.max(b))), "max {a} {b}");
            assert!(same(minimum(x, y), double(a.min(b))), "min {a} {b}");
            assert_eq!(less(x, y), a < b);
            assert_eq!(at_most(x, y), a <= b);
            assert_eq!(same(x, y), a == b);
        }
    }
}

#[test]
fn functions_of_one_number_are_those_of_the_machine() {
    for a in VALUES {
        let x = double(a);
        assert!(agrees(negated(x), -a), "-{a}");
        assert!(agrees(absolute(x), a.abs()), "abs {a}");
        assert!(agrees(square_root(x), a.sqrt()), "sqrt {a}");
        assert!(agrees(narrowed(x), a as f32 as f64), "narrow {a}");
        assert!(agrees(halved(x), a / 2.0), "half {a}");
        assert!(agrees(round_number(x), a.round()), "round {a}");
        assert!(agrees(whole_part(x), a.trunc()), "trunc {a}");
        assert!(agrees(clamped(x, double(-2.0), double(3.0)), a.clamp(-2.0, 3.0)), "clamp {a}");
        if a.is_finite() {
            assert_eq!(to_count(x, 1000), (a as u64).min(1000), "{a}");
            assert_eq!(raised_count(x, 1000), (a.ceil() as u64).min(1000), "{a}");
        }
    }
    let nan = double(f64::NAN);
    assert!(agrees(plus(nan, double(1.0)), f64::NAN));
    assert!(agrees(maximum(nan, double(1.0)), 1.0));
    assert!(!less(nan, nan) && !same(nan, nan));
}

#[test]
fn zeros_keep_their_signs() {
    assert_eq!(times(double(0.0), double(-1.0)).bits, (-0.0_f64).to_bits());
    assert_eq!(times(double(-0.0), double(-1.0)).bits, 0);
    assert_eq!(plus(double(-0.0), double(-0.0)).bits, (-0.0_f64).to_bits());
    assert_eq!(minus(double(1.0), double(1.0)).bits, 0);
    assert_eq!(divided(double(1.0), double(f64::NEG_INFINITY)).bits, (-0.0_f64).to_bits());
    assert_eq!(narrowed(double(-1e-60)).bits, (-0.0_f64).to_bits());
    assert_eq!(round_number(double(-0.3)).bits, (-0.0_f64).to_bits());
    for a in [-720.0, -360.0, -0.0, 0.0, 360.0, -361.5] {
        let r = remainder_euclid(double(a), double(360.0));
        assert_eq!(r.bits, a.rem_euclid(360.0).to_bits(), "{a}");
    }
}

#[test]
fn small_steps_are_rounded_to_even() {
    let mut x = 1.0_f64;
    let mut d = double(1.0);
    for i in 1..200 {
        let step = 1.0 / (i as f64 * 3.7);
        x = (x * 1.01 + step).sqrt() / 1.3;
        d = divided(square_root(plus(times(d, double(1.01)), double(step))), double(1.3));
        assert_eq!(value(d), x);
    }
    for i in 0..300 {
        let a = (i as f64) * 0.037 + 1e-7;
        assert_eq!(value(narrowed(double(a))), a as f32 as f64);
        assert_eq!(value(remainder_euclid(double(a - 5.0), double(3.0))), (a - 5.0).rem_euclid(3.0));
    }
}

#[test]
fn counts_and_bytes_become_numbers_and_back() {
    for n in [0u64, 1, 2, 48, 70, 1 << 20, (1 << 53) - 1, 1 << 53] {
        assert_eq!(value(from_count(n)), n as f64);
    }
    for (x, b) in [(0.0, 0), (1.0, 1), (0.5, 1), (0.4999, 0), (-3.0, 0), (254.5, 255), (700.0, 255)] {
        assert_eq!(byte_of(double(x)), b, "{x}");
    }
}
