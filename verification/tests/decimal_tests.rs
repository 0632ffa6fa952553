use photonic_handlers::decimal::{list_number, show_fixed, show_number};
use photonic_handlers::double::Double;

fn double(value: f64) -> Double {
    Double { bits: value.to_bits() }
}

fn samples() -> Vec<f64> {
    let mut out = vec![
        0.0,
        1.0,
        0.1,
        0.2,
        0.3,
        1.0 / 3.0,
        2.0 / 3.0,
        0.5,
        1.5,
        2.5,
        0.25,
        0.35,
        0.125,
        0.375,
        1e-5,
        1e-7,
        9.95,
        9.996,
        99.95,
        0.04,
        0.05,
        0.06,
        0.95,
        0.96,
        123456.789,
        1e15,
        1e16,
        1e22,
        1e23,
        9007199254740993.0,
        f64::MAX,
        f64::MIN_POSITIVE,
        f64::EPSILON,
        5e-324,
        1e-310,
        std::f64::consts::PI,
        std::f64::consts::E,
        359.99,
        4.35,
        1.005,
        2.675,
        0.045,
    ];
    let mut state = 0x9e37_79b9_7f4a_7c15u64;
    for _ in 0..60 {
        state ^= state << 13;
        state ^= state >> 7;
        state ^= state << 17;
        out.push(f64::from_bits(state & 0x7fff_ffff_ffff_ffff).abs());
        out.push((state % 1_000_000) as f64 / 1000.0);
    }
    out.retain(|x| x.is_finite());
    let negative: Vec<f64> = out.iter().map(|x| -x).collect();
    out.extend(negative);
    out
}

#[test]
fn numbers_are_shown_with_the_digits_they_need() {
    for x in samples() {
        assert_eq!(show_number(double(x)), format!("{x}"), "{:x}", x.to_bits());
    }
    assert_eq!(show_number(double(f64::NAN)), "NaN");
    assert_eq!(show_number(double(f64::INFINITY)), "inf");
    assert_eq!(show_number(double(f64::NEG_INFINITY)), "-inf");
}

#[test]
fn numbers_are_rounded_to_places() {
    for x in samples() {
        for (p, text) in [
            (0, format!("{x:.0}")),
            (1, format!("{x:.1}")),
            (2, format!("{x:.2}")),
            (4, format!("{x:.4}")),
        ] {
            assert_eq!(show_fixed(double(x), p), text, "{x} {p}");
        }
    }
    assert_eq!(show_fixed(double(f64::NAN), 1), "NaN");
    assert_eq!(show_fixed(double(f64::NEG_INFINITY), 1), "-inf");
}

#[test]
fn a_shown_number_reads_back() {
    for x in samples() {
        let back: f64 = show_number(double(x)).parse().unwrap();
        assert_eq!(back.to_bits(), x.to_bits());
    }
}

#[test]
fn listed_numbers_have_a_point_or_an_exponent() {
    let mut all = samples();
    all.extend([1e-4, 9.999e-5, 0.00012, 9999999999999998.0, 1.5e16, 1.25e-9, 3e100]);
    for x in all {
        assert_eq!(list_number(double(x)), format!("{x:?}"), "{:x}", x.to_bits());
    }
    assert_eq!(list_number(double(f64::NAN)), "NaN");
    assert_eq!(list_number(double(f64::NEG_INFINITY)), "-inf");
}
