use photonic_handlers::double::{bounded_number, parse_double, Double};
use photonic_handlers::tailwind::{arbitrary_px, class_px};

fn double(value: f64) -> Double {
    Double { bits: value.to_bits() }
}

#[test]
fn numeric_parser_rejects_non_finite_values() {
    assert!(bounded_number("NaN", double(0.), double(96.)).is_none());
    assert!(bounded_number("inf", double(0.), double(96.)).is_none());
    assert_eq!(bounded_number("7", double(0.), double(96.)), Some(double(7.)));
    assert!(bounded_number("7", double(0.), double(f64::NAN)).is_none());
    assert!(bounded_number("7", double(-f64::NAN), double(96.)).is_none());
    assert_eq!(bounded_number("7", double(f64::NEG_INFINITY), double(f64::INFINITY)), Some(double(7.)));
    assert!(class_px("h-NaN", "h-").is_err());
    assert!(arbitrary_px("max-w-[NaNpx]", "max-w-[").is_err());
}

#[test]
fn decimals_are_rounded_to_the_nearest_double() {
    for text in [
        "0", "-0", "1", "+1", "0.1", "3.14159", "1e3", "1E-3", "5.", ".5", "123456789.123456789",
        "1e308", "1.7976931348623157e308", "4.9e-324", "2.4703282292062327e-324",
        "2.4703282292062328e-324", "2.2250738585072011e-308", "9007199254740993",
        "9007199254740993.0000000000000000000000001", "0.000000000000000000000000000000001e33",
        "96.000000000000007105427357601001858711242675781250",
        "96.000000000000007105427357601001858711242675781251", "1e-400", "0e999999999999999999999",
    ] {
        let expected = text.parse::<f64>().unwrap();
        assert_eq!(parse_double(text).map(|d| d.bits), Some(expected.to_bits()), "{text}");
    }
    for text in ["", "+", "-", ".", "e5", "1e", "1e+", "1x", "0x10", "1e309", "1e99999999999999999999", " 1"] {
        assert!(parse_double(text).is_none(), "{text}");
    }
}
