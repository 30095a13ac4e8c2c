use sciutil::digit::{Digit, Sign};
use sciutil::digits::{Digits, Place};
use sciutil::err::{InvalidDigitsPartsError, InvalidFloatError, OutOfBoundsPlaceError};

fn digit_vec(values: &[u8]) -> Vec<Digit> {
    values.iter().map(|&v| Digit::new(v).unwrap()).collect()
}

fn digits(sign: Sign, dot: usize, values: &[u8]) -> Digits {
    Digits::from_parts_unchecked(sign, dot, digit_vec(values))
}

fn parse(value: f64) -> Digits {
    Digits::new(&value.to_string()).unwrap()
}

fn place(value: isize) -> Place {
    Place::new(value).unwrap()
}

#[test]
fn to_digits() {
    let digits_1024 = digits(Sign::Positive, 4, &[1, 0, 2, 4]);
    let digits_102405 = digits(Sign::Positive, 4, &[1, 0, 2, 4, 0, 5]);
    let digits_zero = digits(Sign::Positive, 1, &[0]);
    let digits_neg_zero = digits(Sign::Negative, 1, &[0]);
    let digits_point_one_three = digits(Sign::Positive, 1, &[0, 0, 3]);

    assert_eq!(parse(1024.0).to_string(), "1024");
    assert_eq!(parse(1024.0), digits_1024);
    assert_eq!(parse(1024.05), digits_102405);
    assert_eq!(parse(0.0), digits_zero);
    assert_eq!(parse(-0.0), digits_neg_zero);
    assert_eq!(parse(0.03), digits_point_one_three);
}

#[test]
fn digits_to_string() {
    let tests = [
        (digits(Sign::Positive, 4, &[1, 0, 2, 4, 0, 5]), "1024.05"),
        (digits(Sign::Positive, 4, &[1, 0, 2, 4]), "1024"),
        (digits(Sign::Positive, 1, &[0]), "0"),
        (digits(Sign::Negative, 1, &[0]), "-0"),
        (digits(Sign::Positive, 1, &[0, 0, 3]), "0.03"),
    ];

    for (digits, expected) in tests {
        assert_eq!(digits.to_string(), expected);
    }
}

#[test]
fn digits_to_string_dot_first() {
    assert_eq!(digits(Sign::Positive, 0, &[0]).to_string(), "0");
    assert_eq!(digits(Sign::Negative, 0, &[0]).to_string(), "-0");
    assert_eq!(digits(Sign::Positive, 0, &[5]).to_string(), "0.5");
    assert_eq!(digits(Sign::Negative, 0, &[0, 7]).to_string(), "-0.07");
    assert_eq!(Digits::default().to_string(), "0");
    assert_eq!(
        digits(Sign::Negative, 3, &[1, 0, 5, 2, 0, 6, 0]).to_string(),
        "-105.2060"
    );
}

#[test]
fn digits_to_string_with_units() {
    assert_eq!(parse(1024.05).to_string_with_units("s"), "1024.05 s");
    assert_eq!(parse(-3.0).to_string_with_units("m"), "-3 m");
}

#[test]
fn parse_round_trip() {
    for value in [
        1024.05,
        -105.206,
        0.03,
        0.015_555_312,
        1_024.051_123_125_5,
        1e21,
        -1e-7,
        5e-324,
        f64::MAX,
        123_456_789.0,
    ] {
        let text = value.to_string();
        assert_eq!(Digits::new(&text).unwrap().to_string(), text);
    }
}

#[test]
fn parse_rejects_non_finite() {
    assert_eq!(Digits::new(&f64::NAN.to_string()), Err(InvalidFloatError::Nan));
    assert_eq!(Digits::new(&(-f64::NAN).to_string()), Err(InvalidFloatError::Nan));
    assert_eq!(Digits::new(&f64::INFINITY.to_string()), Err(InvalidFloatError::Infinite));
    assert_eq!(
        Digits::new(&f64::NEG_INFINITY.to_string()),
        Err(InvalidFloatError::Infinite)
    );
    assert_eq!(Digits::new("NaN"), Err(InvalidFloatError::Nan));
    assert_eq!(Digits::new("-inf"), Err(InvalidFloatError::Infinite));
}

#[test]
fn parse_rejects_malformed() {
    for text in ["", "-", "1.", ".5", "-.5", "1.2.3", "abc", "1e5", "+1", "1-", "--1", "Inf"] {
        assert_eq!(Digits::new(text), Err(InvalidFloatError::Malformed), "{text}");
    }
}

#[test]
fn from_parts() {
    let zero = Digits::from_parts(Sign::Positive, 1, digit_vec(&[0])).unwrap();
    assert_eq!(zero.to_string(), "0");

    // `dot` cannot be more than one away from the last index.
    assert_eq!(
        Digits::from_parts(Sign::Positive, 2, digit_vec(&[0])),
        Err(InvalidDigitsPartsError::OutOfBoundsDot)
    );
    assert_eq!(
        Digits::from_parts(Sign::Positive, 0, Vec::new()),
        Err(InvalidDigitsPartsError::EmptyDigitsList)
    );
    assert_eq!(
        Digits::from_parts(Sign::Positive, 3, Vec::new()),
        Err(InvalidDigitsPartsError::EmptyDigitsList)
    );

    let digits_102405 =
        Digits::from_parts(Sign::Negative, 4, digit_vec(&[1, 0, 2, 4, 0, 5])).unwrap();
    assert_eq!(digits_102405.to_string(), "-1024.05");
}

#[test]
fn to_split() {
    let (sign, lhs, rhs) = parse(1024.05).to_split();

    assert_eq!(sign, Sign::Positive);
    assert_eq!(lhs, digit_vec(&[1, 0, 2, 4]));
    assert_eq!(rhs, digit_vec(&[0, 5]));

    let (sign, lhs, rhs) = parse(-7.0).to_split();
    assert_eq!(sign, Sign::Negative);
    assert_eq!(lhs, digit_vec(&[7]));
    assert_eq!(rhs, Vec::new());
}

#[test]
fn is_one() {
    assert!(parse(1.0).is_one());
    assert!(digits(Sign::Negative, 1, &[1]).is_one());
    assert!(!parse(10.0).is_one());
    assert!(!parse(0.1).is_one());
    assert!(!digits(Sign::Positive, 0, &[1]).is_one());
}

#[test]
fn last_sigificant_digit() {
    let digits_1024 = digits(Sign::Positive, 4, &[1, 0, 2, 4, 0, 5]);
    let digits_001 = digits(Sign::Positive, 1, &[0, 0, 1, 5, 5, 5, 5, 3, 1, 2]);

    assert_eq!(digits_001.last_significant_digit(), 3);
    assert_eq!(digits_1024.last_significant_digit(), 1);
}

#[test]
fn significant_figure_rule() {
    // A leading one or two keeps the digit after it.
    assert_eq!(parse(0.0153).last_significant_digit(), 3);
    assert_eq!(parse(0.0253).last_significant_digit(), 3);
    assert_eq!(parse(21.0).last_significant_digit(), 1);
    // Three to nine keeps only that digit.
    assert_eq!(parse(0.0353).last_significant_digit(), 2);
    assert_eq!(parse(0.0953).last_significant_digit(), 2);
    assert_eq!(parse(42.0).last_significant_digit(), 0);
    // A leading one or two with nothing after it keeps itself.
    assert_eq!(parse(0.2).last_significant_digit(), 1);
    assert_eq!(parse(1.0).last_significant_digit(), 0);
    // All zeros give index zero.
    assert_eq!(parse(0.0).last_significant_digit(), 0);
    assert_eq!(digits(Sign::Positive, 1, &[0, 0, 0]).last_significant_digit(), 0);
}

#[test]
fn last_significant_place() {
    assert_eq!(parse(1024.05).last_significant_place().get(), -3);
    assert_eq!(parse(42.0).last_significant_place().get(), -2);
    assert_eq!(parse(0.015_555_312).last_significant_place().get(), 3);
    assert_eq!(parse(0.3).last_significant_place().get(), 1);
}

#[test]
fn round_to() {
    let digits_102405 = digits(Sign::Positive, 4, &[1, 0, 2, 4, 0, 5]);
    let digits_00155 = digits(Sign::Positive, 1, &[0, 0, 1, 5, 5, 5, 5, 3, 1, 2]);
    let digits_00006 = digits(Sign::Positive, 1, &[0, 0, 0, 0, 6]);
    let digits_06 = digits(Sign::Positive, 1, &[0, 6]);

    // 0.015555312 -> 0.016
    assert_eq!(
        digits_00155.round_to_digit(3),
        digits(Sign::Positive, 1, &[0, 0, 1, 6])
    );
    // 0.015555312 -> 0.0
    assert_eq!(
        digits_00155.round_to_digit(1),
        digits(Sign::Positive, 1, &[0, 0])
    );
    // 0.0006 -> 0.0
    assert_eq!(
        digits_00006.round_to_digit(1),
        digits(Sign::Positive, 1, &[0, 0])
    );
    // 0.0006 -> 0.001
    assert_eq!(
        digits_00006.round_to_digit(3),
        digits(Sign::Positive, 1, &[0, 0, 0, 1])
    );
    // 1024.05 -> 1000
    assert_eq!(
        digits_102405.round_to_digit(1),
        digits(Sign::Positive, 4, &[1, 0, 0, 0])
    );
    // 1024.05 -> 1024.0
    assert_eq!(
        digits_102405.round_to_digit(4),
        digits(Sign::Positive, 4, &[1, 0, 2, 4, 0])
    );
    // 1024.05 -> 1024
    assert_eq!(
        digits_102405.round_to_digit(3),
        digits(Sign::Positive, 4, &[1, 0, 2, 4])
    );
    // 0.6 -> 1
    assert_eq!(digits_06.round_to_digit(0), digits(Sign::Positive, 1, &[1]));
    // 0.6 -> 0.6
    assert_eq!(digits_06.round_to_digit(1), digits_06);
}

#[test]
fn round_to_digit_text() {
    assert_eq!(parse(0.015_555_312).round_to_digit(3).to_string(), "0.016");
    assert_eq!(parse(0.015_555_312).round_to_digit(1).to_string(), "0.0");
    assert_eq!(parse(1024.05).round_to_digit(1).to_string(), "1000");
    assert_eq!(parse(1024.05).round_to_digit(4).to_string(), "1024.0");
    assert_eq!(parse(102_345.0).round_to_digit(2).to_string(), "102000");
    assert_eq!(parse(-2.71).round_to_digit(1).to_string(), "-2.7");
    // An index past the end leaves the number alone.
    assert_eq!(parse(1024.05).round_to_digit(6), parse(1024.05));
    assert_eq!(parse(1024.05).round_to_digit(usize::MAX), parse(1024.05));
}

#[test]
fn round_half_to_even() {
    // The digit after the kept one is exactly five: go to the even neighbour.
    assert_eq!(parse(0.25).round_to_digit(1).to_string(), "0.2");
    assert_eq!(parse(0.35).round_to_digit(1).to_string(), "0.4");
    assert_eq!(parse(0.45).round_to_digit(1).to_string(), "0.4");
    assert_eq!(parse(0.95).round_to_digit(1).to_string(), "1.0");
    assert_eq!(parse(9.5).round_to_digit(0).to_string(), "10");
    assert_eq!(parse(8.5).round_to_digit(0).to_string(), "8");
    // Only the digit right after the kept one decides.
    assert_eq!(parse(0.251).round_to_digit(1).to_string(), "0.2");
    assert_eq!(parse(0.26).round_to_digit(1).to_string(), "0.3");
}

#[test]
fn round_carry_adds_leading_digit() {
    // `999` rounded to its tens digit, the next digit being nine.
    let rounded = parse(999.0).round_to_digit(1);
    assert_eq!(rounded, digits(Sign::Positive, 4, &[1, 0, 0, 0]));
    assert_eq!(rounded.to_string(), "1000");
    assert_eq!(parse(999.5).round_to_digit(2).to_string(), "1000");
    assert_eq!(parse(9.96).round_to_digit(1).to_string(), "10.0");
    assert_eq!(parse(-0.996).round_to_digit(2).to_string(), "-1.00");
}

#[test]
fn round_to_digit_twice() {
    let once = parse(0.015_555_312).round_to_digit(3);
    assert_eq!(once.round_to_digit(3), once);
    let once = parse(1024.05).round_to_digit(1);
    assert_eq!(once.round_to_digit(1), once);
    let once = parse(999.0).round_to_digit(1);
    assert_eq!(once.round_to_digit(1), once);
    // The carry moved the dot: the second rounding drops a zero after it, the number stays.
    let once = parse(9.96).round_to_digit(1);
    assert_eq!(once.to_string(), "10.0");
    assert_eq!(once.round_to_digit(1).to_string(), "10");
}

#[test]
fn round_to_place() {
    assert_eq!(parse(0.015_555_312).round_to_place(place(3)).to_string(), "0.016");
    assert_eq!(parse(0.015_555_312).round_to_place(place(1)).to_string(), "0.0");
    assert_eq!(parse(1024.05).round_to_place(place(-3)).to_string(), "1000");
    assert_eq!(parse(1024.05).round_to_place(place(1)).to_string(), "1024.0");
    assert_eq!(parse(1024.05).round_to_place(place(-1)).to_string(), "1024");
}

#[test]
fn round_to_place_outside_the_digits() {
    // One place left of the first digit: a first digit above five carries.
    assert_eq!(parse(6024.0).round_to_place(place(-5)).to_string(), "10000");
    assert_eq!(parse(-6024.0).round_to_place(place(-5)).to_string(), "-10000");
    assert_eq!(parse(5024.0).round_to_place(place(-5)), Digits::default());
    // Further left nothing survives.
    assert_eq!(parse(6024.0).round_to_place(place(-6)), Digits::default());
    assert_eq!(parse(-9.0).round_to_place(place(-3)).to_string(), "0");
    // At or past the last digit the number is unchanged.
    assert_eq!(parse(1024.05).round_to_place(place(2)), parse(1024.05));
    assert_eq!(parse(1024.05).round_to_place(place(40)), parse(1024.05));
}

#[test]
fn digit_index_to_place() {
    assert_eq!(parse(0.015_555_312).digit_index_to_place(3), place(3));
    assert_eq!(parse(0.015_555_312).digit_index_to_place(1), place(1));
    assert_eq!(parse(1024.05).digit_index_to_place(1), place(-3));
    assert_eq!(parse(1024.05).digit_index_to_place(4), place(1));
    assert_eq!(parse(1024.05).digit_index_to_place(7), place(4));
}

#[test]
fn place_to_digit_index() {
    assert_eq!(parse(0.015_555_312).place_to_digit_index(place(3)), Ok(3));
    assert_eq!(parse(0.015_555_312).place_to_digit_index(place(1)), Ok(1));
    assert_eq!(parse(1024.05).place_to_digit_index(place(-3)), Ok(1));
    assert_eq!(parse(1024.05).place_to_digit_index(place(1)), Ok(4));
    assert_eq!(
        parse(1024.05).place_to_digit_index(place(4)),
        Err(OutOfBoundsPlaceError)
    );
    assert_eq!(
        parse(1024.05).place_to_digit_index(place(-6)),
        Err(OutOfBoundsPlaceError)
    );
}

#[test]
fn place_index_round_trip() {
    for value in [1024.05, 0.015_555_312, -7.0, 120.5] {
        let d = parse(value);
        let len = d.to_split().1.len() + d.to_split().2.len();
        for i in 0..len {
            assert_eq!(d.place_to_digit_index(d.digit_index_to_place(i)), Ok(i));
        }
    }
}

#[test]
fn place_new() {
    assert_eq!(Place::new(0), None);
    assert_eq!(Place::new(-2).unwrap().get(), -2);
    assert_eq!(Place::new(isize::MAX).unwrap().get(), isize::MAX);
}

#[test]
fn uncertain_digits() {
    let pair = sciutil::digits::UncertainDigits::new(parse(1024.05), parse(0.016));
    assert_eq!(pair.value(), &parse(1024.05));
    assert_eq!(pair.uncertainty().to_string(), "0.016");
}

#[test]
fn digit_count() {
    assert_eq!(parse(1024.05).digit_count(), 6);
    assert_eq!(parse(-0.0).digit_count(), 1);
    assert_eq!(parse(999.0).round_to_digit(1).digit_count(), 4);
}
