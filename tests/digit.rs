use sciutil::digit::{Digit, DigitSlice, Sign};
use sciutil::err::InvalidDigitError;

fn digit_vec(values: &[u8]) -> Vec<Digit> {
    values.iter().map(|&v| Digit::new(v).unwrap()).collect()
}

const DIGITS_102405: [Digit; 6] = [
    Digit::One,
    Digit::Zero,
    Digit::Two,
    Digit::Four,
    Digit::Zero,
    Digit::Five,
];

#[test]
fn check_macros() {
    assert_eq!(
        DigitSlice::new(&DIGITS_102405),
        DigitSlice::new(&[
            Digit::One,
            Digit::Zero,
            Digit::Two,
            Digit::Four,
            Digit::Zero,
            Digit::Five
        ]),
    );

    assert_eq!(
        digit_vec(&[1, 0, 2, 4, 0, 5]),
        [
            Digit::One,
            Digit::Zero,
            Digit::Two,
            Digit::Four,
            Digit::Zero,
            Digit::Five
        ]
        .to_vec(),
    );
}

#[test]
fn digit_slice_add() {
    let slice = DigitSlice::new(&DIGITS_102405);
    // Basic behavior.
    assert_eq!(slice.add(1), digit_vec(&[1, 0, 2, 4, 0, 6]));
    assert_eq!(slice.add(100_000), digit_vec(&[2, 0, 2, 4, 0, 5]));
    // The length of the digit slice grows as it needs to.
    assert_eq!(DigitSlice::new(&digit_vec(&[9])).add(1), digit_vec(&[1, 0]));
    // Will not grow if it does not need to.
    assert_eq!(DigitSlice::new(&digit_vec(&[0, 9])).add(1), digit_vec(&[1, 0]));
    // Will shrink to the minimum length.
    assert_eq!(DigitSlice::new(&digit_vec(&[0, 0, 9])).add(1), digit_vec(&[1, 0]));
}

#[test]
fn digit_slice_add_edges() {
    // Zero plus zero is one zero digit, also from an empty slice.
    assert_eq!(DigitSlice::new(&digit_vec(&[0, 0, 0])).add(0), digit_vec(&[0]));
    assert_eq!(DigitSlice::new(&[]).add(0), digit_vec(&[0]));
    assert_eq!(DigitSlice::new(&[]).add(407), digit_vec(&[4, 0, 7]));
    // The largest amount, carried through a long run of nines.
    assert_eq!(
        DigitSlice::new(&digit_vec(&[9, 9, 9, 9, 9, 9, 9, 9, 9, 9, 9, 9])).add(u32::MAX),
        digit_vec(&[1, 0, 0, 4, 2, 9, 4, 9, 6, 7, 2, 9, 4])
    );
    // Longer than any `u32`, without overflow.
    assert_eq!(
        DigitSlice::new(&digit_vec(&[1, 2, 3, 4, 5, 6, 7, 8, 9, 0, 1, 2, 3, 4, 5, 6, 7, 8, 9]))
            .add(11),
        digit_vec(&[1, 2, 3, 4, 5, 6, 7, 8, 9, 0, 1, 2, 3, 4, 5, 6, 8, 0, 0])
    );
}

#[test]
fn to_from_digit_slice() {
    assert_eq!(u32::from(DigitSlice::new(&DIGITS_102405)), 102_405);
}

#[test]
fn digit_slice_to_u32_wraps() {
    // 4294967296 is 2^32, which reduces to zero; one more reduces to one.
    assert_eq!(u32::from(DigitSlice::new(&digit_vec(&[4, 2, 9, 4, 9, 6, 7, 2, 9, 6]))), 0);
    assert_eq!(u32::from(&DigitSlice::new(&digit_vec(&[4, 2, 9, 4, 9, 6, 7, 2, 9, 7]))), 1);
    assert_eq!(u32::from(DigitSlice::new(&digit_vec(&[4, 2, 9, 4, 9, 6, 7, 2, 9, 5]))), u32::MAX);
}

#[test]
fn digit_slice_get_and_into_boxed() {
    let slice = &[Digit::One, Digit::Zero];
    assert_eq!(DigitSlice::new(slice).get(), slice);
    assert_eq!(DigitSlice::new(slice).into_boxed(), slice.to_vec());
}

#[test]
fn digit_conversion() {
    let digits = [
        Digit::Zero,
        Digit::One,
        Digit::Two,
        Digit::Three,
        Digit::Four,
        Digit::Five,
        Digit::Six,
        Digit::Seven,
        Digit::Eight,
        Digit::Nine,
    ];
    let chars = ['0', '1', '2', '3', '4', '5', '6', '7', '8', '9'];

    for (n, (&digit, &c)) in digits.iter().zip(chars.iter()).enumerate() {
        // Converts into characters correctly.
        assert_eq!(char::from(digit), c);
        // Converts into numbers correctly.
        assert_eq!(digit.get(), n as u8);
        assert_eq!(u8::from(digit), n as u8);
        assert_eq!(u32::from(digit), n as u32);
        // Digits convert from numeral characters and from 0--9 successfully.
        assert_eq!(Digit::try_from(c), Ok(digit));
        assert_eq!(Digit::try_from(n as u8), Ok(digit));
        assert_eq!(Digit::try_from(n as u32), Ok(digit));
    }

    // Any other character does not.
    assert_eq!(Digit::try_from('a'), Err(InvalidDigitError));
    assert_eq!(Digit::try_from('b'), Err(InvalidDigitError));
    assert_eq!(Digit::try_from('\0'), Err(InvalidDigitError));

    // Any other number does not.
    for n in [10u8, 11, 255] {
        assert_eq!(Digit::try_from(n), Err(InvalidDigitError));
        assert_eq!(Digit::try_from(n as u32), Err(InvalidDigitError));
    }
    assert_eq!(Digit::try_from(256u32), Err(InvalidDigitError));
    assert_eq!(Digit::try_from(u32::MAX), Err(InvalidDigitError));
}

#[test]
fn digit_new_bounds() {
    assert_eq!(Digit::new(Digit::MIN), Ok(Digit::Zero));
    assert_eq!(Digit::new(Digit::MAX), Ok(Digit::Nine));
    assert_eq!(Digit::new(10), Err(InvalidDigitError));
}

#[test]
fn sign_text() {
    assert_eq!(Sign::Positive.to_string(), "");
    assert_eq!(Sign::Negative.to_string(), "-");
    assert_eq!(Sign::default(), Sign::Positive);
}
