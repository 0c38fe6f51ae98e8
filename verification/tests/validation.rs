use number_notation::NotationError;
use number_notation::NumberNotation;
use number_notation::notation::strip_leading_zeros;

#[test]
fn detects_every_suffix_letter() {
    assert_eq!(
        NumberNotation::detect_notation('b'),
        Ok(NumberNotation::Binary)
    );
    assert_eq!(
        NumberNotation::detect_notation('B'),
        Ok(NumberNotation::Binary)
    );
    assert_eq!(
        NumberNotation::detect_notation('o'),
        Ok(NumberNotation::Octal)
    );
    assert_eq!(
        NumberNotation::detect_notation('O'),
        Ok(NumberNotation::Octal)
    );
    assert_eq!(
        NumberNotation::detect_notation('q'),
        Ok(NumberNotation::Octal)
    );
    assert_eq!(
        NumberNotation::detect_notation('Q'),
        Ok(NumberNotation::Octal)
    );
    assert_eq!(
        NumberNotation::detect_notation('d'),
        Ok(NumberNotation::Decimal)
    );
    assert_eq!(
        NumberNotation::detect_notation('D'),
        Ok(NumberNotation::Decimal)
    );
    assert_eq!(
        NumberNotation::detect_notation('h'),
        Ok(NumberNotation::Hexadecimal)
    );
    assert_eq!(
        NumberNotation::detect_notation('H'),
        Ok(NumberNotation::Hexadecimal)
    );
}

#[test]
fn trailing_digit_defaults_to_decimal() {
    for digit in ['0', '1', '5', '9'] {
        assert_eq!(
            NumberNotation::detect_notation(digit),
            Ok(NumberNotation::Decimal)
        );
    }
}

#[test]
fn unknown_trailing_letter_is_invalid_notation() {
    assert_eq!(
        NumberNotation::detect_notation('x'),
        Err(NotationError::InvalidNotation('x'))
    );
    assert_eq!(
        NumberNotation::detect_notation('z'),
        Err(NotationError::InvalidNotation('z'))
    );
    assert_eq!(
        NumberNotation::detect_notation(' '),
        Err(NotationError::InvalidNotation(' '))
    );
}

#[test]
fn leading_zeros_are_stripped_before_validation() {
    let decimal = NumberNotation::Decimal;
    assert_eq!(decimal.validate("007d"), Ok("7"));
    assert_eq!(decimal.validate("7d"), Ok("7"));
    assert_eq!(decimal.validate("042"), Ok("42"));
}

#[test]
fn all_zero_input_fails_with_zero() {
    assert_eq!(NumberNotation::Binary.validate("0b"), Err(NotationError::Zero));
    assert_eq!(
        NumberNotation::Decimal.validate("000d"),
        Err(NotationError::Zero)
    );
    assert_eq!(NumberNotation::Decimal.validate("0"), Err(NotationError::Zero));
    assert_eq!(
        NumberNotation::Hexadecimal.validate("00h"),
        Err(NotationError::Zero)
    );
}

#[test]
fn illegal_digit_fails_with_invalid_digit() {
    assert_eq!(
        NumberNotation::Binary.validate("29b"),
        Err(NotationError::InvalidDigit('2'))
    );
    assert_eq!(
        NumberNotation::Binary.validate("191b"),
        Err(NotationError::InvalidDigit('9'))
    );
    assert_eq!(
        NumberNotation::Octal.validate("18o"),
        Err(NotationError::InvalidDigit('8'))
    );
    assert_eq!(
        NumberNotation::Decimal.validate("12a3d"),
        Err(NotationError::InvalidDigit('a'))
    );
    assert_eq!(
        NumberNotation::Hexadecimal.validate("12g4h"),
        Err(NotationError::InvalidDigit('g'))
    );
}

#[test]
fn validate_keeps_case_and_suffix_free_digits() {
    assert_eq!(NumberNotation::Hexadecimal.validate("FFh"), Ok("FF"));
    assert_eq!(NumberNotation::Hexadecimal.validate("0aF3H"), Ok("aF3"));
    assert_eq!(NumberNotation::Binary.validate("1010b"), Ok("1010"));
    assert_eq!(NumberNotation::Decimal.validate("42"), Ok("42"));
}

#[test]
fn strip_leading_zeros_removes_only_leading_zeros() {
    assert_eq!(strip_leading_zeros("000101"), "101");
    assert_eq!(strip_leading_zeros("101"), "101");
    assert_eq!(strip_leading_zeros("0000"), "");
    assert_eq!(strip_leading_zeros(""), "");
    assert_eq!(strip_leading_zeros("100"), "100");
}
