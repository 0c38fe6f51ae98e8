use number_notation::NotationError;
use number_notation::NumberNotation;
use number_notation::convert::convert_all;

#[test]
fn scenario_binary_input() {
    let notation = NumberNotation::Binary;
    let digits = notation.validate("1010b").unwrap();
    assert_eq!(notation.to_binary(digits).unwrap(), "1010");
    assert_eq!(notation.to_octal(digits).unwrap(), "12");
    assert_eq!(notation.to_decimal(digits).unwrap(), "10");
    assert_eq!(notation.to_hexadecimal(digits).unwrap(), "a");
}

#[test]
fn scenario_octal_input() {
    let notation = NumberNotation::Octal;
    let digits = notation.validate("17o").unwrap();
    assert_eq!(notation.to_binary(digits).unwrap(), "1111");
    assert_eq!(notation.to_octal(digits).unwrap(), "17");
    assert_eq!(notation.to_decimal(digits).unwrap(), "15");
    assert_eq!(notation.to_hexadecimal(digits).unwrap(), "f");
}

#[test]
fn scenario_decimal_input() {
    let notation = NumberNotation::Decimal;
    let digits = notation.validate("255d").unwrap();
    assert_eq!(notation.to_binary(digits).unwrap(), "11111111");
    assert_eq!(notation.to_octal(digits).unwrap(), "377");
    assert_eq!(notation.to_decimal(digits).unwrap(), "255");
    assert_eq!(notation.to_hexadecimal(digits).unwrap(), "ff");
}

#[test]
fn scenario_hexadecimal_input() {
    let notation = NumberNotation::Hexadecimal;
    let digits = notation.validate("ffh").unwrap();
    assert_eq!(notation.to_binary(digits).unwrap(), "11111111");
    assert_eq!(notation.to_octal(digits).unwrap(), "377");
    assert_eq!(notation.to_decimal(digits).unwrap(), "255");
    assert_eq!(notation.to_hexadecimal(digits).unwrap(), "ff");
}

#[test]
fn scenario_suffix_free_decimal_input() {
    let conversions = convert_all("42").unwrap();
    assert_eq!(conversions.binary, "101010");
    assert_eq!(conversions.octal, "52");
    assert_eq!(conversions.decimal, "42");
    assert_eq!(conversions.hexadecimal, "2a");
}

#[test]
fn convert_all_runs_the_whole_pipeline() {
    let conversions = convert_all("1010b").unwrap();
    assert_eq!(conversions.binary, "1010");
    assert_eq!(conversions.octal, "12");
    assert_eq!(conversions.decimal, "10");
    assert_eq!(conversions.hexadecimal, "a");

    assert_eq!(convert_all("42x"), Err(NotationError::InvalidNotation('x')));
    assert_eq!(convert_all("000d"), Err(NotationError::Zero));
    assert_eq!(convert_all("29b"), Err(NotationError::InvalidDigit('2')));
}

#[test]
fn convert_all_handles_every_notation_and_edge() {
    let from_octal = convert_all("17q").unwrap();
    assert_eq!(from_octal.binary, "1111");
    assert_eq!(from_octal.hexadecimal, "f");

    let from_hex = convert_all("FFh").unwrap();
    assert_eq!(from_hex.binary, "11111111");
    assert_eq!(from_hex.octal, "377");
    assert_eq!(from_hex.decimal, "255");
    assert_eq!(from_hex.hexadecimal, "FF");

    let single_digit = convert_all("5").unwrap();
    assert_eq!(single_digit.binary, "101");
    assert_eq!(single_digit.octal, "5");
    assert_eq!(single_digit.decimal, "5");
    assert_eq!(single_digit.hexadecimal, "5");

    assert_eq!(convert_all("b"), Err(NotationError::Zero));
    assert_eq!(convert_all("00o"), Err(NotationError::Zero));
}

#[test]
fn identity_conversion_passes_the_string_through() {
    let binary = NumberNotation::Binary;
    assert_eq!(binary.to_binary("110").unwrap(), "110");
    let octal = NumberNotation::Octal;
    assert_eq!(octal.to_octal("755").unwrap(), "755");
    let decimal = NumberNotation::Decimal;
    assert_eq!(decimal.to_decimal("906").unwrap(), "906");
    let hexadecimal = NumberNotation::Hexadecimal;
    assert_eq!(hexadecimal.to_hexadecimal("deadbeef").unwrap(), "deadbeef");
    assert_eq!(hexadecimal.to_hexadecimal("DEADBEEF").unwrap(), "DEADBEEF");
}

#[test]
fn round_trips_return_the_original_string() {
    let binary = NumberNotation::Binary;
    let octal = NumberNotation::Octal;
    let decimal = NumberNotation::Decimal;
    let hexadecimal = NumberNotation::Hexadecimal;

    let b = "10011101";
    assert_eq!(octal.to_binary(&binary.to_octal(b).unwrap()), Ok(b.to_string()));
    assert_eq!(decimal.to_binary(&binary.to_decimal(b).unwrap()), Ok(b.to_string()));
    assert_eq!(
        hexadecimal.to_binary(&binary.to_hexadecimal(b).unwrap()),
        Ok(b.to_string())
    );

    let o = "7641";
    assert_eq!(binary.to_octal(&octal.to_binary(o).unwrap()), Ok(o.to_string()));
    assert_eq!(
        hexadecimal.to_octal(&octal.to_hexadecimal(o).unwrap()),
        Ok(o.to_string())
    );
    assert_eq!(decimal.to_octal(&octal.to_decimal(o).unwrap()), Ok(o.to_string()));

    let d = "65535";
    assert_eq!(
        hexadecimal.to_decimal(&decimal.to_hexadecimal(d).unwrap()),
        Ok(d.to_string())
    );
    assert_eq!(binary.to_decimal(&decimal.to_binary(d).unwrap()), Ok(d.to_string()));

    let h = "c0ffee";
    assert_eq!(octal.to_hexadecimal(&hexadecimal.to_octal(h).unwrap()), Ok(h.to_string()));
    assert_eq!(
        decimal.to_hexadecimal(&hexadecimal.to_decimal(h).unwrap()),
        Ok(h.to_string())
    );
}

#[test]
fn uppercase_hexadecimal_converts_like_lowercase() {
    let hexadecimal = NumberNotation::Hexadecimal;
    assert_eq!(hexadecimal.to_decimal("FF").unwrap(), "255");
    assert_eq!(hexadecimal.to_binary("aB").unwrap(), "10101011");
    assert_eq!(hexadecimal.to_octal("FF").unwrap(), "377");
}

#[test]
fn largest_magnitude_converts_in_every_system() {
    let decimal = NumberNotation::Decimal;
    let ceiling = "18446744073709551615";
    assert_eq!(
        decimal.to_hexadecimal(ceiling).unwrap(),
        "ffffffffffffffff"
    );
    assert_eq!(decimal.to_octal(ceiling).unwrap(), "1777777777777777777777");
    let hexadecimal = NumberNotation::Hexadecimal;
    assert_eq!(
        hexadecimal.to_decimal("ffffffffffffffff").unwrap(),
        ceiling
    );
}

#[test]
fn magnitude_beyond_the_ceiling_overflows() {
    let decimal = NumberNotation::Decimal;
    let beyond = "18446744073709551616";
    assert_eq!(decimal.to_binary(beyond), Err(NotationError::Overflow));
    assert_eq!(decimal.to_octal(beyond), Err(NotationError::Overflow));
    assert_eq!(decimal.to_hexadecimal(beyond), Err(NotationError::Overflow));
    assert_eq!(decimal.to_decimal(beyond), Ok(beyond.to_string()));

    let sixty_five_ones = "1".repeat(65);
    let binary = NumberNotation::Binary;
    assert_eq!(
        binary.to_decimal(&sixty_five_ones),
        Err(NotationError::Overflow)
    );
    assert_eq!(
        binary.to_hexadecimal(&sixty_five_ones).unwrap(),
        "1ffffffffffffffff"
    );
    assert_eq!(convert_all("18446744073709551616"), Err(NotationError::Overflow));
}

#[test]
fn single_digit_conversions() {
    let decimal = NumberNotation::Decimal;
    assert_eq!(decimal.to_binary("1").unwrap(), "1");
    assert_eq!(decimal.to_hexadecimal("15").unwrap(), "f");
    let binary = NumberNotation::Binary;
    assert_eq!(binary.to_octal("1").unwrap(), "1");
    assert_eq!(binary.to_hexadecimal("1").unwrap(), "1");
}

#[test]
fn short_first_group_is_decoded_correctly() {
    let binary = NumberNotation::Binary;
    assert_eq!(binary.to_octal("1111").unwrap(), "17");
    assert_eq!(binary.to_octal("11111").unwrap(), "37");
    assert_eq!(binary.to_hexadecimal("11111").unwrap(), "1f");
    assert_eq!(binary.to_hexadecimal("111111").unwrap(), "3f");
    assert_eq!(binary.to_hexadecimal("1111111").unwrap(), "7f");
}

#[test]
fn octal_and_hexadecimal_route_through_binary() {
    let octal = NumberNotation::Octal;
    assert_eq!(octal.to_hexadecimal("17").unwrap(), "f");
    assert_eq!(octal.to_binary("17").unwrap(), "1111");
    let hexadecimal = NumberNotation::Hexadecimal;
    assert_eq!(hexadecimal.to_octal("f").unwrap(), "17");
    assert_eq!(hexadecimal.to_binary("f").unwrap(), "1111");
}
