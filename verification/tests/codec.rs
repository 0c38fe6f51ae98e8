use number_notation::NotationError;
use number_notation::NumberNotation;
use number_notation::digits::binary_str_to_char;
use number_notation::digits::char_to_binary_str;
use number_notation::digits::char_to_number;
use number_notation::digits::number_to_char;

#[test]
fn digit_legality_follows_the_system() {
    assert_eq!(char_to_number('1', NumberNotation::Binary), Ok(1));
    assert_eq!(
        char_to_number('2', NumberNotation::Binary),
        Err(NotationError::InvalidDigit('2'))
    );
    assert_eq!(char_to_number('7', NumberNotation::Octal), Ok(7));
    assert_eq!(
        char_to_number('8', NumberNotation::Octal),
        Err(NotationError::InvalidDigit('8'))
    );
    assert_eq!(char_to_number('9', NumberNotation::Decimal), Ok(9));
    assert_eq!(
        char_to_number('a', NumberNotation::Decimal),
        Err(NotationError::InvalidDigit('a'))
    );
    assert_eq!(char_to_number('a', NumberNotation::Hexadecimal), Ok(10));
    assert_eq!(char_to_number('F', NumberNotation::Hexadecimal), Ok(15));
    assert_eq!(
        char_to_number('g', NumberNotation::Hexadecimal),
        Err(NotationError::InvalidDigit('g'))
    );
}

#[test]
fn number_to_char_spells_lower_case_digits() {
    assert_eq!(number_to_char(0), "0");
    assert_eq!(number_to_char(9), "9");
    assert_eq!(number_to_char(10), "a");
    assert_eq!(number_to_char(15), "f");
}

#[test]
fn octal_digits_expand_to_three_bits() {
    assert_eq!(char_to_binary_str('0', NumberNotation::Octal), "000");
    assert_eq!(char_to_binary_str('5', NumberNotation::Octal), "101");
    assert_eq!(char_to_binary_str('7', NumberNotation::Octal), "111");
}

#[test]
fn hexadecimal_digits_expand_to_four_bits() {
    assert_eq!(char_to_binary_str('0', NumberNotation::Hexadecimal), "0000");
    assert_eq!(char_to_binary_str('9', NumberNotation::Hexadecimal), "1001");
    assert_eq!(char_to_binary_str('a', NumberNotation::Hexadecimal), "1010");
    assert_eq!(char_to_binary_str('A', NumberNotation::Hexadecimal), "1010");
    assert_eq!(char_to_binary_str('f', NumberNotation::Hexadecimal), "1111");
}

#[test]
fn bit_groups_of_any_width_decode_to_digits() {
    assert_eq!(binary_str_to_char("0"), '0');
    assert_eq!(binary_str_to_char("1"), '1');
    assert_eq!(binary_str_to_char("10"), '2');
    assert_eq!(binary_str_to_char("11"), '3');
    assert_eq!(binary_str_to_char("101"), '5');
    assert_eq!(binary_str_to_char("111"), '7');
    assert_eq!(binary_str_to_char("1000"), '8');
    assert_eq!(binary_str_to_char("1111"), 'f');
    assert_eq!(binary_str_to_char("0011"), '3');
}

#[test]
fn system_rank_helpers_mirror_the_variants() {
    assert!(!NumberNotation::Binary.above_binary());
    assert!(NumberNotation::Octal.above_binary());
    assert!(!NumberNotation::Octal.above_octal());
    assert!(NumberNotation::Decimal.above_octal());
    assert!(!NumberNotation::Decimal.above_decimal());
    assert!(NumberNotation::Hexadecimal.above_decimal());
}
