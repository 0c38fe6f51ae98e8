//! The digit codec: single digit characters to and from numeric values, and
//! octal or hexadecimal digits to and from their fixed-width bit groups.

use vstd::prelude::*;

verus! {

use crate::NotationError;
use crate::NumberNotation;
use crate::model::base_of;
use crate::model::digit_char;
use crate::model::digit_val;
use crate::model::digits_value;
use crate::model::group_width;
use crate::model::lemma_pow2_small;
use crate::model::lemma_value_bound;
use crate::model::spec_pow;
use crate::model::wf_digits;
use vstd::string::StrSliceExecFns;

/// A length-three digit string reads as a three-place positional sum.
proof fn lemma_value3(s: Seq<char>)
    requires
        s.len() == 3,
    ensures
        digits_value(s, 2) == (digit_val(s[0]) * 2 + digit_val(s[1])) * 2 + digit_val(s[2]),
{
    let p1 = s.drop_last();
    let p0 = p1.drop_last();
    assert(p0.drop_last() =~= Seq::<char>::empty());
    assert(p0.last() == s[0]);
    assert(p1.last() == s[1]);
    assert(s.last() == s[2]);
    assert(digits_value(Seq::<char>::empty(), 2) == 0);
    assert(digits_value(p0, 2) == digit_val(s[0]));
    assert(digits_value(p1, 2) == digit_val(s[0]) * 2 + digit_val(s[1]));
}

/// A length-four digit string reads as a four-place positional sum.
proof fn lemma_value4(s: Seq<char>)
    requires
        s.len() == 4,
    ensures
        digits_value(s, 2) == ((digit_val(s[0]) * 2 + digit_val(s[1])) * 2 + digit_val(s[2])) * 2
            + digit_val(s[3]),
{
    let p = s.drop_last();
    lemma_value3(p);
    assert(p[0] == s[0] && p[1] == s[1] && p[2] == s[2]);
    assert(s.last() == s[3]);
}

/// Three binary characters form a well-formed base-two digit string.
proof fn lemma_wf3(s: Seq<char>)
    requires
        s.len() == 3,
        digit_val(s[0]) < 2,
        digit_val(s[1]) < 2,
        digit_val(s[2]) < 2,
    ensures
        wf_digits(s, 2),
{
    assert forall|i: int| 0 <= i < s.len() implies #[trigger] digit_val(s[i]) < 2 by {
        if i == 0 {
        } else if i == 1 {
        } else {
            assert(i == 2);
        }
    }
}

/// Four binary characters form a well-formed base-two digit string.
proof fn lemma_wf4(s: Seq<char>)
    requires
        s.len() == 4,
        digit_val(s[0]) < 2,
        digit_val(s[1]) < 2,
        digit_val(s[2]) < 2,
        digit_val(s[3]) < 2,
    ensures
        wf_digits(s, 2),
{
    assert forall|i: int| 0 <= i < s.len() implies #[trigger] digit_val(s[i]) < 2 by {
        if i == 0 {
        } else if i == 1 {
        } else if i == 2 {
        } else {
            assert(i == 3);
        }
    }
}

/// Decodes a digit character, accepting it only when it is legal for the
/// given system; an illegal character is reported as `InvalidDigit`.
pub fn char_to_number(input: char, notation: NumberNotation) -> (r: Result<u32, NotationError>)
    ensures
        digit_val(input) < base_of(notation) ==> r == Ok::<u32, NotationError>(
            digit_val(input) as u32,
        ),
        digit_val(input) >= base_of(notation) ==> r == Err::<u32, NotationError>(
            NotationError::InvalidDigit(input),
        ),
{
    let over_binary = notation.above_binary();
    let over_octal = notation.above_octal();
    let over_decimal = notation.above_decimal();
    match input {
        '0' => Ok(0),
        '1' => Ok(1),
        '2' if over_binary => Ok(2),
        '3' if over_binary => Ok(3),
        '4' if over_binary => Ok(4),
        '5' if over_binary => Ok(5),
        '6' if over_binary => Ok(6),
        '7' if over_binary => Ok(7),
        '8' if over_octal => Ok(8),
        '9' if over_octal => Ok(9),
        'a' if over_decimal => Ok(10),
        'A' if over_decimal => Ok(10),
        'b' if over_decimal => Ok(11),
        'B' if over_decimal => Ok(11),
        'c' if over_decimal => Ok(12),
        'C' if over_decimal => Ok(12),
        'd' if over_decimal => Ok(13),
        'D' if over_decimal => Ok(13),
        'e' if over_decimal => Ok(14),
        'E' if over_decimal => Ok(14),
        'f' if over_decimal => Ok(15),
        'F' if over_decimal => Ok(15),
        _ => Err(NotationError::InvalidDigit(input)),
    }
}

/// Spells a value below sixteen as its canonical lower-case digit character.
pub fn number_to_char(input: u64) -> (r: &'static str)
    requires
        input < 16,
    ensures
        r@.len() == 1,
        r@[0] == digit_char(input as nat),
{
    match input {
        0 => {
            proof {
                reveal_strlit("0");
            }
            "0"
        },
        1 => {
            proof {
                reveal_strlit("1");
            }
            "1"
        },
        2 => {
            proof {
                reveal_strlit("2");
            }
            "2"
        },
        3 => {
            proof {
                reveal_strlit("3");
            }
            "3"
        },
        4 => {
            proof {
                reveal_strlit("4");
            }
            "4"
        },
        5 => {
            proof {
                reveal_strlit("5");
            }
            "5"
        },
        6 => {
            proof {
                reveal_strlit("6");
            }
            "6"
        },
        7 => {
            proof {
                reveal_strlit("7");
            }
            "7"
        },
        8 => {
            proof {
                reveal_strlit("8");
            }
            "8"
        },
        9 => {
            proof {
                reveal_strlit("9");
            }
            "9"
        },
        10 => {
            proof {
                reveal_strlit("a");
            }
            "a"
        },
        11 => {
            proof {
                reveal_strlit("b");
            }
            "b"
        },
        12 => {
            proof {
                reveal_strlit("c");
            }
            "c"
        },
        13 => {
            proof {
                reveal_strlit("d");
            }
            "d"
        },
        14 => {
            proof {
                reveal_strlit("e");
            }
            "e"
        },
        _ => {
            proof {
                reveal_strlit("f");
            }
            "f"
        },
    }
}

/// Expands an octal digit to its three bits or a hexadecimal digit to its
/// four bits, zero-padded to the full group width.
pub fn char_to_binary_str(input: char, notation: NumberNotation) -> (r: &'static str)
    requires
        notation == NumberNotation::Octal || notation == NumberNotation::Hexadecimal,
        digit_val(input) < base_of(notation),
    ensures
        r@.len() == group_width(notation),
        wf_digits(r@, 2),
        digits_value(r@, 2) == digit_val(input),
{
    let oct = match notation {
        NumberNotation::Octal => true,
        _ => false,
    };
    match input {
        '0' => {
            if oct {
                proof {
                    reveal_strlit("000");
                    assert("000"@ =~= seq!['0', '0', '0']);
                    lemma_value3("000"@);
                    lemma_wf3("000"@);
                }
                "000"
            } else {
                proof {
                    reveal_strlit("0000");
                    assert("0000"@ =~= seq!['0', '0', '0', '0']);
                    lemma_value4("0000"@);
                    lemma_wf4("0000"@);
                }
                "0000"
            }
        },
        '1' => {
            if oct {
                proof {
                    reveal_strlit("001");
                    assert("001"@ =~= seq!['0', '0', '1']);
                    lemma_value3("001"@);
                    lemma_wf3("001"@);
                }
                "001"
            } else {
                proof {
                    reveal_strlit("0001");
                    assert("0001"@ =~= seq!['0', '0', '0', '1']);
                    lemma_value4("0001"@);
                    lemma_wf4("0001"@);
                }
                "0001"
            }
        },
        '2' => {
            if oct {
                proof {
                    reveal_strlit("010");
                    assert("010"@ =~= seq!['0', '1', '0']);
                    lemma_value3("010"@);
                    lemma_wf3("010"@);
                }
                "010"
            } else {
                proof {
                    reveal_strlit("0010");
                    assert("0010"@ =~= seq!['0', '0', '1', '0']);
                    lemma_value4("0010"@);
                    lemma_wf4("0010"@);
                }
                "0010"
            }
        },
        '3' => {
            if oct {
                proof {
                    reveal_strlit("011");
                    assert("011"@ =~= seq!['0', '1', '1']);
                    lemma_value3("011"@);
                    lemma_wf3("011"@);
                }
                "011"
            } else {
                proof {
                    reveal_strlit("0011");
                    assert("0011"@ =~= seq!['0', '0', '1', '1']);
                    lemma_value4("0011"@);
                    lemma_wf4("0011"@);
                }
                "0011"
            }
        },
        '4' => {
            if oct {
                proof {
                    reveal_strlit("100");
                    assert("100"@ =~= seq!['1', '0', '0']);
                    lemma_value3("100"@);
                    lemma_wf3("100"@);
                }
                "100"
            } else {
                proof {
                    reveal_strlit("0100");
                    assert("0100"@ =~= seq!['0', '1', '0', '0']);
                    lemma_value4("0100"@);
                    lemma_wf4("0100"@);
                }
                "0100"
            }
        },
        '5' => {
            if oct {
                proof {
                    reveal_strlit("101");
                    assert("101"@ =~= seq!['1', '0', '1']);
                    lemma_value3("101"@);
                    lemma_wf3("101"@);
                }
                "101"
            } else {
                proof {
                    reveal_strlit("0101");
                    assert("0101"@ =~= seq!['0', '1', '0', '1']);
                    lemma_value4("0101"@);
                    lemma_wf4("0101"@);
                }
                "0101"
            }
        },
        '6' => {
            if oct {
                proof {
                    reveal_strlit("110");
                    assert("110"@ =~= seq!['1', '1', '0']);
                    lemma_value3("110"@);
                    lemma_wf3("110"@);
                }
                "110"
            } else {
                proof {
                    reveal_strlit("0110");
                    assert("0110"@ =~= seq!['0', '1', '1', '0']);
                    lemma_value4("0110"@);
                    lemma_wf4("0110"@);
                }
                "0110"
            }
        },
        '7' => {
            if oct {
                proof {
                    reveal_strlit("111");
                    assert("111"@ =~= seq!['1', '1', '1']);
                    lemma_value3("111"@);
                    lemma_wf3("111"@);
                }
                "111"
            } else {
                proof {
                    reveal_strlit("0111");
                    assert("0111"@ =~= seq!['0', '1', '1', '1']);
                    lemma_value4("0111"@);
                    lemma_wf4("0111"@);
                }
                "0111"
            }
        },
        '8' => {
            proof {
                reveal_strlit("1000");
                assert("1000"@ =~= seq!['1', '0', '0', '0']);
                lemma_value4("1000"@);
                lemma_wf4("1000"@);
            }
            "1000"
        },
        '9' => {
            proof {
                reveal_strlit("1001");
                assert("1001"@ =~= seq!['1', '0', '0', '1']);
                lemma_value4("1001"@);
                lemma_wf4("1001"@);
            }
            "1001"
        },
        'a' | 'A' => {
            proof {
                reveal_strlit("1010");
                assert("1010"@ =~= seq!['1', '0', '1', '0']);
                lemma_value4("1010"@);
                lemma_wf4("1010"@);
            }
            "1010"
        },
        'b' | 'B' => {
            proof {
                reveal_strlit("1011");
                assert("1011"@ =~= seq!['1', '0', '1', '1']);
                lemma_value4("1011"@);
                lemma_wf4("1011"@);
            }
            "1011"
        },
        'c' | 'C' => {
            proof {
                reveal_strlit("1100");
                assert("1100"@ =~= seq!['1', '1', '0', '0']);
                lemma_value4("1100"@);
                lemma_wf4("1100"@);
            }
            "1100"
        },
        'd' | 'D' => {
            proof {
                reveal_strlit("1101");
                assert("1101"@ =~= seq!['1', '1', '0', '1']);
                lemma_value4("1101"@);
                lemma_wf4("1101"@);
            }
            "1101"
        },
        'e' | 'E' => {
            proof {
                reveal_strlit("1110");
                assert("1110"@ =~= seq!['1', '1', '1', '0']);
                lemma_value4("1110"@);
                lemma_wf4("1110"@);
            }
            "1110"
        },
        'f' | 'F' => {
            proof {
                reveal_strlit("1111");
                assert("1111"@ =~= seq!['1', '1', '1', '1']);
                lemma_value4("1111"@);
                lemma_wf4("1111"@);
            }
            "1111"
        },
        _ => {
            proof {
                assert(false);
            }
            ""
        },
    }
}

/// Reads a group of one to four bits back as its digit character. The group
/// may be shorter than the nominal width, as the most-significant group of a
/// converted number is allowed to be.
pub fn binary_str_to_char(input: &str) -> (r: char)
    requires
        1 <= input@.len() <= 4,
        wf_digits(input@, 2),
    ensures
        r == digit_char(digits_value(input@, 2)),
{
    let n = input.unicode_len();
    let mut v: u32 = 0;
    let mut j: usize = 0;
    proof {
        lemma_pow2_small();
    }
    while j < n
        invariant
            0 <= j <= n,
            n == input@.len(),
            1 <= n <= 4,
            wf_digits(input@, 2),
            v == digits_value(input@.take(j as int), 2),
            v < spec_pow(2, j as nat),
            spec_pow(2, 0) == 1 && spec_pow(2, 1) == 2 && spec_pow(2, 2) == 4 && spec_pow(2, 3)
                == 8 && spec_pow(2, 4) == 16,
        decreases n - j,
    {
        let c = input.get_char(j);
        let bit: u32 = if c == '1' {
            1
        } else {
            0
        };
        proof {
            assert(digit_val(input@[j as int]) < 2);
            assert(bit == digit_val(input@[j as int]));
            let t = input@.take(j + 1);
            assert(t.drop_last() =~= input@.take(j as int));
            assert(t.last() == input@[j as int]);
            assert(spec_pow(2, (j + 1) as nat) == 2 * spec_pow(2, j as nat));
        }
        v = v * 2 + bit;
        j += 1;
    }
    proof {
        assert(input@.take(n as int) =~= input@);
        if n == 1 {
        } else if n == 2 {
        } else if n == 3 {
        } else {
            assert(n == 4);
        }
        assert(v < 16);
    }
    match v {
        0 => '0',
        1 => '1',
        2 => '2',
        3 => '3',
        4 => '4',
        5 => '5',
        6 => '6',
        7 => '7',
        8 => '8',
        9 => '9',
        10 => 'a',
        11 => 'b',
        12 => 'c',
        13 => 'd',
        14 => 'e',
        _ => 'f',
    }
}

} // verus!
