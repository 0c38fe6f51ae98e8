//! Notation detection and input validation: classify the trailing character of
//! an input string, strip the suffix and leading zeros, and check every
//! remaining character against the detected numeral system.

use vstd::prelude::*;

verus! {

use crate::NotationError;
use crate::NumberNotation;
use crate::digits::char_to_number;
use crate::model::base_of;
use crate::model::digit_val;
use crate::model::lemma_strip_props;
use crate::model::spec_strip;
use crate::model::wf_digits;
use vstd::string::StrSliceExecFns;

/// Which numeral system a trailing character announces: a suffix letter names
/// its system, a decimal digit defaults to decimal, anything else is rejected.
pub open spec fn spec_detect(c: char) -> Result<NumberNotation, NotationError> {
    if c == 'b' || c == 'B' {
        Ok(NumberNotation::Binary)
    } else if c == 'o' || c == 'O' || c == 'q' || c == 'Q' {
        Ok(NumberNotation::Octal)
    } else if c == 'd' || c == 'D' {
        Ok(NumberNotation::Decimal)
    } else if c == 'h' || c == 'H' {
        Ok(NumberNotation::Hexadecimal)
    } else if digit_val(c) < 10 {
        Ok(NumberNotation::Decimal)
    } else {
        Err(NotationError::InvalidNotation(c))
    }
}

/// The position of the first character that is no legal digit in base `b`.
pub open spec fn first_invalid(s: Seq<char>, b: nat) -> int
    decreases s.len(),
{
    if s.len() == 0 {
        0
    } else if digit_val(s[0]) >= b {
        0
    } else {
        1 + first_invalid(s.drop_first(), b)
    }
}

/// When everything before position `i` is legal and position `i` is not,
/// `i` is the first illegal position.
pub proof fn lemma_first_invalid(s: Seq<char>, b: nat, i: int)
    requires
        0 <= i < s.len(),
        digit_val(s[i]) >= b,
        forall|j: int| 0 <= j < i ==> digit_val(#[trigger] s[j]) < b,
    ensures
        first_invalid(s, b) == i,
    decreases i,
{
    if i == 0 {
    } else {
        let rest = s.drop_first();
        assert(digit_val(s[0]) < b);
        assert(rest[i - 1] == s[i]);
        assert forall|j: int| 0 <= j < i - 1 implies digit_val(#[trigger] rest[j]) < b by {
            assert(rest[j] == s[j + 1]);
        }
        lemma_first_invalid(rest, b, i - 1);
    }
}

/// The digit portion of a raw input: the whole string when it ends in a
/// decimal digit, otherwise the string with its one suffix character removed.
pub open spec fn spec_digit_portion(s: Seq<char>) -> Seq<char>
    recommends
        s.len() > 0,
{
    if digit_val(s.last()) < 10 {
        s
    } else {
        s.drop_last()
    }
}

impl NumberNotation {
    /// Classifies the trailing character of an input string.
    pub fn detect_notation(ending: char) -> (r: Result<Self, NotationError>)
        ensures
            r == spec_detect(ending),
    {
        match ending {
            'b' | 'B' => Ok(Self::Binary),
            'o' | 'O' | 'q' | 'Q' => Ok(Self::Octal),
            'd' | 'D' => Ok(Self::Decimal),
            'h' | 'H' => Ok(Self::Hexadecimal),
            '0' | '1' | '2' | '3' | '4' | '5' | '6' | '7' | '8' | '9' => Ok(Self::Decimal),
            _ => Err(NotationError::InvalidNotation(ending)),
        }
    }

    /// The system admits digits above one (it is not binary).
    pub fn above_binary(self) -> (r: bool)
        ensures
            r == (self != Self::Binary),
    {
        self != Self::Binary
    }

    /// The system admits digits above seven (it is neither binary nor octal).
    pub fn above_octal(self) -> (r: bool)
        ensures
            r == (self != Self::Binary && self != Self::Octal),
    {
        self != Self::Binary && self != Self::Octal
    }

    /// The system admits digits above nine (it is hexadecimal).
    pub fn above_decimal(self) -> (r: bool)
        ensures
            r == (self == Self::Hexadecimal),
    {
        self == Self::Hexadecimal
    }

    /// Strips the suffix and the leading zeros, then checks every remaining
    /// character against this system. Returns the normalized digit string,
    /// unchanged in case; an all-zero digit string is rejected as `Zero`, and
    /// the first illegal character is reported as `InvalidDigit`.
    pub fn validate<'a>(&self, text: &'a str) -> (r: Result<&'a str, NotationError>)
        requires
            text@.len() > 0,
        ensures
            ({
                let st = spec_strip(spec_digit_portion(text@));
                &&& (st.len() == 0 ==> r == Err::<&'a str, NotationError>(NotationError::Zero))
                &&& (st.len() > 0 && wf_digits(st, base_of(*self)) ==> (r matches Ok(v) && v@
                    == st && st[0] != '0'))
                &&& (st.len() > 0 && !wf_digits(st, base_of(*self)) ==> r == Err::<
                    &'a str,
                    NotationError,
                >(NotationError::InvalidDigit(st[first_invalid(st, base_of(*self))])))
            }),
    {
        let n = text.unicode_len();
        let last = text.get_char(n - 1);
        let is_digit = match last {
            '0' | '1' | '2' | '3' | '4' | '5' | '6' | '7' | '8' | '9' => true,
            _ => false,
        };
        let body = if is_digit {
            text
        } else {
            let b = text.substring_char(0, n - 1);
            proof {
                assert(b@ =~= text@.drop_last());
            }
            b
        };
        let stripped = strip_leading_zeros(body);
        proof {
            assert(body@ == spec_digit_portion(text@));
            assert(stripped@ == spec_strip(spec_digit_portion(text@)));
        }
        let m = stripped.unicode_len();
        if m == 0 {
            return Err(NotationError::Zero);
        }
        let ghost st = stripped@;
        let mut i: usize = 0;
        while i < m
            invariant
                0 <= i <= m,
                m == st.len(),
                stripped@ == st,
                st == spec_strip(spec_digit_portion(text@)),
                forall|j: int| 0 <= j < i ==> digit_val(#[trigger] st[j]) < base_of(*self),
            decreases m - i,
        {
            let c = stripped.get_char(i);
            match char_to_number(c, *self) {
                Ok(_) => {},
                Err(e) => {
                    proof {
                        lemma_first_invalid(st, base_of(*self), i as int);
                    }
                    return Err(e);
                },
            }
            i += 1;
        }
        proof {
            lemma_strip_props(spec_digit_portion(text@), base_of(*self));
        }
        Ok(stripped)
    }
}

/// Removes every leading zero character; what remains is either empty or
/// starts with a non-zero character.
pub fn strip_leading_zeros(input: &str) -> (r: &str)
    ensures
        r@ == spec_strip(input@),
{
    let n = input.unicode_len();
    let mut i: usize = 0;
    proof {
        assert(input@.skip(0) =~= input@);
    }
    while i < n
        invariant_except_break
            0 <= i <= n,
            n == input@.len(),
            spec_strip(input@) == spec_strip(input@.skip(i as int)),
        ensures
            0 <= i <= n,
            n == input@.len(),
            spec_strip(input@) == spec_strip(input@.skip(i as int)),
            i == n || input@[i as int] != '0',
        decreases n - i,
    {
        let c = input.get_char(i);
        if c != '0' {
            break;
        }
        proof {
            let sk = input@.skip(i as int);
            assert(sk.len() > 0 && sk[0] == '0');
            assert(sk.drop_first() =~= input@.skip(i + 1));
        }
        i += 1;
    }
    proof {
        let sk = input@.skip(i as int);
        if i < n {
            assert(sk.len() > 0 && sk[0] != '0');
        } else {
            assert(sk.len() == 0);
        }
        assert(spec_strip(sk) == sk);
    }
    let r = input.substring_char(i, n);
    proof {
        assert(r@ =~= input@.skip(i as int));
    }
    r
}

} // verus!
