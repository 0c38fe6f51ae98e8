//! The conversion engine: renders a validated digit string in any of the four
//! numeral systems, by bit grouping between binary and octal or hexadecimal,
//! and by positional-weight arithmetic to and from decimal.

use vstd::prelude::*;

verus! {

use crate::NotationError;
use crate::NumberNotation;
use crate::digits::binary_str_to_char;
use crate::digits::char_to_binary_str;
use crate::digits::char_to_number;
use crate::digits::number_to_char;
use crate::model::base_of;
use crate::model::canonical_digits;
use crate::model::digit_char;
use crate::model::digit_val;
use crate::model::digits_value;
use crate::model::group_width;
use crate::model::lemma_digit_char_val;
use crate::model::lemma_pow2_small;
use crate::model::lemma_repr_of_value;
use crate::model::lemma_repr_props;
use crate::model::lemma_strip_props;
use crate::model::lemma_value_bound;
use crate::model::lemma_value_concat;
use crate::model::lemma_value_pos;
use crate::model::lemma_value_take_le;
use crate::model::lemma_wf_lower;
use crate::model::repr_of;
use crate::model::spec_pow;
use crate::model::spec_strip;
use crate::model::wf_digits;
use crate::notation::first_invalid;
use crate::notation::spec_detect;
use crate::notation::spec_digit_portion;
use crate::notation::strip_leading_zeros;
use vstd::arithmetic::div_mod::lemma_div_is_strictly_smaller;
use vstd::arithmetic::div_mod::lemma_fundamental_div_mod;
use vstd::string::StrSliceExecFns;
use vstd::string::StringExecFns;

/// A validated digit string, as the validator hands it to the engine:
/// well formed for its system, non-empty, and without a leading zero.
pub open spec fn valid_input(s: Seq<char>, n: NumberNotation) -> bool {
    wf_digits(s, base_of(n)) && s.len() > 0 && s[0] != '0'
}

/// Whether a conversion runs through the fixed-width decimal accumulator.
pub open spec fn dec_involved(src: NumberNotation, dst: NumberNotation) -> bool {
    src is Decimal || dst is Decimal
}

/// What converting a digit string from `src` to `dst` yields: the identity
/// conversion passes the string through; a conversion through the decimal
/// accumulator overflows when the magnitude exceeds the fixed-width ceiling;
/// every other conversion yields the canonical rendering of the magnitude.
pub open spec fn spec_convert(src: NumberNotation, dst: NumberNotation, s: Seq<char>) -> Result<
    Seq<char>,
    NotationError,
> {
    if src == dst {
        Ok(s)
    } else if dec_involved(src, dst) && digits_value(s, base_of(src)) > u64::MAX {
        Err(NotationError::Overflow)
    } else {
        Ok(repr_of(digits_value(s, base_of(src)), base_of(dst)))
    }
}

/// Relies on String::push: appends the one character to the end of the string.
#[verifier::external_body]
fn push_char(s: &mut String, c: char)
    ensures
        final(s)@ == old(s)@.push(c),
{
    s.push(c);
}

/// Reads a digit string into the fixed-width accumulator, reporting `Overflow`
/// as soon as the running magnitude would exceed the ceiling.
fn digits_to_value(input: &str, notation: NumberNotation) -> (r: Result<u64, NotationError>)
    requires
        wf_digits(input@, base_of(notation)),
    ensures
        digits_value(input@, base_of(notation)) <= u64::MAX ==> r == Ok::<u64, NotationError>(
            digits_value(input@, base_of(notation)) as u64,
        ),
        digits_value(input@, base_of(notation)) > u64::MAX ==> r == Err::<u64, NotationError>(
            NotationError::Overflow,
        ),
{
    let base: u64 = match notation {
        NumberNotation::Binary => 2,
        NumberNotation::Octal => 8,
        NumberNotation::Decimal => 10,
        NumberNotation::Hexadecimal => 16,
    };
    let n = input.unicode_len();
    let mut acc: u64 = 0;
    let mut i: usize = 0;
    proof {
        assert(input@.take(0) =~= Seq::<char>::empty());
    }
    while i < n
        invariant
            0 <= i <= n,
            n == input@.len(),
            wf_digits(input@, base_of(notation)),
            base == base_of(notation),
            acc as nat == digits_value(input@.take(i as int), base_of(notation)),
        decreases n - i,
    {
        let c = input.get_char(i);
        let d: u32 = match char_to_number(c, notation) {
            Ok(v) => v,
            Err(e) => {
                proof {
                    assert(false);
                }
                return Err(e);
            },
        };
        proof {
            let t = input@.take(i + 1);
            assert(t.drop_last() =~= input@.take(i as int));
            assert(t.last() == input@[i as int]);
        }
        let m = match acc.checked_mul(base) {
            Some(m) => m,
            None => {
                proof {
                    lemma_value_take_le(input@, base_of(notation), i + 1);
                }
                return Err(NotationError::Overflow);
            },
        };
        acc = match m.checked_add(d as u64) {
            Some(s) => s,
            None => {
                proof {
                    lemma_value_take_le(input@, base_of(notation), i + 1);
                }
                return Err(NotationError::Overflow);
            },
        };
        i += 1;
    }
    proof {
        assert(input@.take(n as int) =~= input@);
    }
    Ok(acc)
}

/// Renders a magnitude as a digit string in the given radix by repeated
/// division, least-significant digit first, then reverses the collected
/// digits into most-significant-first order.
fn value_to_digits(value: u64, divisor: u64) -> (r: String)
    requires
        2 <= divisor <= 16,
    ensures
        r@ == repr_of(value as nat, divisor as nat),
{
    let ghost b: nat = divisor as nat;
    let mut string_vec: Vec<&'static str> = Vec::new();
    let mut quotient = value;
    let ghost mut emitted: Seq<char> = Seq::empty();
    proof {
        assert(repr_of(value as nat, b) =~= repr_of(quotient as nat, b) + emitted);
    }
    while quotient != 0
        invariant
            2 <= divisor <= 16,
            b == divisor as nat,
            repr_of(value as nat, b) == repr_of(quotient as nat, b) + emitted,
            string_vec@.len() == emitted.len(),
            forall|k: int|
                0 <= k < emitted.len() ==> (#[trigger] string_vec@[k])@ == seq![
                    emitted[emitted.len() - 1 - k],
                ],
        decreases quotient,
    {
        let ghost oldq: nat = quotient as nat;
        let ghost old_emitted = emitted;
        let ghost old_vec = string_vec@;
        let remainder = quotient % divisor;
        quotient = quotient / divisor;
        let d = number_to_char(remainder);
        string_vec.push(d);
        proof {
            lemma_div_is_strictly_smaller(oldq as int, divisor as int);
            let dc = digit_char(remainder as nat);
            assert(d@ =~= seq![dc]);
            assert(repr_of(oldq, b) == repr_of(quotient as nat, b).push(dc));
            emitted = seq![dc] + old_emitted;
            assert(repr_of(quotient as nat, b).push(dc) + old_emitted =~= repr_of(
                quotient as nat,
                b,
            ) + emitted);
            assert forall|k: int| 0 <= k < emitted.len() implies (#[trigger] string_vec@[k])@
                == seq![emitted[emitted.len() - 1 - k]] by {
                if k < old_vec.len() {
                    assert(string_vec@[k] == old_vec[k]);
                    assert(emitted[emitted.len() - 1 - k] == old_emitted[old_emitted.len() - 1
                        - k]);
                } else {
                    assert(string_vec@[k] == d);
                    assert(emitted.len() - 1 - k == 0);
                }
            }
        }
    }
    proof {
        assert(repr_of(value as nat, b) =~= emitted);
    }
    let mut num_string = String::new();
    let mut j = string_vec.len();
    proof {
        assert(emitted.take(0) =~= Seq::<char>::empty());
    }
    while j > 0
        invariant
            0 <= j <= string_vec@.len(),
            string_vec@.len() == emitted.len(),
            forall|k: int|
                0 <= k < emitted.len() ==> (#[trigger] string_vec@[k])@ == seq![
                    emitted[emitted.len() - 1 - k],
                ],
            num_string@ == emitted.take(emitted.len() - j),
        decreases j,
    {
        j -= 1;
        let ghost old_ns = num_string@;
        num_string.append(string_vec[j]);
        proof {
            let ll = emitted.len() as int;
            assert(string_vec@[j as int]@ == seq![emitted[ll - 1 - j]]);
            assert(old_ns + seq![emitted[ll - 1 - j]] =~= emitted.take(ll - j));
        }
    }
    proof {
        assert(emitted.take(emitted.len() as int) =~= emitted);
    }
    num_string
}

impl NumberNotation {
    /// Expands every octal or hexadecimal digit of the input to its full-width
    /// bit group and concatenates the groups; the result reads to the same
    /// magnitude in base two, possibly with leading zeros.
    pub fn binary_string(self, input: &str) -> (r: String)
        requires
            self == NumberNotation::Octal || self == NumberNotation::Hexadecimal,
            wf_digits(input@, base_of(self)),
        ensures
            wf_digits(r@, 2),
            digits_value(r@, 2) == digits_value(input@, base_of(self)),
    {
        let n = input.unicode_len();
        let mut num_string = String::new();
        let mut i: usize = 0;
        proof {
            lemma_pow2_small();
            assert(input@.take(0) =~= Seq::<char>::empty());
        }
        while i < n
            invariant
                0 <= i <= n,
                n == input@.len(),
                self == NumberNotation::Octal || self == NumberNotation::Hexadecimal,
                wf_digits(input@, base_of(self)),
                wf_digits(num_string@, 2),
                digits_value(num_string@, 2) == digits_value(
                    input@.take(i as int),
                    base_of(self),
                ),
                spec_pow(2, group_width(self)) == base_of(self),
            decreases n - i,
        {
            let c = input.get_char(i);
            let g = char_to_binary_str(c, self);
            let ghost old_ns = num_string@;
            proof {
                lemma_value_concat(old_ns, g@, 2);
                let t = input@.take(i + 1);
                assert(t.drop_last() =~= input@.take(i as int));
                assert(t.last() == input@[i as int]);
                assert forall|k: int| 0 <= k < (old_ns + g@).len() implies #[trigger] digit_val(
                    (old_ns + g@)[k],
                ) < 2 by {
                    if k < old_ns.len() {
                        assert((old_ns + g@)[k] == old_ns[k]);
                    } else {
                        assert((old_ns + g@)[k] == g@[k - old_ns.len()]);
                    }
                }
            }
            num_string.append(g);
            i += 1;
        }
        proof {
            assert(input@.take(n as int) =~= input@);
        }
        num_string
    }

    /// Converts a whole binary string to octal or hexadecimal, left to right:
    /// when the bit length is no multiple of the group width, the leftmost
    /// short group is decoded first, and every following group has the full
    /// width of three or four bits.
    pub fn binary_to(input: &str, notation: Self) -> (r: String)
        requires
            notation == NumberNotation::Octal || notation == NumberNotation::Hexadecimal,
            valid_input(input@, NumberNotation::Binary),
        ensures
            r@ == repr_of(digits_value(input@, 2), base_of(notation)),
    {
        let divisor: usize = match notation {
            NumberNotation::Octal => 3,
            _ => 4,
        };
        let ghost b: nat = base_of(notation);
        let n = input.unicode_len();
        let remainder = n % divisor;
        let mut groups = n / divisor;
        let mut num_string = String::new();
        let mut i: usize = 0;
        proof {
            lemma_pow2_small();
            lemma_fundamental_div_mod(n as int, divisor as int);
            assert(input@.take(0) =~= Seq::<char>::empty());
        }
        if remainder != 0 {
            let first = input.substring_char(0, remainder);
            proof {
                assert(first@ =~= input@.take(remainder as int));
                assert forall|k: int| 0 <= k < first@.len() implies #[trigger] digit_val(
                    first@[k],
                ) < 2 by {
                    assert(first@[k] == input@[k]);
                }
                lemma_value_bound(first@, 2);
                if remainder == 1 {
                } else if remainder == 2 {
                } else {
                    assert(remainder == 3 && divisor == 4);
                }
                assert(digits_value(first@, 2) < b);
                assert(first@[0] == input@[0]);
                lemma_value_pos(first@, 2);
            }
            let d = binary_str_to_char(first);
            push_char(&mut num_string, d);
            proof {
                let v = digits_value(first@, 2);
                lemma_digit_char_val(v);
                assert(num_string@ =~= Seq::<char>::empty().push(d));
                assert(num_string@.drop_last() =~= Seq::<char>::empty());
                assert(num_string@.last() == d);
                assert(digits_value(Seq::<char>::empty(), b) == 0);
                assert(digits_value(num_string@, b) == digits_value(num_string@.drop_last(), b)
                    * b + digit_val(num_string@.last()));
                assert(digits_value(num_string@, b) == digit_val(d));
            }
            i = remainder;
        }
        while i < n
            invariant
                0 <= i <= n,
                n == input@.len(),
                notation == NumberNotation::Octal || notation == NumberNotation::Hexadecimal,
                valid_input(input@, NumberNotation::Binary),
                b == base_of(notation),
                divisor == group_width(notation),
                spec_pow(2, divisor as nat) == b,
                spec_pow(2, 0) == 1 && spec_pow(2, 1) == 2 && spec_pow(2, 2) == 4 && spec_pow(
                    2,
                    3,
                ) == 8 && spec_pow(2, 4) == 16,
                i == n - groups * divisor,
                wf_digits(num_string@, b),
                crate::model::lower_digits(num_string@),
                digits_value(num_string@, b) == digits_value(input@.take(i as int), 2),
                i == 0 ==> num_string@.len() == 0,
                i > 0 ==> num_string@.len() > 0 && num_string@[0] != '0',
            decreases n - i,
        {
            proof {
                assert(groups >= 1) by (nonlinear_arith)
                    requires
                        i < n,
                        i == n - groups * divisor,
                        divisor >= 1,
                        groups >= 0,
                ;
                assert(groups * divisor >= divisor) by (nonlinear_arith)
                    requires
                        groups >= 1,
                        divisor >= 1,
                ;
            }
            let grp = input.substring_char(i, i + divisor);
            let ghost old_ns = num_string@;
            proof {
                assert(grp@ =~= input@.subrange(i as int, i + divisor));
                assert forall|k: int| 0 <= k < grp@.len() implies #[trigger] digit_val(grp@[k])
                    < 2 by {
                    assert(grp@[k] == input@[i + k]);
                }
                lemma_value_bound(grp@, 2);
            }
            let d = binary_str_to_char(grp);
            push_char(&mut num_string, d);
            proof {
                let v = digits_value(grp@, 2);
                lemma_digit_char_val(v);
                assert(input@.take(i as int) + grp@ =~= input@.take(i + divisor));
                lemma_value_concat(input@.take(i as int), grp@, 2);
                assert(num_string@ == old_ns.push(d));
                assert(num_string@.drop_last() =~= old_ns);
                assert(num_string@.last() == d);
                assert(digits_value(num_string@, b) == digits_value(old_ns, b) * b + digit_val(
                    d,
                ));
                assert forall|k: int| 0 <= k < num_string@.len() implies #[trigger] digit_val(
                    num_string@[k],
                ) < b by {
                    if k < old_ns.len() {
                        assert(num_string@[k] == old_ns[k]);
                    } else {
                        assert(num_string@[k] == d);
                    }
                }
                assert forall|k: int| 0 <= k < num_string@.len() implies #[trigger] digit_char(
                    digit_val(num_string@[k]),
                ) == num_string@[k] by {
                    if k < old_ns.len() {
                        assert(num_string@[k] == old_ns[k]);
                    } else {
                        assert(num_string@[k] == d);
                    }
                }
                if i == 0 {
                    assert(grp@[0] == input@[0]);
                    assert(digit_val(input@[0]) < 2);
                    lemma_value_pos(grp@, 2);
                    assert(num_string@[0] == d);
                } else {
                    assert(num_string@[0] == old_ns[0]);
                }
                assert((groups - 1) * divisor == groups * divisor - divisor) by (nonlinear_arith);
            }
            i += divisor;
            groups -= 1;
        }
        proof {
            assert(input@.take(n as int) =~= input@);
            assert(num_string@.len() > 0);
            assert(canonical_digits(num_string@, b));
            lemma_repr_of_value(num_string@, b);
        }
        num_string
    }

    /// Renders the validated digit string in binary: the identity for binary
    /// input, bit expansion for octal and hexadecimal input, and repeated
    /// division for decimal input.
    pub fn to_binary(self, input: &str) -> (r: Result<String, NotationError>)
        requires
            valid_input(input@, self),
        ensures
            ({
                match spec_convert(self, NumberNotation::Binary, input@) {
                    Ok(s) => r matches Ok(v) && v@ == s,
                    Err(e) => r == Err::<String, NotationError>(e),
                }
            }),
    {
        match self {
            NumberNotation::Binary => Ok(input.to_owned()),
            NumberNotation::Octal | NumberNotation::Hexadecimal => {
                let bs = self.binary_string(input);
                let stripped = strip_leading_zeros(bs.as_str());
                proof {
                    lemma_strip_props(bs@, 2);
                    lemma_value_pos(input@, base_of(self));
                    lemma_wf_lower(stripped@, 2);
                    lemma_repr_of_value(stripped@, 2);
                }
                Ok(stripped.to_owned())
            },
            NumberNotation::Decimal => Self::decimal_from(input, Self::Binary),
        }
    }

    /// Renders the validated digit string in octal: binary input is grouped
    /// three bits at a time, hexadecimal input is routed through a binary
    /// string first, and decimal input goes through repeated division.
    pub fn to_octal(self, input: &str) -> (r: Result<String, NotationError>)
        requires
            valid_input(input@, self),
        ensures
            ({
                match spec_convert(self, NumberNotation::Octal, input@) {
                    Ok(s) => r matches Ok(v) && v@ == s,
                    Err(e) => r == Err::<String, NotationError>(e),
                }
            }),
    {
        match self {
            NumberNotation::Binary => Ok(Self::binary_to(input, Self::Octal)),
            NumberNotation::Octal => Ok(input.to_owned()),
            NumberNotation::Decimal => Self::decimal_from(input, Self::Octal),
            NumberNotation::Hexadecimal => {
                let bs = self.binary_string(input);
                let stripped = strip_leading_zeros(bs.as_str());
                proof {
                    lemma_strip_props(bs@, 2);
                    lemma_value_pos(input@, base_of(self));
                }
                Ok(Self::binary_to(stripped, Self::Octal))
            },
        }
    }

    /// Renders the validated digit string in decimal: the digits are read
    /// into the fixed-width accumulator and written back out in base ten; a
    /// magnitude beyond the ceiling is reported as `Overflow`.
    pub fn to_decimal(self, input: &str) -> (r: Result<String, NotationError>)
        requires
            valid_input(input@, self),
        ensures
            ({
                match spec_convert(self, NumberNotation::Decimal, input@) {
                    Ok(s) => r matches Ok(v) && v@ == s,
                    Err(e) => r == Err::<String, NotationError>(e),
                }
            }),
    {
        match self {
            NumberNotation::Decimal => Ok(input.to_owned()),
            _ => {
                let value = match digits_to_value(input, self) {
                    Ok(v) => v,
                    Err(e) => {
                        return Err(e);
                    },
                };
                Ok(value_to_digits(value, 10))
            },
        }
    }

    /// Renders the validated digit string in hexadecimal: binary input is
    /// grouped four bits at a time, octal input is routed through a binary
    /// string first, and decimal input goes through repeated division.
    pub fn to_hexadecimal(self, input: &str) -> (r: Result<String, NotationError>)
        requires
            valid_input(input@, self),
        ensures
            ({
                match spec_convert(self, NumberNotation::Hexadecimal, input@) {
                    Ok(s) => r matches Ok(v) && v@ == s,
                    Err(e) => r == Err::<String, NotationError>(e),
                }
            }),
    {
        match self {
            NumberNotation::Binary => Ok(Self::binary_to(input, Self::Hexadecimal)),
            NumberNotation::Octal => {
                let bs = self.binary_string(input);
                let stripped = strip_leading_zeros(bs.as_str());
                proof {
                    lemma_strip_props(bs@, 2);
                    lemma_value_pos(input@, base_of(self));
                }
                Ok(Self::binary_to(stripped, Self::Hexadecimal))
            },
            NumberNotation::Decimal => Self::decimal_from(input, Self::Hexadecimal),
            NumberNotation::Hexadecimal => Ok(input.to_owned()),
        }
    }

    /// Converts a decimal digit string to the target system by parsing it
    /// into the fixed-width accumulator and repeatedly dividing by the target
    /// radix; a magnitude beyond the ceiling is reported as `Overflow`.
    pub fn decimal_from(input: &str, from: Self) -> (r: Result<String, NotationError>)
        requires
            from != NumberNotation::Decimal,
            valid_input(input@, NumberNotation::Decimal),
        ensures
            ({
                match spec_convert(NumberNotation::Decimal, from, input@) {
                    Ok(s) => r matches Ok(v) && v@ == s,
                    Err(e) => r == Err::<String, NotationError>(e),
                }
            }),
    {
        let divisor: u64 = match from {
            NumberNotation::Binary => 2,
            NumberNotation::Octal => 8,
            NumberNotation::Hexadecimal => 16,
            NumberNotation::Decimal => {
                proof {
                    assert(false);
                }
                10
            },
        };
        let value = match digits_to_value(input, NumberNotation::Decimal) {
            Ok(v) => v,
            Err(e) => {
                return Err(e);
            },
        };
        Ok(value_to_digits(value, divisor))
    }
}

/// The four renderings of one validated digit string.
#[derive(Debug, PartialEq, Eq)]
pub struct Conversions {
    pub binary: String,
    pub octal: String,
    pub decimal: String,
    pub hexadecimal: String,
}

/// The whole engine in one call: detects the notation from the trailing
/// character, validates and normalizes the digit string, and renders it in
/// all four systems; the first failing stage decides the error.
pub fn convert_all(input: &str) -> (r: Result<Conversions, NotationError>)
    requires
        input@.len() > 0,
    ensures
        ({
            let det = spec_detect(input@.last());
            let st = spec_strip(spec_digit_portion(input@));
            &&& (det matches Err(e) ==> r == Err::<Conversions, NotationError>(e))
            &&& (det matches Ok(sys) ==> {
                let bs = base_of(sys);
                &&& (st.len() == 0 ==> r == Err::<Conversions, NotationError>(
                    NotationError::Zero,
                ))
                &&& (st.len() > 0 && !wf_digits(st, bs) ==> r == Err::<Conversions, NotationError>(
                    NotationError::InvalidDigit(st[first_invalid(st, bs)]),
                ))
                &&& (st.len() > 0 && wf_digits(st, bs) && digits_value(st, bs) > u64::MAX ==> r
                    == Err::<Conversions, NotationError>(NotationError::Overflow))
                &&& (st.len() > 0 && wf_digits(st, bs) && digits_value(st, bs) <= u64::MAX ==> (r
                    matches Ok(c) && spec_convert(sys, NumberNotation::Binary, st) == Ok::<
                    Seq<char>,
                    NotationError,
                >(c.binary@) && spec_convert(sys, NumberNotation::Octal, st) == Ok::<
                    Seq<char>,
                    NotationError,
                >(c.octal@) && spec_convert(sys, NumberNotation::Decimal, st) == Ok::<
                    Seq<char>,
                    NotationError,
                >(c.decimal@) && spec_convert(sys, NumberNotation::Hexadecimal, st) == Ok::<
                    Seq<char>,
                    NotationError,
                >(c.hexadecimal@)))
            })
        }),
{
    let n = input.unicode_len();
    let last = input.get_char(n - 1);
    let notation = match NumberNotation::detect_notation(last) {
        Ok(nt) => nt,
        Err(e) => {
            return Err(e);
        },
    };
    let digit_string = match notation.validate(input) {
        Ok(ds) => ds,
        Err(e) => {
            return Err(e);
        },
    };
    let binary = match notation.to_binary(digit_string) {
        Ok(s) => s,
        Err(e) => {
            return Err(e);
        },
    };
    let octal = match notation.to_octal(digit_string) {
        Ok(s) => s,
        Err(e) => {
            return Err(e);
        },
    };
    let decimal = match notation.to_decimal(digit_string) {
        Ok(s) => s,
        Err(e) => {
            return Err(e);
        },
    };
    let hexadecimal = match notation.to_hexadecimal(digit_string) {
        Ok(s) => s,
        Err(e) => {
            return Err(e);
        },
    };
    Ok(Conversions { binary, octal, decimal, hexadecimal })
}

/// Round-trip law: a canonical digit string, converted from its own system to
/// any other system and converted back, is returned unchanged. When the pair
/// of systems runs through the decimal accumulator, the magnitude must fit
/// the fixed-width ceiling, for otherwise no conversion is produced at all.
pub proof fn lemma_round_trip(x: NumberNotation, y: NumberNotation, s: Seq<char>)
    requires
        canonical_digits(s, base_of(x)),
        dec_involved(x, y) ==> digits_value(s, base_of(x)) <= u64::MAX,
    ensures
        spec_convert(x, y, s) matches Ok(t) && spec_convert(y, x, t) == Ok::<
            Seq<char>,
            NotationError,
        >(s),
{
    lemma_repr_of_value(s, base_of(x));
    if x != y {
        lemma_value_pos(s, base_of(x));
        lemma_repr_props(digits_value(s, base_of(x)), base_of(y));
    }
}

/// Identity law: converting a digit string to its own system changes nothing.
pub proof fn lemma_convert_identity(x: NumberNotation, s: Seq<char>)
    ensures
        spec_convert(x, x, s) == Ok::<Seq<char>, NotationError>(s),
{
}

} // verus!
