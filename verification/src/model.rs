//! The mathematical model: what a digit character is worth, what magnitude a
//! digit string denotes, and what the canonical digit string of a magnitude is.

use vstd::prelude::*;

verus! {

use crate::NumberNotation;
use vstd::arithmetic::div_mod::lemma_div_is_strictly_smaller;
use vstd::arithmetic::div_mod::lemma_fundamental_div_mod;
use vstd::arithmetic::div_mod::lemma_fundamental_div_mod_converse;

/// Numeric value of a digit character; sixteen marks a character that is no digit.
pub open spec fn digit_val(c: char) -> nat {
    if c == '0' {
        0
    } else if c == '1' {
        1
    } else if c == '2' {
        2
    } else if c == '3' {
        3
    } else if c == '4' {
        4
    } else if c == '5' {
        5
    } else if c == '6' {
        6
    } else if c == '7' {
        7
    } else if c == '8' {
        8
    } else if c == '9' {
        9
    } else if c == 'a' || c == 'A' {
        10
    } else if c == 'b' || c == 'B' {
        11
    } else if c == 'c' || c == 'C' {
        12
    } else if c == 'd' || c == 'D' {
        13
    } else if c == 'e' || c == 'E' {
        14
    } else if c == 'f' || c == 'F' {
        15
    } else {
        16
    }
}

/// Canonical lower-case digit character of a value below sixteen.
pub open spec fn digit_char(v: nat) -> char {
    if v == 0 {
        '0'
    } else if v == 1 {
        '1'
    } else if v == 2 {
        '2'
    } else if v == 3 {
        '3'
    } else if v == 4 {
        '4'
    } else if v == 5 {
        '5'
    } else if v == 6 {
        '6'
    } else if v == 7 {
        '7'
    } else if v == 8 {
        '8'
    } else if v == 9 {
        '9'
    } else if v == 10 {
        'a'
    } else if v == 11 {
        'b'
    } else if v == 12 {
        'c'
    } else if v == 13 {
        'd'
    } else if v == 14 {
        'e'
    } else if v == 15 {
        'f'
    } else {
        '0'
    }
}

/// The radix of a numeral system.
pub open spec fn base_of(n: NumberNotation) -> nat {
    match n {
        NumberNotation::Binary => 2,
        NumberNotation::Octal => 8,
        NumberNotation::Decimal => 10,
        NumberNotation::Hexadecimal => 16,
    }
}

/// How many bits one octal or hexadecimal digit expands to.
pub open spec fn group_width(n: NumberNotation) -> nat {
    if n is Octal {
        3
    } else {
        4
    }
}

/// Every character of `s` is a legal digit in base `b`.
pub open spec fn wf_digits(s: Seq<char>, b: nat) -> bool {
    forall|i: int| 0 <= i < s.len() ==> #[trigger] digit_val(s[i]) < b
}

/// Every character of `s` is the canonical lower-case spelling of its value.
pub open spec fn lower_digits(s: Seq<char>) -> bool {
    forall|i: int| 0 <= i < s.len() ==> #[trigger] digit_char(digit_val(s[i])) == s[i]
}

/// A canonical digit string: well formed, lower case, non-empty, no leading zero.
pub open spec fn canonical_digits(s: Seq<char>, b: nat) -> bool {
    wf_digits(s, b) && lower_digits(s) && s.len() > 0 && s[0] != '0'
}

/// The magnitude a digit string denotes in base `b`, most significant digit first.
pub open spec fn digits_value(s: Seq<char>, b: nat) -> nat
    decreases s.len(),
{
    if s.len() == 0 {
        0
    } else {
        digits_value(s.drop_last(), b) * b + digit_val(s.last())
    }
}

pub open spec fn spec_pow(b: nat, e: nat) -> nat
    decreases e,
{
    if e == 0 {
        1
    } else {
        b * spec_pow(b, (e - 1) as nat)
    }
}

/// The canonical digit string of a magnitude in base `b`; zero gives the empty string.
pub open spec fn repr_of(v: nat, b: nat) -> Seq<char>
    decreases v,
    when 2 <= b
    via repr_of_decreases
{
    if v == 0 {
        Seq::empty()
    } else {
        repr_of(v / b, b).push(digit_char(v % b))
    }
}

#[via_fn]
proof fn repr_of_decreases(v: nat, b: nat) {
    if v != 0 {
        lemma_div_is_strictly_smaller(v as int, b as int);
    }
}

/// `s` with its leading zero characters removed.
pub open spec fn spec_strip(s: Seq<char>) -> Seq<char>
    decreases s.len(),
{
    if s.len() > 0 && s[0] == '0' {
        spec_strip(s.drop_first())
    } else {
        s
    }
}

/// The small powers of two that the bit-group algorithms rely on.
pub proof fn lemma_pow2_small()
    ensures
        spec_pow(2, 0) == 1,
        spec_pow(2, 1) == 2,
        spec_pow(2, 2) == 4,
        spec_pow(2, 3) == 8,
        spec_pow(2, 4) == 16,
{
    assert(spec_pow(2, 0) == 1);
    assert(spec_pow(2, 1) == 2 * spec_pow(2, 0));
    assert(spec_pow(2, 2) == 2 * spec_pow(2, 1));
    assert(spec_pow(2, 3) == 2 * spec_pow(2, 2));
    assert(spec_pow(2, 4) == 2 * spec_pow(2, 3));
}

/// A digit character below sixteen decodes back to its value, and only zero
/// spells as the character `'0'`.
pub proof fn lemma_digit_char_val(v: nat)
    requires
        v < 16,
    ensures
        digit_val(digit_char(v)) == v,
        v > 0 ==> digit_char(v) != '0',
{
}

/// In a base of at most ten every well-formed digit is already lower case.
pub proof fn lemma_wf_lower(s: Seq<char>, b: nat)
    requires
        b <= 10,
        wf_digits(s, b),
    ensures
        lower_digits(s),
{
    assert forall|i: int| 0 <= i < s.len() implies #[trigger] digit_char(digit_val(s[i]))
        == s[i] by {
        assert(digit_val(s[i]) < b);
    }
}

/// Reading a concatenation: the left part is shifted by the length of the right part.
pub proof fn lemma_value_concat(a: Seq<char>, c: Seq<char>, b: nat)
    ensures
        digits_value(a + c, b) == digits_value(a, b) * spec_pow(b, c.len()) + digits_value(c, b),
    decreases c.len(),
{
    if c.len() == 0 {
        assert(a + c =~= a);
        assert(spec_pow(b, 0) == 1);
        assert(digits_value(c, b) == 0);
        assert(digits_value(a + c, b) == digits_value(a, b) * spec_pow(b, c.len())
            + digits_value(c, b));
    } else {
        let c0 = c.drop_last();
        lemma_value_concat(a, c0, b);
        let x = digits_value(a, b);
        let y = digits_value(c0, b);
        let p = spec_pow(b, c0.len());
        let d = digit_val(c.last());
        assert((a + c).drop_last() =~= a + c0);
        assert((a + c).last() == c.last());
        assert(digits_value(a + c, b) == (x * p + y) * b + d);
        assert((x * p + y) * b + d == x * (b * p) + (y * b + d)) by (nonlinear_arith);
        assert(spec_pow(b, c.len()) == b * p);
        assert(digits_value(c, b) == y * b + d);
        assert(digits_value(a + c, b) == digits_value(a, b) * spec_pow(b, c.len())
            + digits_value(c, b));
    }
}

/// A non-empty digit string without a leading zero denotes a positive magnitude.
pub proof fn lemma_value_pos(s: Seq<char>, b: nat)
    requires
        b >= 1,
        s.len() > 0,
        s[0] != '0',
    ensures
        digits_value(s, b) > 0,
    decreases s.len(),
{
    if s.len() == 1 {
        assert(digit_val(s.last()) > 0);
    } else {
        let p = s.drop_last();
        assert(p[0] == s[0]);
        lemma_value_pos(p, b);
        assert(digits_value(p, b) * b >= 1 * b >= 1) by (nonlinear_arith)
            requires
                digits_value(p, b) >= 1,
                b >= 1,
        ;
    }
}

/// A well-formed digit string of length `n` denotes less than `b` to the `n`.
pub proof fn lemma_value_bound(s: Seq<char>, b: nat)
    requires
        b >= 1,
        wf_digits(s, b),
    ensures
        digits_value(s, b) < spec_pow(b, s.len()),
    decreases s.len(),
{
    if s.len() > 0 {
        let p = s.drop_last();
        lemma_value_bound(p, b);
        assert(digit_val(s.last()) < b);
        assert(digits_value(p, b) * b + digit_val(s.last()) < spec_pow(b, p.len()) * b)
            by (nonlinear_arith)
            requires
                digits_value(p, b) < spec_pow(b, p.len()),
                digit_val(s.last()) < b,
                b >= 1,
        ;
        assert(spec_pow(b, s.len()) == b * spec_pow(b, p.len()));
        assert(spec_pow(b, p.len()) * b == b * spec_pow(b, p.len())) by (nonlinear_arith);
    }
}

/// Reading only a prefix of a digit string never overshoots the whole.
pub proof fn lemma_value_take_le(s: Seq<char>, b: nat, j: int)
    requires
        b >= 1,
        0 <= j <= s.len(),
    ensures
        digits_value(s.take(j), b) <= digits_value(s, b),
    decreases s.len() - j,
{
    if j == s.len() {
        assert(s.take(j) =~= s);
    } else {
        lemma_value_take_le(s, b, j + 1);
        let t = s.take(j + 1);
        assert(t.drop_last() =~= s.take(j));
        assert(t.last() == s[j]);
        assert(digits_value(t, b) == digits_value(s.take(j), b) * b + digit_val(s[j]));
        assert(digits_value(s.take(j), b) * b >= digits_value(s.take(j), b))
            by (nonlinear_arith)
            requires
                b >= 1,
        ;
    }
}

/// The canonical digit string of a magnitude is well formed, lower case,
/// denotes that magnitude, and starts with no zero when the magnitude is positive.
pub proof fn lemma_repr_props(v: nat, b: nat)
    requires
        2 <= b <= 16,
    ensures
        wf_digits(repr_of(v, b), b),
        lower_digits(repr_of(v, b)),
        digits_value(repr_of(v, b), b) == v,
        v > 0 ==> repr_of(v, b).len() > 0 && repr_of(v, b)[0] != '0',
    decreases v,
{
    if v == 0 {
    } else {
        lemma_div_is_strictly_smaller(v as int, b as int);
        let q = (v / b) as nat;
        let r = v % b;
        lemma_repr_props(q, b);
        lemma_digit_char_val(r);
        let whole = repr_of(v, b);
        let head = repr_of(q, b);
        assert(whole == head.push(digit_char(r)));
        assert(whole.drop_last() =~= head);
        assert(whole.last() == digit_char(r));
        lemma_fundamental_div_mod(v as int, b as int);
        assert(digits_value(whole, b) == digits_value(head, b) * b + digit_val(digit_char(r)));
        assert(digits_value(whole, b) == q * b + r);
        assert(q * b + r == v);
        assert forall|i: int| 0 <= i < whole.len() implies #[trigger] digit_val(whole[i])
            < b by {
            if i < head.len() {
                assert(whole[i] == head[i]);
            } else {
                assert(whole[i] == digit_char(r));
            }
        }
        assert forall|i: int| 0 <= i < whole.len() implies #[trigger] digit_char(
            digit_val(whole[i]),
        ) == whole[i] by {
            if i < head.len() {
                assert(whole[i] == head[i]);
            } else {
                assert(whole[i] == digit_char(r));
            }
        }
        if q > 0 {
            assert(whole[0] == head[0]);
        } else {
            assert(v == b * (v as int / b as int) + v as int % b as int);
            assert(b * 0 == 0) by (nonlinear_arith);
            assert(r == v);
            assert(whole[0] == digit_char(v));
        }
    }
}

/// Uniqueness: a canonical digit string is the canonical rendering of its own value.
pub proof fn lemma_repr_of_value(s: Seq<char>, b: nat)
    requires
        2 <= b <= 16,
        canonical_digits(s, b),
    ensures
        repr_of(digits_value(s, b), b) == s,
    decreases s.len(),
{
    let v = digits_value(s, b);
    let p = s.drop_last();
    let d = digit_val(s.last());
    assert(v == digits_value(p, b) * b + d);
    lemma_fundamental_div_mod_converse(v as int, b as int, digits_value(p, b) as int, d as int);
    assert(v / b == digits_value(p, b));
    assert(v % b == d);
    lemma_value_pos(s, b);
    assert(digit_char(v % b) == s.last());
    if s.len() == 1 {
        assert(p =~= Seq::<char>::empty());
        assert(digits_value(p, b) == 0);
        assert(repr_of(v, b) == repr_of(0, b).push(digit_char(v % b)));
        assert(repr_of(v, b) =~= s);
    } else {
        assert(p[0] == s[0]);
        assert forall|i: int| 0 <= i < p.len() implies #[trigger] digit_val(p[i]) < b by {
            assert(p[i] == s[i]);
        }
        assert forall|i: int| 0 <= i < p.len() implies #[trigger] digit_char(digit_val(p[i]))
            == p[i] by {
            assert(p[i] == s[i]);
        }
        lemma_repr_of_value(p, b);
        lemma_value_pos(p, b);
        assert(v / b > 0);
        assert(repr_of(v, b) == repr_of(v / b, b).push(digit_char(v % b)));
        assert(repr_of(v, b) =~= s);
    }
}

/// Stripping leading zeros keeps the value, keeps well-formedness, and leaves
/// either an empty string or one that starts with no zero.
pub proof fn lemma_strip_props(s: Seq<char>, b: nat)
    requires
        b >= 1,
    ensures
        digits_value(spec_strip(s), b) == digits_value(s, b),
        spec_strip(s).len() > 0 ==> spec_strip(s)[0] != '0',
        wf_digits(s, b) ==> wf_digits(spec_strip(s), b),
        lower_digits(s) ==> lower_digits(spec_strip(s)),
        digits_value(s, b) > 0 ==> spec_strip(s).len() > 0,
        spec_strip(s).len() <= s.len(),
    decreases s.len(),
{
    if s.len() > 0 && s[0] == '0' {
        let rest = s.drop_first();
        lemma_strip_props(rest, b);
        let z = seq!['0'];
        assert(s =~= z + rest);
        lemma_value_concat(z, rest, b);
        assert(z.drop_last() =~= Seq::<char>::empty());
        assert(z.last() == '0');
        assert(digit_val('0') == 0);
        assert(digits_value(Seq::<char>::empty(), b) == 0);
        assert(digits_value(z, b) == digits_value(z.drop_last(), b) * b + digit_val(z.last()));
        assert(digits_value(z.drop_last(), b) * b == 0) by (nonlinear_arith)
            requires
                digits_value(z.drop_last(), b) == 0,
        ;
        assert(digits_value(z, b) == 0);
        assert(digits_value(s, b) == 0 * spec_pow(b, rest.len()) + digits_value(rest, b));
        if wf_digits(s, b) {
            assert forall|i: int| 0 <= i < rest.len() implies #[trigger] digit_val(rest[i])
                < b by {
                assert(rest[i] == s[i + 1]);
            }
        }
        if lower_digits(s) {
            assert forall|i: int| 0 <= i < rest.len() implies #[trigger] digit_char(
                digit_val(rest[i]),
            ) == rest[i] by {
                assert(rest[i] == s[i + 1]);
            }
        }
    }
}

} // verus!

