//! Numerals: the hexadecimal literals of the source text, and the decimal
//! strings in which operand payloads carry their values.

use vstd::prelude::*;
use crate::text::chars_of;

verus! {

/// The value of a digit, in either case of the letters `a` to `f`; `None` for
/// any other character.
pub open spec fn digit_value(c: char) -> Option<nat> {
    if '0' <= c <= '9' {
        Some((c as nat - '0' as nat) as nat)
    } else if 'a' <= c <= 'f' {
        Some((c as nat - 'a' as nat + 10) as nat)
    } else if 'A' <= c <= 'F' {
        Some((c as nat - 'A' as nat + 10) as nat)
    } else {
        None
    }
}

/// `c` is a digit in the given radix.
pub open spec fn is_digit(c: char, radix: nat) -> bool {
    digit_value(c) matches Some(d) && d < radix
}

/// `s` is a numeral in the given radix: one or more digits and nothing else.
pub open spec fn is_numeral(s: Seq<char>, radix: nat) -> bool {
    s.len() > 0 && forall|i: int| 0 <= i < s.len() ==> is_digit(#[trigger] s[i], radix)
}

/// The number that the digits of `s` denote in the given radix, most
/// significant digit first.
pub open spec fn numeral_value(s: Seq<char>, radix: nat) -> nat
    decreases s.len(),
{
    if s.len() == 0 {
        0
    } else {
        numeral_value(s.drop_last(), radix) * radix + digit_value(s.last()).unwrap()
    }
}

/// What a numeral denotes, where it fits in 64 bits; `None` where `s` is not a
/// numeral or denotes a larger number.
pub open spec fn numeral(s: Seq<char>, radix: nat) -> Option<u64> {
    if is_numeral(s, radix) && numeral_value(s, radix) <= u64::MAX {
        Some(numeral_value(s, radix) as u64)
    } else {
        None
    }
}

/// A hexadecimal literal: hexadecimal digits only, with no sign and no prefix.
pub open spec fn hex_literal(s: Seq<char>) -> Option<u64> {
    numeral(s, 16)
}

/// `s` without its leading `+`, if it has one.
pub open spec fn without_plus(s: Seq<char>) -> Seq<char> {
    if s.len() > 0 && s[0] == '+' {
        s.drop_first()
    } else {
        s
    }
}

/// A decimal number: an optional `+` followed by decimal digits only.
pub open spec fn decimal_number(s: Seq<char>) -> Option<u64> {
    numeral(without_plus(s), 10)
}

/// The character for a digit below 16; letters are in lower case.
pub open spec fn digit_char(d: nat) -> char {
    if d < 10 {
        ('0' as nat + d) as char
    } else {
        ('a' as nat + d - 10) as char
    }
}

/// The shortest numeral for `n` in the given radix.
pub open spec fn digits_of(n: nat, radix: nat) -> Seq<char>
    decreases n,
    via digits_of_terminates
{
    if n < radix || radix < 2 {
        seq![digit_char(n)]
    } else {
        digits_of(n / radix, radix).push(digit_char(n % radix))
    }
}

#[via_fn]
proof fn digits_of_terminates(n: nat, radix: nat) {
    if n >= radix && radix >= 2 {
        assert(n / radix < n) by (nonlinear_arith)
            requires
                n >= radix,
                radix >= 2,
        ;
    }
}

/// The decimal string of `n`.
pub open spec fn decimal_digits(n: nat) -> Seq<char> {
    digits_of(n, 10)
}

/// The hexadecimal string of `n`, in lower case.
pub open spec fn hex_digits(n: nat) -> Seq<char> {
    digits_of(n, 16)
}

/// `c` in lower case, where it is a capital letter of the basic alphabet; else `c`.
pub open spec fn lower(c: char) -> char {
    if 'A' <= c <= 'Z' {
        (c as nat + 32) as char
    } else {
        c
    }
}

/// `s` without its leading zeros; the last character always stays.
pub open spec fn without_leading_zeros(s: Seq<char>) -> Seq<char>
    decreases s.len(),
{
    if s.len() > 1 && s[0] == '0' {
        without_leading_zeros(s.drop_first())
    } else {
        s
    }
}

/// `s` in lower case.
pub open spec fn lower_case(s: Seq<char>) -> Seq<char> {
    Seq::new(s.len(), |i: int| lower(s[i]))
}

/// The normal form of a numeral: in lower case and without leading zeros.
pub open spec fn normalized(s: Seq<char>) -> Seq<char> {
    without_leading_zeros(lower_case(s))
}

/// A numeral's value is at least the value of each of its prefixes.
proof fn lemma_prefix_value(s: Seq<char>, k: int, radix: nat)
    requires
        0 <= k <= s.len(),
        radix >= 1,
    ensures
        numeral_value(s.take(k), radix) <= numeral_value(s, radix),
    decreases s.len(),
{
    if k == s.len() {
        assert(s.take(k) == s);
    } else {
        lemma_prefix_value(s.drop_last(), k, radix);
        assert(s.drop_last().take(k) == s.take(k));
        let v = numeral_value(s.drop_last(), radix);
        assert(v * radix >= v) by (nonlinear_arith)
            requires
                radix >= 1,
                v >= 0,
        ;
    }
}

/// Reads one digit.
pub fn read_digit(c: char) -> (d: Option<u8>)
    ensures
        match d {
            Some(v) => digit_value(c) == Some(v as nat),
            None => digit_value(c) is None,
        },
{
    if '0' <= c && c <= '9' {
        Some((c as u32 - '0' as u32) as u8)
    } else if 'a' <= c && c <= 'f' {
        Some((c as u32 - 'a' as u32 + 10) as u8)
    } else if 'A' <= c && c <= 'F' {
        Some((c as u32 - 'A' as u32 + 10) as u8)
    } else {
        None
    }
}

/// Reads `chars[start..]` as a numeral in the given radix.
pub fn read_numeral(chars: &Vec<char>, start: usize, radix: u8) -> (r: Option<u64>)
    requires
        start <= chars.len(),
        2 <= radix <= 16,
    ensures
        r == numeral(chars@.skip(start as int), radix as nat),
{
    let ghost s = chars@.skip(start as int);
    if start == chars.len() {
        return None;
    }
    let mut value: u64 = 0;
    let mut i: usize = start;
    while i < chars.len()
        invariant
            start <= i <= chars.len(),
            2 <= radix <= 16,
            s == chars@.skip(start as int),
            forall|j: int| 0 <= j < i - start ==> is_digit(#[trigger] s[j], radix as nat),
            value == numeral_value(s.take(i - start), radix as nat),
        decreases chars.len() - i,
    {
        let ghost k = i - start;
        assert(s[k] == chars@[i as int]);
        assert(s.take(k + 1).drop_last() == s.take(k));
        let digit = match read_digit(chars[i]) {
            Some(d) => d,
            None => {
                return None;
            },
        };
        if digit >= radix {
            return None;
        }
        let shifted = match value.checked_mul(radix as u64) {
            Some(v) => v,
            None => {
                proof {
                    lemma_prefix_value(s, k + 1, radix as nat);
                }
                return None;
            },
        };
        value = match shifted.checked_add(digit as u64) {
            Some(v) => v,
            None => {
                proof {
                    lemma_prefix_value(s, k + 1, radix as nat);
                }
                return None;
            },
        };
        i += 1;
    }
    assert(s.take(i - start) == s);
    Some(value)
}

/// Reads a hexadecimal literal.
pub fn parse_hex(text: &str) -> (r: Option<u64>)
    ensures
        r == hex_literal(text@),
{
    let chars = chars_of(text);
    assert(chars@.skip(0) == chars@);
    read_numeral(&chars, 0, 16)
}

/// Reads a decimal number.
pub fn parse_decimal(text: &str) -> (r: Option<u64>)
    ensures
        r == decimal_number(text@),
{
    let chars = chars_of(text);
    if chars.len() > 0 && chars[0] == '+' {
        assert(chars@.skip(1) == chars@.drop_first());
        read_numeral(&chars, 1, 10)
    } else {
        assert(chars@.skip(0) == chars@);
        read_numeral(&chars, 0, 10)
    }
}

/// The character of a digit below 16.
fn write_digit(d: u8) -> (c: char)
    requires
        d < 16,
    ensures
        c == digit_char(d as nat),
{
    if d < 10 {
        (48u8 + d) as char
    } else {
        (87u8 + d) as char
    }
}

/// Appends the decimal string of `n` to `out`.
fn push_decimal(out: &mut String, n: u64)
    ensures
        final(out)@ == old(out)@ + decimal_digits(n as nat),
    decreases n,
{
    if n >= 10 {
        push_decimal(out, n / 10);
    }
    out.push(write_digit((n % 10) as u8));
}

/// The decimal string of `n`.
pub fn to_decimal(n: u64) -> (s: String)
    ensures
        s@ == decimal_digits(n as nat),
{
    let mut s = String::new();
    push_decimal(&mut s, n);
    assert(Seq::<char>::empty() + decimal_digits(n as nat) == decimal_digits(n as nat));
    s
}

/// The digits written for a number are a numeral, and denote that number.
pub proof fn lemma_digits_denote(n: nat, radix: nat)
    requires
        2 <= radix <= 16,
    ensures
        is_numeral(digits_of(n, radix), radix),
        numeral_value(digits_of(n, radix), radix) == n,
        digits_of(n, radix)[0] != '+',
    decreases n,
{
    let s = digits_of(n, radix);
    if n < radix {
        assert(s.drop_last() == Seq::<char>::empty());
        assert(numeral_value(s.drop_last(), radix) == 0);
        assert(digit_value(s.last()) == Some(n));
        assert(0 * radix == 0) by (nonlinear_arith);
    } else {
        assert(n / radix < n) by (nonlinear_arith)
            requires
                n >= radix,
                radix >= 2,
        ;
        lemma_digits_denote(n / radix, radix);
        assert(n % radix < radix) by (nonlinear_arith)
            requires
                radix >= 2,
        ;
        assert(s.drop_last() == digits_of(n / radix, radix));
        assert(digit_value(s.last()) == Some(n % radix));
        assert((n / radix) * radix + n % radix == n) by (nonlinear_arith)
            requires
                radix >= 2,
        ;
    }
}

/// Reading back the decimal string of a number gives that number.
pub proof fn lemma_decimal_round_trip(n: u64)
    ensures
        decimal_number(decimal_digits(n as nat)) == Some(n),
{
    lemma_digits_denote(n as nat, 10);
}

/// A numeral denotes zero exactly when all its digits are zeros.
proof fn lemma_zero_value(s: Seq<char>, radix: nat)
    requires
        is_numeral(s, radix) || s.len() == 0,
        2 <= radix <= 16,
    ensures
        numeral_value(s, radix) == 0 <==> (forall|i: int| 0 <= i < s.len() ==> s[i] == '0'),
    decreases s.len(),
{
    if s.len() > 0 {
        let t = s.drop_last();
        assert(forall|i: int| 0 <= i < t.len() ==> t[i] == s[i]);
        assert(is_digit(s[s.len() - 1], radix));
        lemma_zero_value(t, radix);
        let v = numeral_value(t, radix);
        assert(v == 0 <==> v * radix == 0) by (nonlinear_arith)
            requires
                radix >= 2,
                v >= 0,
        ;
        assert(v * radix >= 0) by (nonlinear_arith)
            requires
                radix >= 2,
                v >= 0,
        ;
        if numeral_value(s, radix) == 0 {
            assert forall|i: int| 0 <= i < s.len() implies s[i] == '0' by {
                if i < t.len() {
                    assert(t[i] == '0');
                }
            }
        }
    }
}

/// Zeros in front of the last character are all dropped.
proof fn lemma_zeros_dropped(t: Seq<char>, c: char)
    requires
        forall|i: int| 0 <= i < t.len() ==> t[i] == '0',
    ensures
        without_leading_zeros(t.push(c)) == seq![c],
    decreases t.len(),
{
    if t.len() > 0 {
        assert(t.push(c).drop_first() == t.drop_first().push(c));
        lemma_zeros_dropped(t.drop_first(), c);
    } else {
        assert(t.push(c) == seq![c]);
    }
}

/// Behind a digit that is not a zero, one more character changes nothing in
/// front of it.
proof fn lemma_zeros_dropped_before(t: Seq<char>, c: char)
    requires
        exists|i: int| 0 <= i < t.len() && t[i] != '0',
    ensures
        without_leading_zeros(t.push(c)) == without_leading_zeros(t).push(c),
    decreases t.len(),
{
    let k = choose|i: int| 0 <= i < t.len() && t[i] != '0';
    if t[0] == '0' {
        assert(k > 0);
        assert(t.drop_first()[k - 1] != '0');
        assert(t.push(c).drop_first() == t.drop_first().push(c));
        lemma_zeros_dropped_before(t.drop_first(), c);
    }
}

/// Of a hexadecimal numeral in lower case, the shortest numeral of its value
/// is what is left without its leading zeros.
proof fn lemma_lower_case_normal_form(s: Seq<char>)
    requires
        is_numeral(s, 16),
        forall|i: int| 0 <= i < s.len() ==> lower(#[trigger] s[i]) == s[i],
    ensures
        hex_digits(numeral_value(s, 16)) == without_leading_zeros(s),
    decreases s.len(),
{
    let t = s.drop_last();
    let c = s.last();
    assert(s == t.push(c));
    assert(is_digit(s[s.len() - 1], 16));
    let d = digit_value(c).unwrap();
    assert(digit_char(d) == c);
    let v = numeral_value(t, 16);
    assert forall|i: int| 0 <= i < t.len() implies is_digit(#[trigger] t[i], 16) && lower(t[i])
        == t[i] by {
        assert(t[i] == s[i]);
    }
    lemma_zero_value(t, 16);
    if v == 0 {
        lemma_zeros_dropped(t, c);
    } else {
        lemma_lower_case_normal_form(t);
        lemma_zeros_dropped_before(t, c);
        assert((v * 16 + d) / 16 == v);
        assert((v * 16 + d) % 16 == d);
    }
}

/// Letter case does not change what a numeral denotes.
proof fn lemma_lower_case_value(s: Seq<char>, radix: nat)
    requires
        is_numeral(s, radix) || s.len() == 0,
        2 <= radix <= 16,
    ensures
        numeral_value(lower_case(s), radix) == numeral_value(s, radix),
        forall|i: int| 0 <= i < s.len() ==> is_digit(#[trigger] lower_case(s)[i], radix),
    decreases s.len(),
{
    let low = lower_case(s);
    if s.len() > 0 {
        lemma_lower_case_value(s.drop_last(), radix);
        assert(low.drop_last() == lower_case(s.drop_last()));
        assert(is_digit(s[s.len() - 1], radix));
        assert forall|i: int| 0 <= i < s.len() implies is_digit(#[trigger] low[i], radix) by {
            assert(is_digit(s[i], radix));
        }
    }
}

/// Writing the value of a hexadecimal numeral in hexadecimal gives the
/// numeral's normal form.
pub proof fn lemma_hex_normal_form(s: Seq<char>)
    requires
        is_numeral(s, 16),
    ensures
        hex_digits(numeral_value(s, 16)) == normalized(s),
{
    let low = lower_case(s);
    lemma_lower_case_value(s, 16);
    assert forall|i: int| 0 <= i < low.len() implies lower(#[trigger] low[i]) == low[i] by {
        assert(is_digit(s[i], 16));
    }
    lemma_lower_case_normal_form(low);
}

} // verus!
