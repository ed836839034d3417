//! Numbers as text: decimal and hexadecimal digits.
use vstd::arithmetic::power::pow;
use vstd::prelude::*;

use crate::text::chars_of;

verus! {

/// The decimal digit for a number below ten.
pub open spec fn decimal_digit(n: nat) -> char {
    (48 + n) as char
}

/// A number in decimal, without leading zeros.
pub open spec fn decimal(n: nat) -> Seq<char>
    decreases n,
{
    if n < 10 {
        seq![decimal_digit(n)]
    } else {
        decimal(n / 10).push(decimal_digit(n % 10))
    }
}

/// Whether a character is one of the ten ASCII digits.
pub open spec fn is_digit(c: char) -> bool {
    '0' <= c <= '9'
}

/// Whether a text is made of ASCII digits alone, at least one.
pub open spec fn is_digits(text: Seq<char>) -> bool {
    text.len() > 0 && forall|k: int| 0 <= k < text.len() ==> is_digit(#[trigger] text[k])
}

/// The number that a row of digits stands for.
pub open spec fn digits_value(digits: Seq<char>) -> nat
    decreases digits.len(),
{
    if digits.len() == 0 {
        0
    } else {
        digits_value(digits.drop_last()) * 10 + (digits.last() as nat - 48) as nat
    }
}

/// A text without the plus sign that may stand at its start.
pub open spec fn without_plus(text: Seq<char>) -> Seq<char> {
    if text.len() > 0 && text[0] == '+' {
        text.skip(1)
    } else {
        text
    }
}

/// The number at most `max` that a text stands for: an optional plus sign and digits,
/// nothing else.
pub open spec fn parsed_number(text: Seq<char>, max: nat) -> Option<nat> {
    let digits = without_plus(text);
    if is_digits(digits) && digits_value(digits) <= max {
        Some(digits_value(digits))
    } else {
        None
    }
}

/// The hexadecimal digit for a number below sixteen, in lower case.
pub open spec fn hex_digit(n: nat) -> char {
    if n < 10 {
        (48 + n) as char
    } else {
        (87 + n) as char
    }
}

/// A number in hexadecimal, without leading zeros.
pub open spec fn hexadecimal(n: nat) -> Seq<char>
    decreases n,
{
    if n < 16 {
        seq![hex_digit(n)]
    } else {
        hexadecimal(n / 16).push(hex_digit(n % 16))
    }
}

/// Bytes in hexadecimal, two digits each.
pub open spec fn hex_bytes(bytes: Seq<u8>) -> Seq<char>
    decreases bytes.len(),
{
    if bytes.len() == 0 {
        Seq::empty()
    } else {
        hex_bytes(bytes.drop_last()).push(hex_digit(bytes.last() as nat / 16)).push(
            hex_digit(bytes.last() as nat % 16),
        )
    }
}

/// A number in decimal, as `u64::to_string` writes it.
pub fn decimal_text(n: u64) -> (text: String)
    ensures
        text@ == decimal(n as nat),
    decreases n,
{
    if n < 10 {
        let mut text: String = String::new();
        text.push((48u8 + n as u8) as char);
        assert(text@ =~= seq![decimal_digit(n as nat)]);
        text
    } else {
        let mut text: String = decimal_text(n / 10);
        text.push((48u8 + (n % 10) as u8) as char);
        text
    }
}

/// A number in hexadecimal, as the format `{:x}` writes it.
pub fn hex_text(n: u64) -> (text: String)
    ensures
        text@ == hexadecimal(n as nat),
    decreases n,
{
    if n < 16 {
        let mut text: String = String::new();
        text.push(hex_char(n as u8));
        assert(text@ =~= seq![hex_digit(n as nat)]);
        text
    } else {
        let mut text: String = hex_text(n / 16);
        text.push(hex_char((n % 16) as u8));
        text
    }
}

fn hex_char(n: u8) -> (c: char)
    requires
        n < 16,
    ensures
        c == hex_digit(n as nat),
{
    if n < 10 {
        (48u8 + n) as char
    } else {
        (87u8 + n) as char
    }
}

/// Bytes in hexadecimal, two lower-case digits each.
pub fn hex_of_bytes(bytes: &[u8]) -> (text: String)
    ensures
        text@ == hex_bytes(bytes@),
{
    let mut text: String = String::new();
    let mut i: usize = 0;
    assert(text@ =~= hex_bytes(bytes@.take(0)));
    while i < bytes.len()
        invariant
            i <= bytes@.len(),
            text@ == hex_bytes(bytes@.take(i as int)),
        decreases bytes@.len() - i,
    {
        let byte: u8 = bytes[i];
        text.push(hex_char(byte / 16));
        text.push(hex_char(byte % 16));
        assert(bytes@.take(i + 1).drop_last() =~= bytes@.take(i as int));
        i = i + 1;
    }
    assert(bytes@.take(i as int) =~= bytes@);
    text
}

/// The number at most `max` that a text stands for.
pub fn parse_number(text: &str, max: u64) -> (number: Option<u64>)
    ensures
        match number {
            Some(n) => parsed_number(text@, max as nat) == Some(n as nat),
            None => parsed_number(text@, max as nat) is None,
        },
{
    let chars: Vec<char> = chars_of(text);
    let start: usize = if chars.len() > 0 && chars[0] == '+' {
        1
    } else {
        0
    };
    let ghost digits = without_plus(text@);
    assert(digits =~= text@.skip(start as int));
    if chars.len() == start {
        return None;
    }
    let mut value: u64 = 0;
    let mut i: usize = start;
    assert(digits.take(0) =~= Seq::empty());
    while i < chars.len()
        invariant
            start <= i <= chars@.len(),
            chars@ == text@,
            digits == text@.skip(start as int),
            digits == without_plus(text@),
            forall|k: int| 0 <= k < i - start ==> is_digit(#[trigger] digits[k]),
            value <= max,
            value == digits_value(digits.take(i - start)),
        decreases chars@.len() - i,
    {
        let c: char = chars[i];
        assert(digits[i - start] == c);
        if c < '0' || c > '9' {
            return None;
        }
        let digit: u64 = (c as u32 - 48) as u64;
        proof {
            assert(digits.take(i + 1 - start).drop_last() =~= digits.take(i - start));
            lemma_value_grows(digits, i + 1 - start);
        }
        if digit > max || value > (max - digit) / 10 {
            return None;
        }
        value = value * 10 + digit;
        i = i + 1;
    }
    assert(digits.take(i - start) =~= digits);
    Some(value)
}

/// More digits never make a number smaller.
proof fn lemma_value_grows(digits: Seq<char>, n: int)
    requires
        0 <= n <= digits.len(),
    ensures
        digits_value(digits.take(n)) <= digits_value(digits),
    decreases digits.len() - n,
{
    if n == digits.len() {
        assert(digits.take(n) =~= digits);
    } else {
        lemma_value_grows(digits, n + 1);
        assert(digits.take(n + 1).drop_last() =~= digits.take(n));
    }
}

/// A number in decimal is made of digits, and they stand for it.
pub proof fn lemma_decimal_digits(n: nat)
    ensures
        is_digits(decimal(n)),
        digits_value(decimal(n)) == n,
    decreases n,
{
    if n < 10 {
        assert(decimal(n).drop_last() =~= Seq::empty());
        assert(digits_value(decimal(n)) == digits_value(decimal(n).drop_last()) * 10 + n);
    } else {
        lemma_decimal_digits(n / 10);
        assert(decimal(n).drop_last() =~= decimal(n / 10));
        let shorter = decimal(n / 10);
        assert forall|k: int| 0 <= k < decimal(n).len() implies is_digit(#[trigger] decimal(n)[k]) by {
            if k < shorter.len() {
                assert(decimal(n)[k] == shorter[k]);
            }
        }
    }
}

/// Reading a number that was written in decimal gives the number back.
pub proof fn law_parse_undoes_decimal(n: nat, max: nat)
    requires
        n <= max,
    ensures
        parsed_number(decimal(n), max) == Some(n),
{
    lemma_decimal_digits(n);
    assert(is_digit(decimal(n)[0]));
    assert(without_plus(decimal(n)) =~= decimal(n));
}

/// Bytes in hexadecimal take two characters each, all of them lower-case hexadecimal
/// digits.
pub proof fn law_hex_bytes_shape(bytes: Seq<u8>)
    ensures
        hex_bytes(bytes).len() == 2 * bytes.len(),
        forall|k: int|
            0 <= k < hex_bytes(bytes).len() ==> {
                let c = #[trigger] hex_bytes(bytes)[k];
                is_digit(c) || 'a' <= c <= 'f'
            },
    decreases bytes.len(),
{
    if bytes.len() > 0 {
        law_hex_bytes_shape(bytes.drop_last());
        let shorter = hex_bytes(bytes.drop_last());
        assert forall|k: int| 0 <= k < hex_bytes(bytes).len() implies {
            let c = #[trigger] hex_bytes(bytes)[k];
            is_digit(c) || 'a' <= c <= 'f'
        } by {
            if k < shorter.len() {
                assert(hex_bytes(bytes)[k] == shorter[k]);
            }
        }
    }
}

/// Whether a character is a hexadecimal digit, in lower case.
pub open spec fn is_hex_digit(c: char) -> bool {
    is_digit(c) || 'a' <= c <= 'f'
}

/// A number that fits `digits` hexadecimal digits takes no more of them, at least one, and
/// begins with a zero only where it is zero itself.
pub proof fn law_hexadecimal_shape(n: nat, digits: nat)
    requires
        digits >= 1,
        n < pow(16, digits),
    ensures
        1 <= hexadecimal(n).len() <= digits,
        forall|k: int| 0 <= k < hexadecimal(n).len() ==> is_hex_digit(#[trigger] hexadecimal(n)[k]),
        hexadecimal(n)[0] == '0' ==> n == 0 && hexadecimal(n).len() == 1,
    decreases n,
{
    if n >= 16 {
        reveal(pow);
        if digits == 1 {
            assert(pow(16, 0) == 1);
            assert(pow(16, 1) == 16);
        }
        assert(pow(16, digits) == 16 * pow(16, (digits - 1) as nat));
        law_hexadecimal_shape(n / 16, (digits - 1) as nat);
        let shorter = hexadecimal(n / 16);
        assert forall|k: int| 0 <= k < hexadecimal(n).len() implies is_hex_digit(
            #[trigger] hexadecimal(n)[k],
        ) by {
            if k < shorter.len() {
                assert(hexadecimal(n)[k] == shorter[k]);
            }
        }
        assert(hexadecimal(n)[0] == shorter[0]);
    }
}

/// Different bytes are written differently.
pub proof fn law_hex_bytes_keeps_bytes_apart(left: Seq<u8>, right: Seq<u8>)
    requires
        left != right,
    ensures
        hex_bytes(left) != hex_bytes(right),
    decreases left.len(),
{
    law_hex_bytes_shape(left);
    law_hex_bytes_shape(right);
    if left.len() == right.len() && left.len() > 0 {
        let l = left.last();
        let r = right.last();
        let a = hex_bytes(left);
        let b = hex_bytes(right);
        let n = a.len();
        assert(a.drop_last().drop_last() =~= hex_bytes(left.drop_last()));
        assert(b.drop_last().drop_last() =~= hex_bytes(right.drop_last()));
        assert(a[n - 2] == hex_digit(l as nat / 16) && a[n - 1] == hex_digit(l as nat % 16));
        if hex_bytes(left) == hex_bytes(right) {
            assert(b[n - 2] == hex_digit(r as nat / 16) && b[n - 1] == hex_digit(r as nat % 16));
            assert(l == r);
            if left.drop_last() == right.drop_last() {
                assert(left =~= left.drop_last().push(l));
                assert(right =~= right.drop_last().push(r));
            } else {
                law_hex_bytes_keeps_bytes_apart(left.drop_last(), right.drop_last());
            }
        }
    } else if left.len() == 0 && right.len() == 0 {
        assert(left =~= right);
    }
}

/// A number in decimal: its last digit is its rest by ten, and the digits before are those of
/// its tenth part.
pub proof fn law_decimal_digit_by_digit(n: nat, digit: nat)
    requires
        digit < 10,
    ensures
        decimal(digit).len() == 1,
        decimal(digit)[0] as u32 == '0' as u32 + digit,
        n > 0 ==> decimal(10 * n + digit).drop_last() == decimal(n),
        n > 0 ==> decimal(10 * n + digit).last() as u32 == '0' as u32 + digit,
{
    if n > 0 {
        assert((10 * n + digit) / 10 == n && (10 * n + digit) % 10 == digit);
        assert(decimal(10 * n + digit).drop_last() =~= decimal(n));
    }
}

/// A number in hexadecimal, digit by digit, in lower case.
pub proof fn law_hexadecimal_digit_by_digit(n: nat, digit: nat)
    requires
        digit < 16,
    ensures
        hexadecimal(digit).len() == 1,
        hexadecimal(digit)[0] as u32 == if digit < 10 {
            '0' as u32 + digit
        } else {
            'a' as u32 + digit - 10
        },
        n > 0 ==> hexadecimal(16 * n + digit) == hexadecimal(n) + hexadecimal(digit),
{
    if n > 0 {
        assert((16 * n + digit) / 16 == n && (16 * n + digit) % 16 == digit);
        assert(hexadecimal(16 * n + digit) =~= hexadecimal(n) + hexadecimal(digit));
    }
}

/// Bytes in hexadecimal, byte by byte: the upper half first.
pub proof fn law_hex_byte_by_byte(bytes: Seq<u8>, byte: u8)
    ensures
        hex_bytes(Seq::empty()) == Seq::<char>::empty(),
        hex_bytes(bytes.push(byte)) == hex_bytes(bytes) + hexadecimal(byte as nat / 16)
            + hexadecimal(byte as nat % 16),
{
    assert(bytes.push(byte).drop_last() =~= bytes);
    assert(hex_bytes(bytes.push(byte)) =~= hex_bytes(bytes) + hexadecimal(byte as nat / 16)
        + hexadecimal(byte as nat % 16));
}

/// The number that a row of digits stands for, digit by digit.
pub proof fn law_digits_value_digit_by_digit(digits: Seq<char>, digit: char)
    requires
        '0' <= digit <= '9',
    ensures
        digits_value(Seq::empty()) == 0,
        digits_value(digits.push(digit)) == 10 * digits_value(digits) + (digit as int
            - '0' as int),
{
    assert(digits.push(digit).drop_last() =~= digits);
}

/// Which texts stand for a number: digits, at least one, with or without one plus sign before
/// them, if their number is not too large.
pub proof fn law_parsed_number(text: Seq<char>, max: nat)
    ensures
        text.len() > 0 && (forall|k: int| 0 <= k < text.len() ==> '0' <= #[trigger] text[k] <= '9')
            && digits_value(text) <= max ==> parsed_number(text, max) == Some(digits_value(text))
            && parsed_number(seq!['+'] + text, max) == Some(digits_value(text)),
        text.len() > 0 && (forall|k: int| 0 <= k < text.len() ==> '0' <= #[trigger] text[k] <= '9')
            && digits_value(text) > max ==> parsed_number(text, max) is None && parsed_number(
            seq!['+'] + text,
            max,
        ) is None,
        text.len() == 0 ==> parsed_number(text, max) is None && parsed_number(
            seq!['+'] + text,
            max,
        ) is None,
        (exists|k: int|
            0 <= k < text.len() && !('0' <= #[trigger] text[k] <= '9') && (k > 0 || text[k] != '+'))
            ==> parsed_number(text, max) is None,
{
    assert((seq!['+'] + text).skip(1) =~= text);
    if text.len() > 0 && is_digits(text) {
        assert(is_digit(text[0]));
    }
    if exists|k: int|
        0 <= k < text.len() && !('0' <= #[trigger] text[k] <= '9') && (k > 0 || text[k] != '+') {
        let k = choose|k: int|
            0 <= k < text.len() && !('0' <= #[trigger] text[k] <= '9') && (k > 0 || text[k] != '+');
        let digits = without_plus(text);
        if text[0] == '+' {
            assert(digits[k - 1] == text[k]);
        } else {
            assert(digits[k] == text[k]);
        }
    }
}

} // verus!
