//! Unsigned decimal numbers: reading them from bytes and writing them as text.

use vstd::prelude::*;
use vstd::string::*;
use vstd::utf8::*;

verus! {

/// Whether `b` is an ASCII decimal digit.
pub open spec fn is_digit(b: u8) -> bool {
    48 <= b <= 57
}

/// The number that a run of ASCII digits stands for; the empty run stands for zero.
pub open spec fn digits_value(digits: Seq<u8>) -> nat
    decreases digits.len(),
{
    if digits.len() == 0 {
        0
    } else {
        10 * digits_value(digits.drop_last()) + (digits.last() - 48) as nat
    }
}

/// The digits of a number: everything after an optional leading `+`.
pub open spec fn without_sign(bytes: Seq<u8>) -> Seq<u8> {
    if bytes.len() > 0 && bytes[0] == 43 {
        bytes.drop_first()
    } else {
        bytes
    }
}

/// The number that `bytes` holds: an optional `+`, then one or more digits and nothing
/// else, with a value that fits in a `usize`.
pub open spec fn unsigned(bytes: Seq<u8>) -> Option<usize> {
    let digits = without_sign(bytes);
    if digits.len() > 0 && (forall|i: int| 0 <= i < digits.len() ==> is_digit(#[trigger] digits[i]))
        && digits_value(digits) <= usize::MAX {
        Some(digits_value(digits) as usize)
    } else {
        None
    }
}

/// The character of the digit `d`.
pub open spec fn digit_char(d: nat) -> char {
    (48 + d) as char
}

/// The decimal text of `n`, without leading zeros.
pub open spec fn decimal(n: nat) -> Seq<char>
    decreases n,
{
    if n < 10 {
        seq![digit_char(n)]
    } else {
        decimal(n / 10).push(digit_char(n % 10))
    }
}

/// A run of digits is worth at least as much as each of its prefixes.
proof fn lemma_prefix_value(digits: Seq<u8>, k: int)
    requires
        0 <= k <= digits.len(),
        forall|i: int| 0 <= i < digits.len() ==> is_digit(#[trigger] digits[i]),
    ensures
        digits_value(digits.take(k)) <= digits_value(digits),
    decreases digits.len(),
{
    if k == digits.len() {
        assert(digits.take(k) =~= digits);
    } else {
        lemma_prefix_value(digits.drop_last(), k);
        assert(digits.drop_last().take(k) =~= digits.take(k));
    }
}

/// Reads an unsigned decimal number.
pub fn parse_unsigned(bytes: &[u8]) -> (parsed: Option<usize>)
    ensures
        parsed == unsigned(bytes@),
{
    let start: usize = if bytes.len() > 0 && bytes[0] == 43 {
        1
    } else {
        0
    };
    let ghost digits = without_sign(bytes@);
    assert(digits =~= bytes@.skip(start as int));
    if start == bytes.len() {
        return None;
    }
    let mut value: usize = 0;
    let mut i: usize = start;
    while i < bytes.len()
        invariant
            start <= i <= bytes.len(),
            start < bytes.len(),
            digits == bytes@.skip(start as int),
            digits == without_sign(bytes@),
            forall|j: int| 0 <= j < i - start ==> is_digit(#[trigger] digits[j]),
            value == digits_value(digits.take(i - start)),
        decreases bytes.len() - i,
    {
        let b: u8 = bytes[i];
        assert(digits[i - start] == b);
        if b < 48 || b > 57 {
            return None;
        }
        let digit: usize = (b - 48) as usize;
        let ghost longer = digits.take(i - start + 1);
        assert(longer.drop_last() =~= digits.take(i - start));
        assert(digits_value(longer) == 10 * value + digit);
        if value > (usize::MAX - digit) / 10 {
            proof {
                if forall|j: int| 0 <= j < digits.len() ==> is_digit(#[trigger] digits[j]) {
                    lemma_prefix_value(digits, i - start + 1);
                }
            }
            return None;
        }
        value = value * 10 + digit;
        i = i + 1;
    }
    assert(digits.take(i - start) =~= digits);
    Some(value)
}

/// The text of a single digit.
fn digit_text(d: usize) -> (text: &'static str)
    requires
        d < 10,
    ensures
        text@ == seq![digit_char(d as nat)],
{
    proof {
        reveal_strlit("0");
        reveal_strlit("1");
        reveal_strlit("2");
        reveal_strlit("3");
        reveal_strlit("4");
        reveal_strlit("5");
        reveal_strlit("6");
        reveal_strlit("7");
        reveal_strlit("8");
        reveal_strlit("9");
    }
    match d {
        0 => "0",
        1 => "1",
        2 => "2",
        3 => "3",
        4 => "4",
        5 => "5",
        6 => "6",
        7 => "7",
        8 => "8",
        _ => "9",
    }
}

/// Writes `n` as decimal text.
pub fn decimal_text(n: usize) -> (text: String)
    ensures
        text@ == decimal(n as nat),
    decreases n,
{
    if n < 10 {
        digit_text(n).to_owned()
    } else {
        let mut text = decimal_text(n / 10);
        text.append(digit_text(n % 10));
        text
    }
}

/// Decimal text is plain ASCII digits, and its digits are worth the number.
pub proof fn lemma_decimal_digits(n: nat)
    ensures
        decimal(n).len() > 0,
        is_ascii_chars(decimal(n)),
        encode_utf8(decimal(n)).len() == decimal(n).len(),
        forall|i: int|
            0 <= i < decimal(n).len() ==> is_digit(#[trigger] encode_utf8(decimal(n))[i])
                && encode_utf8(decimal(n))[i] == decimal(n)[i] as u8,
        digits_value(encode_utf8(decimal(n))) == n,
    decreases n,
{
    let text = decimal(n);
    if n < 10 {
        assert(is_ascii_chars(text));
        is_ascii_chars_encode_utf8(text);
        let bytes = encode_utf8(text);
        assert(text[0] as u8 == bytes[0]);
        assert(bytes.drop_last() =~= Seq::<u8>::empty());
        assert(digits_value(bytes.drop_last()) == 0);
        assert(bytes.last() == 48 + n);
    } else {
        lemma_decimal_digits(n / 10);
        let front = decimal(n / 10);
        assert(is_ascii_chars(text));
        is_ascii_chars_encode_utf8(text);
        is_ascii_chars_encode_utf8(front);
        let bytes = encode_utf8(text);
        let front_bytes = encode_utf8(front);
        assert forall|i: int| 0 <= i < text.len() implies is_digit(#[trigger] bytes[i]) && bytes[i]
            == text[i] as u8 by {
            assert(text[i] as u8 == bytes[i]);
            if i < front.len() {
                assert(text[i] == front[i]);
                assert(front[i] as u8 == front_bytes[i]);
            } else {
                assert(text[i] == digit_char(n % 10));
            }
        }
        assert(bytes.drop_last() =~= front_bytes) by {
            assert forall|i: int| 0 <= i < front.len() implies bytes.drop_last()[i]
                == front_bytes[i] by {
                assert(text[i] == front[i]);
                assert(bytes[i] == text[i] as u8);
                assert(front_bytes[i] == front[i] as u8);
            }
        }
        assert(bytes.last() == 48 + n % 10) by {
            assert(text.last() == digit_char(n % 10));
            assert(bytes[text.len() - 1] == text[text.len() - 1] as u8);
        }
    }
}

/// Reading back the decimal text of a number gives the number.
pub proof fn law_decimal_round_trip(n: usize)
    ensures
        unsigned(encode_utf8(decimal(n as nat))) == Some(n),
{
    lemma_decimal_digits(n as nat);
    let bytes = encode_utf8(decimal(n as nat));
    assert(is_digit(bytes[0]));
    assert(without_sign(bytes) == bytes);
}

} // verus!
