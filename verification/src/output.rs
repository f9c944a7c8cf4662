//! Values written out: as bytes, and as decimal text.

use vstd::prelude::*;
use vstd::string::StringExecFns;

verus! {

/// The byte that stands for `value`: `value` modulo 256, which is the
/// lowest byte of its two's complement form.
pub open spec fn low_byte(value: i64) -> u8 {
    (value as int % 256) as u8
}

/// Reduces a value to the byte that stands for it.
pub fn byte_of(value: i64) -> (byte: u8)
    ensures
        byte == low_byte(value),
        byte as int == value as int % 256,
{
    match value.checked_rem_euclid(256) {
        Some(rest) => rest as u8,
        None => 0,
    }
}

/// Reduces each value to the byte that stands for it, in the same order.
pub fn bytes_of(values: &Vec<i64>) -> (bytes: Vec<u8>)
    ensures
        bytes@.len() == values@.len(),
        forall|i: int| 0 <= i < values@.len() ==> bytes@[i] == low_byte(#[trigger] values@[i]),
{
    let mut bytes: Vec<u8> = Vec::new();
    let mut at: usize = 0;
    while at < values.len()
        invariant
            at <= values@.len(),
            bytes@.len() == at,
            forall|i: int| 0 <= i < at ==> bytes@[i] == low_byte(#[trigger] values@[i]),
        decreases values@.len() - at,
    {
        bytes.push(byte_of(values[at]));
        at += 1;
    }
    bytes
}

/// The byte that stands for a value is its lowest eight bits.
pub proof fn lemma_low_byte_masks(value: i64)
    ensures
        low_byte(value) == value & 0xff,
{
    assert(value as int % 256 == value & 0xff) by (bit_vector);
}

/// The character that writes the digit `digit`.
pub open spec fn digit_char(digit: nat) -> char
    recommends
        digit < 10,
{
    ('0' as nat + digit) as char
}

/// The digits that write `n` in base ten, without leading zeros; zero is
/// written `0`.
pub open spec fn digits_of(n: nat) -> Seq<char>
    decreases n,
{
    if n < 10 {
        seq![digit_char(n)]
    } else {
        digits_of(n / 10).push(digit_char(n % 10))
    }
}

/// The decimal text of `value`: its digits, after a minus sign where it is
/// negative.
pub open spec fn decimal_text(value: int) -> Seq<char> {
    if value < 0 {
        seq!['-'] + digits_of((-value) as nat)
    } else {
        digits_of(value as nat)
    }
}

/// The decimal texts of `values` in their order, with a comma and a space
/// between one and the next.
pub open spec fn listed(values: Seq<i64>) -> Seq<char>
    decreases values.len(),
{
    if values.len() == 0 {
        Seq::empty()
    } else if values.len() == 1 {
        decimal_text(values[0] as int)
    } else {
        listed(values.drop_last()) + seq![',', ' '] + decimal_text(values.last() as int)
    }
}

/// The text of one digit.
fn digit_text(digit: u64) -> (text: &'static str)
    requires
        digit < 10,
    ensures
        text@ == seq![digit_char(digit as nat)],
{
    proof {
        reveal_strlit("0");
        reveal_strlit("1");
        reveal_strlit("2");
        reveal_strlit("3");
        reveal_strlit("4");
        reveal_strlit("5");
        reveal_strlit("6");
        reveal_strlit("7");
        reveal_strlit("8");
        reveal_strlit("9");
    }
    let text = if digit == 0 {
        "0"
    } else if digit == 1 {
        "1"
    } else if digit == 2 {
        "2"
    } else if digit == 3 {
        "3"
    } else if digit == 4 {
        "4"
    } else if digit == 5 {
        "5"
    } else if digit == 6 {
        "6"
    } else if digit == 7 {
        "7"
    } else if digit == 8 {
        "8"
    } else {
        "9"
    };
    assert(text@ =~= seq![digit_char(digit as nat)]);
    text
}

/// Appends the digits of `n` to `text`.
fn append_digits(text: &mut String, n: u64)
    ensures
        final(text)@ == old(text)@ + digits_of(n as nat),
    decreases n,
{
    if n >= 10 {
        append_digits(text, n / 10);
    }
    text.append(digit_text(n % 10));
    assert(text@ =~= old(text)@ + digits_of(n as nat));
}

/// Appends the decimal text of `value` to `text`.
pub fn append_decimal(text: &mut String, value: i64)
    ensures
        final(text)@ == old(text)@ + decimal_text(value as int),
{
    if value < 0 {
        proof {
            reveal_strlit("-");
        }
        text.append("-");
        let magnitude = (-(value as i128)) as u64;
        append_digits(text, magnitude);
        assert(text@ =~= old(text)@ + decimal_text(value as int));
    } else {
        append_digits(text, value as u64);
    }
}

} // verus!
