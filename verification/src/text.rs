//! Texts: their order, and the numbers in them.

use vstd::prelude::*;
use vstd::utf8::{
    encode_utf8, encode_utf8_first_scalar, encode_utf8_valid_utf8, is_ascii_chars,
    is_ascii_chars_encode_utf8, is_char_boundary, pop_first_scalar,
};

use crate::hash::hex_digit;

verus! {

/// The order of byte strings: by the first byte in which they differ, a proper prefix first.
pub open spec fn bytes_before(a: Seq<u8>, b: Seq<u8>) -> bool
    decreases a.len(),
{
    if b.len() == 0 {
        false
    } else if a.len() == 0 {
        true
    } else if a[0] != b[0] {
        a[0] < b[0]
    } else {
        bytes_before(a.drop_first(), b.drop_first())
    }
}

/// The order of texts: that of their UTF-8 bytes.
pub open spec fn text_before(a: Seq<char>, b: Seq<char>) -> bool {
    bytes_before(encode_utf8(a), encode_utf8(b))
}

proof fn lemma_bytes_irreflexive(a: Seq<u8>)
    ensures
        !bytes_before(a, a),
    decreases a.len(),
{
    if a.len() > 0 {
        lemma_bytes_irreflexive(a.drop_first());
    }
}

proof fn lemma_bytes_transitive(a: Seq<u8>, b: Seq<u8>, c: Seq<u8>)
    requires
        bytes_before(a, b),
        bytes_before(b, c),
    ensures
        bytes_before(a, c),
    decreases a.len(),
{
    if a.len() > 0 && b.len() > 0 && c.len() > 0 && a[0] == b[0] && b[0] == c[0] {
        lemma_bytes_transitive(a.drop_first(), b.drop_first(), c.drop_first());
    }
}

proof fn lemma_bytes_total(a: Seq<u8>, b: Seq<u8>)
    ensures
        a == b || bytes_before(a, b) || bytes_before(b, a),
    decreases a.len(),
{
    if a.len() > 0 && b.len() > 0 && a[0] == b[0] {
        lemma_bytes_total(a.drop_first(), b.drop_first());
        if a.drop_first() == b.drop_first() {
            assert(a =~= seq![a[0]] + a.drop_first());
            assert(b =~= seq![b[0]] + b.drop_first());
        }
    } else if a.len() == 0 && b.len() == 0 {
        assert(a =~= b);
    }
}

/// No text stands before itself.
pub proof fn lemma_text_irreflexive(a: Seq<char>)
    ensures
        !text_before(a, a),
{
    lemma_bytes_irreflexive(encode_utf8(a));
}

/// A text before one that is before a third is before the third.
pub proof fn lemma_text_transitive(a: Seq<char>, b: Seq<char>, c: Seq<char>)
    requires
        text_before(a, b),
        text_before(b, c),
    ensures
        text_before(a, c),
{
    lemma_bytes_transitive(encode_utf8(a), encode_utf8(b), encode_utf8(c));
}

/// Of two texts that differ, one stands before the other.
pub proof fn lemma_text_total(a: Seq<char>, b: Seq<char>)
    ensures
        a == b || text_before(a, b) || text_before(b, a),
{
    lemma_bytes_total(encode_utf8(a), encode_utf8(b));
    vstd::utf8::encode_utf8_decode_utf8(a);
    vstd::utf8::encode_utf8_decode_utf8(b);
}

/// Whether `a` stands before `b`.
pub fn is_before(a: &str, b: &str) -> (res: bool)
    ensures
        res == text_before(a@, b@),
{
    let left = a.as_bytes();
    let right = b.as_bytes();
    let mut i: usize = 0;
    assert(left@.skip(0) =~= left@);
    assert(right@.skip(0) =~= right@);
    while i < left.len() && i < right.len() && left[i] == right[i]
        invariant
            i <= left@.len(),
            i <= right@.len(),
            bytes_before(left@, right@) == bytes_before(
                left@.skip(i as int),
                right@.skip(i as int),
            ),
        decreases left@.len() - i,
    {
        assert(left@.skip(i as int).drop_first() =~= left@.skip(i + 1));
        assert(right@.skip(i as int).drop_first() =~= right@.skip(i + 1));
        i = i + 1;
    }
    if i < left.len() && i < right.len() {
        left[i] < right[i]
    } else {
        i < right.len()
    }
}

/// A number in lower-case hexadecimal, without leading zeros.
pub open spec fn hex_digits(n: nat) -> Seq<char>
    decreases n,
{
    if n < 16 {
        seq![hex_digit(n)]
    } else {
        hex_digits(n / 16).push(hex_digit(n % 16))
    }
}

/// A number in decimal, without leading zeros.
pub open spec fn decimal_digits(n: nat) -> Seq<char>
    decreases n,
{
    if n < 10 {
        seq![hex_digit(n)]
    } else {
        decimal_digits(n / 10).push(hex_digit(n % 10))
    }
}

/// The text of a digit under sixteen.
fn digit_text(d: u64) -> (res: &'static str)
    requires
        d < 16,
    ensures
        res@ == seq![hex_digit(d as nat)],
{
    proof {
        reveal_strlit("0");
        reveal_strlit("1");
        reveal_strlit("2");
        reveal_strlit("3");
        reveal_strlit("4");
        reveal_strlit("5");
        reveal_strlit("6");
        reveal_strlit("7");
        reveal_strlit("8");
        reveal_strlit("9");
        reveal_strlit("a");
        reveal_strlit("b");
        reveal_strlit("c");
        reveal_strlit("d");
        reveal_strlit("e");
        reveal_strlit("f");
    }
    let res = match d {
        0 => "0",
        1 => "1",
        2 => "2",
        3 => "3",
        4 => "4",
        5 => "5",
        6 => "6",
        7 => "7",
        8 => "8",
        9 => "9",
        10 => "a",
        11 => "b",
        12 => "c",
        13 => "d",
        14 => "e",
        _ => "f",
    };
    assert(res@ =~= seq![hex_digit(d as nat)]);
    res
}

/// A number in lower-case hexadecimal.
fn hex_number(n: u64) -> (res: String)
    ensures
        res@ == hex_digits(n as nat),
    decreases n,
{
    if n < 16 {
        digit_text(n).to_owned()
    } else {
        let high = hex_number(n / 16);
        let res = high.concat(digit_text(n % 16));
        assert(res@ =~= hex_digits(n as nat));
        res
    }
}

/// A number in lower-case hexadecimal, after `0x`.
pub fn prefixed_hex(n: u64) -> (res: String)
    ensures
        res@ == "0x"@ + hex_digits(n as nat),
{
    "0x".to_owned().concat(hex_number(n).as_str())
}

/// A number in decimal.
pub fn decimal_number(n: u64) -> (res: String)
    ensures
        res@ == decimal_digits(n as nat),
    decreases n,
{
    if n < 10 {
        digit_text(n).to_owned()
    } else {
        let high = decimal_number(n / 10);
        let res = high.concat(digit_text(n % 10));
        assert(res@ =~= decimal_digits(n as nat));
        res
    }
}

/// What a byte is worth as a hexadecimal digit, in either case.
pub open spec fn hex_worth(byte: u8) -> Option<nat> {
    if 48 <= byte <= 57 {
        Some((byte - 48) as nat)
    } else if 97 <= byte <= 102 {
        Some((byte - 87) as nat)
    } else if 65 <= byte <= 70 {
        Some((byte - 55) as nat)
    } else {
        None
    }
}

/// Whether all bytes are hexadecimal digits.
pub open spec fn all_hex(bytes: Seq<u8>) -> bool {
    forall|i: int| 0 <= i < bytes.len() ==> hex_worth(#[trigger] bytes[i]) is Some
}

/// What hexadecimal digits say, the first one counting most.
pub open spec fn hex_sum(bytes: Seq<u8>) -> nat
    decreases bytes.len(),
{
    if bytes.len() == 0 {
        0
    } else {
        hex_sum(bytes.drop_last()) * 16 + hex_worth(bytes.last())->0
    }
}

/// The number of 64 bits that bytes say in hexadecimal: digits, at least one, with or without a `+`
/// before them.
pub open spec fn parsed_hex(bytes: Seq<u8>) -> Option<u64> {
    let digits = if bytes.len() > 0 && bytes[0] == 43 {
        bytes.skip(1)
    } else {
        bytes
    };
    if digits.len() > 0 && all_hex(digits) && hex_sum(digits) <= u64::MAX {
        Some(hex_sum(digits) as u64)
    } else {
        None
    }
}

/// More digits never say less.
proof fn lemma_hex_sum_grows(bytes: Seq<u8>, i: int)
    requires
        0 <= i <= bytes.len(),
    ensures
        hex_sum(bytes.take(i)) <= hex_sum(bytes),
    decreases bytes.len() - i,
{
    if i < bytes.len() {
        lemma_hex_sum_grows(bytes, i + 1);
        assert(bytes.take(i + 1).drop_last() =~= bytes.take(i));
    } else {
        assert(bytes.take(i) =~= bytes);
    }
}

/// What a byte is worth as a hexadecimal digit.
fn digit_worth(byte: u8) -> (res: Option<u64>)
    ensures
        match res {
            Some(worth) => worth < 16 && hex_worth(byte) == Some(worth as nat),
            None => hex_worth(byte) is None,
        },
{
    if 48 <= byte && byte <= 57 {
        Some((byte - 48) as u64)
    } else if 97 <= byte && byte <= 102 {
        Some((byte - 87) as u64)
    } else if 65 <= byte && byte <= 70 {
        Some((byte - 55) as u64)
    } else {
        None
    }
}

/// The number that the bytes from `start` on say in hexadecimal.
pub fn parse_hex(bytes: &[u8], start: usize) -> (res: Option<u64>)
    requires
        start <= bytes@.len(),
    ensures
        res == parsed_hex(bytes@.skip(start as int)),
{
    let from: usize = if start < bytes.len() && bytes[start] == 43 {
        start + 1
    } else {
        start
    };
    let ghost digits = bytes@.skip(from as int);
    assert(from > start ==> digits =~= bytes@.skip(start as int).skip(1));
    if from == bytes.len() {
        return None;
    }
    let mut value: u64 = 0;
    let mut i: usize = from;
    assert(digits.take(0) =~= seq![]);
    while i < bytes.len()
        invariant
            start <= from <= i <= bytes@.len(),
            from < bytes@.len(),
            digits == bytes@.skip(from as int),
            parsed_hex(bytes@.skip(start as int)) == if all_hex(digits) && hex_sum(digits)
                <= u64::MAX {
                Some(hex_sum(digits) as u64)
            } else {
                None
            },
            forall|k: int| 0 <= k < i - from ==> hex_worth(#[trigger] digits[k]) is Some,
            value == hex_sum(digits.take(i - from)),
        decreases bytes@.len() - i,
    {
        let ghost k = i - from;
        assert(digits[k] == bytes@[i as int]);
        assert(digits.take(k + 1).drop_last() =~= digits.take(k));
        match digit_worth(bytes[i]) {
            Some(worth) => {
                proof {
                    lemma_hex_sum_grows(digits, k + 1);
                }
                if value > (u64::MAX - worth) / 16 {
                    assert(hex_sum(digits.take(k + 1)) > u64::MAX);
                    return None;
                }
                value = value * 16 + worth;
            },
            None => return None,
        }
        i = i + 1;
    }
    assert(digits.take(i - from) =~= digits);
    Some(value)
}

/// The digits of a number are hexadecimal digits that say the number.
proof fn lemma_hex_digits_say(n: nat, bytes: Seq<u8>)
    requires
        bytes == hex_digits(n).map_values(|c: char| c as u8),
    ensures
        bytes.len() > 0,
        bytes[0] != 43,
        all_hex(bytes),
        hex_sum(bytes) == n,
        is_ascii_chars(hex_digits(n)),
    decreases n,
{
    let last = (n % 16) as nat;
    assert(hex_digits(n).last() == hex_digit(last));
    assert(hex_worth(bytes.last()) == Some(last));
    if n < 16 {
        assert(bytes.drop_last() =~= seq![]);
        assert(hex_sum(bytes.drop_last()) == 0);
    } else {
        let high = hex_digits(n / 16).map_values(|c: char| c as u8);
        lemma_hex_digits_say(n / 16, high);
        assert(bytes.drop_last() =~= high);
        assert forall|i: int| 0 <= i < bytes.len() implies hex_worth(
            #[trigger] bytes[i],
        ) is Some by {
            if i < high.len() {
                assert(bytes[i] == high[i]);
            }
        }
        assert(bytes[0] == high[0]);
    }
}

/// A number that is told in hexadecimal, after `0x`, is understood as that number.
pub proof fn law_hex_read_back(n: u64)
    ensures
        is_char_boundary(encode_utf8("0x"@ + hex_digits(n as nat)), 2),
        parsed_hex(encode_utf8("0x"@ + hex_digits(n as nat)).skip(2)) == Some(n),
{
    reveal_strlit("0x");
    let text = "0x"@ + hex_digits(n as nat);
    let bytes = hex_digits(n as nat).map_values(|c: char| c as u8);
    lemma_hex_digits_say(n as nat, bytes);
    assert(is_ascii_chars(text));
    is_ascii_chars_encode_utf8(text);
    assert(encode_utf8(text).skip(2) =~= bytes);
    encode_utf8_valid_utf8(text);
    encode_utf8_first_scalar(text);
    reveal_with_fuel(is_char_boundary, 3);
    let rest = text.drop_first();
    encode_utf8_valid_utf8(rest);
    encode_utf8_first_scalar(rest);
    assert(pop_first_scalar(encode_utf8(text)) =~= encode_utf8(rest));
    is_ascii_chars_encode_utf8(rest);
}

/// Texts are ordered by the first byte in which their UTF-8 differs: with the same bytes before it,
/// the text with the smaller byte stands before the other, and a text stands before every longer
/// one that starts with it.
pub proof fn law_texts_are_ordered_by_their_bytes(
    a: &str,
    b: &str,
    res: bool,
    common: Seq<u8>,
    left: Seq<u8>,
    right: Seq<u8>,
)
    requires
        call_ensures(is_before, (a, b), res),
        encode_utf8(a@) == common + left,
        encode_utf8(b@) == common + right,
        left.len() > 0 && right.len() > 0 ==> left[0] != right[0],
    ensures
        left.len() > 0 && right.len() > 0 ==> res == (left[0] < right[0]),
        left.len() == 0 ==> res == (right.len() > 0),
        right.len() == 0 ==> !res,
{
    lemma_common_bytes(common, left, right);
}

proof fn lemma_common_bytes(common: Seq<u8>, left: Seq<u8>, right: Seq<u8>)
    ensures
        bytes_before(common + left, common + right) == bytes_before(left, right),
    decreases common.len(),
{
    if common.len() == 0 {
        assert(common + left =~= left);
        assert(common + right =~= right);
    } else {
        let rest = common.drop_first();
        lemma_common_bytes(rest, left, right);
        assert((common + left).drop_first() =~= rest + left);
        assert((common + right).drop_first() =~= rest + right);
    }
}

/// A number in hexadecimal is `0x` and lower-case digits, at least one, the first of which is 0 for
/// the number 0 alone.
pub proof fn law_hex_is_short_and_lower_case(n: u64, res: String, i: int)
    requires
        call_ensures(prefixed_hex, (n,), res),
    ensures
        res@.len() >= 3,
        res@[0] == '0',
        res@[1] == 'x',
        2 <= i < res@.len() ==> '0' <= res@[i] <= '9' || 'a' <= res@[i] <= 'f',
        n > 0 ==> res@[2] != '0',
        n == 0 ==> res@.len() == 3 && res@[2] == '0',
        parsed_hex(encode_utf8(res@).skip(2)) == Some(n),
{
    reveal_strlit("0x");
    law_hex_read_back(n);
    lemma_hex_digits_shape(n as nat);
    assert(res@.skip(2) =~= hex_digits(n as nat));
    if 2 <= i < res@.len() {
        assert(res@[i] == hex_digits(n as nat)[i - 2]);
    }
}

proof fn lemma_hex_digits_shape(n: nat)
    ensures
        hex_digits(n).len() >= 1,
        n > 0 ==> hex_digits(n)[0] != '0',
        n == 0 ==> hex_digits(n).len() == 1 && hex_digits(n)[0] == '0',
        forall|i: int|
            0 <= i < hex_digits(n).len() ==> '0' <= #[trigger] hex_digits(n)[i] <= '9' || 'a'
                <= hex_digits(n)[i] <= 'f',
    decreases n,
{
    if n >= 16 {
        lemma_hex_digits_shape(n / 16);
    }
}

/// What a character is worth as a digit in hexadecimal, in either case.
pub open spec fn is_worth(byte: u8, worth: int) -> bool {
    ||| 48 <= byte <= 57 && worth == byte - 48
    ||| 97 <= byte <= 102 && worth == byte - 97 + 10
    ||| 65 <= byte <= 70 && worth == byte - 65 + 10
}

/// How digits are read: a further digit makes a number sixteen times as large and adds what it is
/// worth, unless the number gets too large; anything but a digit makes it no number; no digits say
/// no number; and a plus sign before digits changes nothing.
pub proof fn law_hex_is_read_digit_by_digit(bytes: Seq<u8>, byte: u8, worth: int)
    ensures
        parsed_hex(Seq::empty()) is None,
        is_worth(byte, worth) ==> parsed_hex(seq![byte]) == Some(worth as u64),
        is_worth(byte, worth) ==> (parsed_hex(bytes) matches Some(n) ==> parsed_hex(
            bytes.push(byte),
        ) == if n * 16 + worth <= u64::MAX {
            Some((n * 16 + worth) as u64)
        } else {
            None
        }),
        bytes.len() > 0 && !(exists|w: int| is_worth(byte, w)) ==> parsed_hex(
            bytes.push(byte),
        ) is None,
        bytes.len() > 0 && bytes[0] != 43 ==> parsed_hex(seq![43u8] + bytes) == parsed_hex(bytes),
        parsed_hex(seq![43u8]) is None,
{
    assert(hex_worth(byte) matches Some(w) ==> is_worth(byte, w as int));
    let one = seq![byte];
    assert(one.drop_last() =~= seq![]);
    assert(hex_sum(one.drop_last()) == 0);
    assert(one[0] == byte && one.last() == byte);
    let digits = if bytes.len() > 0 && bytes[0] == 43 {
        bytes.skip(1)
    } else {
        bytes
    };
    let longer = bytes.push(byte);
    let more = digits.push(byte);
    assert(more.drop_last() =~= digits);
    assert(more.last() == byte);
    assert(more[more.len() - 1] == byte);
    if bytes.len() > 0 {
        assert(longer[0] == bytes[0]);
        if bytes[0] == 43 {
            assert(longer.skip(1) =~= more);
        } else {
            assert(longer =~= more);
        }
    }
    assert forall|i: int| 0 <= i < more.len() && hex_worth(byte) is Some && all_hex(
        digits,
    ) implies hex_worth(#[trigger] more[i]) is Some by {
        if i < digits.len() {
            assert(more[i] == digits[i]);
        }
    }
    let signed = seq![43u8] + bytes;
    assert(signed.skip(1) =~= bytes);
    assert(signed[0] == 43);
    assert(seq![43u8].skip(1) =~= seq![]);
    assert(Seq::<u8>::empty().len() == 0);
}

/// A number in decimal is that of its tenth, unless it has one digit, and then its last digit.
pub proof fn law_decimal_is_told_digit_by_digit(n: u64, d: u64, high: String, res: String)
    requires
        d < 10,
        n * 10 + d <= u64::MAX,
        call_ensures(decimal_number, (n,), high),
        call_ensures(decimal_number, ((n * 10 + d) as u64,), res),
    ensures
        n == 0 ==> res@.len() == 1 && res@[0] as int == 48 + d,
        n > 0 ==> res@.len() == high@.len() + 1 && res@.drop_last() == high@ && res@.last() as int
            == 48 + d,
{
    assert((n * 10 + d) / 10 == n);
    assert((n * 10 + d) % 10 == d);
}

} // verus!
