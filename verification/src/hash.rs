//! Digests and their texts.

use vstd::prelude::*;

verus! {

/// The SHA-256 digest of `data`.
pub uninterp spec fn sha256_digest(data: Seq<u8>) -> Seq<u8>;

/// The digest of `data`, by `sha2::Sha256`: 32 bytes that depend on `data` alone.
#[verifier::external_body]
pub(crate) fn sha256(data: &[u8]) -> (res: Vec<u8>)
    ensures
        res@ == sha256_digest(data@),
        res@.len() == 32,
{
    <sha2::Sha256 as sha2::Digest>::digest(data).to_vec()
}

/// The character of a digit under sixteen: `0` to `9`, then `a` to `f`.
pub open spec fn hex_digit(d: nat) -> char {
    if d < 10 {
        (48 + d) as char
    } else {
        (87 + d) as char
    }
}

/// Two digits for each byte, the high one first.
pub open spec fn hex_text(bytes: Seq<u8>) -> Seq<char> {
    Seq::new(
        2 * bytes.len(),
        |i: int|
            if i % 2 == 0 {
                hex_digit(bytes[i / 2] as nat / 16)
            } else {
                hex_digit(bytes[i / 2] as nat % 16)
            },
    )
}

/// The bytes in lower-case hexadecimal, by `hex::encode`.
#[verifier::external_body]
pub(crate) fn hex_encode(bytes: &[u8]) -> (res: String)
    ensures
        res@ == hex_text(bytes@),
{
    hex::encode(bytes)
}

/// What a digit in hexadecimal is worth.
pub open spec fn is_digit_of(c: char, d: int) -> bool {
    if c as int <= 57 {
        '0' <= c && d == c as int - 48
    } else {
        'a' <= c <= 'f' && d == c as int - 87
    }
}

/// Every byte is told by two digits, of which the first counts sixteen times as much, so that the
/// bytes can be told from the text.
pub proof fn law_hex_tells_every_byte(bytes: Seq<u8>, i: int)
    requires
        0 <= i < bytes.len(),
    ensures
        hex_text(bytes).len() == 2 * bytes.len(),
        exists|high: int, low: int|
            {
                &&& #[trigger] is_digit_of(hex_text(bytes)[2 * i], high)
                &&& #[trigger] is_digit_of(hex_text(bytes)[2 * i + 1], low)
                &&& bytes[i] == 16 * high + low
            },
{
    let byte = bytes[i] as nat;
    assert((2 * i) / 2 == i);
    assert((2 * i + 1) / 2 == i);
    assert(is_digit_of(hex_text(bytes)[2 * i], byte as int / 16));
    assert(is_digit_of(hex_text(bytes)[2 * i + 1], byte as int % 16));
}

} // verus!
