//! What comes from chance and from the clock. Nothing can be said of the values beforehand: the
//! functions that draw them hand them on to functions that are verified for every value.

use vstd::prelude::*;

verus! {

/// A number drawn by `rand::random`. Nothing is claimed of it.
#[verifier::external_body]
pub(crate) fn random_u64() -> (res: u64) {
    rand::random::<u64>()
}

/// Thirty-two bytes drawn by `rand::random`. Nothing is claimed of them.
#[verifier::external_body]
pub(crate) fn random_bytes() -> (res: [u8; 32]) {
    rand::random::<[u8; 32]>()
}

/// The seconds since the Unix epoch, by `chrono::Utc::now`. Nothing is claimed of them.
#[verifier::external_body]
pub(crate) fn now_seconds() -> (res: i64) {
    chrono::Utc::now().timestamp()
}

/// A lower-case hexadecimal digit.
pub open spec fn is_hex_digit(c: char) -> bool {
    '0' <= c <= '9' || 'a' <= c <= 'f'
}

/// The abridged text of a hash: `0x`, its first two bytes, an ellipsis, its last two bytes.
pub open spec fn is_abridged_hash(text: Seq<char>) -> bool {
    &&& text.len() == 11
    &&& text[0] == '0'
    &&& text[1] == 'x'
    &&& text[6] == '\u{2026}'
    &&& forall|i: int| (2 <= i < 6 || 7 <= i < 11) ==> is_hex_digit(#[trigger] text[i])
}

/// The text of a hash of 32 bytes drawn by `ethereum_types::H256::random`, whose `Display` abridges
/// it. Nothing is claimed of the digits.
#[verifier::external_body]
pub(crate) fn random_h256_text() -> (res: String)
    ensures
        is_abridged_hash(res@),
{
    ethereum_types::H256::random().to_string()
}

/// The text of a hash of 20 bytes drawn by `ethereum_types::H160::random`, whose `Display` abridges
/// it. Nothing is claimed of the digits.
#[verifier::external_body]
pub(crate) fn random_h160_text() -> (res: String)
    ensures
        is_abridged_hash(res@),
{
    ethereum_types::H160::random().to_string()
}

} // verus!
