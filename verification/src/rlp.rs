//! Headers and transactions as RLP bytes.
//!
//! The encoding of the items is done by `alloy_rlp`. What a list of items holds, and in which
//! order, is laid down here.

use vstd::prelude::*;
use vstd::utf8::encode_utf8;

use crate::interface::{transaction_views, Header, HeaderView, Transaction, TransactionView};

verus! {

/// Bytes that are not the encoding of the value that was asked for.
#[derive(Debug, Clone, Copy, PartialEq, Eq)]
pub struct DecodeError;

/// The big-endian bytes of `n`, without leading zeros.
pub open spec fn be_bytes(n: nat) -> Seq<u8>
    decreases n,
{
    if n == 0 {
        seq![]
    } else {
        be_bytes(n / 256).push((n % 256) as u8)
    }
}

/// What stands before a payload of `len` bytes; `base` is 0x80 for a string, 0xc0 for a list.
pub open spec fn rlp_prefix(base: int, len: nat) -> Seq<u8> {
    if len < 56 {
        seq![(base + len) as u8]
    } else {
        seq![(base + 55 + be_bytes(len).len()) as u8] + be_bytes(len)
    }
}

/// A byte string: a byte under 0x80 is its own encoding.
pub open spec fn rlp_bytes(bytes: Seq<u8>) -> Seq<u8> {
    if bytes.len() == 1 && bytes[0] < 0x80 {
        bytes
    } else {
        rlp_prefix(0x80, bytes.len()) + bytes
    }
}

/// A number: the string of its big-endian bytes.
pub open spec fn rlp_u64(n: u64) -> Seq<u8> {
    rlp_bytes(be_bytes(n as nat))
}

/// A text: the string of its UTF-8 bytes.
pub open spec fn rlp_text(text: Seq<char>) -> Seq<u8> {
    rlp_bytes(encode_utf8(text))
}

/// A list whose items, one after the other, are `payload`.
pub open spec fn rlp_list(payload: Seq<u8>) -> Seq<u8> {
    rlp_prefix(0xc0, payload.len()) + payload
}

/// Appends the encoding of a number, by `<u64 as alloy_rlp::Encodable>::encode`: the big-endian
/// bytes without leading zeros, as a byte string.
#[verifier::external_body]
fn encode_u64(n: u64, out: &mut Vec<u8>)
    ensures
        final(out)@ == old(out)@ + rlp_u64(n),
{
    alloy_rlp::Encodable::encode(&n, out)
}

/// Appends the encoding of a text, by `<str as alloy_rlp::Encodable>::encode`: its UTF-8 bytes, as
/// a byte string.
#[verifier::external_body]
fn encode_text(text: &str, out: &mut Vec<u8>)
    ensures
        final(out)@ == old(out)@ + rlp_text(text@),
{
    alloy_rlp::Encodable::encode(text, out)
}

/// Appends what stands before a list of `payload_length` bytes, by `alloy_rlp::Header::encode`.
#[verifier::external_body]
fn encode_list_prefix(payload_length: usize, out: &mut Vec<u8>)
    ensures
        final(out)@ == old(out)@ + rlp_prefix(0xc0, payload_length as nat),
{
    alloy_rlp::Header { list: true, payload_length }.encode(out)
}

/// Reads a number off the front, by `<u64 as alloy_rlp::Decodable>::decode`, and returns it with
/// what follows. It succeeds exactly where the bytes start with the encoding of a number: leading
/// zeros, a needless prefix and more than eight bytes are errors.
#[verifier::external_body]
fn decode_u64(bytes: &[u8]) -> (res: Result<(u64, &[u8]), DecodeError>)
    ensures
        match res {
            Ok((n, rest)) => bytes@ == rlp_u64(n) + rest@,
            Err(_) => forall|n: u64, rest: Seq<u8>| bytes@ != #[trigger] (rlp_u64(n) + rest),
        },
{
    let mut rest = bytes;
    let n = <u64 as alloy_rlp::Decodable>::decode(&mut rest).map_err(|_| DecodeError)?;
    Ok((n, rest))
}

/// Reads a text off the front, by `<String as alloy_rlp::Decodable>::decode`, and returns it with
/// what follows. It succeeds exactly where the bytes start with the encoding of a text: bytes that
/// are no UTF-8, a needless prefix and a list are errors.
#[verifier::external_body]
fn decode_text(bytes: &[u8]) -> (res: Result<(String, &[u8]), DecodeError>)
    ensures
        match res {
            Ok((text, rest)) => bytes@ == rlp_text(text@) + rest@,
            Err(_) => forall|text: Seq<char>, rest: Seq<u8>|
                bytes@ != #[trigger] (rlp_text(text) + rest),
        },
{
    let mut rest = bytes;
    let text = <String as alloy_rlp::Decodable>::decode(&mut rest).map_err(|_| DecodeError)?;
    Ok((text, rest))
}

/// Splits a list off the front, by `alloy_rlp::Header::decode_bytes`, and returns its payload and
/// what follows. It succeeds exactly where the bytes start with a list whose payload is there in
/// full and whose prefix is the shortest one.
#[verifier::external_body]
fn decode_list(bytes: &[u8]) -> (res: Result<(&[u8], &[u8]), DecodeError>)
    ensures
        match res {
            Ok((payload, rest)) => bytes@ == rlp_list(payload@) + rest@,
            Err(_) => forall|payload: Seq<u8>, rest: Seq<u8>|
                bytes@ != #[trigger] (rlp_list(payload) + rest),
        },
{
    let mut rest = bytes;
    let payload = alloy_rlp::Header::decode_bytes(&mut rest, true).map_err(|_| DecodeError)?;
    Ok((payload, rest))
}

/// The fields of a header in the order in which they are encoded.
pub open spec fn header_fields(h: HeaderView) -> Seq<u8> {
    rlp_u64(h.number) + (rlp_text(h.parent_hash) + (rlp_text(h.state_root) + (rlp_u64(h.timestamp)
        + (rlp_u64(h.nonce) + rlp_text(h.hash)))))
}

/// A header: the list of its fields.
pub open spec fn header_rlp(h: HeaderView) -> Seq<u8> {
    rlp_list(header_fields(h))
}

/// The fields of a transaction in the order in which they are encoded.
pub open spec fn transaction_fields(t: TransactionView) -> Seq<u8> {
    rlp_text(t.hash) + (rlp_text(t.from) + (rlp_text(t.to) + (rlp_u64(t.value) + rlp_u64(t.nonce))))
}

/// A transaction: the list of its fields.
pub open spec fn transaction_rlp(t: TransactionView) -> Seq<u8> {
    rlp_list(transaction_fields(t))
}

/// Transactions, one after the other.
pub open spec fn transactions_payload(txs: Seq<TransactionView>) -> Seq<u8>
    decreases txs.len(),
{
    if txs.len() == 0 {
        seq![]
    } else {
        transactions_payload(txs.drop_last()) + transaction_rlp(txs.last())
    }
}

/// Several transactions: the list of them.
pub open spec fn transactions_rlp(txs: Seq<TransactionView>) -> Seq<u8> {
    rlp_list(transactions_payload(txs))
}

/// A number of eight bytes has at most eight big-endian bytes.
proof fn lemma_be_bytes_len(n: nat)
    requires
        n <= u64::MAX,
    ensures
        be_bytes(n).len() <= 8,
        n > 0 ==> be_bytes(n).len() >= 1,
{
    reveal_with_fuel(be_bytes, 9);
}

/// Different numbers have different big-endian bytes.
proof fn lemma_be_bytes_injective(a: nat, b: nat)
    requires
        be_bytes(a) == be_bytes(b),
    ensures
        a == b,
    decreases a,
{
    if a != 0 && b != 0 {
        assert(be_bytes(a).drop_last() == be_bytes(a / 256));
        assert(be_bytes(b).drop_last() == be_bytes(b / 256));
        assert(be_bytes(a).last() == (a % 256) as u8);
        assert(be_bytes(b).last() == (b % 256) as u8);
        lemma_be_bytes_injective(a / 256, b / 256);
    }
}

/// What stands before a payload can be told from what follows it.
proof fn lemma_prefix_split(base: int, m: nat, n: nat, r: Seq<u8>, s: Seq<u8>)
    requires
        base == 0x80 || base == 0xc0,
        m <= u64::MAX,
        n <= u64::MAX,
        rlp_prefix(base, m) + r == rlp_prefix(base, n) + s,
    ensures
        m == n,
        r == s,
{
    lemma_be_bytes_len(m);
    lemma_be_bytes_len(n);
    let whole = rlp_prefix(base, m) + r;
    assert(whole[0] == rlp_prefix(base, m)[0]);
    assert(whole[0] == rlp_prefix(base, n)[0]);
    assert(rlp_prefix(base, m).len() == rlp_prefix(base, n).len());
    let k = rlp_prefix(base, m).len() as int;
    assert(whole.take(k) =~= rlp_prefix(base, m));
    assert(whole.take(k) =~= rlp_prefix(base, n));
    assert(whole.skip(k) =~= r);
    assert(whole.skip(k) =~= s);
    if m >= 56 {
        assert(rlp_prefix(base, m).skip(1) =~= be_bytes(m));
        assert(rlp_prefix(base, n).skip(1) =~= be_bytes(n));
        lemma_be_bytes_injective(m, n);
    }
}

/// The first byte of a byte string.
proof fn lemma_rlp_bytes_first(b: Seq<u8>)
    requires
        b.len() <= u64::MAX,
    ensures
        rlp_bytes(b).len() >= 1,
        (b.len() == 1 && b[0] < 0x80) == (rlp_bytes(b)[0] < 0x80),
        rlp_bytes(b)[0] < 0xc0,
{
    lemma_be_bytes_len(b.len());
}

/// A byte string can be told from what follows it.
proof fn lemma_rlp_bytes_split(a: Seq<u8>, b: Seq<u8>, r: Seq<u8>, s: Seq<u8>)
    requires
        a.len() <= u64::MAX,
        b.len() <= u64::MAX,
        rlp_bytes(a) + r == rlp_bytes(b) + s,
    ensures
        a == b,
        r == s,
{
    lemma_rlp_bytes_first(a);
    lemma_rlp_bytes_first(b);
    let whole = rlp_bytes(a) + r;
    assert(whole[0] == rlp_bytes(a)[0]);
    assert(whole[0] == rlp_bytes(b)[0]);
    if a.len() == 1 && a[0] < 0x80 {
        assert(whole.take(1) =~= a);
        assert(whole.take(1) =~= b);
        assert(whole.skip(1) =~= r);
        assert(whole.skip(1) =~= s);
    } else {
        assert(whole =~= rlp_prefix(0x80, a.len()) + (a + r));
        assert(whole =~= rlp_prefix(0x80, b.len()) + (b + s));
        lemma_prefix_split(0x80, a.len(), b.len(), a + r, b + s);
        let k = a.len() as int;
        assert((a + r).take(k) =~= a);
        assert((b + s).take(k) =~= b);
        assert((a + r).skip(k) =~= r);
        assert((b + s).skip(k) =~= s);
    }
}

/// A number can be told from what follows it.
proof fn lemma_rlp_u64_split(a: u64, b: u64, r: Seq<u8>, s: Seq<u8>)
    requires
        rlp_u64(a) + r == rlp_u64(b) + s,
    ensures
        a == b,
        r == s,
{
    lemma_be_bytes_len(a as nat);
    lemma_be_bytes_len(b as nat);
    lemma_rlp_bytes_split(be_bytes(a as nat), be_bytes(b as nat), r, s);
    lemma_be_bytes_injective(a as nat, b as nat);
}

/// A text is no longer than its encoding.
proof fn lemma_rlp_text_len(a: Seq<char>)
    ensures
        encode_utf8(a).len() <= rlp_text(a).len(),
{
}

/// A text can be told from what follows it.
proof fn lemma_rlp_text_split(a: Seq<char>, b: Seq<char>, r: Seq<u8>, s: Seq<u8>)
    requires
        rlp_text(a) + r == rlp_text(b) + s,
        (rlp_text(a) + r).len() <= u64::MAX,
    ensures
        a == b,
        r == s,
{
    lemma_rlp_text_len(a);
    lemma_rlp_text_len(b);
    assert((rlp_text(b) + s).len() == rlp_text(b).len() + s.len());
    lemma_rlp_bytes_split(encode_utf8(a), encode_utf8(b), r, s);
    vstd::utf8::encode_utf8_decode_utf8(a);
    vstd::utf8::encode_utf8_decode_utf8(b);
}

/// A list can be told from what follows it.
proof fn lemma_rlp_list_split(a: Seq<u8>, b: Seq<u8>, r: Seq<u8>, s: Seq<u8>)
    requires
        rlp_list(a) + r == rlp_list(b) + s,
        (rlp_list(a) + r).len() <= u64::MAX,
    ensures
        a == b,
        r == s,
{
    let whole = rlp_list(a) + r;
    assert(whole.len() == (rlp_list(b) + s).len());
    assert(whole =~= rlp_prefix(0xc0, a.len()) + (a + r));
    assert(whole =~= rlp_prefix(0xc0, b.len()) + (b + s));
    lemma_prefix_split(0xc0, a.len(), b.len(), a + r, b + s);
    let k = a.len() as int;
    assert((a + r).take(k) =~= a);
    assert((b + s).take(k) =~= b);
    assert((a + r).skip(k) =~= r);
    assert((b + s).skip(k) =~= s);
}

/// Headers with the same fields in bytes are the same.
proof fn lemma_header_fields_injective(a: HeaderView, b: HeaderView)
    requires
        header_fields(a) == header_fields(b),
        header_fields(a).len() <= u64::MAX,
    ensures
        a == b,
{
    let a5 = rlp_u64(a.nonce) + rlp_text(a.hash);
    let a4 = rlp_u64(a.timestamp) + a5;
    let a3 = rlp_text(a.state_root) + a4;
    let a2 = rlp_text(a.parent_hash) + a3;
    let b5 = rlp_u64(b.nonce) + rlp_text(b.hash);
    let b4 = rlp_u64(b.timestamp) + b5;
    let b3 = rlp_text(b.state_root) + b4;
    let b2 = rlp_text(b.parent_hash) + b3;
    lemma_rlp_u64_split(a.number, b.number, a2, b2);
    lemma_rlp_text_split(a.parent_hash, b.parent_hash, a3, b3);
    lemma_rlp_text_split(a.state_root, b.state_root, a4, b4);
    lemma_rlp_u64_split(a.timestamp, b.timestamp, a5, b5);
    lemma_rlp_u64_split(a.nonce, b.nonce, rlp_text(a.hash), rlp_text(b.hash));
    assert(rlp_text(a.hash) + Seq::<u8>::empty() =~= rlp_text(b.hash) + Seq::<u8>::empty());
    lemma_rlp_text_split(a.hash, b.hash, seq![], seq![]);
}

/// Transactions with the same fields in bytes are the same.
proof fn lemma_transaction_fields_injective(a: TransactionView, b: TransactionView)
    requires
        transaction_fields(a) == transaction_fields(b),
        transaction_fields(a).len() <= u64::MAX,
    ensures
        a == b,
{
    let a4 = rlp_u64(a.value) + rlp_u64(a.nonce);
    let a3 = rlp_text(a.to) + a4;
    let a2 = rlp_text(a.from) + a3;
    let b4 = rlp_u64(b.value) + rlp_u64(b.nonce);
    let b3 = rlp_text(b.to) + b4;
    let b2 = rlp_text(b.from) + b3;
    lemma_rlp_text_split(a.hash, b.hash, a2, b2);
    lemma_rlp_text_split(a.from, b.from, a3, b3);
    lemma_rlp_text_split(a.to, b.to, a4, b4);
    lemma_rlp_u64_split(a.value, b.value, rlp_u64(a.nonce), rlp_u64(b.nonce));
    assert(rlp_u64(a.nonce) + Seq::<u8>::empty() =~= rlp_u64(b.nonce) + Seq::<u8>::empty());
    lemma_rlp_u64_split(a.nonce, b.nonce, seq![], seq![]);
}

/// A header can be told from what follows it.
proof fn lemma_header_rlp_split(a: HeaderView, b: HeaderView, r: Seq<u8>, s: Seq<u8>)
    requires
        header_rlp(a) + r == header_rlp(b) + s,
        (header_rlp(a) + r).len() <= u64::MAX,
    ensures
        a == b,
        r == s,
{
    lemma_rlp_list_split(header_fields(a), header_fields(b), r, s);
    assert(header_fields(a).len() <= (header_rlp(a) + r).len());
    lemma_header_fields_injective(a, b);
}

/// A transaction can be told from what follows it.
proof fn lemma_transaction_rlp_split(
    a: TransactionView,
    b: TransactionView,
    r: Seq<u8>,
    s: Seq<u8>,
)
    requires
        transaction_rlp(a) + r == transaction_rlp(b) + s,
        (transaction_rlp(a) + r).len() <= u64::MAX,
    ensures
        a == b,
        r == s,
{
    lemma_rlp_list_split(transaction_fields(a), transaction_fields(b), r, s);
    assert(transaction_fields(a).len() <= (transaction_rlp(a) + r).len());
    lemma_transaction_fields_injective(a, b);
}

/// Fields appended one by one to an empty buffer are the fields of a header.
proof fn lemma_header_fields_in_order(v: HeaderView)
    ensures
        Seq::<u8>::empty() + rlp_u64(v.number) + rlp_text(v.parent_hash) + rlp_text(v.state_root)
            + rlp_u64(v.timestamp) + rlp_u64(v.nonce) + rlp_text(v.hash) == header_fields(v),
{
    let a0 = Seq::<u8>::empty();
    let a1 = a0 + rlp_u64(v.number);
    let a2 = a1 + rlp_text(v.parent_hash);
    let a3 = a2 + rlp_text(v.state_root);
    let a4 = a3 + rlp_u64(v.timestamp);
    let a5 = a4 + rlp_u64(v.nonce);
    let t5 = rlp_text(v.hash);
    let t4 = rlp_u64(v.nonce) + t5;
    let t3 = rlp_u64(v.timestamp) + t4;
    let t2 = rlp_text(v.state_root) + t3;
    let t1 = rlp_text(v.parent_hash) + t2;
    let t0 = rlp_u64(v.number) + t1;
    assert(a1 + t1 =~= a0 + t0);
    assert(a2 + t2 =~= a1 + t1);
    assert(a3 + t3 =~= a2 + t2);
    assert(a4 + t4 =~= a3 + t3);
    assert(a5 + t5 =~= a4 + t4);
    assert(a0 + t0 =~= t0);
}

/// Fields appended one by one to an empty buffer are the fields of a transaction.
proof fn lemma_transaction_fields_in_order(v: TransactionView)
    ensures
        Seq::<u8>::empty() + rlp_text(v.hash) + rlp_text(v.from) + rlp_text(v.to) + rlp_u64(v.value)
            + rlp_u64(v.nonce) == transaction_fields(v),
{
    let a0 = Seq::<u8>::empty();
    let a1 = a0 + rlp_text(v.hash);
    let a2 = a1 + rlp_text(v.from);
    let a3 = a2 + rlp_text(v.to);
    let a4 = a3 + rlp_u64(v.value);
    let t4 = rlp_u64(v.nonce);
    let t3 = rlp_u64(v.value) + t4;
    let t2 = rlp_text(v.to) + t3;
    let t1 = rlp_text(v.from) + t2;
    let t0 = rlp_text(v.hash) + t1;
    assert(a1 + t1 =~= a0 + t0);
    assert(a2 + t2 =~= a1 + t1);
    assert(a3 + t3 =~= a2 + t2);
    assert(a4 + t4 =~= a3 + t3);
    assert(a0 + t0 =~= t0);
}

/// The bytes of a header, as they are stored and broadcast.
pub fn encode_header(header: &Header) -> (res: Vec<u8>)
    ensures
        res@ == header_rlp(header@),
{
    let mut fields: Vec<u8> = Vec::new();
    encode_u64(header.number, &mut fields);
    encode_text(header.parent_hash.as_str(), &mut fields);
    encode_text(header.state_root.as_str(), &mut fields);
    encode_u64(header.timestamp, &mut fields);
    encode_u64(header.nonce, &mut fields);
    encode_text(header.hash.as_str(), &mut fields);
    proof {
        lemma_header_fields_in_order(header@);
    }
    let mut res: Vec<u8> = Vec::new();
    encode_list_prefix(fields.len(), &mut res);
    res.append(&mut fields);
    assert(res@ =~= header_rlp(header@));
    res
}

/// The bytes of a transaction.
pub fn encode_transaction(transaction: &Transaction) -> (res: Vec<u8>)
    ensures
        res@ == transaction_rlp(transaction@),
{
    let mut fields: Vec<u8> = Vec::new();
    encode_text(transaction.hash.as_str(), &mut fields);
    encode_text(transaction.from.as_str(), &mut fields);
    encode_text(transaction.to.as_str(), &mut fields);
    encode_u64(transaction.value, &mut fields);
    encode_u64(transaction.nonce, &mut fields);
    proof {
        lemma_transaction_fields_in_order(transaction@);
    }
    let mut res: Vec<u8> = Vec::new();
    encode_list_prefix(fields.len(), &mut res);
    res.append(&mut fields);
    assert(res@ =~= transaction_rlp(transaction@));
    res
}

/// The fields of a header, and nothing after them.
fn decode_header_fields(bytes: &[u8]) -> (res: Result<Header, DecodeError>)
    ensures
        match res {
            Ok(v) => bytes@ == header_fields(v@),
            Err(_) => forall|v: HeaderView| bytes@ != #[trigger] header_fields(v),
        },
{
    let len: usize = bytes.len();
    // What is left of the fields of `v` after each of them, if the bytes are those of some `v`.
    let ghost fits = exists|v: HeaderView| bytes@ == #[trigger] header_fields(v);
    let ghost v = choose|v: HeaderView| bytes@ == #[trigger] header_fields(v);
    let ghost tail6: Seq<u8> = seq![];
    let ghost tail5 = rlp_text(v.hash);
    let ghost tail4 = rlp_u64(v.nonce) + tail5;
    let ghost tail3 = rlp_u64(v.timestamp) + tail4;
    let ghost tail2 = rlp_text(v.state_root) + tail3;
    let ghost tail1 = rlp_text(v.parent_hash) + tail2;
    assert(tail5 =~= tail5 + tail6);
    let (number, rest1) = decode_u64(bytes)?;
    proof {
        if fits {
            lemma_rlp_u64_split(number, v.number, rest1@, tail1);
        }
    }
    let (parent_hash, rest2) = decode_text(rest1)?;
    proof {
        if fits {
            lemma_rlp_text_split(parent_hash@, v.parent_hash, rest2@, tail2);
        }
    }
    let (state_root, rest3) = decode_text(rest2)?;
    proof {
        if fits {
            lemma_rlp_text_split(state_root@, v.state_root, rest3@, tail3);
        }
    }
    let (timestamp, rest4) = decode_u64(rest3)?;
    proof {
        if fits {
            lemma_rlp_u64_split(timestamp, v.timestamp, rest4@, tail4);
        }
    }
    let (nonce, rest5) = decode_u64(rest4)?;
    proof {
        if fits {
            lemma_rlp_u64_split(nonce, v.nonce, rest5@, tail5);
        }
    }
    let (hash, rest6) = decode_text(rest5)?;
    proof {
        if fits {
            lemma_rlp_text_split(hash@, v.hash, rest6@, tail6);
        }
    }
    if rest6.len() > 0 {
        return Err(DecodeError);
    }
    assert(rest5@ =~= rlp_text(hash@));
    Ok(Header { number, parent_hash, state_root, timestamp, nonce, hash })
}

/// The fields of a transaction, and nothing after them.
fn decode_transaction_fields(bytes: &[u8]) -> (res: Result<Transaction, DecodeError>)
    ensures
        match res {
            Ok(v) => bytes@ == transaction_fields(v@),
            Err(_) => forall|v: TransactionView| bytes@ != #[trigger] transaction_fields(v),
        },
{
    let len: usize = bytes.len();
    // What is left of the fields of `v` after each of them, if the bytes are those of some `v`.
    let ghost fits = exists|v: TransactionView| bytes@ == #[trigger] transaction_fields(v);
    let ghost v = choose|v: TransactionView| bytes@ == #[trigger] transaction_fields(v);
    let ghost tail5: Seq<u8> = seq![];
    let ghost tail4 = rlp_u64(v.nonce);
    let ghost tail3 = rlp_u64(v.value) + tail4;
    let ghost tail2 = rlp_text(v.to) + tail3;
    let ghost tail1 = rlp_text(v.from) + tail2;
    assert(tail4 =~= tail4 + tail5);
    let (hash, rest1) = decode_text(bytes)?;
    proof {
        if fits {
            lemma_rlp_text_split(hash@, v.hash, rest1@, tail1);
        }
    }
    let (from, rest2) = decode_text(rest1)?;
    proof {
        if fits {
            lemma_rlp_text_split(from@, v.from, rest2@, tail2);
        }
    }
    let (to, rest3) = decode_text(rest2)?;
    proof {
        if fits {
            lemma_rlp_text_split(to@, v.to, rest3@, tail3);
        }
    }
    let (value, rest4) = decode_u64(rest3)?;
    proof {
        if fits {
            lemma_rlp_u64_split(value, v.value, rest4@, tail4);
        }
    }
    let (nonce, rest5) = decode_u64(rest4)?;
    proof {
        if fits {
            lemma_rlp_u64_split(nonce, v.nonce, rest5@, tail5);
        }
    }
    if rest5.len() > 0 {
        return Err(DecodeError);
    }
    assert(rest4@ =~= rlp_u64(nonce));
    Ok(Transaction { hash, from, to, value, nonce })
}

/// Reads a header off the front of `bytes`; what follows it is left alone.
pub fn decode_header(bytes: &[u8]) -> (res: Result<Header, DecodeError>)
    ensures
        match res {
            Ok(header) => header_rlp(header@).is_prefix_of(bytes@),
            Err(_) => forall|h: HeaderView| !(#[trigger] header_rlp(h)).is_prefix_of(bytes@),
        },
{
    let len: usize = bytes.len();
    let ghost fits = exists|h: HeaderView| (#[trigger] header_rlp(h)).is_prefix_of(bytes@);
    let ghost h = choose|h: HeaderView| (#[trigger] header_rlp(h)).is_prefix_of(bytes@);
    let ghost tail = bytes@.skip(header_rlp(h).len() as int);
    assert(fits ==> bytes@ =~= rlp_list(header_fields(h)) + tail);
    let (payload, rest) = decode_list(bytes)?;
    proof {
        if fits {
            lemma_rlp_list_split(payload@, header_fields(h), rest@, tail);
        }
    }
    let header = decode_header_fields(payload)?;
    assert(bytes@ == header_rlp(header@) + rest@);
    assert(header_rlp(header@) =~= bytes@.subrange(0, header_rlp(header@).len() as int));
    Ok(header)
}

/// Reads a transaction off the front of `bytes` and returns it with what follows.
fn decode_transaction(bytes: &[u8]) -> (res: Result<(Transaction, &[u8]), DecodeError>)
    ensures
        match res {
            Ok((tx, rest)) => bytes@ == transaction_rlp(tx@) + rest@,
            Err(_) => forall|t: TransactionView, rest: Seq<u8>|
                bytes@ != #[trigger] (transaction_rlp(t) + rest),
        },
{
    let len: usize = bytes.len();
    let ghost fits = exists|t: TransactionView, rest: Seq<u8>|
        bytes@ == #[trigger] (transaction_rlp(t) + rest);
    let ghost (t, tail) = choose|t: TransactionView, rest: Seq<u8>|
        bytes@ == #[trigger] (transaction_rlp(t) + rest);
    let (payload, rest) = match decode_list(bytes) {
        Ok(item) => item,
        Err(_) => {
            assert(!fits) by {
                assert(bytes@ != rlp_list(transaction_fields(t)) + tail);
            }
            return Err(DecodeError);
        },
    };
    proof {
        if fits {
            lemma_rlp_list_split(payload@, transaction_fields(t), rest@, tail);
        }
    }
    let tx = decode_transaction_fields(payload)?;
    Ok((tx, rest))
}

/// The payload of transactions ends with the bytes of the last one.
proof fn lemma_payload_push(txs: Seq<TransactionView>, t: TransactionView)
    ensures
        transactions_payload(txs.push(t)) == transactions_payload(txs) + transaction_rlp(t),
{
    assert(txs.push(t).drop_last() =~= txs);
}

/// The payload of transactions starts with the bytes of the first one.
proof fn lemma_payload_first(txs: Seq<TransactionView>)
    requires
        txs.len() > 0,
    ensures
        transactions_payload(txs) == transaction_rlp(txs[0]) + transactions_payload(
            txs.drop_first(),
        ),
    decreases txs.len(),
{
    if txs.len() == 1 {
        assert(txs.drop_last() =~= Seq::<TransactionView>::empty());
        assert(txs.drop_first() =~= Seq::<TransactionView>::empty());
        assert(transactions_payload(txs) =~= transaction_rlp(txs[0]) + transactions_payload(
            txs.drop_first(),
        ));
    } else {
        lemma_payload_first(txs.drop_last());
        assert(txs.drop_last().drop_first() =~= txs.drop_first().drop_last());
        assert(transactions_payload(txs) =~= transaction_rlp(txs[0]) + transactions_payload(
            txs.drop_first(),
        ));
    }
}

/// If bytes are the payload of `all`, and start with the payload of `read`, then `all` starts with
/// `read` and what follows is the payload of the others.
proof fn lemma_payload_prefix(all: Seq<TransactionView>, read: Seq<TransactionView>, rest: Seq<u8>)
    requires
        transactions_payload(all) == transactions_payload(read) + rest,
        transactions_payload(all).len() <= u64::MAX,
    ensures
        read.len() <= all.len(),
        read == all.take(read.len() as int),
        rest == transactions_payload(all.skip(read.len() as int)),
    decreases read.len(),
{
    if read.len() == 0 {
        assert(read =~= all.take(0));
        assert(all.skip(0) =~= all);
        assert(rest =~= transactions_payload(all));
    } else {
        let last = transaction_rlp(read.last());
        assert(transactions_payload(read) + rest =~= transactions_payload(read.drop_last()) + (last
            + rest));
        lemma_payload_prefix(all, read.drop_last(), last + rest);
        let others = all.skip(read.len() - 1);
        if others.len() == 0 {
            assert(last.len() > 0);
            assert((last + rest).len() > 0);
        }
        lemma_payload_first(others);
        lemma_transaction_rlp_split(
            read.last(),
            others[0],
            rest,
            transactions_payload(others.drop_first()),
        );
        assert(others.drop_first() =~= all.skip(read.len() as int));
        assert(read =~= all.take(read.len() as int));
    }
}

/// What is read back from bytes that start with the encoding of a header is that header, whatever
/// follows it.
pub proof fn law_header_read_back(written: HeaderView, read: HeaderView, bytes: Seq<u8>)
    requires
        header_rlp(written).is_prefix_of(bytes),
        header_rlp(read).is_prefix_of(bytes),
        bytes.len() <= u64::MAX,
    ensures
        read == written,
{
    let r = bytes.skip(header_rlp(written).len() as int);
    let s = bytes.skip(header_rlp(read).len() as int);
    assert(header_rlp(written) + r =~= bytes);
    assert(header_rlp(read) + s =~= bytes);
    lemma_header_rlp_split(written, read, r, s);
}

/// What is read back from bytes that start with the encoding of transactions are those
/// transactions, in their order, whatever follows them.
pub proof fn law_transactions_read_back(
    written: Seq<TransactionView>,
    read: Seq<TransactionView>,
    bytes: Seq<u8>,
)
    requires
        transactions_rlp(written).is_prefix_of(bytes),
        transactions_rlp(read).is_prefix_of(bytes),
        bytes.len() <= u64::MAX,
    ensures
        read == written,
{
    let r = bytes.skip(transactions_rlp(written).len() as int);
    let s = bytes.skip(transactions_rlp(read).len() as int);
    assert(transactions_rlp(written) + r =~= bytes);
    assert(transactions_rlp(read) + s =~= bytes);
    lemma_rlp_list_split(transactions_payload(written), transactions_payload(read), r, s);
    assert(transactions_payload(written) =~= transactions_payload(read) + Seq::<u8>::empty());
    lemma_payload_prefix(written, read, seq![]);
    let others = written.skip(read.len() as int);
    if others.len() > 0 {
        assert(transaction_rlp(others.last()).len() > 0);
        assert(transactions_payload(others).len() > 0);
    }
    assert(written =~= read);
}

/// The bytes of transactions, as they are broadcast.
pub fn encode_transactions(txs: &Vec<Transaction>) -> (res: Vec<u8>)
    ensures
        res@ == transactions_rlp(transaction_views(txs@)),
{
    let ghost views = transaction_views(txs@);
    let mut payload: Vec<u8> = Vec::new();
    let mut i: usize = 0;
    while i < txs.len()
        invariant
            i <= txs@.len(),
            views == transaction_views(txs@),
            payload@ == transactions_payload(views.take(i as int)),
        decreases txs@.len() - i,
    {
        let mut item = encode_transaction(&txs[i]);
        payload.append(&mut item);
        proof {
            lemma_payload_push(views.take(i as int), txs@[i as int]@);
            assert(views.take(i + 1) =~= views.take(i as int).push(txs@[i as int]@));
        }
        i = i + 1;
    }
    assert(views.take(i as int) =~= views);
    let mut res: Vec<u8> = Vec::new();
    encode_list_prefix(payload.len(), &mut res);
    res.append(&mut payload);
    assert(res@ =~= transactions_rlp(views));
    res
}

/// Reads transactions off the front of `bytes`; what follows them is left alone.
pub fn decode_transactions(bytes: &[u8]) -> (res: Result<Vec<Transaction>, DecodeError>)
    ensures
        match res {
            Ok(txs) => transactions_rlp(transaction_views(txs@)).is_prefix_of(bytes@),
            Err(_) => forall|ts: Seq<TransactionView>|
                !(#[trigger] transactions_rlp(ts)).is_prefix_of(bytes@),
        },
{
    let len: usize = bytes.len();
    let ghost fits = exists|ts: Seq<TransactionView>|
        (#[trigger] transactions_rlp(ts)).is_prefix_of(bytes@);
    let ghost ts = choose|ts: Seq<TransactionView>|
        (#[trigger] transactions_rlp(ts)).is_prefix_of(bytes@);
    let ghost tail = bytes@.skip(transactions_rlp(ts).len() as int);
    assert(fits ==> bytes@ =~= rlp_list(transactions_payload(ts)) + tail);
    let (payload, rest) = decode_list(bytes)?;
    proof {
        if fits {
            lemma_rlp_list_split(payload@, transactions_payload(ts), rest@, tail);
        }
    }
    let mut txs: Vec<Transaction> = Vec::new();
    let mut left = payload;
    assert(payload@ =~= transactions_payload(transaction_views(txs@)) + left@);
    while left.len() > 0
        invariant
            payload@.len() <= u64::MAX,
            payload@ == transactions_payload(transaction_views(txs@)) + left@,
            fits ==> payload@ == transactions_payload(ts),
            fits == exists|ts: Seq<TransactionView>|
                (#[trigger] transactions_rlp(ts)).is_prefix_of(bytes@),
        decreases left@.len(),
    {
        let ghost before = transaction_views(txs@);
        let ghost others = ts.skip(before.len() as int);
        proof {
            if fits {
                lemma_payload_prefix(ts, before, left@);
                if others.len() > 0 {
                    lemma_payload_first(others);
                }
            }
        }
        let (tx, next) = decode_transaction(left)?;
        proof {
            lemma_payload_push(before, tx@);
            assert(transaction_views(txs@.push(tx)) =~= before.push(tx@));
            assert(payload@ =~= transactions_payload(before.push(tx@)) + next@);
            assert(transaction_rlp(tx@).len() > 0);
        }
        txs.push(tx);
        left = next;
    }
    proof {
        let all = transaction_views(txs@);
        assert(payload@ =~= transactions_payload(all));
        assert(transactions_rlp(all) =~= bytes@.subrange(0, transactions_rlp(all).len() as int));
    }
    Ok(txs)
}

/// Bytes that follow one another may be grouped in any way.
proof fn lemma_regroup(a: Seq<u8>, b: Seq<u8>, c: Seq<u8>, d: Seq<u8>, e: Seq<u8>)
    ensures
        a + (b + (c + (d + e))) == a + b + c + d + e,
        a + b + c + (d + e) == a + b + c + d + e,
{
    assert(a + (b + (c + (d + e))) =~= a + b + c + d + e);
    assert(a + b + c + (d + e) =~= a + b + c + d + e);
}

/// The bytes of a header are a list of its fields in the order in which they are declared: the
/// number, the hash of the parent, the state root, the time, the nonce and the hash.
pub proof fn law_header_is_the_list_of_its_fields(header: Header, res: Vec<u8>, payload: Seq<u8>)
    requires
        call_ensures(encode_header, (&header,), res),
        payload == rlp_u64(header.number) + rlp_text(header.parent_hash@) + rlp_text(
            header.state_root@,
        ) + rlp_u64(header.timestamp) + rlp_u64(header.nonce) + rlp_text(header.hash@),
    ensures
        res@ == rlp_list(payload),
{
    lemma_regroup(
        rlp_u64(header.number),
        rlp_text(header.parent_hash@),
        rlp_text(header.state_root@),
        rlp_u64(header.timestamp),
        rlp_u64(header.nonce) + rlp_text(header.hash@),
    );
    lemma_regroup(
        rlp_u64(header.number) + rlp_text(header.parent_hash@),
        rlp_text(header.state_root@),
        rlp_u64(header.timestamp),
        rlp_u64(header.nonce),
        rlp_text(header.hash@),
    );
    assert(payload == header_fields(header@));
}

/// The bytes of a transaction are a list of its fields in the order in which they are declared: the
/// hash, the sender, the receiver, the value and the nonce.
pub proof fn law_transaction_is_the_list_of_its_fields(
    tx: Transaction,
    res: Vec<u8>,
    payload: Seq<u8>,
)
    requires
        call_ensures(encode_transaction, (&tx,), res),
        payload == rlp_text(tx.hash@) + rlp_text(tx.from@) + rlp_text(tx.to@) + rlp_u64(tx.value)
            + rlp_u64(tx.nonce),
    ensures
        res@ == rlp_list(payload),
{
    lemma_regroup(
        rlp_text(tx.hash@),
        rlp_text(tx.from@),
        rlp_text(tx.to@),
        rlp_u64(tx.value),
        rlp_u64(tx.nonce),
    );
    assert(payload == transaction_fields(tx@));
}

/// The bytes of transactions are a list of the bytes of each, in their order: a further one adds
/// its bytes at the end.
pub proof fn law_transactions_are_listed_in_order(
    txs: Seq<TransactionView>,
    tx: Transaction,
    last: Vec<u8>,
    payload: Seq<u8>,
)
    requires
        call_ensures(encode_transaction, (&tx,), last),
        transactions_rlp(txs) == rlp_list(payload),
        payload == transactions_payload(txs),
    ensures
        transactions_rlp(Seq::empty()) == rlp_list(Seq::empty()),
        transactions_rlp(txs.push(tx@)) == rlp_list(payload + last@),
{
    assert(txs.push(tx@).drop_last() =~= txs);
}

/// What bytes are read as was written so: reading succeeds exactly if the bytes start with the
/// encoding of a header, and gives that header; the same holds of transactions.
pub proof fn law_reading_undoes_writing(
    header: Header,
    written: Vec<u8>,
    txs: Vec<Transaction>,
    listed: Vec<u8>,
    bytes: &[u8],
    read: Result<Header, DecodeError>,
    read_txs: Result<Vec<Transaction>, DecodeError>,
)
    requires
        call_ensures(encode_header, (&header,), written),
        call_ensures(encode_transactions, (&txs,), listed),
        call_ensures(decode_header, (bytes,), read),
        call_ensures(decode_transactions, (bytes,), read_txs),
        bytes@.len() <= u64::MAX,
    ensures
        written@.is_prefix_of(bytes@) ==> (read matches Ok(again) && again@ == header@),
        (read matches Ok(again) && again@ == header@) ==> written@.is_prefix_of(bytes@),
        listed@.is_prefix_of(bytes@) ==> (read_txs matches Ok(again) && transaction_views(again@)
            == transaction_views(txs@)),
        (read_txs matches Ok(again) && transaction_views(again@) == transaction_views(txs@))
            ==> listed@.is_prefix_of(bytes@),
{
    if written@.is_prefix_of(bytes@) {
        if let Ok(again) = read {
            law_header_read_back(header@, again@, bytes@);
        }
    }
    if listed@.is_prefix_of(bytes@) {
        if let Ok(again) = read_txs {
            law_transactions_read_back(
                transaction_views(txs@),
                transaction_views(again@),
                bytes@,
            );
        }
    }
}

/// How strings and lists are framed: a single small byte stands for itself; any other string, and
/// every list, has its length before it, in one byte if it is shorter than fifty-six, and otherwise
/// in as many bytes as it takes, whose number comes first.
pub proof fn law_strings_and_lists_are_framed(bytes: Seq<u8>, payload: Seq<u8>)
    ensures
        bytes.len() == 1 && bytes[0] < 128 ==> rlp_bytes(bytes) == bytes,
        bytes.len() < 56 && !(bytes.len() == 1 && bytes[0] < 128) ==> rlp_bytes(bytes) == seq![
            (128 + bytes.len()) as u8,
        ] + bytes,
        bytes.len() >= 56 ==> rlp_bytes(bytes) == seq![
            (183 + be_bytes(bytes.len()).len()) as u8,
        ] + be_bytes(bytes.len()) + bytes,
        payload.len() < 56 ==> rlp_list(payload) == seq![(192 + payload.len()) as u8] + payload,
        payload.len() >= 56 ==> rlp_list(payload) == seq![
            (247 + be_bytes(payload.len()).len()) as u8,
        ] + be_bytes(payload.len()) + payload,
{
}

/// Numbers are written in base 256, without leading zeros.
pub proof fn law_numbers_are_written_in_bytes(n: nat, byte: u8)
    ensures
        be_bytes(0).len() == 0,
        n > 0 || byte > 0 ==> be_bytes(n * 256 + byte as nat) == be_bytes(n).push(byte),
{
    assert((n * 256 + byte as nat) / 256 == n);
    assert((n * 256 + byte as nat) % 256 == byte as nat);
}

} // verus!
