use alloy_rlp::{Decodable, Encodable};

use simb::interface::{Header, Transaction};
use simb::rlp::{
    decode_header, decode_transactions, encode_header, encode_transaction, encode_transactions,
};

fn header() -> Header {
    Header {
        number: 300,
        parent_hash: "p".repeat(60),
        state_root: String::new(),
        timestamp: 0,
        nonce: u64::MAX,
        hash: "\u{e9}".to_string(),
    }
}

fn transaction(hash: &str) -> Transaction {
    Transaction {
        hash: hash.to_string(),
        from: "a".to_string(),
        to: String::new(),
        value: 128,
        nonce: 127,
    }
}

#[test]
fn the_bytes_of_a_header() {
    let mut payload = vec![];
    300u64.encode(&mut payload);
    "p".repeat(60).as_str().encode(&mut payload);
    "".encode(&mut payload);
    0u64.encode(&mut payload);
    u64::MAX.encode(&mut payload);
    "\u{e9}".encode(&mut payload);
    let mut bytes = vec![0xf8, payload.len() as u8];
    bytes.extend(payload);
    assert_eq!(encode_header(&header()), bytes);

    let small = Header {
        number: 1,
        hash: "a".to_string(),
        ..Header::default()
    };
    assert_eq!(
        encode_header(&small),
        vec![0xc6, 1, 0x80, 0x80, 0x80, 0x80, 0x61]
    );
}

#[test]
fn a_header_is_read_back_whatever_follows() {
    let mut bytes = encode_header(&header());
    assert_eq!(decode_header(&bytes), Ok(header()));
    bytes.extend([1, 2, 3]);
    assert_eq!(decode_header(&bytes), Ok(header()));
}

#[test]
fn broken_headers_do_not_decode() {
    let bytes = encode_header(&header());
    assert!(decode_header(&bytes[..bytes.len() - 1]).is_err());
    assert!(decode_header(&[]).is_err());
    assert!(decode_header(&[0x80]).is_err());
    // a leading zero in the number
    assert!(decode_header(&[0xc6, 0, 0x80, 0x80, 0x80, 0x80, 0x61]).is_err());
    // a field too few, and one too many
    assert!(decode_header(&[0xc5, 1, 0x80, 0x80, 0x80, 0x80]).is_err());
    assert!(decode_header(&[0xc7, 1, 0x80, 0x80, 0x80, 0x80, 0x61, 0x61]).is_err());
    // a text that is not UTF-8
    assert!(decode_header(&[0xc7, 1, 0x80, 0x80, 0x80, 0x80, 0x81, 0xff]).is_err());
    // a byte that is its own encoding
    assert!(decode_header(&[0xc7, 1, 0x80, 0x80, 0x80, 0x80, 0x81, 0x61]).is_err());
}

#[test]
fn the_bytes_of_transactions() {
    assert_eq!(
        encode_transaction(&transaction("h")),
        vec![0xc6, 0x68, 0x61, 0x80, 0x81, 0x80, 0x7f]
    );
    assert_eq!(encode_transactions(&vec![]), vec![0xc0]);
    let one = encode_transactions(&vec![transaction("h")]);
    assert_eq!(one, vec![0xc7, 0xc6, 0x68, 0x61, 0x80, 0x81, 0x80, 0x7f]);
    let mut rest = one.as_slice();
    let header = alloy_rlp::Header::decode(&mut rest).unwrap();
    assert!(header.list);
    assert_eq!(header.payload_length, 7);
    assert!(u64::decode(&mut rest).is_err());
}

#[test]
fn transactions_are_read_back_in_their_order() {
    let txs: Vec<Transaction> = ["b", "a", "b", "\u{2026}"]
        .iter()
        .map(|hash| transaction(hash))
        .collect();
    let mut bytes = encode_transactions(&txs);
    assert_eq!(decode_transactions(&bytes), Ok(txs.clone()));
    bytes.push(0);
    assert_eq!(decode_transactions(&bytes), Ok(txs));
    assert_eq!(decode_transactions(&[0xc0]), Ok(vec![]));
    assert!(decode_transactions(&bytes[..bytes.len() - 2]).is_err());
    assert!(decode_transactions(&[0xc1, 0x80]).is_err());
    assert!(decode_transactions(&[]).is_err());
}
