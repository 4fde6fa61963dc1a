use std::collections::BTreeMap;
use std::sync::{Arc, Mutex};

use simb::blocktree::{calculate_hash, AddedBlockResult, BlockTree, Chain, ChainView, Error};
use simb::interface::{Header, HeaderView};
use simb::rpc::{
    balance_reply, block_reply, get_balance, get_block_by_hash, get_block_by_number, RpcAddr,
    RpcError, RpcServerBuilder, DEFAULT_RPC_PORT, GET_BALANCE, GET_BLOCK_BY_HASH,
    GET_BLOCK_BY_NUMBER, MOCK_AUTH_TOKEN,
};
use simb::text::{decimal_number, parse_hex, prefixed_hex};

#[derive(Clone)]
pub struct MockChain {
    pub headers: Arc<Mutex<BTreeMap<u64, Header>>>,
}

impl MockChain {
    pub fn new(latest_block: u64) -> Self {
        let initial_headers = generate_headers_from_genesis(latest_block);
        Self {
            headers: Arc::new(Mutex::new(initial_headers)),
        }
    }

    pub fn validate(&mut self, parent_header: &Header, header: &Header) -> Result<(), Error> {
        if parent_header.hash != header.parent_hash {
            return Err(Error::Invalid);
        }

        if parent_header.number + 1 != header.number {
            return Err(Error::Invalid);
        }

        Ok(())
    }
}

impl BlockTree for MockChain {
    // what is only there for proofs is never called
    fn wf(&self) -> bool {
        unreachable!()
    }

    fn tables(&self) -> ChainView {
        unreachable!()
    }

    fn available(&self) -> bool {
        unreachable!()
    }

    fn genesis_view() -> HeaderView {
        unreachable!()
    }

    fn lemma_wf(&self) {
        unreachable!()
    }

    fn try_add_block_header(&mut self, header: Header) -> Result<AddedBlockResult, Error> {
        if header != Self::genesis() {
            let parent_header = self.get_header_by_block_number(header.number - 1)?;
            self.validate(&parent_header, &header)?;
        }

        let old_tip = self.tip()?;

        self.headers
            .lock()
            .unwrap()
            .insert(header.number, header.clone());

        if old_tip.number < self.tip()?.number {
            return Ok(AddedBlockResult::ExtendTip);
        }
        Ok(AddedBlockResult::AlreadyInChain)
    }

    fn get_header_by_hash(&self, _hash: String) -> Result<Header, Error> {
        Ok(Header::default())
    }

    fn get_header_by_block_number(&self, number: u64) -> Result<Header, Error> {
        if let Some(header) = self.headers.lock().unwrap().get(&number) {
            return Ok(header.clone());
        }
        Err(Error::BlockHeaderNotFound)
    }

    fn tip(&self) -> Result<Header, Error> {
        Ok(self
            .headers
            .lock()
            .unwrap()
            .last_key_value()
            .unwrap()
            .1
            .clone())
    }

    fn genesis() -> Header {
        Header {
            hash: "0x".to_string(),
            number: 0,
            nonce: 17012,
            parent_hash: "genesis".to_string(),
            state_root: "0x".to_string(),
            timestamp: 1705551177,
        }
    }
}

pub fn hex_text(bytes: &[u8]) -> String {
    bytes.iter().map(|byte| format!("{:02x}", byte)).collect()
}

pub fn generate_headers_from_genesis(to: u64) -> BTreeMap<u64, Header> {
    let mut headers = BTreeMap::new();
    headers.insert(0, MockChain::genesis());

    for number in 1..to + 1 {
        let state_root = "0x".to_string();
        let parent_hash = headers.get(&(number - 1)).unwrap().hash.clone();
        // deterministic timestamp
        let timestamp = 1705551177 + number * 10;
        let nonce = 17012;
        let hash = calculate_hash(number, timestamp, &parent_hash, &state_root, "0x", nonce);

        headers.insert(
            number,
            Header {
                number,
                hash: hex_text(&hash),
                nonce,
                parent_hash,
                state_root,
                timestamp,
            },
        );
    }
    headers
}

/// Answers a request to a server on a chain of a hundred blocks, as JSON-RPC writes it.
fn http_request(method: &str, param: &str) -> String {
    let server = RpcServerBuilder::default()
        .with_chain(MockChain::new(100))
        .with_addr(RpcAddr::V4 {
            ip: [0, 0, 0, 0],
            port: 0,
        })
        .build();
    let param = param.to_string();
    let answer = if method == GET_BLOCK_BY_NUMBER {
        get_block_by_number(&server.chain, &param).map(serde_json::Value::Object)
    } else if method == GET_BLOCK_BY_HASH {
        get_block_by_hash(&server.chain, &param).map(serde_json::Value::Object)
    } else if method == GET_BALANCE {
        get_balance(&server.chain, param).map(serde_json::Value::String)
    } else {
        panic!("no such method")
    };
    match answer {
        Ok(result) => format!("{{\"jsonrpc\":\"2.0\",\"result\":{},\"id\":1}}", result),
        Err(RpcError { code, message }) => format!(
            "{{\"jsonrpc\":\"2.0\",\"error\":{{\"code\":{},\"message\":\"{}\"}},\"id\":1}}",
            code, message
        ),
    }
}

#[test]
fn test_eth_get_block_by_number() {
    let expected = "{\"jsonrpc\":\"2.0\",\"result\":{\"block_hash\":\"c99ccfb1e0bc73b59383910492437f1615f5daed4bf55bcf2fa6092b5c158e6a\",\"block_number\":\"0x12\",\"parent_root\":\"09893180eaa1b4f1c4c87d34458f3c785a0d8fbeeaa2bea2f2506b5bb4007c1d\",\"state_root\":\"0x\",\"transactions\":[]},\"id\":1}";
    let res = http_request("eth_getBlockByNumber", "0x12");
    assert_eq!(res, expected.to_string());
}

#[test]
fn test_block_not_found() {
    let expected = r#"{"jsonrpc":"2.0","error":{"code":-32603,"message":"Block not found at 0x99999999"},"id":1}"#;
    let res = http_request("eth_getBlockByNumber", "0x99999999");
    assert_eq!(res, expected.to_string());
}

#[test]
fn test_eth_get_block_by_hash() {
    let expected = "{\"jsonrpc\":\"2.0\",\"result\":{\"block_hash\":\"\",\"block_number\":\"0x0\",\"parent_root\":\"\",\"state_root\":\"\",\"transactions\":[]},\"id\":1}";
    let res = http_request("eth_getBlockByHash", "0x");
    assert_eq!(res, expected.to_string());
}

/// A chain with balances of its own: the length of the address.
struct Ledger(Chain);

impl BlockTree for Ledger {
    fn wf(&self) -> bool {
        unreachable!()
    }

    fn tables(&self) -> ChainView {
        unreachable!()
    }

    fn available(&self) -> bool {
        unreachable!()
    }

    fn genesis_view() -> HeaderView {
        unreachable!()
    }

    fn lemma_wf(&self) {
        unreachable!()
    }

    fn try_add_block_header(&mut self, header: Header) -> Result<AddedBlockResult, Error> {
        self.0.try_add_block_header(header)
    }

    fn get_header_by_block_number(&self, number: u64) -> Result<Header, Error> {
        self.0.get_header_by_block_number(number)
    }

    fn get_header_by_hash(&self, hash: String) -> Result<Header, Error> {
        self.0.get_header_by_hash(hash)
    }

    fn tip(&self) -> Result<Header, Error> {
        self.0.tip()
    }

    fn genesis() -> Header {
        Chain::genesis()
    }

    fn get_balance(&self, address: String) -> Result<u64, Error> {
        if address.is_empty() {
            Err(Error::DatabaseError("no address".to_string()))
        } else {
            Ok(address.len() as u64)
        }
    }
}

#[test]
fn the_balance_told_is_that_of_the_chain() {
    let ledger = Ledger(Chain::new());
    assert_eq!(get_balance(&ledger, "0x01".to_string()), Ok("0x4".to_string()));
    assert_eq!(get_balance(&ledger, "a".repeat(255)), Ok("0xff".to_string()));
    let error = get_balance(&ledger, String::new()).unwrap_err();
    assert_eq!(error.code, -32603);
    assert_eq!(
        error.message,
        "Internal error: ".to_string() + &Error::DatabaseError("no address".to_string()).message()
    );
}

#[test]
fn test_eth_get_balance() {
    let expected = "{\"jsonrpc\":\"2.0\",\"result\":\"0xdead\",\"id\":1}";
    let res = http_request("eth_getBalance", "0x000000000000000000000000000000000000dead");
    assert_eq!(res, expected.to_string());
}

#[test]
fn a_number_that_is_not_hexadecimal_is_an_error_in_the_parameters() {
    let chain = Chain::new();
    for param in ["0x", "0x+", "0xg", "0x-1", "0x1 ", "0x10000000000000000", "0x\u{e9}"] {
        assert_eq!(
            get_block_by_number(&chain, &param.to_string()),
            Err(RpcError {
                code: -32602,
                message: "Number should be in hex string format".to_string(),
            })
        );
    }
    for param in ["0x0", "0x00", "0x+0", "zz0", "0000000000000000000000"] {
        assert!(get_block_by_number(&chain, &param.to_string()).is_ok());
    }
}

#[test]
fn a_hash_that_leads_nowhere_is_an_internal_error() {
    let chain = Chain::new();
    assert_eq!(
        get_block_by_hash(&chain, &"ab".to_string()),
        Err(RpcError {
            code: -32603,
            message: "Block not found with hash: ab".to_string(),
        })
    );
    assert!(get_block_by_hash(&chain, &Chain::genesis().hash).is_ok());
}

#[test]
fn failures_of_the_database_are_internal_errors() {
    let failure = || Error::DatabaseError("full".to_string());
    assert_eq!(
        balance_reply(Err(failure())),
        Err(RpcError {
            code: -32603,
            message: "Internal error: Database error: full".to_string(),
        })
    );
    assert_eq!(balance_reply(Ok(255)), Ok("0xff".to_string()));
    assert_eq!(
        block_reply(Err(failure()), "Block not found at ", &"0x1".to_string()),
        Err(RpcError {
            code: -32603,
            message: "Block not found at 0x1".to_string(),
        })
    );
}

#[test]
fn numbers_are_read_back() {
    for n in [0, 1, 9, 10, 15, 16, 57005, u64::MAX] {
        let text = prefixed_hex(n);
        assert_eq!(text, format!("0x{:x}", n));
        assert_eq!(parse_hex(text.as_bytes(), 2), Some(n));
        assert_eq!(parse_hex(text.to_uppercase().as_bytes(), 2), Some(n));
        assert_eq!(decimal_number(n), format!("{}", n));
    }
    assert_eq!(parse_hex(b"10000000000000000", 0), None);
    assert_eq!(parse_hex(b"fffffffffffffffff", 0), None);
    assert_eq!(parse_hex(b"", 0), None);
}

#[test]
fn the_defaults_of_the_server() {
    let server = RpcServerBuilder::default().with_chain(3u8).build();
    assert_eq!(
        server.addr,
        RpcAddr::V4 {
            ip: [127, 0, 0, 1],
            port: 8545
        }
    );
    assert_eq!(DEFAULT_RPC_PORT, 8545);
    assert_eq!(server.chain, 3);
    let addr = RpcAddr::V6 {
        ip: [0; 16],
        port: 1,
        flowinfo: 0,
        scope_id: 2,
    };
    let server = RpcServerBuilder::default().with_chain(()).with_addr(addr).build();
    assert_eq!(server.addr, addr);
    assert_eq!(MOCK_AUTH_TOKEN, "mock_auth_token");
}
