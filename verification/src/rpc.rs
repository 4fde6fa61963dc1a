//! The answers of the RPC server.

use vstd::prelude::*;
use vstd::utf8::{encode_utf8, is_char_boundary};

use crate::blocktree::{error_text, BlockTree, ChainView, Error, DEAD_ADDRESS};
use crate::interface::{Header, HeaderView};
use crate::json::{json_members, json_object, json_put_text, json_put_texts, no_members, JsonMember};
use crate::text::{hex_digits, law_hex_read_back, parse_hex, parsed_hex, prefixed_hex};

verus! {

/// The token that a request has to carry.
pub const MOCK_AUTH_TOKEN: &'static str = "mock_auth_token";

/// The port of the RPC server, if no other one is given.
pub const DEFAULT_RPC_PORT: u16 = 8545;

/// The method that [`get_block_by_number`] answers.
pub const GET_BLOCK_BY_NUMBER: &'static str = "eth_getBlockByNumber";

/// The method that [`get_block_by_hash`] answers.
pub const GET_BLOCK_BY_HASH: &'static str = "eth_getBlockByHash";

/// The method that [`get_balance`] answers.
pub const GET_BALANCE: &'static str = "eth_getBalance";

/// The code of an error in the parameters, `INVALID_PARAMS_CODE` of `jsonrpsee`.
#[verifier::external_body]
fn invalid_params_code() -> (res: i32)
    ensures
        res == -32602,
{
    jsonrpsee::types::error::INVALID_PARAMS_CODE
}

/// The code of an internal error, `INTERNAL_ERROR_CODE` of `jsonrpsee`.
#[verifier::external_body]
fn internal_error_code() -> (res: i32)
    ensures
        res == -32603,
{
    jsonrpsee::types::error::INTERNAL_ERROR_CODE
}

/// An error as it is told to the caller.
#[derive(Debug, PartialEq, Eq)]
pub struct RpcError {
    pub code: i32,
    pub message: String,
}

/// An error with a code and a text.
pub open spec fn is_error(error: RpcError, code: int, message: Seq<char>) -> bool {
    error.code == code && error.message@ == message
}

/// A network address and a port.
#[derive(Debug, Clone, Copy, PartialEq, Eq)]
#[allow(inconsistent_fields)]
pub enum RpcAddr {
    /// An address of four bytes.
    V4 { ip: [u8; 4], port: u16 },
    /// An address of sixteen bytes, with its flow information and its scope.
    V6 { ip: [u8; 16], port: u16, flowinfo: u32, scope_id: u32 },
}

/// Sets up an [`RpcServer`]. `B` is a handle on the chain.
pub struct RpcServerBuilder<B> {
    pub addr: RpcAddr,
    pub chain: Option<B>,
}

impl<B> Default for RpcServerBuilder<B> {
    fn default() -> (res: Self)
        ensures
            res.addr matches RpcAddr::V4 { ip, port } && ip@ == seq![127u8, 0, 0, 1] && port
                == DEFAULT_RPC_PORT,
            res.chain is None,
    {
        RpcServerBuilder {
            addr: RpcAddr::V4 { ip: [127, 0, 0, 1], port: DEFAULT_RPC_PORT },
            chain: None,
        }
    }
}

impl<B> RpcServerBuilder<B> {
    /// Sets the address.
    pub fn with_addr(self, addr: RpcAddr) -> (res: Self)
        ensures
            res == (RpcServerBuilder { addr, ..self }),
    {
        RpcServerBuilder { addr, ..self }
    }

    /// Sets the chain, which is required.
    pub fn with_chain(self, chain: B) -> (res: Self)
        ensures
            res == (RpcServerBuilder { chain: Some(chain), ..self }),
    {
        RpcServerBuilder { chain: Some(chain), ..self }
    }

    /// The server.
    pub fn build(self) -> (res: RpcServer<B>)
        requires
            self.chain is Some,
        ensures
            res == (RpcServer { addr: self.addr, chain: self.chain->0 }),
    {
        RpcServer { addr: self.addr, chain: self.chain.unwrap() }
    }
}

/// A server that answers requests about a chain.
pub struct RpcServer<B> {
    pub addr: RpcAddr,
    pub chain: B,
}

/// A block as it is told to the caller. It holds no transactions.
pub open spec fn block_answer(header: HeaderView) -> Map<Seq<char>, JsonMember> {
    no_members().insert("block_hash"@, JsonMember::Text(header.hash)).insert(
        "block_number"@,
        JsonMember::Text("0x"@ + hex_digits(header.number as nat)),
    ).insert("state_root"@, JsonMember::Text(header.state_root)).insert(
        "parent_root"@,
        JsonMember::Text(header.parent_hash),
    ).insert("transactions"@, JsonMember::Texts(seq![]))
}

/// A block as it is told to the caller.
pub fn block_object(header: Header) -> (res: serde_json::Map<String, serde_json::Value>)
    ensures
        json_members(res) == block_answer(header@),
{
    let mut object = json_object();
    json_put_text(&mut object, "block_hash", header.hash.as_str());
    json_put_text(&mut object, "block_number", prefixed_hex(header.number).as_str());
    json_put_text(&mut object, "state_root", header.state_root.as_str());
    json_put_text(&mut object, "parent_root", header.parent_hash.as_str());
    let transactions: Vec<String> = Vec::new();
    assert(transactions@.map_values(|v: String| v@) =~= seq![]);
    json_put_texts(&mut object, "transactions", transactions);
    object
}

/// What the caller is told of a lookup: the block, or that it was not found, also where the
/// database failed.
pub fn block_reply(
    found: Result<Header, Error>,
    not_found: &str,
    asked: &String,
) -> (res: Result<serde_json::Map<String, serde_json::Value>, RpcError>)
    ensures
        match found {
            Ok(header) => res matches Ok(object) && json_members(object) == block_answer(header@),
            Err(_) => res matches Err(error) && is_error(error, -32603, not_found@ + asked@),
        },
{
    match found {
        Ok(header) => Ok(block_object(header)),
        Err(_) => Err(
            RpcError {
                code: internal_error_code(),
                message: not_found.to_owned().concat(asked.as_str()),
            },
        ),
    }
}

/// What the caller is told of a balance.
pub open spec fn balance_answer(
    balance: Result<u64, Error>,
    res: Result<String, RpcError>,
) -> bool {
    match balance {
        Ok(balance) => res matches Ok(text) && text@ == "0x"@ + hex_digits(balance as nat),
        Err(e) => res matches Err(error) && is_error(
            error,
            -32603,
            "Internal error: "@ + error_text(e),
        ),
    }
}

/// What the caller is told of a balance.
pub fn balance_reply(balance: Result<u64, Error>) -> (res: Result<String, RpcError>)
    ensures
        balance_answer(balance, res),
{
    match balance {
        Ok(balance) => Ok(prefixed_hex(balance)),
        Err(e) => Err(
            RpcError {
                code: internal_error_code(),
                message: "Internal error: ".to_owned().concat(e.message().as_str()),
            },
        ),
    }
}

/// The block at a number, which is given in hexadecimal after two bytes that are not looked at.
pub fn get_block_by_number<B: BlockTree>(chain: &B, block_number: &String) -> (res: Result<
    serde_json::Map<String, serde_json::Value>,
    RpcError,
>)
    requires
        chain.wf(),
        is_char_boundary(encode_utf8(block_number@), 2),
    ensures
        match parsed_hex(encode_utf8(block_number@).skip(2)) {
            None => res matches Err(error) && is_error(
                error,
                -32602,
                "Number should be in hex string format"@,
            ),
            Some(number) => match res {
                Ok(object) => chain.tables().at_number(number) matches Some(header)
                    && json_members(object) == block_answer(header),
                Err(error) => {
                    &&& is_error(error, -32603, "Block not found at "@ + block_number@)
                    &&& chain.available() ==> chain.tables().at_number(number) is None
                },
            },
        },
        parsed_hex(encode_utf8(block_number@).skip(2)) matches Some(number) ==> exists|
            found: Result<Header, Error>,
        |
            {
                &&& #[trigger] call_ensures(B::get_header_by_block_number, (chain, number), found)
                &&& found is Ok <==> res is Ok
            },
{
    let bytes = block_number.as_str().as_bytes();
    assert(bytes@.len() >= 2) by {
        vstd::utf8::encode_utf8_valid_utf8(block_number@);
    }
    match parse_hex(bytes, 2) {
        Some(number) => {
            block_reply(
                chain.get_header_by_block_number(number),
                "Block not found at ",
                block_number,
            )
        },
        None => Err(
            RpcError {
                code: invalid_params_code(),
                message: "Number should be in hex string format".to_owned(),
            },
        ),
    }
}

/// The block with a hash.
pub fn get_block_by_hash<B: BlockTree>(chain: &B, hash: &String) -> (res: Result<
    serde_json::Map<String, serde_json::Value>,
    RpcError,
>)
    requires
        chain.wf(),
    ensures
        match res {
            Ok(object) => chain.tables().at_hash(hash@) matches Some(header)
                && json_members(object) == block_answer(header),
            Err(error) => {
                &&& is_error(error, -32603, "Block not found with hash: "@ + hash@)
                &&& chain.available() ==> chain.tables().at_hash(hash@) is None
            },
        },
        exists|asked: String, found: Result<Header, Error>|
            {
                &&& #[trigger] call_ensures(B::get_header_by_hash, (chain, asked), found)
                &&& asked@ == hash@
                &&& found is Ok <==> res is Ok
            },
{
    block_reply(
        chain.get_header_by_hash(hash.clone()),
        "Block not found with hash: ",
        hash,
    )
}

/// The balance that the chain gives for an address, in hexadecimal.
pub fn get_balance<B: BlockTree>(chain: &B, address: String) -> (res: Result<String, RpcError>)
    ensures
        exists|balance: Result<u64, Error>|
            {
                &&& call_ensures(B::get_balance, (chain, address), balance)
                &&& #[trigger] balance_answer(balance, res)
                &&& chain.available() ==> balance is Ok
                &&& balance is Ok && address@ == DEAD_ADDRESS@ ==> balance->Ok_0 == 57005
            },
{
    let balance = chain.get_balance(address);
    balance_reply(balance)
}

/// In a chain that is ordered, the number that a block is told with finds the block again.
pub proof fn law_told_number_finds_the_block(
    tables: ChainView,
    genesis: HeaderView,
    number: u64,
    header: HeaderView,
)
    requires
        tables.valid(genesis),
        tables.ordered(),
        tables.at_number(number) == Some(header),
    ensures
        block_answer(header)["block_number"@] matches JsonMember::Text(told) && is_char_boundary(
            encode_utf8(told),
            2,
        ) && (parsed_hex(encode_utf8(told).skip(2)) matches Some(again) && tables.at_number(again)
            == Some(header)),
{
    law_hex_read_back(header.number);
    reveal_strlit("block_number");
    reveal_strlit("state_root");
    reveal_strlit("parent_root");
    reveal_strlit("transactions");
    assert("block_number"@[0] == 'b');
    assert("state_root"@[0] == 's');
    assert("parent_root"@[0] == 'p');
    assert("transactions"@[0] == 't');
}

/// A block is told by its own hash, its number in hexadecimal, its state root and the hash of its
/// parent, each under its own name, with no transactions and nothing else, whatever the header is.
pub proof fn law_block_is_told_in_full(
    header: Header,
    res: serde_json::Map<String, serde_json::Value>,
    number: String,
)
    requires
        call_ensures(block_object, (header,), res),
        call_ensures(prefixed_hex, (header.number,), number),
    ensures
        json_members(res)["block_hash"@] == JsonMember::Text(header.hash@),
        json_members(res)["block_number"@] == JsonMember::Text(number@),
        json_members(res)["state_root"@] == JsonMember::Text(header.state_root@),
        json_members(res)["parent_root"@] == JsonMember::Text(header.parent_hash@),
        json_members(res)["transactions"@] == JsonMember::Texts(Seq::empty()),
        forall|name: Seq<char>| #[trigger]
            json_members(res).contains_key(name) <==> name == "block_hash"@ || name
                == "block_number"@ || name == "state_root"@ || name == "parent_root"@ || name
                == "transactions"@,
{
    lemma_answer_names_differ();
}

/// The names of the members of an answer differ.
proof fn lemma_answer_names_differ()
    ensures
        "block_hash"@.len() == 10,
        "block_number"@.len() == 12,
        "block_number"@[0] == 'b',
        "state_root"@[0] == 's',
        "state_root"@.len() == 10,
        "block_hash"@[0] == 'b',
        "parent_root"@[0] == 'p',
        "transactions"@[0] == 't',
{
    reveal_strlit("block_hash");
    reveal_strlit("block_number");
    reveal_strlit("state_root");
    reveal_strlit("parent_root");
    reveal_strlit("transactions");
}

/// In a chain that is linked, asking for the hash that is told as the parent of a block gives the
/// block before it, if that is found by its hash.
pub proof fn law_told_parent_is_the_block_before<B: BlockTree>(
    chain: B,
    header: Header,
    parent: HeaderView,
    told: serde_json::Map<String, serde_json::Value>,
    hash: String,
    res: Result<serde_json::Map<String, serde_json::Value>, RpcError>,
)
    requires
        chain.wf(),
        chain.available(),
        chain.tables().linked(),
        header.number > 0,
        chain.tables().headers.contains_pair(header.number, header@),
        chain.tables().headers.contains_pair((header.number - 1) as u64, parent),
        chain.tables().by_hash.contains_pair(parent.hash, parent),
        call_ensures(block_object, (header,), told),
        json_members(told)["parent_root"@] == JsonMember::Text(hash@),
        call_ensures(get_block_by_hash::<B>, (&chain, &hash), res),
    ensures
        res matches Ok(block) && json_members(block)["block_hash"@] == JsonMember::Text(parent.hash)
            && json_members(block)["parent_root"@] == JsonMember::Text(parent.parent_hash)
            && json_members(block)["state_root"@] == JsonMember::Text(parent.state_root),
{
    lemma_answer_names_differ();
    assert(chain.tables().headers.contains_key(header.number));
    assert(chain.tables().headers.contains_key((header.number - 1) as u64));
}

/// A block that is asked for by a number, in hexadecimal as numbers are told, or by a hash, is the
/// one that is stored there, told in full; where none is stored, the caller is told so.
pub proof fn law_block_asked_for_is_the_one_stored<B: BlockTree>(
    chain: B,
    number: u64,
    asked: String,
    hash: String,
    header: Header,
    told: serde_json::Map<String, serde_json::Value>,
    by_number: Result<serde_json::Map<String, serde_json::Value>, RpcError>,
    by_hash: Result<serde_json::Map<String, serde_json::Value>, RpcError>,
)
    requires
        chain.wf(),
        chain.available(),
        call_ensures(prefixed_hex, (number,), asked),
        call_ensures(block_object, (header,), told),
        call_ensures(get_block_by_number::<B>, (&chain, &asked), by_number),
        call_ensures(get_block_by_hash::<B>, (&chain, &hash), by_hash),
    ensures
        chain.tables().headers.contains_pair(number, header@) ==> (by_number matches Ok(block)
            && json_members(block) == json_members(told)),
        !chain.tables().headers.contains_key(number) ==> (by_number matches Err(error) && error.code
            == -32603 && error.message@ == "Block not found at "@ + asked@),
        chain.tables().by_hash.contains_pair(hash@, header@) ==> (by_hash matches Ok(block)
            && json_members(block) == json_members(told)),
        !chain.tables().by_hash.contains_key(hash@) ==> (by_hash matches Err(error) && error.code
            == -32603 && error.message@ == "Block not found with hash: "@ + hash@),
{
    law_hex_read_back(number);
}

/// What is asked for by a number that is not one in hexadecimal is an error in the parameters.
pub proof fn law_wrong_number_is_refused<B: BlockTree>(
    chain: B,
    asked: String,
    bytes: &[u8],
    res: Result<serde_json::Map<String, serde_json::Value>, RpcError>,
)
    requires
        chain.wf(),
        is_char_boundary(encode_utf8(asked@), 2),
        bytes@ == encode_utf8(asked@),
        bytes@.len() >= 2,
        call_ensures(parse_hex, (bytes, 2), None::<u64>),
        call_ensures(get_block_by_number::<B>, (&chain, &asked), res),
    ensures
        res matches Err(error) && error.code == -32602 && error.message@
            == "Number should be in hex string format"@,
{
}

/// A lookup that found a block is answered with the block, and any other with an internal error
/// that says what was asked for.
pub proof fn law_lookup_is_told(
    found: Result<Header, Error>,
    not_found: &str,
    asked: String,
    res: Result<serde_json::Map<String, serde_json::Value>, RpcError>,
    header: Header,
    told: serde_json::Map<String, serde_json::Value>,
)
    requires
        call_ensures(block_reply, (found, not_found, &asked), res),
        call_ensures(block_object, (header,), told),
    ensures
        found == Ok::<Header, Error>(header) ==> (res matches Ok(block) && json_members(block)
            == json_members(told)),
        found is Err ==> (res matches Err(error) && error.code == -32603 && error.message@
            == not_found@ + asked@),
{
}

/// A balance is told so that it can be read back, and a failure so that its cause can be read.
pub proof fn law_balance_is_told(
    balance: Result<u64, Error>,
    res: Result<String, RpcError>,
    text: String,
    cause: String,
)
    requires
        call_ensures(balance_reply, (balance,), res),
        balance matches Ok(n) ==> call_ensures(prefixed_hex, (n,), text),
        balance matches Err(e) ==> call_ensures(Error::message, (&e,), cause),
    ensures
        balance matches Ok(n) ==> (res matches Ok(told) && told@ == text@ && parsed_hex(
            encode_utf8(told@).skip(2),
        ) == Some(n)),
        balance is Err ==> (res matches Err(error) && error.code == -32603 && error.message@
            == "Internal error: "@ + cause@),
{
    if let Ok(n) = balance {
        law_hex_read_back(n);
    }
}

/// The balance that is told for an address is one that the chain gives for that address.
pub proof fn law_told_balance_is_that_of_the_chain<B: BlockTree>(
    chain: B,
    address: String,
    res: Result<String, RpcError>,
)
    requires
        call_ensures(get_balance::<B>, (&chain, address), res),
    ensures
        res matches Ok(told) ==> exists|balance: u64| #[trigger]
            call_ensures(B::get_balance, (&chain, address), Ok(balance)) && parsed_hex(
                encode_utf8(told@).skip(2),
            ) == Some(balance),
        res matches Err(error) ==> error.code == -32603 && exists|e: Error| #[trigger]
            call_ensures(B::get_balance, (&chain, address), Err(e)) && error.message@
                == "Internal error: "@ + error_text(e),
        chain.available() ==> res is Ok,
{
    let balance = choose|balance: Result<u64, Error>|
        {
            &&& call_ensures(B::get_balance, (&chain, address), balance)
            &&& #[trigger] balance_answer(balance, res)
            &&& chain.available() ==> balance is Ok
        };
    match balance {
        Ok(n) => {
            law_hex_read_back(n);
            assert(call_ensures(B::get_balance, (&chain, address), Ok(n)));
        },
        Err(e) => {
            assert(call_ensures(B::get_balance, (&chain, address), Err(e)));
        },
    }
}

/// A server has the chain and the address that it was given.
pub proof fn law_server_is_built_as_it_was_set<B>(
    server: RpcServerBuilder<B>,
    addr: RpcAddr,
    chain: B,
    with_addr: RpcServerBuilder<B>,
    with_chain: RpcServerBuilder<B>,
    res: RpcServer<B>,
)
    requires
        call_ensures(RpcServerBuilder::<B>::with_addr, (server, addr), with_addr),
        call_ensures(RpcServerBuilder::<B>::with_chain, (with_addr, chain), with_chain),
        call_ensures(RpcServerBuilder::<B>::build, (with_chain,), res),
    ensures
        res.addr == addr,
        res.chain == chain,
{
}

} // verus!
