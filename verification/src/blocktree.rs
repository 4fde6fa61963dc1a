//! The chain of block headers: what may be added to it, what is read from it, and mining on top of
//! it.

use std::collections::HashMap;

use vstd::prelude::*;
use vstd::hash_map::StringHashMap;
use vstd::utf8::encode_utf8;

use crate::chance::{now_seconds, random_bytes, random_u64};
use crate::hash::{hex_encode, hex_text, sha256, sha256_digest};
use crate::interface::{Header, HeaderView, RequestError, RequestResponse};
use crate::json::{
    json_object, json_object_text, json_put_number, json_put_text, json_text, no_members,
    JsonMember,
};
use crate::rlp::{decode_header, encode_header, header_rlp, law_header_read_back};

verus! {

/// Why a header was not added, or not found.
#[derive(Debug, PartialEq)]
pub enum Error {
    /// The header is invalid and not added to the chain.
    Invalid,
    /// There is no such header in the database.
    BlockHeaderNotFound,
    /// The database failed.
    DatabaseError(String),
}

/// The text of an error.
pub open spec fn error_text(error: Error) -> Seq<char> {
    match error {
        Error::Invalid => "Invalid header"@,
        Error::BlockHeaderNotFound => "Block header not found in database"@,
        Error::DatabaseError(cause) => "Database error: "@ + cause@,
    }
}

impl Error {
    /// The text of the error.
    pub fn message(&self) -> (res: String)
        ensures
            res@ == error_text(*self),
    {
        match self {
            Error::Invalid => "Invalid header".to_owned(),
            Error::BlockHeaderNotFound => "Block header not found in database".to_owned(),
            Error::DatabaseError(cause) => "Database error: ".to_owned().concat(cause.as_str()),
        }
    }
}

/// What became of a header that was added.
#[derive(Debug, Clone, Copy, PartialEq, Eq, Structural)]
pub enum AddedBlockResult {
    /// The block extends the tip of the chain.
    ExtendTip,
    /// The tip did not move: the block is already in the chain, or has taken the place of another
    /// one with its number.
    AlreadyInChain,
}

/// What became of a block that was mined.
#[derive(Debug, PartialEq)]
pub enum MineBlockResult {
    /// The block was mined and added to the chain.
    Mined(Header),
    /// The block was mined and has its place in the chain, but the tip did not move: the chain
    /// reaches past it. This comes only where the row of the tip holds another number than its own.
    BlockFallingBehind,
}

/// The members of the object whose text is hashed.
pub open spec fn block_members(
    block_number: u64,
    timestamp: u64,
    parent_hash: Seq<char>,
    state_root: Seq<char>,
    data: Seq<char>,
    nonce: u64,
) -> Map<Seq<char>, JsonMember> {
    no_members().insert("block_number"@, JsonMember::Number(block_number)).insert(
        "parent_hash"@,
        JsonMember::Text(parent_hash),
    ).insert("data"@, JsonMember::Text(data)).insert(
        "state_root"@,
        JsonMember::Text(state_root),
    ).insert("timestamp"@, JsonMember::Number(timestamp)).insert(
        "nonce"@,
        JsonMember::Number(nonce),
    )
}

/// The digest of a block.
pub open spec fn block_digest(
    block_number: u64,
    timestamp: u64,
    parent_hash: Seq<char>,
    state_root: Seq<char>,
    data: Seq<char>,
    nonce: u64,
) -> Seq<u8> {
    sha256_digest(
        encode_utf8(
            json_object_text(
                block_members(block_number, timestamp, parent_hash, state_root, data, nonce),
            ),
        ),
    )
}

/// The digest of a block: the SHA-256 of the JSON object that holds its parts.
pub fn calculate_hash(
    block_number: u64,
    timestamp: u64,
    parent_hash: &str,
    state_root: &str,
    data: &str,
    nonce: u64,
) -> (res: Vec<u8>)
    ensures
        res@ == block_digest(block_number, timestamp, parent_hash@, state_root@, data@, nonce),
        res@.len() == 32,
{
    let mut object = json_object();
    json_put_number(&mut object, "block_number", block_number);
    json_put_text(&mut object, "parent_hash", parent_hash);
    json_put_text(&mut object, "data", data);
    json_put_text(&mut object, "state_root", state_root);
    json_put_number(&mut object, "timestamp", timestamp);
    json_put_number(&mut object, "nonce", nonce);
    let text = json_text(object);
    sha256(text.as_str().as_bytes())
}

/// Draws a nonce and returns it with the hash, in hexadecimal, of the block that has it.
pub fn mine_block(
    number: u64,
    timestamp: u64,
    previous_hash: &str,
    state_root: &str,
    data: &str,
) -> (res: (u64, String))
    ensures
        res.1@ == hex_text(
            block_digest(number, timestamp, previous_hash@, state_root@, data@, res.0),
        ),
{
    let nonce = random_u64();
    let hash = calculate_hash(number, timestamp, previous_hash, state_root, data, nonce);
    (nonce, hex_encode(hash.as_slice()))
}

/// The data of a block that this node mines.
pub const BLOCK_DATA: &'static str = "a block data";

/// The text of the address whose balance is fixed.
pub const DEAD_ADDRESS: &'static str = "0x000000000000000000000000000000000000dead";

/// What the database holds: the headers by their numbers, the highest of these numbers, and, by its
/// hash, every header that was ever added. A header stays there when another one takes its place at
/// its number.
pub struct ChainView {
    pub headers: Map<u64, HeaderView>,
    pub last: u64,
    pub by_hash: Map<Seq<char>, HeaderView>,
}

impl ChainView {
    /// The first header is `genesis`, there is a last one, and each is under its own hash in the
    /// table by hash.
    pub open spec fn valid(self, genesis: HeaderView) -> bool {
        &&& genesis.number == 0
        &&& self.headers.contains_key(0)
        &&& self.headers[0] == genesis
        &&& self.headers.contains_key(self.last)
        &&& forall|n: u64| #[trigger] self.headers.contains_key(n) ==> n <= self.last
        &&& forall|hash: Seq<char>| #[trigger]
            self.by_hash.contains_key(hash) ==> self.by_hash[hash].hash == hash
    }

    /// Every header stands at the number that it has. A chain that was built by adding headers is
    /// ordered; a database from elsewhere need not be.
    pub open spec fn ordered(self) -> bool {
        forall|n: u64| #[trigger] self.headers.contains_key(n) ==> self.headers[n].number == n
    }

    /// There is a header at every number up to the tip.
    pub open spec fn gapless(self) -> bool {
        forall|n: u64| n <= self.last ==> #[trigger] self.headers.contains_key(n)
    }

    /// Every header whose predecessor is there names it as its parent.
    pub open spec fn linked(self) -> bool {
        forall|n: u64|
            0 < n && #[trigger] self.headers.contains_key(n) && self.headers.contains_key(
                (n - 1) as u64,
            ) ==> self.headers[n].parent_hash == self.headers[(n - 1) as u64].hash
    }

    /// The last header.
    pub open spec fn tip(self) -> HeaderView {
        self.headers[self.last]
    }

    /// The header at a number.
    pub open spec fn at_number(self, number: u64) -> Option<HeaderView> {
        if self.headers.contains_key(number) {
            Some(self.headers[number])
        } else {
            None
        }
    }

    /// The header with a hash.
    pub open spec fn at_hash(self, hash: Seq<char>) -> Option<HeaderView> {
        if self.by_hash.contains_key(hash) {
            Some(self.by_hash[hash])
        } else {
            None
        }
    }

    /// Why `header` may not be added: its parent is not there, or is another one than it names, or
    /// has another number than the one before.
    /// `genesis` may always be added; no other header with the number 0 has a parent.
    pub open spec fn link_error(self, genesis: HeaderView, header: HeaderView) -> Option<Error> {
        if header == genesis {
            None
        } else if header.number == 0 || !self.headers.contains_key((header.number - 1) as u64) {
            Some(Error::BlockHeaderNotFound)
        } else if self.headers[(header.number - 1) as u64].hash != header.parent_hash
            || self.headers[(header.number - 1) as u64].number + 1 != header.number {
            Some(Error::Invalid)
        } else {
            None
        }
    }

    /// The database with `header` at its number and under its hash.
    pub open spec fn with(self, header: HeaderView) -> ChainView {
        ChainView {
            headers: self.headers.insert(header.number, header),
            last: if header.number > self.last {
                header.number
            } else {
                self.last
            },
            by_hash: self.by_hash.insert(header.hash, header),
        }
    }

    /// The database with headers added, one after the other.
    pub open spec fn with_all(self, headers: Seq<HeaderView>) -> ChainView
        decreases headers.len(),
    {
        if headers.len() == 0 {
            self
        } else {
            self.with_all(headers.drop_last()).with(headers.last())
        }
    }

    /// What adding `header` does to the tip: it extends it if the number of the tip grows.
    pub open spec fn added_as(self, header: HeaderView) -> AddedBlockResult {
        if self.tip().number < self.with(header).tip().number {
            AddedBlockResult::ExtendTip
        } else {
            AddedBlockResult::AlreadyInChain
        }
    }

    /// The outcome of adding `header` to this database, which is left as `after`. A failure of the
    /// database can come before or after the header was stored.
    pub open spec fn added(
        self,
        genesis: HeaderView,
        header: HeaderView,
        res: Result<AddedBlockResult, Error>,
        after: ChainView,
    ) -> bool {
        match res {
            Ok(added) => {
                &&& self.link_error(genesis, header) is None
                &&& added == self.added_as(header)
                &&& after == self.with(header)
            },
            Err(Error::DatabaseError(_)) => {
                ||| after == self
                ||| self.link_error(genesis, header) is None && after == self.with(header)
            },
            Err(e) => self.link_error(genesis, header) == Some(e) && after == self,
        }
    }
}

/// A lookup that may fail: `found` is what is there.
pub open spec fn looked_up(res: Result<Header, Error>, found: Option<HeaderView>) -> bool {
    match res {
        Ok(header) => found == Some(header@),
        Err(Error::BlockHeaderNotFound) => found is None,
        Err(Error::DatabaseError(_)) => true,
        Err(Error::Invalid) => false,
    }
}

/// Whether the database failed.
pub open spec fn database_failed<T>(res: Result<T, Error>) -> bool {
    res is Err && res->Err_0 is DatabaseError
}

/// The header of a block mined on top of `tip`. The time and the state root are hashed, but not
/// kept in the header.
pub open spec fn mined_view(
    tip: HeaderView,
    timestamp: u64,
    state_root: Seq<char>,
    nonce: u64,
) -> HeaderView {
    let number = (tip.number + 1) as u64;
    HeaderView {
        number,
        parent_hash: tip.hash,
        state_root: seq![],
        timestamp: 0,
        nonce,
        hash: hex_text(
            block_digest(number, timestamp, tip.hash, state_root, BLOCK_DATA@, nonce),
        ),
    }
}

/// Whether `header` is that of a block mined on top of `tip`, at some time. Its state root is the
/// digest of 32 bytes, in hexadecimal.
pub open spec fn mined_on(tip: HeaderView, header: HeaderView) -> bool {
    exists|timestamp: u64, bytes: Seq<u8>| #[trigger]
        mined_from(tip, timestamp, bytes, header)
}

/// Whether `header` is that of a block mined on top of `tip`, at this time and from these 32 bytes.
pub open spec fn mined_from(
    tip: HeaderView,
    timestamp: u64,
    bytes: Seq<u8>,
    header: HeaderView,
) -> bool {
    &&& bytes.len() == 32
    &&& header == mined_view(tip, timestamp, hex_text(sha256_digest(bytes)), header.nonce)
}

/// Whether `header` was mined on top of the tip of `before`, and adding it had this outcome and
/// left the tables as `after`.
pub open spec fn mined_and_added(
    before: ChainView,
    genesis: HeaderView,
    header: HeaderView,
    outcome: Result<AddedBlockResult, Error>,
    after: ChainView,
) -> bool {
    mined_on(before.tip(), header) && before.added(genesis, header, outcome, after)
}

/// Whether `header` was mined on top of the tip of `before` and added as the tip of `after`.
pub open spec fn mined_onto(
    before: ChainView,
    genesis: HeaderView,
    header: HeaderView,
    after: ChainView,
) -> bool {
    &&& mined_and_added(before, genesis, header, Ok(AddedBlockResult::ExtendTip), after)
    &&& after.tip() == header
}

/// The outcome of mining a block on top of `before`, which leaves the tables as `after`. A failure
/// is that of adding the block, or of a database that could not tell its tip.
pub open spec fn mined(
    before: ChainView,
    genesis: HeaderView,
    res: Result<MineBlockResult, Error>,
    after: ChainView,
) -> bool {
    match res {
        Ok(MineBlockResult::Mined(header)) => mined_onto(before, genesis, header@, after),
        Ok(MineBlockResult::BlockFallingBehind) => exists|header: HeaderView| #[trigger]
            mined_and_added(before, genesis, header, Ok(AddedBlockResult::AlreadyInChain), after),
        Err(e) => {
            ||| e is DatabaseError && after == before
            ||| exists|header: HeaderView| #[trigger]
                mined_and_added(before, genesis, header, Err(e), after)
        },
    }
}

/// A chain of block headers and the rules for adding to it.
pub trait BlockTree: Sized {
    /// The state that every operation keeps.
    spec fn wf(&self) -> bool;

    /// What the database holds.
    spec fn tables(&self) -> ChainView;

    /// Whether the database is known not to fail.
    spec fn available(&self) -> bool;

    /// The first header.
    spec fn genesis_view() -> HeaderView;

    /// The tables of a chain are in order.
    proof fn lemma_wf(&self)
        requires
            self.wf(),
        ensures
            self.tables().valid(Self::genesis_view()),
    ;

    /// Tries to add a header. A header that is valid is added to the chain.
    fn try_add_block_header(&mut self, header: Header) -> (res: Result<AddedBlockResult, Error>)
        requires
            old(self).wf(),
        ensures
            final(self).wf(),
            old(self).available() ==> final(self).available() && !database_failed(res),
            old(self).tables().added(Self::genesis_view(), header@, res, final(self).tables()),
    ;

    /// The header with a number.
    fn get_header_by_block_number(&self, block_number: u64) -> (res: Result<Header, Error>)
        requires
            self.wf(),
        ensures
            looked_up(res, self.tables().at_number(block_number)),
            self.available() ==> !database_failed(res),
    ;

    /// The header with a hash.
    fn get_header_by_hash(&self, hash: String) -> (res: Result<Header, Error>)
        requires
            self.wf(),
        ensures
            looked_up(res, self.tables().at_hash(hash@)),
            self.available() ==> !database_failed(res),
    ;

    /// The best known local header.
    fn tip(&self) -> (res: Result<Header, Error>)
        requires
            self.wf(),
        ensures
            looked_up(res, Some(self.tables().tip())),
            self.available() ==> !database_failed(res),
    ;

    /// The header of the genesis block.
    fn genesis() -> (res: Header)
        ensures
            res@ == Self::genesis_view(),
    ;

    /// The balance of an address: fixed for one address, drawn by chance for the others.
    fn get_balance(&self, address: String) -> (res: Result<u64, Error>)
        ensures
            self.available() ==> res is Ok,
            address@ == DEAD_ADDRESS@ ==> (res matches Ok(balance) ==> balance == 57005),
    {
        Ok(balance_of(&address, random_u64()))
    }

    /// Mines a block on top of the tip and adds it to the chain. If the tip stands at the number
    /// that it has, the block extends it.
    fn mine_block(&mut self) -> (res: Result<MineBlockResult, Error>)
        requires
            old(self).wf(),
            old(self).tables().tip().number < u64::MAX,
        ensures
            final(self).wf(),
            old(self).available() ==> final(self).available() && !database_failed(res),
            old(self).available() && old(self).tables().tip().number == old(self).tables().last
                ==> res matches Ok(MineBlockResult::Mined(_)),
            mined(old(self).tables(), Self::genesis_view(), res, final(self).tables()),
    {
        proof {
            self.lemma_wf();
        }
        let tip = match self.tip() {
            Ok(tip) => tip,
            Err(e) => return Err(e),
        };
        let timestamp: u64 = now_seconds() as u64;
        let bytes = random_bytes();
        let state_root = hex_encode(sha256(bytes.as_slice()).as_slice());
        let number: u64 = tip.number + 1;
        let (nonce, hash) = mine_block(
            number,
            timestamp,
            tip.hash.as_str(),
            state_root.as_str(),
            BLOCK_DATA,
        );
        let header = mined_header(&tip, nonce, hash);
        assert(mined_from(old(self).tables().tip(), timestamp, bytes@, header@));
        let outcome = self.try_add_block_header(header.clone());
        assert(mined_and_added(
            old(self).tables(),
            Self::genesis_view(),
            header@,
            outcome,
            self.tables(),
        ));
        match outcome {
            Ok(added) => Ok(mined_as(header, added)),
            Err(e) => Err(e),
        }
    }
}

/// The balance of an address, where `drawn` is what chance gave.
pub fn balance_of(address: &String, drawn: u64) -> (res: u64)
    ensures
        res == if address@ == DEAD_ADDRESS@ {
            57005
        } else {
            drawn
        },
{
    if *address == DEAD_ADDRESS.to_owned() {
        57005
    } else {
        drawn
    }
}

/// The header of a block that was mined on top of `tip` with this nonce and hash.
pub fn mined_header(tip: &Header, nonce: u64, hash: String) -> (res: Header)
    requires
        tip.number < u64::MAX,
    ensures
        res@ == (HeaderView {
            number: (tip.number + 1) as u64,
            parent_hash: tip.hash@,
            state_root: seq![],
            timestamp: 0,
            nonce,
            hash: hash@,
        }),
{
    Header {
        number: tip.number + 1,
        parent_hash: tip.hash.clone(),
        state_root: String::new(),
        timestamp: 0,
        nonce,
        hash,
    }
}

/// What became of a mined block, from what became of its header.
pub fn mined_as(header: Header, added: AddedBlockResult) -> (res: MineBlockResult)
    ensures
        res == match added {
            AddedBlockResult::ExtendTip => MineBlockResult::Mined(header),
            AddedBlockResult::AlreadyInChain => MineBlockResult::BlockFallingBehind,
        },
{
    match added {
        AddedBlockResult::ExtendTip => MineBlockResult::Mined(header),
        AddedBlockResult::AlreadyInChain => MineBlockResult::BlockFallingBehind,
    }
}

impl MineBlockResult {
    /// The header to broadcast: that of a block that extends the tip.
    pub fn to_broadcast(&self) -> (res: Option<Header>)
        ensures
            res == match *self {
                MineBlockResult::Mined(header) => Some(header),
                MineBlockResult::BlockFallingBehind => None,
            },
    {
        match self {
            MineBlockResult::Mined(header) => Some(header.clone()),
            MineBlockResult::BlockFallingBehind => None,
        }
    }

    /// What became of mining and broadcasting a block. If the broadcast failed, that is told; the
    /// block is in the chain all the same. A block that does not extend the tip is not broadcast.
    pub fn after_broadcast(self, outcome: RequestResponse<()>) -> (res: Result<
        MineBlockResult,
        RequestError,
    >)
        ensures
            res == match (self, outcome) {
                (MineBlockResult::Mined(_), Err(e)) => Err(e),
                _ => Ok(self),
            },
    {
        match self {
            MineBlockResult::Mined(header) => match outcome {
                Ok(_) => Ok(MineBlockResult::Mined(header)),
                Err(e) => Err(e),
            },
            MineBlockResult::BlockFallingBehind => Ok(MineBlockResult::BlockFallingBehind),
        }
    }
}

/// A miner that mines blocks with a fixed block time. `P` gives access to the network.
pub struct FixedBlockTimeMiner<P> {
    /// The seconds between two blocks.
    pub interval: u64,
    pub provider: P,
    /// The header whose broadcast is not over.
    pub pending_broadcast: Option<Header>,
}

impl<P> FixedBlockTimeMiner<P> {
    /// A miner that has not mined anything.
    pub fn new(itv: u64, provider: P) -> (res: Self)
        ensures
            res == (FixedBlockTimeMiner { interval: itv, provider, pending_broadcast: None }),
    {
        FixedBlockTimeMiner { interval: itv, provider, pending_broadcast: None }
    }

    /// Takes what became of a mined block and returns the header to broadcast. It takes the place
    /// of one whose broadcast is not over.
    pub fn on_mined(&mut self, result: MineBlockResult) -> (res: Option<Header>)
        ensures
            final(self).interval == old(self).interval,
            final(self).provider == old(self).provider,
            match result {
                MineBlockResult::Mined(header) => {
                    &&& res == Some(header)
                    &&& final(self).pending_broadcast == Some(header)
                },
                MineBlockResult::BlockFallingBehind => {
                    &&& res is None
                    &&& final(self).pending_broadcast == old(self).pending_broadcast
                },
            },
    {
        match result {
            MineBlockResult::Mined(header) => {
                self.pending_broadcast = Some(header.clone());
                Some(header)
            },
            MineBlockResult::BlockFallingBehind => None,
        }
    }

    /// Mines a block when its time has come, and returns the header to broadcast: none, if the
    /// block does not extend the tip. A block that could not be added is fatal, and the error
    /// handed back.
    pub fn on_tick<B: BlockTree>(&mut self, chain: &mut B) -> (res: Result<Option<Header>, Error>)
        requires
            old(chain).wf(),
            old(chain).tables().tip().number < u64::MAX,
        ensures
            final(chain).wf(),
            old(chain).available() ==> final(chain).available() && !database_failed(res),
            old(chain).available() && old(chain).tables().tip().number == old(chain).tables().last
                ==> res matches Ok(Some(_)),
            final(self).interval == old(self).interval,
            final(self).provider == old(self).provider,
            final(self).pending_broadcast == match res {
                Ok(Some(header)) => Some(header),
                _ => old(self).pending_broadcast,
            },
            mined(
                old(chain).tables(),
                B::genesis_view(),
                match res {
                    Ok(Some(header)) => Ok(MineBlockResult::Mined(header)),
                    Ok(None) => Ok(MineBlockResult::BlockFallingBehind),
                    Err(e) => Err(e),
                },
                final(chain).tables(),
            ),
    {
        proof {
            chain.lemma_wf();
        }
        match chain.mine_block() {
            Ok(result) => Ok(self.on_mined(result)),
            Err(e) => Err(e),
        }
    }

    /// Takes the outcome of the broadcast, which is then over, whatever it is.
    pub fn on_broadcast_outcome(&mut self, outcome: RequestResponse<()>) -> (res: Option<
        RequestError,
    >)
        ensures
            *final(self) == (FixedBlockTimeMiner { pending_broadcast: None, ..*old(self) }),
            res == match outcome {
                Ok(_) => None,
                Err(e) => Some(e),
            },
    {
        self.pending_broadcast = None;
        match outcome {
            Ok(_) => None,
            Err(e) => Some(e),
        }
    }
}

/// The first header of every chain.
pub open spec fn chain_genesis() -> HeaderView {
    HeaderView {
        number: 0,
        parent_hash: "genesis"@,
        state_root: "0x"@,
        timestamp: 1705551177,
        nonce: 17012,
        hash: hex_text(block_digest(0, 1705551177, "genesis"@, "0x"@, "0x"@, 17012)),
    }
}

/// The tables of a chain that holds the genesis header alone.
pub open spec fn fresh_tables() -> ChainView {
    ChainView {
        headers: map![0u64 => chain_genesis()],
        last: 0,
        by_hash: map![chain_genesis().hash => chain_genesis()],
    }
}

/// The header that the bytes of a row hold, if they start with the encoding of one.
pub open spec fn held(row: Seq<u8>) -> Option<HeaderView> {
    if exists|header: HeaderView| (#[trigger] header_rlp(header)).is_prefix_of(row) {
        Some(choose|header: HeaderView| (#[trigger] header_rlp(header)).is_prefix_of(row))
    } else {
        None
    }
}

/// Bytes that start with the encoding of a header hold that header.
proof fn lemma_held(row: Seq<u8>, header: HeaderView)
    requires
        header_rlp(header).is_prefix_of(row),
        row.len() <= u64::MAX,
    ensures
        held(row) == Some(header),
{
    law_header_read_back(header, held(row)->0, row);
}

/// What a database holds: the tables as far as their rows can be read, and the numbers of the
/// header rows that hold no header.
pub struct StoredView {
    pub tables: ChainView,
    pub broken: Set<u64>,
}

impl StoredView {
    /// With a row of the header table. The first row for a number counts, and the genesis header
    /// stays whatever the row for the number 0 holds.
    pub open spec fn with_header_row(self, row: (u64, Vec<u8>)) -> StoredView {
        if self.tables.headers.contains_key(row.0) || self.broken.contains(row.0) {
            self
        } else {
            match held(row.1@) {
                Some(header) => StoredView {
                    tables: ChainView {
                        headers: self.tables.headers.insert(row.0, header),
                        last: if row.0 > self.tables.last {
                            row.0
                        } else {
                            self.tables.last
                        },
                        ..self.tables
                    },
                    ..self
                },
                None => StoredView { broken: self.broken.insert(row.0), ..self },
            }
        }
    }

    /// With the rows of the header table.
    pub open spec fn with_header_rows(self, rows: Seq<(u64, Vec<u8>)>) -> StoredView
        decreases rows.len(),
    {
        if rows.len() == 0 {
            self
        } else {
            self.with_header_rows(rows.drop_last()).with_header_row(rows.last())
        }
    }

    /// With a row of the hash table, which leads to the number of a header. A row that leads to no
    /// header with its hash is left out.
    pub open spec fn with_hash_row(self, row: (String, u64)) -> StoredView {
        if self.tables.headers.contains_key(row.1) && self.tables.headers[row.1].hash == row.0@ {
            self.recorded(self.tables.headers[row.1])
        } else {
            self
        }
    }

    /// With the rows of the hash table.
    pub open spec fn with_hash_rows(self, rows: Seq<(String, u64)>) -> StoredView
        decreases rows.len(),
    {
        if rows.len() == 0 {
            self
        } else {
            self.with_hash_rows(rows.drop_last()).with_hash_row(rows.last())
        }
    }

    /// With the headers that were ever added. A row that holds none is left out.
    pub open spec fn with_history(self, rows: Seq<Vec<u8>>) -> StoredView
        decreases rows.len(),
    {
        if rows.len() == 0 {
            self
        } else {
            let before = self.with_history(rows.drop_last());
            match held(rows.last()@) {
                Some(header) => before.recorded(header),
                None => before,
            }
        }
    }

    /// With a header under its hash.
    pub open spec fn recorded(self, header: HeaderView) -> StoredView {
        StoredView {
            tables: ChainView {
                by_hash: self.tables.by_hash.insert(header.hash, header),
                ..self.tables
            },
            ..self
        }
    }

    /// Whether the row with the highest number can be read.
    pub open spec fn tip_readable(self) -> bool {
        forall|n: u64| #[trigger] self.broken.contains(n) ==> n < self.tables.last
    }

    /// Whether adding a header needs a parent whose row cannot be read.
    pub open spec fn parent_broken(self, header: HeaderView) -> bool {
        &&& header != chain_genesis()
        &&& header.number > 0
        &&& self.broken.contains((header.number - 1) as u64)
    }
}

/// A database in which nothing but the genesis header was stored.
pub open spec fn fresh_store() -> StoredView {
    StoredView { tables: fresh_tables(), broken: Set::empty() }
}

/// What a chain has that is opened from these rows.
pub open spec fn opened(
    header_rows: Seq<(u64, Vec<u8>)>,
    hash_rows: Seq<(String, u64)>,
    history: Seq<Vec<u8>>,
) -> StoredView {
    fresh_store().with_header_rows(header_rows).with_hash_rows(hash_rows).with_history(
        history,
    ).recorded(chain_genesis())
}

/// A chain as its database holds it: the bytes of the header for each number and for each hash.
pub struct Chain {
    header_rows: HashMap<u64, Vec<u8>>,
    hash_rows: StringHashMap<Vec<u8>>,
    last_row: u64,
    contents: Ghost<StoredView>,
}

impl Chain {
    /// What the rows hold.
    pub closed spec fn stored(&self) -> StoredView {
        self.contents@
    }

    /// What the rows that can be read hold.
    pub open spec fn view(&self) -> ChainView {
        self.stored().tables
    }

    /// Each row holds its header, and the tables are in order.
    #[verifier::opaque]
    pub closed spec fn inv(&self) -> bool {
        let stored = self.contents@;
        &&& stored.tables.valid(chain_genesis())
        &&& forall|n: u64| #[trigger]
            self.header_rows@.contains_key(n) <==> stored.tables.headers.contains_key(n)
                || stored.broken.contains(n)
        &&& forall|n: u64| #[trigger]
            stored.tables.headers.contains_key(n) ==> !stored.broken.contains(n) && held(
                self.header_rows@[n]@,
            ) == Some(stored.tables.headers[n])
        &&& forall|n: u64| #[trigger]
            stored.broken.contains(n) ==> n <= self.last_row && held(self.header_rows@[n]@) is None
        &&& self.last_row == stored.tables.last || self.last_row > stored.tables.last
            && stored.broken.contains(self.last_row)
        &&& forall|hash: Seq<char>| #[trigger]
            self.hash_rows@.contains_key(hash) <==> stored.tables.by_hash.contains_key(hash)
        &&& forall|hash: Seq<char>| #[trigger]
            self.hash_rows@.contains_key(hash) ==> held(self.hash_rows@[hash]@) == Some(
                stored.tables.by_hash[hash],
            )
    }

    /// The tables of a chain are in order, and a row that cannot be read is not in them.
    pub proof fn lemma_inv(&self)
        requires
            self.inv(),
        ensures
            self.view().valid(chain_genesis()),
            forall|n: u64| #[trigger]
                self.stored().broken.contains(n) ==> !self.view().headers.contains_key(n),
    {
        reveal(Chain::inv);
    }

    /// A chain that holds the genesis header alone.
    pub fn new() -> (res: Chain)
        ensures
            res.inv(),
            res.stored() == fresh_store(),
    {
        let genesis = Chain::genesis();
        let mut header_rows: HashMap<u64, Vec<u8>> = HashMap::new();
        header_rows.insert(0, header_row(&genesis));
        let mut hash_rows: StringHashMap<Vec<u8>> = StringHashMap::new();
        hash_rows.insert(genesis.hash.clone(), header_row(&genesis));
        proof {
            reveal(Chain::inv);
        }
        Chain { header_rows, hash_rows, last_row: 0, contents: Ghost(fresh_store()) }
    }

    /// A chain from the rows of its database: those of the header table by their numbers, those of
    /// the hash table, which lead to these numbers, and all headers that were ever added. The
    /// genesis header goes over what they hold in its place. Rows that hold no header fail when
    /// they are read.
    pub fn open(
        header_rows: Vec<(u64, Vec<u8>)>,
        hash_rows: Vec<(String, u64)>,
        history: Vec<Vec<u8>>,
    ) -> (res: Chain)
        ensures
            res.inv(),
            res.stored() == opened(header_rows@, hash_rows@, history@),
    {
        let mut chain = Chain::new();
        let mut i: usize = 0;
        while i < header_rows.len()
            invariant
                i <= header_rows@.len(),
                chain.inv(),
                chain.stored() == fresh_store().with_header_rows(header_rows@.take(i as int)),
            decreases header_rows@.len() - i,
        {
            assert(header_rows@.take(i + 1).drop_last() =~= header_rows@.take(i as int));
            chain.load_header_row(&header_rows[i]);
            i = i + 1;
        }
        assert(header_rows@.take(i as int) =~= header_rows@);
        let ghost loaded = chain.stored();
        let mut j: usize = 0;
        while j < hash_rows.len()
            invariant
                j <= hash_rows@.len(),
                chain.inv(),
                chain.stored() == loaded.with_hash_rows(hash_rows@.take(j as int)),
            decreases hash_rows@.len() - j,
        {
            assert(hash_rows@.take(j + 1).drop_last() =~= hash_rows@.take(j as int));
            proof {
                chain.lemma_inv();
            }
            if let Ok(header) = chain.get_header_by_block_number(hash_rows[j].1) {
                if header.hash == hash_rows[j].0 {
                    chain.record(&header);
                }
            }
            j = j + 1;
        }
        assert(hash_rows@.take(j as int) =~= hash_rows@);
        let ghost listed = chain.stored();
        let mut k: usize = 0;
        while k < history.len()
            invariant
                k <= history@.len(),
                chain.inv(),
                chain.stored() == listed.with_history(history@.take(k as int)),
            decreases history@.len() - k,
        {
            assert(history@.take(k + 1).drop_last() =~= history@.take(k as int));
            if let Some(header) = read_row(&history[k]) {
                chain.record(&header);
            }
            k = k + 1;
        }
        assert(history@.take(k as int) =~= history@);
        chain.record(&Chain::genesis());
        chain
    }

    /// Takes a row of the header table.
    fn load_header_row(&mut self, row: &(u64, Vec<u8>))
        requires
            old(self).inv(),
        ensures
            final(self).inv(),
            final(self).stored() == old(self).stored().with_header_row(*row),
    {
        proof {
            reveal(Chain::inv);
        }
        if self.header_rows.contains_key(&row.0) {
            return;
        }
        let bytes = row.1.clone();
        assert(bytes@ =~= row.1@);
        self.header_rows.insert(row.0, bytes);
        if row.0 > self.last_row {
            self.last_row = row.0;
        }
        proof {
            self.contents@ = self.contents@.with_header_row(*row);
        }
    }

    /// Writes a header at its number and under its hash.
    fn write(&mut self, header: &Header)
        requires
            old(self).inv(),
            old(self).stored().tip_readable(),
            header@.number == 0 ==> header@ == chain_genesis(),
        ensures
            final(self).inv(),
            final(self).stored() == (StoredView {
                tables: old(self).view().with(header@),
                broken: old(self).stored().broken.remove(header@.number),
            }),
            final(self).stored().tip_readable(),
    {
        proof {
            reveal(Chain::inv);
            lemma_with_is_valid(self.view(), chain_genesis(), header@);
        }
        self.hash_rows.insert(header.hash.clone(), header_row(header));
        self.header_rows.insert(header.number, header_row(header));
        if header.number > self.last_row {
            self.last_row = header.number;
        }
        proof {
            self.contents@ = StoredView {
                tables: self.contents@.tables.with(header@),
                broken: self.contents@.broken.remove(header@.number),
            };
        }
    }

    /// Writes a header under its hash.
    fn record(&mut self, header: &Header)
        requires
            old(self).inv(),
        ensures
            final(self).inv(),
            final(self).stored() == old(self).stored().recorded(header@),
    {
        self.hash_rows.insert(header.hash.clone(), header_row(header));
        proof {
            reveal(Chain::inv);
            self.contents@ = self.contents@.recorded(header@);
        }
    }

    /// Checks the parent hash and the block number of a header, for proper chain ordering. The
    /// genesis header needs no parent. A parent whose row cannot be read is a failure of the
    /// database.
    pub fn validate_adjacent_block_header(&self, header: &Header) -> (res: Result<(), Error>)
        requires
            self.inv(),
        ensures
            if self.stored().parent_broken(header@) {
                database_failed(res)
            } else {
                match res {
                    Ok(()) => self.view().link_error(chain_genesis(), header@) is None,
                    Err(e) => self.view().link_error(chain_genesis(), header@) == Some(e),
                }
            },
    {
        proof {
            self.lemma_inv();
        }
        if header.same(&Chain::genesis()) {
            return Ok(());
        }
        if header.number == 0 {
            return Err(Error::BlockHeaderNotFound);
        }
        let parent_header = match self.get_header_by_block_number(header.number - 1) {
            Ok(parent_header) => parent_header,
            Err(e) => return Err(e),
        };
        if !(parent_header.hash == header.parent_hash) {
            return Err(Error::Invalid);
        }
        if parent_header.number != header.number - 1 {
            return Err(Error::Invalid);
        }
        Ok(())
    }
}

/// The row for a header.
fn header_row(header: &Header) -> (res: Vec<u8>)
    ensures
        held(res@) == Some(header@),
{
    let row = encode_header(header);
    let len: usize = row.len();
    proof {
        assert(header_rlp(header@) =~= row@.subrange(0, row@.len() as int));
        lemma_held(row@, header@);
    }
    row
}

/// The header that a row holds, if it holds one.
fn read_row(row: &Vec<u8>) -> (res: Option<Header>)
    ensures
        match res {
            Some(header) => held(row@) == Some(header@),
            None => held(row@) is None,
        },
{
    let len: usize = row.len();
    match decode_header(row.as_slice()) {
        Ok(header) => {
            proof {
                lemma_held(row@, header@);
            }
            Some(header)
        },
        Err(_) => None,
    }
}

/// A header at its number, with the genesis header at 0, leaves the tables in order.
proof fn lemma_with_is_valid(tables: ChainView, genesis: HeaderView, header: HeaderView)
    requires
        tables.valid(genesis),
        header.number == 0 ==> header == genesis,
    ensures
        tables.with(header).valid(genesis),
        tables.ordered() ==> tables.with(header).ordered(),
{
    let after = tables.with(header);
    assert forall|n: u64| #[trigger] after.headers.contains_key(n) implies n <= after.last by {
        assert(n == header.number || tables.headers.contains_key(n));
    }
    if tables.ordered() {
        assert forall|n: u64| #[trigger] after.headers.contains_key(n) implies after.headers[n].number
            == n by {
            assert(n == header.number || tables.headers.contains_key(n));
        }
    }
    assert forall|hash: Seq<char>| #[trigger] after.by_hash.contains_key(hash) implies after.by_hash[
        hash].hash == hash by {
        assert(hash == header.hash || tables.by_hash.contains_key(hash));
    }
}

impl BlockTree for Chain {
    open spec fn wf(&self) -> bool {
        self.inv()
    }

    open spec fn tables(&self) -> ChainView {
        self.view()
    }

    open spec fn available(&self) -> bool {
        self.stored().broken == Set::<u64>::empty()
    }

    open spec fn genesis_view() -> HeaderView {
        chain_genesis()
    }

    proof fn lemma_wf(&self) {
        self.lemma_inv();
        assert(Self::genesis_view() == chain_genesis());
        assert(Chain::genesis_view() == chain_genesis());
        assert(self.tables() == self.view());
    }

    fn try_add_block_header(&mut self, header: Header) -> (res: Result<AddedBlockResult, Error>)
        ensures
            database_failed(res) <==> {
                ||| old(self).stored().parent_broken(header@)
                ||| old(self).view().link_error(chain_genesis(), header@) is None && !old(
                    self,
                ).stored().tip_readable()
            },
            final(self).stored().broken == if res is Ok {
                old(self).stored().broken.remove(header@.number)
            } else {
                old(self).stored().broken
            },
    {
        match self.validate_adjacent_block_header(&header) {
            Ok(()) => {},
            Err(e) => return Err(e),
        }
        let old_tip = match self.tip() {
            Ok(old_tip) => old_tip,
            Err(e) => return Err(e),
        };
        self.write(&header);
        assert(old(self).available() ==> self.stored().broken =~= Set::empty());
        let tip = match self.tip() {
            Ok(tip) => tip,
            Err(e) => return Err(e),
        };
        if old_tip.number < tip.number {
            Ok(AddedBlockResult::ExtendTip)
        } else {
            Ok(AddedBlockResult::AlreadyInChain)
        }
    }

    fn get_header_by_block_number(&self, block_number: u64) -> (res: Result<Header, Error>)
        ensures
            database_failed(res) <==> self.stored().broken.contains(block_number),
    {
        proof {
            reveal(Chain::inv);
        }
        match self.header_rows.get(&block_number) {
            Some(row) => match read_row(row) {
                Some(header) => Ok(header),
                None => Err(Error::DatabaseError("decode header".to_owned())),
            },
            None => Err(Error::BlockHeaderNotFound),
        }
    }

    fn get_header_by_hash(&self, hash: String) -> (res: Result<Header, Error>)
        ensures
            !database_failed(res),
    {
        proof {
            reveal(Chain::inv);
        }
        match self.hash_rows.get(hash.as_str()) {
            Some(row) => match read_row(row) {
                Some(header) => Ok(header),
                None => Err(Error::BlockHeaderNotFound),
            },
            None => Err(Error::BlockHeaderNotFound),
        }
    }

    fn tip(&self) -> (res: Result<Header, Error>)
        ensures
            database_failed(res) <==> !self.stored().tip_readable(),
    {
        proof {
            reveal(Chain::inv);
        }
        self.get_header_by_block_number(self.last_row)
    }

    fn genesis() -> (res: Header) {
        let timestamp: u64 = 1705551177;
        let nonce: u64 = 17012;
        let hash = hex_encode(
            calculate_hash(0, timestamp, "genesis", "0x", "0x", nonce).as_slice(),
        );
        Header {
            number: 0,
            parent_hash: "genesis".to_owned(),
            state_root: "0x".to_owned(),
            timestamp,
            nonce,
            hash,
        }
    }
}

/// A header that may be added leaves the tables in order, and every header at its number.
pub proof fn law_order_is_kept(tables: ChainView, genesis: HeaderView, header: HeaderView)
    requires
        tables.valid(genesis),
        tables.link_error(genesis, header) is None,
    ensures
        tables.with(header).valid(genesis),
        tables.ordered() ==> tables.with(header).ordered(),
{
    lemma_with_is_valid(tables, genesis, header);
}

/// A header that may be added makes no gap.
pub proof fn law_no_gap_is_made(tables: ChainView, genesis: HeaderView, header: HeaderView)
    requires
        tables.valid(genesis),
        tables.gapless(),
        tables.link_error(genesis, header) is None,
    ensures
        tables.with(header).gapless(),
{
    assert forall|n: u64| n <= tables.with(header).last implies #[trigger] tables.with(
        header,
    ).headers.contains_key(n) by {
        if n <= tables.last {
            assert(tables.headers.contains_key(n));
        }
    }
}

/// A header that was added is found by its number and by its hash.
pub proof fn law_added_header_is_found(tables: ChainView, genesis: HeaderView, header: HeaderView)
    requires
        tables.valid(genesis),
        tables.link_error(genesis, header) is None,
    ensures
        tables.with(header).at_number(header.number) == Some(header),
        tables.with(header).at_hash(header.hash) == Some(header),
{
}

/// A header that is found has the hash that was asked for, and, in a chain that is ordered, the
/// number.
pub proof fn law_found_header_is_the_one_asked_for(
    tables: ChainView,
    genesis: HeaderView,
    number: u64,
    hash: Seq<char>,
)
    requires
        tables.valid(genesis),
    ensures
        tables.ordered() ==> (tables.at_number(number) matches Some(header) ==> header.number
            == number),
        tables.at_hash(hash) matches Some(header) ==> header.hash == hash,
{
}

/// What is found by hash is what was added: with headers added to a chain of the genesis header, a
/// hash is found exactly if it is that of the genesis header or of one that was added.
pub proof fn law_hashes_found_are_those_added(headers: Seq<HeaderView>, hash: Seq<char>)
    ensures
        fresh_tables().with_all(headers).at_hash(hash) is Some <==> hash == chain_genesis().hash
            || exists|i: int| 0 <= i < headers.len() && (#[trigger] headers[i]).hash == hash,
    decreases headers.len(),
{
    if headers.len() > 0 {
        let init = headers.drop_last();
        law_hashes_found_are_those_added(init, hash);
        assert(forall|i: int| 0 <= i < init.len() ==> init[i] == headers[i]);
        if exists|i: int| 0 <= i < init.len() && (#[trigger] init[i]).hash == hash {
            let i = choose|i: int| 0 <= i < init.len() && (#[trigger] init[i]).hash == hash;
            assert(headers[i].hash == hash);
        }
        if exists|i: int| 0 <= i < headers.len() && (#[trigger] headers[i]).hash == hash {
            let i = choose|i: int| 0 <= i < headers.len() && (#[trigger] headers[i]).hash == hash;
            if i < init.len() {
                assert(init[i].hash == hash);
            }
        }
        if headers.last().hash == hash {
            assert(headers[headers.len() - 1].hash == hash);
        }
    }
}

/// The headers at other numbers, and those with other hashes, stay as they were.
pub proof fn law_other_headers_stay(
    tables: ChainView,
    genesis: HeaderView,
    header: HeaderView,
    number: u64,
    hash: Seq<char>,
)
    requires
        tables.valid(genesis),
        tables.link_error(genesis, header) is None,
    ensures
        number != header.number ==> tables.with(header).at_number(number) == tables.at_number(
            number,
        ),
        hash != header.hash ==> tables.with(header).at_hash(hash) == tables.at_hash(hash),
{
}

/// A header that was added may be added again: it is then in the chain already, and nothing
/// changes.
pub proof fn law_adding_again_changes_nothing(
    tables: ChainView,
    genesis: HeaderView,
    header: HeaderView,
)
    requires
        tables.valid(genesis),
        tables.link_error(genesis, header) is None,
    ensures
        tables.with(header).link_error(genesis, header) is None,
        tables.with(header).added_as(header) == AddedBlockResult::AlreadyInChain,
        tables.with(header).with(header) == tables.with(header),
{
    let after = tables.with(header);
    assert(after.with(header).headers =~= after.headers);
    assert(after.with(header).by_hash =~= after.by_hash);
}

/// In a chain that is ordered the tip never falls back, and it moves, by one, exactly when the
/// result says so.
pub proof fn law_tip_never_falls_back(tables: ChainView, genesis: HeaderView, header: HeaderView)
    requires
        tables.valid(genesis),
        tables.ordered(),
        tables.link_error(genesis, header) is None,
    ensures
        tables.added_as(header) == AddedBlockResult::ExtendTip ==> tables.with(header).tip()
            == header && header.number == tables.tip().number + 1,
        tables.added_as(header) == AddedBlockResult::AlreadyInChain ==> tables.with(
            header,
        ).tip().number == tables.tip().number,
{
}

/// Links are kept, unless the header after the one that is added names another parent.
pub proof fn law_links_are_kept(tables: ChainView, genesis: HeaderView, header: HeaderView)
    requires
        tables.valid(genesis),
        tables.linked(),
        tables.link_error(genesis, header) is None,
        header.number < u64::MAX && tables.headers.contains_key((header.number + 1) as u64)
            ==> tables.headers[(header.number + 1) as u64].parent_hash == header.hash,
    ensures
        tables.with(header).linked(),
{
    let after = tables.with(header);
    assert forall|n: u64|
        0 < n && #[trigger] after.headers.contains_key(n) && after.headers.contains_key(
            (n - 1) as u64,
        ) implies after.headers[n].parent_hash == after.headers[(n - 1) as u64].hash by {
        if n != header.number {
            assert(tables.headers.contains_key(n));
        }
    }
}

/// The genesis header is in every chain already, and adding it leaves the headers as they are.
pub proof fn law_genesis_is_in_the_chain(tables: ChainView, genesis: HeaderView)
    requires
        tables.valid(genesis),
    ensures
        tables.link_error(genesis, genesis) is None,
        tables.added_as(genesis) == AddedBlockResult::AlreadyInChain,
        tables.with(genesis).headers == tables.headers,
{
    assert(tables.with(genesis).headers =~= tables.headers);
}

/// A block that was mined on top of a tip that stands at its own number extends it: it is the new
/// tip, its number is the next one, the old tip is its parent, and every header that was there
/// stays. (On a tip with the last number there is no room for one.)
pub proof fn law_mined_block_extends_the_tip(
    tables: ChainView,
    genesis: HeaderView,
    header: HeaderView,
)
    requires
        tables.valid(genesis),
        tables.tip().number == tables.last,
        tables.tip().number < u64::MAX,
        mined_on(tables.tip(), header),
    ensures
        tables.link_error(genesis, header) is None,
        tables.added_as(header) == AddedBlockResult::ExtendTip,
        tables.with(header).tip() == header,
        header.number == tables.tip().number + 1,
        header.parent_hash == tables.tip().hash,
        tables.with(header).headers == tables.headers.insert(header.number, header),
        !tables.headers.contains_key(header.number),
{
}

/// Whether databases follow one another by mining, a block at a time: these are the headers.
pub open spec fn mined_in_turn(
    genesis: HeaderView,
    states: Seq<ChainView>,
    headers: Seq<HeaderView>,
) -> bool {
    &&& states.len() == headers.len() + 1
    &&& forall|i: int|
        0 <= i < headers.len() ==> mined_onto(
            states[i],
            genesis,
            #[trigger] headers[i],
            states[i + 1],
        )
}

/// Mining block after block on a fresh chain gives a chain that holds, after the genesis block, the
/// blocks that were mined, without a gap, each linked to the one before, the last one as its tip.
pub proof fn law_mining_builds_a_chain(states: Seq<ChainView>, headers: Seq<HeaderView>)
    requires
        states.len() > 0,
        states[0] == fresh_tables(),
        headers.len() <= u64::MAX,
        mined_in_turn(chain_genesis(), states, headers),
    ensures
        states.last().valid(chain_genesis()),
        states.last().last == headers.len(),
        states.last().tip().number == headers.len(),
        states.last().ordered(),
        states.last().gapless(),
        states.last().linked(),
        forall|i: int|
            0 <= i < headers.len() ==> states.last().at_number((i + 1) as u64) == Some(
                #[trigger] headers[i],
            ),
    decreases headers.len(),
{
    if headers.len() == 0 {
        assert(states.last() == fresh_tables());
    } else {
        let n = headers.len() - 1;
        let header = headers[n];
        assert(states.drop_last().len() == n + 1);
        assert(mined_in_turn(chain_genesis(), states.drop_last(), headers.drop_last())) by {
            assert forall|i: int| 0 <= i < n implies mined_onto(
                states.drop_last()[i],
                chain_genesis(),
                #[trigger] headers.drop_last()[i],
                states.drop_last()[i + 1],
            ) by {
                assert(headers.drop_last()[i] == headers[i]);
            }
        }
        law_mining_builds_a_chain(states.drop_last(), headers.drop_last());
        let before = states[n];
        assert(before == states.drop_last().last());
        assert(mined_onto(before, chain_genesis(), header, states[n + 1]));
        law_mined_block_extends_the_tip(before, chain_genesis(), header);
        let after = states.last();
        assert(after == before.with(header));
        assert forall|i: int| 0 <= i < headers.len() implies after.at_number((i + 1) as u64)
            == Some(#[trigger] headers[i]) by {
            if i < n {
                assert(before.at_number((i + 1) as u64) == Some(headers.drop_last()[i]));
            }
        }
    }
}

/// In a chain that is ordered and has no gaps, a header is refused for want of its parent exactly
/// when it is ahead of the next number, or is a second one with the number 0.
pub proof fn law_missing_parent_means_ahead(
    tables: ChainView,
    genesis: HeaderView,
    header: HeaderView,
)
    requires
        tables.valid(genesis),
        tables.ordered(),
        tables.gapless(),
    ensures
        tables.link_error(genesis, header) == Some(Error::BlockHeaderNotFound) <==> header.number
            > tables.tip().number + 1 || header.number == 0 && header != genesis,
{
}

/// Whether rows are those of the header table, no more and no less: the bytes of each header under
/// its number.
pub open spec fn stores_headers(header_rows: Seq<(u64, Vec<u8>)>, stored: ChainView) -> bool {
    &&& forall|i: int|
        0 <= i < header_rows.len() ==> stored.headers.contains_key((#[trigger] header_rows[i]).0)
            && header_rows[i].1@ == header_rlp(stored.headers[header_rows[i].0])
            && header_rows[i].1@.len() <= u64::MAX
    &&& forall|n: u64| #[trigger]
        stored.headers.contains_key(n) ==> exists|i: int|
            0 <= i < header_rows.len() && (#[trigger] header_rows[i]).0 == n
}

/// Whether the rows of the hash table lead from hashes that were added.
pub open spec fn stores_hashes(hash_rows: Seq<(String, u64)>, stored: ChainView) -> bool {
    forall|i: int|
        0 <= i < hash_rows.len() ==> stored.by_hash.contains_key((#[trigger] hash_rows[i]).0@)
}

/// Whether rows are those of the headers that were ever added, no more and no less; `hashes` are
/// their keys.
pub open spec fn stores_history(
    hashes: Seq<Seq<char>>,
    history: Seq<Vec<u8>>,
    stored: ChainView,
) -> bool {
    &&& hashes.len() == history.len()
    &&& forall|i: int|
        0 <= i < hashes.len() ==> stored.by_hash.contains_key(#[trigger] hashes[i])
            && history[i]@ == header_rlp(stored.by_hash[hashes[i]]) && history[i]@.len()
            <= u64::MAX
    &&& forall|hash: Seq<char>| #[trigger]
        stored.by_hash.contains_key(hash) ==> hashes.contains(hash)
}

/// A chain that is opened from the rows of a chain has its headers, finds the same ones by their
/// hashes, and can read every row. (Under the hash of the genesis header it finds that header, even
/// if another header had the same hash.)
pub proof fn law_stored_chain_reopens(
    stored: ChainView,
    header_rows: Seq<(u64, Vec<u8>)>,
    hash_rows: Seq<(String, u64)>,
    hashes: Seq<Seq<char>>,
    history: Seq<Vec<u8>>,
)
    requires
        stored.valid(chain_genesis()),
        stores_headers(header_rows, stored),
        stores_hashes(hash_rows, stored),
        stores_history(hashes, history, stored),
    ensures
        opened(header_rows, hash_rows, history).broken == Set::<u64>::empty(),
        opened(header_rows, hash_rows, history).tables.headers == stored.headers,
        opened(header_rows, hash_rows, history).tables.last == stored.last,
        opened(header_rows, hash_rows, history).tables.by_hash == stored.by_hash.insert(
            chain_genesis().hash,
            chain_genesis(),
        ),
{
    assert forall|i: int| 0 <= i < header_rows.len() implies held(
        (#[trigger] header_rows[i]).1@,
    ) == Some(stored.headers[header_rows[i].0]) by {
        let row = header_rows[i];
        assert(stored.headers.contains_key(row.0));
        assert(header_rlp(stored.headers[row.0]) =~= row.1@.subrange(0, row.1@.len() as int));
        lemma_held(row.1@, stored.headers[row.0]);
    }
    assert forall|i: int| 0 <= i < history.len() implies held((#[trigger] history[i])@) == Some(
        stored.by_hash[hashes[i]],
    ) by {
        assert(stored.by_hash.contains_key(hashes[i]));
        let row = history[i]@;
        assert(header_rlp(stored.by_hash[hashes[i]]) =~= row.subrange(0, row.len() as int));
        lemma_held(row, stored.by_hash[hashes[i]]);
    }
    let loaded = fresh_store().with_header_rows(header_rows);
    lemma_header_rows_agree(stored, header_rows);
    assert forall|n: u64| stored.headers.contains_key(
        n,
    ) implies #[trigger] loaded.tables.headers.contains_key(n) by {
        let i = choose|i: int| 0 <= i < header_rows.len() && (#[trigger] header_rows[i]).0 == n;
        assert(loaded.tables.headers.contains_key(header_rows[i].0));
    }
    assert(loaded.tables.headers =~= stored.headers);
    assert(loaded.tables.headers.contains_key(stored.last));
    lemma_hash_rows_agree(stored, loaded, hash_rows);
    let listed = loaded.with_hash_rows(hash_rows);
    lemma_history_agrees(stored, listed, hashes, history);
    let kept = listed.with_history(history);
    assert forall|hash: Seq<char>| stored.by_hash.contains_key(
        hash,
    ) implies #[trigger] kept.tables.by_hash.contains_key(hash) && kept.tables.by_hash[hash]
        == stored.by_hash[hash] by {
        let i = choose|i: int| 0 <= i < hashes.len() && hashes[i] == hash;
        assert(kept.tables.by_hash.contains_key(hashes[i]));
    }
    assert(kept.recorded(chain_genesis()).tables.by_hash =~= stored.by_hash.insert(
        chain_genesis().hash,
        chain_genesis(),
    ));
}

/// Header rows that agree with a chain give its headers.
proof fn lemma_header_rows_agree(stored: ChainView, rows: Seq<(u64, Vec<u8>)>)
    requires
        stored.valid(chain_genesis()),
        forall|i: int|
            0 <= i < rows.len() ==> stored.headers.contains_key((#[trigger] rows[i]).0) && held(
                rows[i].1@,
            ) == Some(stored.headers[rows[i].0]),
    ensures
        ({
            let loaded = fresh_store().with_header_rows(rows);
            &&& loaded.broken == Set::<u64>::empty()
            &&& loaded.tables.by_hash == fresh_tables().by_hash
            &&& loaded.tables.headers.contains_key(loaded.tables.last)
            &&& forall|n: u64| #[trigger]
                loaded.tables.headers.contains_key(n) ==> n <= loaded.tables.last
                    && stored.headers.contains_key(n) && loaded.tables.headers[n]
                    == stored.headers[n]
            &&& forall|i: int|
                0 <= i < rows.len() ==> loaded.tables.headers.contains_key((#[trigger] rows[i]).0)
        }),
    decreases rows.len(),
{
    if rows.len() > 0 {
        let init = rows.drop_last();
        assert(forall|i: int| 0 <= i < init.len() ==> init[i] == rows[i]);
        lemma_header_rows_agree(stored, init);
        let before = fresh_store().with_header_rows(init);
        let last = rows[rows.len() - 1];
        let loaded = fresh_store().with_header_rows(rows);
        assert(loaded == before.with_header_row(last));
        assert forall|i: int| 0 <= i < rows.len() implies loaded.tables.headers.contains_key(
            (#[trigger] rows[i]).0,
        ) by {
            if i < init.len() {
                assert(before.tables.headers.contains_key(init[i].0));
            }
        }
    }
}

/// Hash rows change the table by hash alone, and only under hashes that they have.
proof fn lemma_hash_rows_agree(stored: ChainView, loaded: StoredView, rows: Seq<(String, u64)>)
    requires
        stores_hashes(rows, stored),
    ensures
        ({
            let after = loaded.with_hash_rows(rows);
            &&& after.broken == loaded.broken
            &&& after.tables.headers == loaded.tables.headers
            &&& after.tables.last == loaded.tables.last
            &&& forall|hash: Seq<char>| #[trigger]
                after.tables.by_hash.contains_key(hash) ==> loaded.tables.by_hash.contains_key(hash)
                    || stored.by_hash.contains_key(hash)
        }),
    decreases rows.len(),
{
    if rows.len() > 0 {
        let init = rows.drop_last();
        assert(forall|i: int| 0 <= i < init.len() ==> init[i] == rows[i]);
        lemma_hash_rows_agree(stored, loaded, init);
        let before = loaded.with_hash_rows(init);
        let last = rows[rows.len() - 1];
        let after = loaded.with_hash_rows(rows);
        assert(after == before.with_hash_row(last));
        assert(stored.by_hash.contains_key(last.0@));
        assert forall|hash: Seq<char>| #[trigger]
            after.tables.by_hash.contains_key(hash) implies loaded.tables.by_hash.contains_key(hash)
            || stored.by_hash.contains_key(hash) by {
            assert(hash == last.0@ || before.tables.by_hash.contains_key(hash));
        }
    }
}

/// The headers that were ever added are found under their hashes; nothing else changes.
proof fn lemma_history_agrees(
    stored: ChainView,
    listed: StoredView,
    hashes: Seq<Seq<char>>,
    history: Seq<Vec<u8>>,
)
    requires
        stored.valid(chain_genesis()),
        hashes.len() == history.len(),
        forall|i: int| 0 <= i < hashes.len() ==> stored.by_hash.contains_key(#[trigger] hashes[i]),
        forall|i: int|
            0 <= i < history.len() ==> held((#[trigger] history[i])@) == Some(
                stored.by_hash[hashes[i]],
            ),
    ensures
        ({
            let after = listed.with_history(history);
            &&& after.broken == listed.broken
            &&& after.tables.headers == listed.tables.headers
            &&& after.tables.last == listed.tables.last
            &&& forall|hash: Seq<char>| #[trigger]
                after.tables.by_hash.contains_key(hash) ==> listed.tables.by_hash.contains_key(hash)
                    || stored.by_hash.contains_key(hash)
            &&& forall|i: int|
                0 <= i < hashes.len() ==> after.tables.by_hash.contains_key(#[trigger] hashes[i])
                    && after.tables.by_hash[hashes[i]] == stored.by_hash[hashes[i]]
        }),
    decreases history.len(),
{
    if history.len() > 0 {
        let init = history.drop_last();
        let keys = hashes.drop_last();
        assert(forall|i: int| 0 <= i < init.len() ==> init[i] == history[i]);
        assert(forall|i: int| 0 <= i < keys.len() ==> keys[i] == hashes[i]);
        lemma_history_agrees(stored, listed, keys, init);
        let before = listed.with_history(init);
        let n = history.len() - 1;
        let key = hashes[n];
        assert(held(history[n]@) == Some(stored.by_hash[key]));
        assert(stored.by_hash.contains_key(key));
        let after = listed.with_history(history);
        assert(after == before.recorded(stored.by_hash[key]));
        assert forall|hash: Seq<char>| #[trigger]
            after.tables.by_hash.contains_key(hash) implies listed.tables.by_hash.contains_key(hash)
            || stored.by_hash.contains_key(hash) by {
            assert(hash == key || before.tables.by_hash.contains_key(hash));
        }
        assert forall|i: int| 0 <= i < hashes.len() implies after.tables.by_hash.contains_key(
            #[trigger] hashes[i],
        ) && after.tables.by_hash[hashes[i]] == stored.by_hash[hashes[i]] by {
            if i < n {
                assert(before.tables.by_hash.contains_key(keys[i]));
            }
        }
    }
}

/// Whether an object has these six members and no other.
pub open spec fn is_object_of(
    members: Map<Seq<char>, JsonMember>,
    block_number: u64,
    timestamp: u64,
    parent_hash: Seq<char>,
    state_root: Seq<char>,
    data: Seq<char>,
    nonce: u64,
) -> bool {
    &&& forall|name: Seq<char>| #[trigger]
        members.contains_key(name) <==> name == "block_number"@ || name == "timestamp"@ || name
            == "parent_hash"@ || name == "state_root"@ || name == "data"@ || name == "nonce"@
    &&& members["block_number"@] == JsonMember::Number(block_number)
    &&& members["timestamp"@] == JsonMember::Number(timestamp)
    &&& members["parent_hash"@] == JsonMember::Text(parent_hash)
    &&& members["state_root"@] == JsonMember::Text(state_root)
    &&& members["data"@] == JsonMember::Text(data)
    &&& members["nonce"@] == JsonMember::Number(nonce)
}

/// The names of the members differ.
proof fn lemma_names_differ()
    ensures
        "block_number"@[0] == 'b',
        "timestamp"@[0] == 't',
        "parent_hash"@[0] == 'p',
        "state_root"@[0] == 's',
        "data"@[0] == 'd',
        "nonce"@[0] == 'n',
{
    reveal_strlit("block_number");
    reveal_strlit("timestamp");
    reveal_strlit("parent_hash");
    reveal_strlit("state_root");
    reveal_strlit("data");
    reveal_strlit("nonce");
}

/// The object that is hashed holds each part of a block in full under its own name, and nothing
/// else.
pub proof fn law_hashed_object_holds_every_part(
    block_number: u64,
    timestamp: u64,
    parent_hash: Seq<char>,
    state_root: Seq<char>,
    data: Seq<char>,
    nonce: u64,
)
    ensures
        ({
            let members = block_members(
                block_number,
                timestamp,
                parent_hash,
                state_root,
                data,
                nonce,
            );
            &&& members["block_number"@] == JsonMember::Number(block_number)
            &&& members["timestamp"@] == JsonMember::Number(timestamp)
            &&& members["parent_hash"@] == JsonMember::Text(parent_hash)
            &&& members["state_root"@] == JsonMember::Text(state_root)
            &&& members["data"@] == JsonMember::Text(data)
            &&& members["nonce"@] == JsonMember::Number(nonce)
            &&& forall|name: Seq<char>| #[trigger]
                members.contains_key(name) ==> name == "block_number"@ || name == "timestamp"@
                    || name == "parent_hash"@ || name == "state_root"@ || name == "data"@ || name
                    == "nonce"@
        }),
{
    lemma_names_differ();
}

/// Blocks that differ in any part have different objects.
pub proof fn law_different_blocks_have_different_objects(
    a: (u64, u64, Seq<char>, Seq<char>, Seq<char>, u64),
    b: (u64, u64, Seq<char>, Seq<char>, Seq<char>, u64),
)
    requires
        a != b,
    ensures
        block_members(a.0, a.1, a.2, a.3, a.4, a.5) != block_members(b.0, b.1, b.2, b.3, b.4, b.5),
{
    law_hashed_object_holds_every_part(a.0, a.1, a.2, a.3, a.4, a.5);
    law_hashed_object_holds_every_part(b.0, b.1, b.2, b.3, b.4, b.5);
}

/// The hash of a block is the SHA-256 of the text of the object that has its parts as its members:
/// the number, the time, the hash of the parent, the state root, the data and the nonce, each in
/// full.
pub proof fn law_block_hash_is_that_of_its_parts(
    block_number: u64,
    timestamp: u64,
    parent_hash: &str,
    state_root: &str,
    data: &str,
    nonce: u64,
    members: Map<Seq<char>, JsonMember>,
    res: Vec<u8>,
)
    requires
        call_ensures(
            calculate_hash,
            (block_number, timestamp, parent_hash, state_root, data, nonce),
            res,
        ),
        is_object_of(
            members,
            block_number,
            timestamp,
            parent_hash@,
            state_root@,
            data@,
            nonce,
        ),
    ensures
        res@ == sha256_digest(encode_utf8(json_object_text(members))),
        res@.len() == 32,
{
    lemma_names_differ();
    assert(members =~= block_members(
        block_number,
        timestamp,
        parent_hash@,
        state_root@,
        data@,
        nonce,
    ));
}

/// A nonce that is drawn comes with the hash, in hexadecimal, of the block that has it: the same
/// hash that its parts give.
pub proof fn law_drawn_nonce_gives_the_hash(
    number: u64,
    timestamp: u64,
    previous_hash: &str,
    state_root: &str,
    data: &str,
    drawn: (u64, String),
    hash: Vec<u8>,
)
    requires
        call_ensures(mine_block, (number, timestamp, previous_hash, state_root, data), drawn),
        call_ensures(
            calculate_hash,
            (number, timestamp, previous_hash, state_root, data, drawn.0),
            hash,
        ),
    ensures
        drawn.1@ == hex_text(hash@),
{
}

/// The header of a mined block has the next number and the hash of the tip as its parent hash. Its
/// hash is that of the object of these two, its nonce, the fixed data, some time, and a state root
/// that is the digest of thirty-two bytes; the time and the state root are not in the header.
pub proof fn law_mined_header_is_hashed(tip: HeaderView, header: HeaderView)
    requires
        tip.number < u64::MAX,
        mined_on(tip, header),
    ensures
        header.number == tip.number + 1,
        header.parent_hash == tip.hash,
        header.state_root == Seq::<char>::empty(),
        header.timestamp == 0,
        exists|timestamp: u64, bytes: Seq<u8>, members: Map<Seq<char>, JsonMember>|
            {
                &&& bytes.len() == 32
                &&& #[trigger] is_object_of(
                    members,
                    header.number,
                    timestamp,
                    header.parent_hash,
                    hex_text(#[trigger] sha256_digest(bytes)),
                    "a block data"@,
                    header.nonce,
                )
                &&& header.hash == hex_text(sha256_digest(encode_utf8(json_object_text(members))))
            },
{
    let (timestamp, bytes) = choose|timestamp: u64, bytes: Seq<u8>| #[trigger]
        mined_from(tip, timestamp, bytes, header);
    let state_root = hex_text(sha256_digest(bytes));
    law_hashed_object_holds_every_part(
        header.number,
        timestamp,
        header.parent_hash,
        state_root,
        BLOCK_DATA@,
        header.nonce,
    );
    let members = block_members(
        header.number,
        timestamp,
        header.parent_hash,
        state_root,
        BLOCK_DATA@,
        header.nonce,
    );
    assert(is_object_of(
        members,
        header.number,
        timestamp,
        header.parent_hash,
        hex_text(sha256_digest(bytes)),
        "a block data"@,
        header.nonce,
    ));
}

/// Whether the parent that a header names stands at the number before its own.
pub open spec fn has_parent_in(headers: Map<u64, HeaderView>, header: HeaderView) -> bool {
    exists|parent: HeaderView, number: u64|
        {
            &&& number + 1 == header.number
            &&& #[trigger] headers.contains_pair(number, parent)
            &&& parent.hash == header.parent_hash
            &&& parent.number == number
        }
}

/// A header other than the genesis header is accepted exactly if the header that is stored at the
/// number before its own has the hash that it names as its parent hash, and that number, whatever
/// stands at the numbers after it. If nothing is stored there, or there is no number before, the
/// parent is missing; otherwise the header is invalid. What is refused changes nothing. What is
/// accepted stands at its number and under its hash, and all else stays.
pub proof fn law_accepted_header_follows_its_parent(
    tables: ChainView,
    genesis: HeaderView,
    header: HeaderView,
    res: Result<AddedBlockResult, Error>,
    after: ChainView,
)
    requires
        tables.added(genesis, header, res, after),
    ensures
        res is Ok ==> header == genesis || has_parent_in(tables.headers, header),
        header == genesis || has_parent_in(tables.headers, header) ==> res is Ok || res->Err_0
            is DatabaseError,
        res matches Err(Error::BlockHeaderNotFound) ==> header != genesis && (header.number == 0
            || !tables.headers.contains_key((header.number - 1) as u64)),
        res matches Err(Error::Invalid) ==> {
            &&& header != genesis
            &&& header.number > 0
            &&& tables.headers.contains_key((header.number - 1) as u64)
            &&& !has_parent_in(tables.headers, header)
        },
        res is Ok ==> {
            &&& after.headers == tables.headers.insert(header.number, header)
            &&& after.by_hash == tables.by_hash.insert(header.hash, header)
            &&& after.last >= tables.last
            &&& after.last >= header.number
            &&& after.last == tables.last || after.last == header.number
        },
        res == Ok::<AddedBlockResult, Error>(AddedBlockResult::ExtendTip) ==> after.headers[
        after.last].number > tables.headers[tables.last].number,
        res == Ok::<AddedBlockResult, Error>(AddedBlockResult::AlreadyInChain) ==> after.headers[
        after.last].number <= tables.headers[tables.last].number,
        res is Err ==> after == tables || res->Err_0 is DatabaseError && (header == genesis
            || has_parent_in(tables.headers, header)) && after.headers == tables.headers.insert(
            header.number,
            header,
        ) && after.by_hash == tables.by_hash.insert(header.hash, header),
{
    lemma_link_error(tables, genesis, header);
}

/// A header may be added exactly if it is the genesis header or its parent is in its place.
proof fn lemma_link_error(tables: ChainView, genesis: HeaderView, header: HeaderView)
    ensures
        tables.link_error(genesis, header) is None <==> header == genesis || has_parent_in(
            tables.headers,
            header,
        ),
{
    if header.number > 0 {
        let number = (header.number - 1) as u64;
        if tables.headers.contains_key(number) {
            assert(tables.headers.contains_pair(number, tables.headers[number]));
        }
    }
}

/// A header is validated as it is when it is added: it passes exactly if it is the genesis header
/// or its parent is in its place, as long as the row of the parent can be read.
pub proof fn law_validated_header_follows_its_parent(
    chain: Chain,
    header: Header,
    res: Result<(), Error>,
)
    requires
        chain.inv(),
        call_ensures(Chain::validate_adjacent_block_header, (&chain, &header), res),
    ensures
        res is Ok ==> header@ == chain_genesis() || has_parent_in(chain.view().headers, header@),
        header@ == chain_genesis() || has_parent_in(chain.view().headers, header@) ==> res is Ok,
        res matches Err(Error::BlockHeaderNotFound) ==> header.number == 0
            || !chain.view().headers.contains_key((header.number - 1) as u64),
        res matches Err(Error::Invalid) ==> header.number > 0
            && chain.view().headers.contains_key((header.number - 1) as u64),
        res matches Err(Error::DatabaseError(_)) ==> header.number > 0
            && chain.stored().broken.contains((header.number - 1) as u64),
        header@ != chain_genesis() && header.number > 0 && chain.stored().broken.contains(
            (header.number - 1) as u64,
        ) ==> res matches Err(Error::DatabaseError(_)),
{
    chain.lemma_inv();
    lemma_link_error(chain.view(), chain_genesis(), header@);
}

/// A lookup gives the header that is stored under what was asked for, or says that there is none.
/// The tip is the header at the highest number. On a chain whose database does not fail, this is
/// all that can come.
pub proof fn law_lookups_give_what_is_stored<B: BlockTree>(
    chain: B,
    number: u64,
    hash: String,
    by_number: Result<Header, Error>,
    by_hash: Result<Header, Error>,
    tip: Result<Header, Error>,
)
    requires
        chain.wf(),
        call_ensures(B::get_header_by_block_number, (&chain, number), by_number),
        call_ensures(B::get_header_by_hash, (&chain, hash), by_hash),
        call_ensures(B::tip, (&chain,), tip),
    ensures
        by_number matches Ok(header) ==> chain.tables().headers.contains_pair(number, header@),
        by_number matches Err(e) ==> e is DatabaseError || e is BlockHeaderNotFound
            && !chain.tables().headers.contains_key(number),
        by_hash matches Ok(header) ==> chain.tables().by_hash.contains_pair(hash@, header@),
        by_hash matches Err(e) ==> e is DatabaseError || e is BlockHeaderNotFound
            && !chain.tables().by_hash.contains_key(hash@),
        tip matches Ok(header) ==> header@ == chain.tables().headers[chain.tables().last],
        tip matches Err(e) ==> e is DatabaseError,
        chain.available() ==> {
            &&& tip is Ok
            &&& chain.tables().headers.contains_key(number) ==> by_number is Ok
            &&& chain.tables().by_hash.contains_key(hash@) ==> by_hash is Ok
        },
{
}

/// What comes of mining a block: if it extends the tip, it has the next number, names the tip as
/// its parent, is the new tip, and is all that was added; if it does not, the number of the tip is
/// the same or less; and a failure leaves the headers as they were, or adds one header that was
/// mined.
pub proof fn law_mining_adds_a_child_of_the_tip(
    before: ChainView,
    genesis: HeaderView,
    res: Result<MineBlockResult, Error>,
    after: ChainView,
)
    requires
        before.headers[before.last].number < u64::MAX,
        mined(before, genesis, res, after),
    ensures
        res matches Ok(MineBlockResult::Mined(header)) ==> {
            &&& header.number == before.headers[before.last].number + 1
            &&& header.parent_hash@ == before.headers[before.last].hash
            &&& after.headers == before.headers.insert(header.number, header@)
            &&& after.by_hash == before.by_hash.insert(header.hash@, header@)
            &&& after.headers[after.last] == header@
        },
        res matches Ok(MineBlockResult::BlockFallingBehind) ==> {
            &&& after.headers[after.last].number <= before.headers[before.last].number
            &&& exists|header: HeaderView|
                {
                    &&& #[trigger] mined_on(before.headers[before.last], header)
                    &&& after.headers == before.headers.insert(header.number, header)
                }
        },
        res is Err ==> after == before || res->Err_0 is DatabaseError && exists|
            header: HeaderView,
        |
            {
                &&& #[trigger] mined_on(before.headers[before.last], header)
                &&& after.headers == before.headers.insert(header.number, header)
            },
{
}

/// Every chain starts with the same header, whose hash is that of its parts.
pub proof fn law_genesis_is_hashed(members: Map<Seq<char>, JsonMember>)
    requires
        is_object_of(members, 0, 1705551177, "genesis"@, "0x"@, "0x"@, 17012),
    ensures
        chain_genesis() == (HeaderView {
            number: 0,
            parent_hash: "genesis"@,
            state_root: "0x"@,
            timestamp: 1705551177,
            nonce: 17012,
            hash: hex_text(sha256_digest(encode_utf8(json_object_text(members)))),
        }),
        fresh_tables().headers == Map::<u64, HeaderView>::empty().insert(0, chain_genesis()),
        fresh_tables().last == 0,
        fresh_tables().by_hash == Map::<Seq<char>, HeaderView>::empty().insert(
            chain_genesis().hash,
            chain_genesis(),
        ),
        fresh_store().tables == fresh_tables(),
        fresh_store().broken == Set::<u64>::empty(),
{
    lemma_names_differ();
    assert(members =~= block_members(0, 1705551177, "genesis"@, "0x"@, "0x"@, 17012));
    assert(fresh_tables().headers =~= Map::<u64, HeaderView>::empty().insert(0, chain_genesis()));
    assert(fresh_tables().by_hash =~= Map::<Seq<char>, HeaderView>::empty().insert(
        chain_genesis().hash,
        chain_genesis(),
    ));
}

/// Headers are added one after the other, each at its number and under its hash.
pub proof fn law_headers_are_added_in_turn(
    tables: ChainView,
    headers: Seq<HeaderView>,
    header: HeaderView,
)
    ensures
        tables.with_all(Seq::empty()) == tables,
        ({
            let before = tables.with_all(headers);
            let after = tables.with_all(headers.push(header));
            &&& after.headers == before.headers.insert(header.number, header)
            &&& after.by_hash == before.by_hash.insert(header.hash, header)
            &&& after.last >= before.last
            &&& after.last >= header.number
            &&& after.last == before.last || after.last == header.number
        }),
{
    assert(headers.push(header).drop_last() =~= headers);
}

/// A row holds a header exactly if it starts with the encoding of one, and then it holds that one.
pub proof fn law_row_holds_what_was_written(row: Seq<u8>, header: HeaderView)
    requires
        row.len() <= u64::MAX,
    ensures
        held(row) == Some(header) <==> header_rlp(header).is_prefix_of(row),
{
    if header_rlp(header).is_prefix_of(row) {
        lemma_held(row, header);
    }
}

/// What is opened from rows: at each number but 0, the header that the first row for it holds; if
/// that row holds none, the number is broken; without a row there is nothing. At 0 there is the
/// genesis header. The highest number with a header is the last one.
pub proof fn law_opened_headers_are_those_of_the_rows(
    header_rows: Seq<(u64, Vec<u8>)>,
    hash_rows: Seq<(String, u64)>,
    history: Seq<Vec<u8>>,
    i: int,
)
    requires
        0 <= i < header_rows.len(),
        !has_row(header_rows.take(i), header_rows[i].0),
    ensures
        ({
            let stored = opened(header_rows, hash_rows, history);
            let number = header_rows[i].0;
            &&& stored.tables.headers.contains_pair(0, chain_genesis())
            &&& number > 0 ==> match held(header_rows[i].1@) {
                Some(header) => stored.tables.headers.contains_pair(number, header)
                    && !stored.broken.contains(number),
                None => stored.broken.contains(number) && !stored.tables.headers.contains_key(
                    number,
                ),
            }
            &&& forall|n: u64|
                n > 0 && #[trigger] stored.tables.headers.contains_key(n) ==> has_row(
                    header_rows,
                    n,
                )
            &&& forall|n: u64| #[trigger]
                stored.broken.contains(n) ==> n > 0 && has_row(header_rows, n)
            &&& stored.tables.headers.contains_key(stored.tables.last)
            &&& forall|n: u64| #[trigger]
                stored.tables.headers.contains_key(n) ==> n <= stored.tables.last
        }),
{
    lemma_rows_loaded(header_rows);
    if header_rows[i].0 > 0 {
        lemma_first_row_counts(header_rows, i);
    }
    let loaded = fresh_store().with_header_rows(header_rows);
    lemma_hash_rows_keep_headers(loaded, hash_rows);
    lemma_history_keeps_headers(loaded.with_hash_rows(hash_rows), history);
}

/// Whether there is a row for a number.
pub open spec fn has_row(rows: Seq<(u64, Vec<u8>)>, number: u64) -> bool {
    exists|j: int| 0 <= j < rows.len() && (#[trigger] rows[j]).0 == number
}

/// What the rows of the header table give as a whole.
proof fn lemma_rows_loaded(rows: Seq<(u64, Vec<u8>)>)
    ensures
        ({
            let loaded = fresh_store().with_header_rows(rows);
            &&& loaded.tables.headers.contains_pair(0, chain_genesis())
            &&& !loaded.broken.contains(0)
            &&& forall|n: u64|
                n > 0 && #[trigger] loaded.tables.headers.contains_key(n) ==> has_row(rows, n)
            &&& forall|n: u64| n > 0 && #[trigger] loaded.broken.contains(n) ==> has_row(rows, n)
            &&& loaded.tables.headers.contains_key(loaded.tables.last)
            &&& forall|n: u64| #[trigger]
                loaded.tables.headers.contains_key(n) ==> n <= loaded.tables.last
        }),
    decreases rows.len(),
{
    if rows.len() > 0 {
        let init = rows.drop_last();
        let last = rows.last();
        lemma_rows_loaded(init);
        let before = fresh_store().with_header_rows(init);
        let loaded = fresh_store().with_header_rows(rows);
        assert(loaded == before.with_header_row(last));
        assert(rows[rows.len() - 1] == last);
        assert(has_row(rows, last.0));
        assert forall|n: u64| has_row(init, n) implies #[trigger] has_row(rows, n) by {
            let j = choose|j: int| 0 <= j < init.len() && (#[trigger] init[j]).0 == n;
            assert(rows[j].0 == n);
        }
        assert forall|n: u64|
            n > 0 && #[trigger] loaded.tables.headers.contains_key(n) implies has_row(rows, n) by {
            assert(n == last.0 || before.tables.headers.contains_key(n));
        }
        assert forall|n: u64| n > 0 && #[trigger] loaded.broken.contains(n) implies has_row(
            rows,
            n,
        ) by {
            assert(n == last.0 || before.broken.contains(n));
        }
    }
}

/// What the first row for a number gives.
proof fn lemma_first_row_counts(rows: Seq<(u64, Vec<u8>)>, i: int)
    requires
        0 <= i < rows.len(),
        rows[i].0 > 0,
        !has_row(rows.take(i), rows[i].0),
    ensures
        ({
            let loaded = fresh_store().with_header_rows(rows);
            match held(rows[i].1@) {
                Some(header) => loaded.tables.headers.contains_pair(rows[i].0, header)
                    && !loaded.broken.contains(rows[i].0),
                None => loaded.broken.contains(rows[i].0) && !loaded.tables.headers.contains_key(
                    rows[i].0,
                ),
            }
        }),
    decreases rows.len(),
{
    let init = rows.drop_last();
    let last = rows.last();
    let before = fresh_store().with_header_rows(init);
    assert(fresh_store().with_header_rows(rows) == before.with_header_row(last));
    if i < init.len() {
        assert(init[i] == rows[i]);
        assert(init.take(i) =~= rows.take(i));
        lemma_first_row_counts(init, i);
    } else {
        lemma_rows_loaded(init);
        assert(rows.take(i) =~= init);
        assert(rows[i] == last);
    }
}

/// Hash rows leave the headers as they are.
proof fn lemma_hash_rows_keep_headers(loaded: StoredView, rows: Seq<(String, u64)>)
    ensures
        loaded.with_hash_rows(rows).broken == loaded.broken,
        loaded.with_hash_rows(rows).tables.headers == loaded.tables.headers,
        loaded.with_hash_rows(rows).tables.last == loaded.tables.last,
    decreases rows.len(),
{
    if rows.len() > 0 {
        lemma_hash_rows_keep_headers(loaded, rows.drop_last());
    }
}

/// The headers that were ever added leave the headers by number as they are.
proof fn lemma_history_keeps_headers(listed: StoredView, history: Seq<Vec<u8>>)
    ensures
        listed.with_history(history).broken == listed.broken,
        listed.with_history(history).tables.headers == listed.tables.headers,
        listed.with_history(history).tables.last == listed.tables.last,
    decreases history.len(),
{
    if history.len() > 0 {
        lemma_history_keeps_headers(listed, history.drop_last());
    }
}

/// What is opened from rows is found by hash: the genesis header under its hash; the last header
/// with a hash that was ever added; and, where none was, the header that a hash row leads to.
pub proof fn law_opened_hashes_are_those_of_the_rows(
    header_rows: Seq<(u64, Vec<u8>)>,
    hash_rows: Seq<(String, u64)>,
    history: Seq<Vec<u8>>,
    hash: Seq<char>,
    i: int,
)
    ensures
        ({
            let stored = opened(header_rows, hash_rows, history);
            &&& stored.tables.by_hash.contains_pair(chain_genesis().hash, chain_genesis())
            &&& hash != chain_genesis().hash && 0 <= i < history.len() && (held(
                history[i]@,
            ) matches Some(header) && header.hash == hash) && (forall|j: int|
                i < j < history.len() ==> !(held((#[trigger] history[j])@) matches Some(other)
                    && other.hash == hash)) ==> stored.tables.by_hash.contains_pair(
                hash,
                held(history[i]@)->0,
            )
            &&& hash != chain_genesis().hash && 0 <= i < hash_rows.len() && hash_rows[i].0@ == hash
                && (stored.tables.headers.contains_key(hash_rows[i].1) && stored.tables.headers[
            hash_rows[i].1].hash == hash) && (forall|j: int|
                i < j < hash_rows.len() ==> (#[trigger] hash_rows[j]).0@ != hash) && (forall|
                j: int,
            |
                0 <= j < history.len() ==> !(held((#[trigger] history[j])@) matches Some(other)
                    && other.hash == hash)) ==> stored.tables.by_hash.contains_pair(
                hash,
                stored.tables.headers[hash_rows[i].1],
            )
        }),
{
    let loaded = fresh_store().with_header_rows(header_rows);
    let listed = loaded.with_hash_rows(hash_rows);
    lemma_hash_rows_keep_headers(loaded, hash_rows);
    lemma_history_keeps_headers(listed, history);
    if 0 <= i < history.len() {
        lemma_history_finds(listed, history, hash, i);
    }
    lemma_history_finds(listed, history, hash, -1);
    if 0 <= i < hash_rows.len() && hash_rows[i].0@ == hash {
        lemma_hash_rows_find(loaded, hash_rows, hash, i);
    }
}

/// What history finds under a hash: the last header with it, or what was found before.
proof fn lemma_history_finds(listed: StoredView, history: Seq<Vec<u8>>, hash: Seq<char>, i: int)
    requires
        -1 <= i < history.len(),
    ensures
        (forall|j: int|
            i < j < history.len() ==> !(held((#[trigger] history[j])@) matches Some(other)
                && other.hash == hash)) ==> {
            let after = listed.with_history(history).tables.by_hash;
            &&& i >= 0 && (held(history[i]@) matches Some(header) && header.hash == hash)
                ==> after.contains_pair(hash, held(history[i]@)->0)
            &&& i < 0 && listed.tables.by_hash.contains_key(hash) ==> after.contains_pair(
                hash,
                listed.tables.by_hash[hash],
            )
        },
    decreases history.len(),
{
    if history.len() > 0 {
        let n = history.len() - 1;
        let init = history.drop_last();
        assert(forall|j: int| 0 <= j < n ==> init[j] == history[j]);
        assert(history[n] == history.last());
        if i < n && (forall|j: int|
            i < j < history.len() ==> !(held((#[trigger] history[j])@) matches Some(other)
                && other.hash == hash)) {
            assert forall|j: int| i < j < init.len() implies !(held(
                (#[trigger] init[j])@,
            ) matches Some(other) && other.hash == hash) by {
                assert(init[j] == history[j]);
            }
            lemma_history_finds(listed, init, hash, i);
        }
    }
}

/// What hash rows find under a hash.
proof fn lemma_hash_rows_find(
    loaded: StoredView,
    rows: Seq<(String, u64)>,
    hash: Seq<char>,
    i: int,
)
    requires
        0 <= i < rows.len(),
        rows[i].0@ == hash,
    ensures
        loaded.tables.headers.contains_key(rows[i].1) && loaded.tables.headers[rows[i].1].hash
            == hash && (forall|j: int| i < j < rows.len() ==> (#[trigger] rows[j]).0@ != hash)
            ==> loaded.with_hash_rows(rows).tables.by_hash.contains_pair(
            hash,
            loaded.tables.headers[rows[i].1],
        ),
    decreases rows.len(),
{
    let init = rows.drop_last();
    lemma_hash_rows_keep_headers(loaded, init);
    if i < rows.len() - 1 {
        assert(forall|j: int| 0 <= j < init.len() ==> init[j] == rows[j]);
        lemma_hash_rows_find(loaded, init, hash, i);
        assert(rows[rows.len() - 1] == rows.last());
    }
}

/// Each error has a text of its own, and a failure of the database tells its cause.
pub proof fn law_errors_tell_what_happened(error: Error, res: String)
    requires
        call_ensures(Error::message, (&error,), res),
    ensures
        match error {
            Error::Invalid => res@ == "Invalid header"@,
            Error::BlockHeaderNotFound => res@ == "Block header not found in database"@,
            Error::DatabaseError(cause) => res@ == "Database error: "@ + cause@,
        },
{
}

/// Adding a header to a chain: it is accepted exactly if it is the genesis header or its parent is
/// in its place, as long as the database does not fail; what is accepted can be looked up by its
/// number and by its hash, and what is refused changes nothing.
pub proof fn law_adding_a_header<B: BlockTree>(
    chain: &mut B,
    header: Header,
    res: Result<AddedBlockResult, Error>,
)
    requires
        old(chain).wf(),
        call_ensures(B::try_add_block_header, (chain, header), res),
    ensures
        final(chain).wf(),
        old(chain).available() ==> final(chain).available() && (res is Ok <==> header@
            == B::genesis_view() || has_parent_in(old(chain).tables().headers, header@)),
        res is Ok ==> {
            &&& header@ == B::genesis_view() || has_parent_in(old(chain).tables().headers, header@)
            &&& final(chain).tables().headers == old(chain).tables().headers.insert(
                header.number,
                header@,
            )
            &&& final(chain).tables().by_hash == old(chain).tables().by_hash.insert(
                header.hash@,
                header@,
            )
        },
        res matches Err(e) ==> e is DatabaseError || final(chain).tables() == old(chain).tables()
            && !has_parent_in(old(chain).tables().headers, header@),
{
    law_accepted_header_follows_its_parent(
        old(chain).tables(),
        B::genesis_view(),
        header@,
        res,
        final(chain).tables(),
    );
}

/// Mining on a chain whose tip stands at its own number, and whose database does not fail, gives a
/// block with the next number whose parent is the tip; it is the new tip, and all that was added.
pub proof fn law_mining_a_block<B: BlockTree>(
    chain: &mut B,
    res: Result<MineBlockResult, Error>,
)
    requires
        old(chain).wf(),
        old(chain).available(),
        old(chain).tables().headers[old(chain).tables().last].number == old(chain).tables().last,
        old(chain).tables().last < u64::MAX,
        call_ensures(B::mine_block, (chain,), res),
    ensures
        final(chain).wf(),
        final(chain).available(),
        res matches Ok(MineBlockResult::Mined(header)) && {
            &&& header.number == old(chain).tables().last + 1
            &&& header.parent_hash@ == old(chain).tables().headers[old(chain).tables().last].hash
            &&& final(chain).tables().headers == old(chain).tables().headers.insert(
                header.number,
                header@,
            )
            &&& final(chain).tables().headers[final(chain).tables().last] == header@
        },
{
    law_mining_adds_a_child_of_the_tip(
        old(chain).tables(),
        B::genesis_view(),
        res,
        final(chain).tables(),
    );
}

/// When its time has come, a miner broadcasts the header of the block that it has mined, which
/// takes the place of one whose broadcast is not over, and nothing if none extends the tip. Once a
/// broadcast is over, none is left.
pub proof fn law_mined_header_is_broadcast<P, B: BlockTree>(
    miner: &mut FixedBlockTimeMiner<P>,
    chain: &mut B,
    res: Result<Option<Header>, Error>,
    told: &mut FixedBlockTimeMiner<P>,
    outcome: RequestResponse<()>,
    failure: Option<RequestError>,
)
    requires
        old(chain).wf(),
        old(chain).tables().headers[old(chain).tables().last].number < u64::MAX,
        call_ensures(FixedBlockTimeMiner::<P>::on_tick::<B>, (miner, chain), res),
        call_ensures(FixedBlockTimeMiner::<P>::on_broadcast_outcome, (told, outcome), failure),
    ensures
        res matches Ok(Some(header)) ==> {
            &&& final(miner).pending_broadcast == Some(header)
            &&& header.number == old(chain).tables().headers[old(chain).tables().last].number + 1
            &&& header.parent_hash@ == old(chain).tables().headers[old(chain).tables().last].hash
            &&& final(chain).tables().headers[final(chain).tables().last] == header@
        },
        !(res matches Ok(Some(_))) ==> final(miner).pending_broadcast == old(
            miner,
        ).pending_broadcast,
        final(miner).interval == old(miner).interval,
        final(told).pending_broadcast is None,
        final(told).interval == old(told).interval,
        outcome is Ok ==> failure is None,
        outcome matches Err(e) ==> failure == Some(e),
{
    law_mining_adds_a_child_of_the_tip(
        old(chain).tables(),
        B::genesis_view(),
        match res {
            Ok(Some(header)) => Ok(MineBlockResult::Mined(header)),
            Ok(None) => Ok(MineBlockResult::BlockFallingBehind),
            Err(e) => Err(e),
        },
        final(chain).tables(),
    );
}

/// What becomes of a mined block: its header has the next number, the tip as its parent, and the
/// nonce and the hash that were found; it is broadcast exactly if it extends the tip; and a failure
/// to broadcast it is told.
pub proof fn law_mined_block_is_announced(
    tip: Header,
    nonce: u64,
    hash: String,
    header: Header,
    added: AddedBlockResult,
    result: MineBlockResult,
    sent: Option<Header>,
    outcome: RequestResponse<()>,
    res: Result<MineBlockResult, RequestError>,
)
    requires
        tip.number < u64::MAX,
        call_ensures(mined_header, (&tip, nonce, hash), header),
        call_ensures(mined_as, (header, added), result),
        call_ensures(MineBlockResult::to_broadcast, (&result,), sent),
        call_ensures(MineBlockResult::after_broadcast, (result, outcome), res),
    ensures
        header.number == tip.number + 1,
        header.parent_hash@ == tip.hash@,
        header.nonce == nonce,
        header.hash@ == hash@,
        added is ExtendTip ==> result == MineBlockResult::Mined(header) && sent == Some(header),
        added is AlreadyInChain ==> result is BlockFallingBehind && sent is None,
        added is ExtendTip && outcome is Err ==> res is Err,
        !(added is ExtendTip && outcome is Err) ==> res == Ok::<MineBlockResult, RequestError>(
            result,
        ),
{
}

/// A chain that is opened from what another one stored gives the same headers by number, and the
/// same by hash, and can read every row.
pub proof fn law_chain_is_opened_again(
    chain: Chain,
    header_rows: Vec<(u64, Vec<u8>)>,
    hash_rows: Vec<(String, u64)>,
    hashes: Seq<Seq<char>>,
    history: Vec<Vec<u8>>,
    res: Chain,
    number: u64,
    hash: Seq<char>,
)
    requires
        chain.inv(),
        stores_headers(header_rows@, chain.view()),
        stores_hashes(hash_rows@, chain.view()),
        stores_history(hashes, history@, chain.view()),
        call_ensures(Chain::open, (header_rows, hash_rows, history), res),
    ensures
        res.inv(),
        res.stored().broken == Set::<u64>::empty(),
        res.view().headers.contains_key(number) == chain.view().headers.contains_key(number),
        chain.view().headers.contains_key(number) ==> res.view().headers[number]
            == chain.view().headers[number],
        res.view().last == chain.view().last,
        hash != chain_genesis().hash ==> res.view().by_hash.contains_key(hash)
            == chain.view().by_hash.contains_key(hash),
        hash != chain_genesis().hash && chain.view().by_hash.contains_key(hash)
            ==> res.view().by_hash[hash] == chain.view().by_hash[hash],
{
    chain.lemma_inv();
    law_stored_chain_reopens(chain.view(), header_rows@, hash_rows@, hashes, history@);
}

/// The balance of the one address is fixed; that of any other is what was drawn.
pub proof fn law_balance_is_fixed_or_drawn(address: String, drawn: u64, res: u64)
    requires
        call_ensures(balance_of, (&address, drawn), res),
    ensures
        address@ == "0x000000000000000000000000000000000000dead"@ ==> res == 57005,
        address@ != "0x000000000000000000000000000000000000dead"@ ==> res == drawn,
{
}

/// A new chain holds the genesis header, at the number 0 and under its hash, and nothing else.
pub proof fn law_new_chain_holds_the_genesis_header(
    res: Chain,
    genesis: Header,
    number: u64,
    hash: Seq<char>,
)
    requires
        call_ensures(Chain::new, (), res),
        call_ensures(<Chain as BlockTree>::genesis, (), genesis),
    ensures
        res.inv(),
        genesis.number == 0,
        res.view().headers.contains_pair(0, genesis@),
        res.view().headers.contains_key(number) ==> number == 0,
        res.view().by_hash.contains_pair(genesis.hash@, genesis@),
        res.view().by_hash.contains_key(hash) ==> hash == genesis.hash@,
        res.view().last == 0,
        !res.stored().broken.contains(number),
{
    assert(Chain::genesis_view() == chain_genesis());
}

/// A chain whose rows can all be read does not fail, and one that has a row which cannot be read is
/// the only one that may: every number but that of such a row can be looked up, and every hash.
pub proof fn law_chain_fails_only_on_rows_that_hold_nothing(
    chain: Chain,
    number: u64,
    hash: String,
    by_number: Result<Header, Error>,
    by_hash: Result<Header, Error>,
)
    requires
        chain.inv(),
        call_ensures(
            <Chain as BlockTree>::get_header_by_block_number,
            (&chain, number),
            by_number,
        ),
        call_ensures(<Chain as BlockTree>::get_header_by_hash, (&chain, hash), by_hash),
    ensures
        chain.wf(),
        chain.available() <==> forall|n: u64| !chain.stored().broken.contains(n),
        chain.tables() == chain.stored().tables,
        by_number matches Err(Error::DatabaseError(_)) <==> chain.stored().broken.contains(number),
        by_number is Ok <==> chain.stored().tables.headers.contains_key(number),
        by_hash is Ok <==> chain.stored().tables.by_hash.contains_key(hash@),
        !(by_hash matches Err(Error::DatabaseError(_))),
{
    chain.lemma_inv();
    if forall|n: u64| !chain.stored().broken.contains(n) {
        assert(chain.stored().broken =~= Set::empty());
    }
}

} // verus!
