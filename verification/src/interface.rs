//! The values that the parts of the node exchange.

use vstd::prelude::*;

verus! {

/// A block header.
#[derive(Debug, PartialEq, Eq)]
pub struct Header {
    pub number: u64,
    pub parent_hash: String,
    pub state_root: String,
    pub timestamp: u64,
    pub nonce: u64,
    pub hash: String,
}

/// The mathematical content of a [`Header`].
pub struct HeaderView {
    pub number: u64,
    pub parent_hash: Seq<char>,
    pub state_root: Seq<char>,
    pub timestamp: u64,
    pub nonce: u64,
    pub hash: Seq<char>,
}

impl View for Header {
    type V = HeaderView;

    open spec fn view(&self) -> HeaderView {
        HeaderView {
            number: self.number,
            parent_hash: self.parent_hash@,
            state_root: self.state_root@,
            timestamp: self.timestamp,
            nonce: self.nonce,
            hash: self.hash@,
        }
    }
}

impl Clone for Header {
    fn clone(&self) -> (res: Self)
        ensures
            res == *self,
    {
        Header {
            number: self.number,
            parent_hash: self.parent_hash.clone(),
            state_root: self.state_root.clone(),
            timestamp: self.timestamp,
            nonce: self.nonce,
            hash: self.hash.clone(),
        }
    }
}

impl Default for Header {
    fn default() -> (res: Self)
        ensures
            res@ == (HeaderView {
                number: 0,
                parent_hash: seq![],
                state_root: seq![],
                timestamp: 0,
                nonce: 0,
                hash: seq![],
            }),
    {
        Header {
            number: 0,
            parent_hash: String::new(),
            state_root: String::new(),
            timestamp: 0,
            nonce: 0,
            hash: String::new(),
        }
    }
}

impl Header {
    /// Whether all fields are equal.
    pub fn same(&self, other: &Self) -> (res: bool)
        ensures
            res == (self@ == other@),
    {
        self.number == other.number && self.parent_hash == other.parent_hash
            && self.state_root == other.state_root && self.timestamp == other.timestamp
            && self.nonce == other.nonce && self.hash == other.hash
    }
}

/// A transaction that waits to be included in a block.
#[derive(Debug, PartialEq, Eq)]
pub struct Transaction {
    pub hash: String,
    pub from: String,
    pub to: String,
    pub value: u64,
    pub nonce: u64,
}

/// The mathematical content of a [`Transaction`].
pub struct TransactionView {
    pub hash: Seq<char>,
    pub from: Seq<char>,
    pub to: Seq<char>,
    pub value: u64,
    pub nonce: u64,
}

impl View for Transaction {
    type V = TransactionView;

    open spec fn view(&self) -> TransactionView {
        TransactionView {
            hash: self.hash@,
            from: self.from@,
            to: self.to@,
            value: self.value,
            nonce: self.nonce,
        }
    }
}

impl Clone for Transaction {
    fn clone(&self) -> (res: Self)
        ensures
            res == *self,
    {
        Transaction {
            hash: self.hash.clone(),
            from: self.from.clone(),
            to: self.to.clone(),
            value: self.value,
            nonce: self.nonce,
        }
    }
}

impl Transaction {
    /// Whether all fields are equal.
    pub fn same(&self, other: &Self) -> (res: bool)
        ensures
            res == (self@ == other@),
    {
        self.hash == other.hash && self.from == other.from && self.to == other.to
            && self.value == other.value && self.nonce == other.nonce
    }
}

/// The contents of transactions.
pub open spec fn transaction_views(txs: Seq<Transaction>) -> Seq<TransactionView> {
    txs.map_values(|t: Transaction| t@)
}

/// The contents of headers.
pub open spec fn header_views(headers: Seq<Header>) -> Seq<HeaderView> {
    headers.map_values(|h: Header| h@)
}

/// A block: its header and its transactions.
#[derive(Debug, PartialEq, Eq)]
pub struct Block {
    pub header: Header,
    pub transactions: Vec<Transaction>,
}

/// The mathematical content of a [`Block`].
pub struct BlockView {
    pub header: HeaderView,
    pub transactions: Seq<TransactionView>,
}

impl View for Block {
    type V = BlockView;

    open spec fn view(&self) -> BlockView {
        BlockView { header: self.header@, transactions: transaction_views(self.transactions@) }
    }
}

impl Clone for Block {
    fn clone(&self) -> (res: Self)
        ensures
            res@ == self@,
    {
        let transactions = self.transactions.clone();
        assert(transaction_views(transactions@) =~= transaction_views(self.transactions@));
        Block { header: self.header.clone(), transactions }
    }
}

/// A request for block headers.
#[derive(Debug, Clone, Copy, PartialEq, Eq, Structural)]
pub struct HeadersRequest {
    /// How many headers a single response may hold.
    pub limit: u64,
    /// The number of the first block wanted.
    pub start_block: u64,
}

/// A request for block bodies.
#[derive(Debug, PartialEq, Eq)]
pub struct BodyRequest {
    /// The hashes of the blocks wanted.
    pub hashes: Vec<String>,
}

/// Why a request to the network failed. The texts are the causes that the network gave.
#[derive(Debug, PartialEq, Eq)]
pub enum RequestError {
    /// The other end of a channel is gone.
    ChannelClosed(String),
    /// No response came in time.
    Timeout,
    /// The request did not get through.
    OutboundFailure(String),
    /// The peer could not be dialed.
    DialError(String),
    /// The address cannot be listened on.
    TransportError(String),
    /// The message could not be published.
    PublishError(String),
}

impl Clone for RequestError {
    fn clone(&self) -> (res: Self)
        ensures
            res == *self,
    {
        match self {
            RequestError::ChannelClosed(cause) => RequestError::ChannelClosed(cause.clone()),
            RequestError::Timeout => RequestError::Timeout,
            RequestError::OutboundFailure(cause) => RequestError::OutboundFailure(cause.clone()),
            RequestError::DialError(cause) => RequestError::DialError(cause.clone()),
            RequestError::TransportError(cause) => RequestError::TransportError(cause.clone()),
            RequestError::PublishError(cause) => RequestError::PublishError(cause.clone()),
        }
    }
}

/// The text of a request error, which does not tell the cause.
pub open spec fn request_error_text(error: RequestError) -> Seq<char> {
    match error {
        RequestError::ChannelClosed(_) => "Channel closed."@,
        RequestError::Timeout => "Timeout while waiting for response."@,
        RequestError::OutboundFailure(_) => "Outbound network failure."@,
        RequestError::DialError(_) => "Dial peer error."@,
        RequestError::TransportError(_) => "Transport error."@,
        RequestError::PublishError(_) => "Publish error."@,
    }
}

impl RequestError {
    /// The text of the error.
    pub fn message(&self) -> (res: String)
        ensures
            res@ == request_error_text(*self),
    {
        match self {
            RequestError::ChannelClosed(_) => "Channel closed.".to_owned(),
            RequestError::Timeout => "Timeout while waiting for response.".to_owned(),
            RequestError::OutboundFailure(_) => "Outbound network failure.".to_owned(),
            RequestError::DialError(_) => "Dial peer error.".to_owned(),
            RequestError::TransportError(_) => "Transport error.".to_owned(),
            RequestError::PublishError(_) => "Publish error.".to_owned(),
        }
    }
}

/// The outcome of a request to the network.
pub type RequestResponse<T> = Result<T, RequestError>;

/// The headers that a peer sends back.
pub type HeadersResponse = Vec<Header>;

/// The content of a header tells every field of it.
pub proof fn law_header_content_is_complete(header: Header)
    ensures
        header@.number == header.number,
        header@.parent_hash == header.parent_hash@,
        header@.state_root == header.state_root@,
        header@.timestamp == header.timestamp,
        header@.nonce == header.nonce,
        header@.hash == header.hash@,
{
}

/// The content of a transaction tells every field of it.
pub proof fn law_transaction_content_is_complete(tx: Transaction)
    ensures
        tx@.hash == tx.hash@,
        tx@.from == tx.from@,
        tx@.to == tx.to@,
        tx@.value == tx.value,
        tx@.nonce == tx.nonce,
{
}

/// The contents of headers and of transactions are those of each, in their order.
pub proof fn law_contents_are_in_order(headers: Seq<Header>, txs: Seq<Transaction>, i: int)
    ensures
        header_views(headers).len() == headers.len(),
        0 <= i < headers.len() ==> header_views(headers)[i] == headers[i]@,
        transaction_views(txs).len() == txs.len(),
        0 <= i < txs.len() ==> transaction_views(txs)[i] == txs[i]@,
{
}

/// Two headers are the same exactly if all their fields are.
pub proof fn law_same_headers_have_the_same_fields(a: Header, b: Header, res: bool)
    requires
        call_ensures(Header::same, (&a, &b), res),
    ensures
        res <==> a.number == b.number && a.parent_hash@ == b.parent_hash@ && a.state_root@
            == b.state_root@ && a.timestamp == b.timestamp && a.nonce == b.nonce && a.hash@
            == b.hash@,
{
}

/// Two transactions are the same exactly if all their fields are.
pub proof fn law_same_transactions_have_the_same_fields(a: Transaction, b: Transaction, res: bool)
    requires
        call_ensures(Transaction::same, (&a, &b), res),
    ensures
        res <==> a.hash@ == b.hash@ && a.from@ == b.from@ && a.to@ == b.to@ && a.value == b.value
            && a.nonce == b.nonce,
{
}

/// Each request error has a text of its own, whatever its cause is.
pub proof fn law_request_errors_tell_their_kind(error: RequestError, res: String)
    requires
        call_ensures(RequestError::message, (&error,), res),
    ensures
        match error {
            RequestError::ChannelClosed(_) => res@ == "Channel closed."@,
            RequestError::Timeout => res@ == "Timeout while waiting for response."@,
            RequestError::OutboundFailure(_) => res@ == "Outbound network failure."@,
            RequestError::DialError(_) => res@ == "Dial peer error."@,
            RequestError::TransportError(_) => res@ == "Transport error."@,
            RequestError::PublishError(_) => res@ == "Publish error."@,
        },
{
}

} // verus!
