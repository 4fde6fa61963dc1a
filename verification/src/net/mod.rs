//! The node on the network: what arrives, what is answered, and what is sent out.

use vstd::prelude::*;

use crate::interface::{
    transaction_views, Header, HeaderView, HeadersRequest, Transaction, TransactionView,
};

pub mod chain;
pub mod network;

verus! {

/// The gossip topic for block headers.
pub const BLOCK_HEADER: &'static str = "/lightlayer/block_header";

/// The gossip topic for transactions.
pub const TRANSACTIONS: &'static str = "/lightlayer/transactions";

/// What the network manager delegates to the chain network manager. `C` is the channel on which a
/// peer waits for an answer.
#[derive(Debug, PartialEq)]
pub enum ChainNetworkEvent<C> {
    /// A block header has been received from the network.
    IncomingNewBlockHeader { header: Header },
    /// Transactions have been received from the network.
    IncomingTransactions { transactions: Vec<Transaction> },
    /// A peer asks for block headers.
    GetBlockHeaders { channel: C, request: HeadersRequest },
}

/// The mathematical content of a [`ChainNetworkEvent`].
pub enum EventView<C> {
    Header(HeaderView),
    Transactions(Seq<TransactionView>),
    GetHeaders(C, HeadersRequest),
}

/// The content of an event.
pub open spec fn event_view<C>(event: ChainNetworkEvent<C>) -> EventView<C> {
    match event {
        ChainNetworkEvent::IncomingNewBlockHeader { header } => EventView::Header(header@),
        ChainNetworkEvent::IncomingTransactions { transactions } => EventView::Transactions(
            transaction_views(transactions@),
        ),
        ChainNetworkEvent::GetBlockHeaders { channel, request } => EventView::GetHeaders(
            channel,
            request,
        ),
    }
}

/// The answer to a peer that asked for block headers.
#[derive(Debug, PartialEq)]
pub struct GetBlockHeadersResponse<C> {
    pub headers: Vec<Header>,
    pub channel: C,
}

/// The types that the network hands through: how peers and addresses are named, the channel on
/// which a peer waits for headers, and the senders on which parts of this node wait for replies.
pub trait Wire {
    type Peer: Copy;

    type Addr;

    type Channel;

    type PeersReply;

    type HeadersReply;

    type AddrsReply;

    type UnitReply;
}

/// A request for headers to a peer, and where the reply goes.
pub struct GetHeadersRequest<W: Wire> {
    pub peer: W::Peer,
    pub request: HeadersRequest,
    pub sender: W::HeadersReply,
}

/// What parts of this node ask of the network manager.
#[allow(inconsistent_fields)]
pub enum NetworkProviderMessage<W: Wire> {
    /// Find the closest peers.
    GetClosestPeers { sender: W::PeersReply },
    /// Broadcast a block header. This comes after the block was validated and added to the chain.
    BroadcastBlockHeader { header: Header, tx: W::UnitReply },
    /// Broadcast transactions.
    BroadcastTransactions { transactions: Vec<Transaction>, tx: W::UnitReply },
    /// Get headers from a peer.
    GetHeaders(GetHeadersRequest<W>),
    /// Dial a peer.
    Dial { peer_id: W::Peer, peer_addr: W::Addr, tx: W::UnitReply },
    /// Tell the addresses that this node listens on.
    ListenAddrs { tx: W::AddrsReply },
    /// Listen on an address.
    StartListening { addr: W::Addr, tx: W::UnitReply },
}

} // verus!
