//! Peers and messages: what the node does with commands of its own parts and with events of the
//! network.

use std::collections::HashMap;

use vstd::prelude::*;

use crate::interface::{
    transaction_views, Header, HeaderView, HeadersRequest, RequestError, RequestResponse,
    Transaction, TransactionView,
};
use crate::net::{
    event_view, ChainNetworkEvent, EventView, GetBlockHeadersResponse, GetHeadersRequest,
    NetworkProviderMessage, Wire, BLOCK_HEADER, TRANSACTIONS,
};
use crate::rlp::{
    decode_header, decode_transactions, encode_header, encode_transactions, header_rlp,
    law_header_read_back, law_transactions_read_back, transactions_rlp, DecodeError,
};

verus! {

/// How many seconds pass between two looks for other peers. They keep the network fresh and whole.
pub const BOOTSTRAP_SECONDS: u64 = 300;

/// What happens on the network.
#[allow(inconsistent_fields)]
pub enum NetworkEvent<W: Wire> {
    /// Peers were discovered nearby.
    Discovered { peers: Vec<(W::Peer, W::Addr)> },
    /// Peers that were discovered are gone.
    Expired { peers: Vec<(W::Peer, W::Addr)> },
    /// A message was published on a topic.
    Gossip { topic: String, data: Vec<u8> },
    /// A query for the closest peers ended.
    ClosestPeers { id: u64, peers: Vec<W::Peer> },
    /// A query for the closest peers timed out.
    ClosestPeersTimeout { id: u64 },
    /// A request for headers did not get through.
    OutboundFailure { request_id: u64, error: String },
    /// A peer asks for headers.
    Request { request: HeadersRequest, channel: W::Channel },
    /// A peer sent headers.
    Response { request_id: u64, response: Vec<Header> },
    /// The node listens on a new address.
    NewListenAddr { listener_id: u64 },
    /// Anything else, which is only told to the log.
    Other,
}

/// What the manager wants done on the network, or told to a part of this node.
#[allow(inconsistent_fields)]
pub enum NetworkAction<W: Wire> {
    /// Make the address of a peer known and dial the peer there.
    Dial { peer: W::Peer, addr: W::Addr, reply: W::UnitReply },
    /// Publish data on a topic.
    Publish { topic: String, data: Vec<u8>, reply: W::UnitReply },
    /// Start a query for the peers closest to this node.
    FindClosestPeers { reply: W::PeersReply },
    /// Send a request for headers.
    SendRequest(GetHeadersRequest<W>),
    /// Tell the addresses that the node listens on.
    TellListenAddrs { reply: W::AddrsReply },
    /// Start to listen on an address.
    Listen { addr: W::Addr, reply: W::UnitReply },
    /// Gossip with a peer and make its address known.
    TrackPeer { peer: W::Peer, addr: W::Addr },
    /// Stop gossiping with a peer and forget its address.
    ForgetPeer { peer: W::Peer, addr: W::Addr },
    /// Let the chain network manager handle an event.
    Delegate(ChainNetworkEvent<W::Channel>),
    /// Reply to a request for the closest peers.
    ReplyPeers { reply: W::PeersReply, response: RequestResponse<Vec<W::Peer>> },
    /// Reply to a request for headers.
    ReplyHeaders { reply: W::HeadersReply, response: RequestResponse<Vec<Header>> },
    /// Reply to any other request.
    ReplyUnit { reply: W::UnitReply, response: RequestResponse<()> },
    /// Send headers to the peer that asked for them.
    SendResponse(GetBlockHeadersResponse<W::Channel>),
}

/// Which event a message on a topic is, if any. A message on a topic of this node that does not
/// decode is an error.
pub open spec fn gossip_means<C>(
    topic: Seq<char>,
    data: Seq<u8>,
    res: Result<Option<ChainNetworkEvent<C>>, DecodeError>,
) -> bool {
    if topic == BLOCK_HEADER@ {
        match res {
            Ok(Some(event)) => event_view(event) matches EventView::Header(header) && header_rlp(
                header,
            ).is_prefix_of(data),
            Ok(None) => false,
            Err(_) => forall|header: HeaderView| !(#[trigger] header_rlp(header)).is_prefix_of(data),
        }
    } else if topic == TRANSACTIONS@ {
        match res {
            Ok(Some(event)) => event_view(event) matches EventView::Transactions(txs)
                && transactions_rlp(txs).is_prefix_of(data),
            Ok(None) => false,
            Err(_) => forall|txs: Seq<TransactionView>|
                !(#[trigger] transactions_rlp(txs)).is_prefix_of(data),
        }
    } else {
        res == Ok::<Option<ChainNetworkEvent<C>>, DecodeError>(None)
    }
}

/// The requests of this node that wait for an event of the network.
pub struct PendingView<W: Wire> {
    pub closest_peers: Map<u64, W::PeersReply>,
    pub headers: Map<u64, GetHeadersRequest<W>>,
    pub listening: Map<u64, W::UnitReply>,
}

impl<W: Wire> PendingView<W> {
    /// Without the query for the closest peers that has an id.
    pub open spec fn without_query(self, id: u64) -> PendingView<W> {
        PendingView { closest_peers: self.closest_peers.remove(id), ..self }
    }

    /// Without the request for headers that has an id.
    pub open spec fn without_request(self, request_id: u64) -> PendingView<W> {
        PendingView { headers: self.headers.remove(request_id), ..self }
    }

    /// Without the listener that has an id.
    pub open spec fn without_listener(self, listener_id: u64) -> PendingView<W> {
        PendingView { listening: self.listening.remove(listener_id), ..self }
    }
}

/// Manages peers and messages. What concerns the chain is delegated.
#[verifier::reject_recursive_types(W)]
pub struct NetworkManager<W: Wire> {
    pending_request_headers: HashMap<u64, GetHeadersRequest<W>>,
    pending_get_closest_peers: HashMap<u64, W::PeersReply>,
    pending_listening: HashMap<u64, W::UnitReply>,
}

impl<W: Wire> NetworkManager<W> {
    /// The requests that wait for an event.
    pub closed spec fn view(&self) -> PendingView<W> {
        PendingView {
            closest_peers: self.pending_get_closest_peers@,
            headers: self.pending_request_headers@,
            listening: self.pending_listening@,
        }
    }

    /// A manager for which nothing waits.
    pub fn new() -> (res: Self)
        ensures
            res.view() == (PendingView::<W> {
                closest_peers: Map::empty(),
                headers: Map::empty(),
                listening: Map::empty(),
            }),
    {
        NetworkManager {
            pending_request_headers: HashMap::new(),
            pending_get_closest_peers: HashMap::new(),
            pending_listening: HashMap::new(),
        }
    }

    /// What to do about a command of a part of this node. What is broadcast is the encoding of the
    /// header or the transactions, on the topic for them.
    pub fn handle_command(&self, command: NetworkProviderMessage<W>) -> (res: NetworkAction<W>)
        ensures
            match command {
                NetworkProviderMessage::GetClosestPeers { sender } => res
                    == NetworkAction::<W>::FindClosestPeers { reply: sender },
                NetworkProviderMessage::BroadcastBlockHeader { header, tx } => {
                    res matches NetworkAction::Publish { topic, data, reply } && topic@
                        == BLOCK_HEADER@ && data@ == header_rlp(header@) && reply == tx
                },
                NetworkProviderMessage::BroadcastTransactions { transactions, tx } => {
                    res matches NetworkAction::Publish { topic, data, reply } && topic@
                        == TRANSACTIONS@ && data@ == transactions_rlp(
                        transaction_views(transactions@),
                    ) && reply == tx
                },
                NetworkProviderMessage::GetHeaders(request) => res
                    == NetworkAction::<W>::SendRequest(request),
                NetworkProviderMessage::Dial { peer_id, peer_addr, tx } => res == NetworkAction::<
                    W,
                >::Dial { peer: peer_id, addr: peer_addr, reply: tx },
                NetworkProviderMessage::ListenAddrs { tx } => res == NetworkAction::<
                    W,
                >::TellListenAddrs { reply: tx },
                NetworkProviderMessage::StartListening { addr, tx } => res == NetworkAction::<
                    W,
                >::Listen { addr, reply: tx },
            },
    {
        match command {
            NetworkProviderMessage::GetClosestPeers { sender } => {
                NetworkAction::FindClosestPeers { reply: sender }
            },
            NetworkProviderMessage::BroadcastBlockHeader { header, tx } => {
                NetworkAction::Publish {
                    topic: BLOCK_HEADER.to_owned(),
                    data: encode_header(&header),
                    reply: tx,
                }
            },
            NetworkProviderMessage::BroadcastTransactions { transactions, tx } => {
                NetworkAction::Publish {
                    topic: TRANSACTIONS.to_owned(),
                    data: encode_transactions(&transactions),
                    reply: tx,
                }
            },
            NetworkProviderMessage::GetHeaders(request) => NetworkAction::SendRequest(request),
            NetworkProviderMessage::Dial { peer_id, peer_addr, tx } => {
                NetworkAction::Dial { peer: peer_id, addr: peer_addr, reply: tx }
            },
            NetworkProviderMessage::ListenAddrs { tx } => {
                NetworkAction::TellListenAddrs { reply: tx }
            },
            NetworkProviderMessage::StartListening { addr, tx } => {
                NetworkAction::Listen { addr, reply: tx }
            },
        }
    }

    /// Notes that a query for the closest peers was started, under an id of its own.
    pub fn query_started(&mut self, id: u64, reply: W::PeersReply)
        ensures
            final(self).view() == (PendingView {
                closest_peers: old(self).view().closest_peers.insert(id, reply),
                ..old(self).view()
            }),
    {
        self.pending_get_closest_peers.insert(id, reply);
    }

    /// Notes that a request for headers was sent, under an id of its own.
    pub fn request_sent(&mut self, request_id: u64, request: GetHeadersRequest<W>)
        ensures
            final(self).view() == (PendingView {
                headers: old(self).view().headers.insert(request_id, request),
                ..old(self).view()
            }),
    {
        self.pending_request_headers.insert(request_id, request);
    }

    /// Takes the outcome of listening on an address: the id of the listener, or the cause of the
    /// failure, which is replied at once. Success is replied once the address is there.
    pub fn listen_started(&mut self, outcome: Result<u64, String>, reply: W::UnitReply) -> (res:
        Option<NetworkAction<W>>)
        ensures
            match outcome {
                Ok(listener_id) => {
                    &&& res is None
                    &&& final(self).view() == (PendingView {
                        listening: old(self).view().listening.insert(listener_id, reply),
                        ..old(self).view()
                    })
                },
                Err(cause) => {
                    &&& res == Some(
                        NetworkAction::<W>::ReplyUnit {
                            reply,
                            response: Err(RequestError::TransportError(cause)),
                        },
                    )
                    &&& final(self).view() == old(self).view()
                },
            },
    {
        match outcome {
            Ok(listener_id) => {
                self.pending_listening.insert(listener_id, reply);
                None
            },
            Err(cause) => Some(
                NetworkAction::ReplyUnit {
                    reply,
                    response: Err(RequestError::TransportError(cause)),
                },
            ),
        }
    }

    /// The reply once a peer was dialed, or could not be.
    pub fn dialed(&self, outcome: Result<(), String>, reply: W::UnitReply) -> (res: NetworkAction<
        W,
    >)
        ensures
            res == (NetworkAction::<W>::ReplyUnit {
                reply,
                response: match outcome {
                    Ok(_) => Ok(()),
                    Err(cause) => Err(RequestError::DialError(cause)),
                },
            }),
    {
        NetworkAction::ReplyUnit {
            reply,
            response: match outcome {
                Ok(_) => Ok(()),
                Err(cause) => Err(RequestError::DialError(cause)),
            },
        }
    }

    /// The reply once data was published, or could not be.
    pub fn published(&self, outcome: Result<(), String>, reply: W::UnitReply) -> (res:
        NetworkAction<W>)
        ensures
            res == (NetworkAction::<W>::ReplyUnit {
                reply,
                response: match outcome {
                    Ok(_) => Ok(()),
                    Err(cause) => Err(RequestError::PublishError(cause)),
                },
            }),
    {
        NetworkAction::ReplyUnit {
            reply,
            response: match outcome {
                Ok(_) => Ok(()),
                Err(cause) => Err(RequestError::PublishError(cause)),
            },
        }
    }

    /// What to do about an event of the network. A message that does not decode is an error;
    /// nothing else fails. An event for which nothing waits is left alone.
    pub fn handle_event(&mut self, event: NetworkEvent<W>) -> (res: Result<
        Vec<NetworkAction<W>>,
        DecodeError,
    >)
        ensures
            match event {
                NetworkEvent::Discovered { peers } => {
                    &&& final(self).view() == old(self).view()
                    &&& res matches Ok(actions) && actions@ == peers@.map_values(
                        |peer: (W::Peer, W::Addr)|
                            NetworkAction::<W>::TrackPeer { peer: peer.0, addr: peer.1 },
                    )
                },
                NetworkEvent::Expired { peers } => {
                    &&& final(self).view() == old(self).view()
                    &&& res matches Ok(actions) && actions@ == peers@.map_values(
                        |peer: (W::Peer, W::Addr)|
                            NetworkAction::<W>::ForgetPeer { peer: peer.0, addr: peer.1 },
                    )
                },
                NetworkEvent::Gossip { topic, data } => {
                    &&& final(self).view() == old(self).view()
                    &&& exists|meant: Result<Option<ChainNetworkEvent<W::Channel>>, DecodeError>|
                        #[trigger] gossip_means(topic@, data@, meant) && match meant {
                            Ok(Some(event)) => res matches Ok(actions) && actions@
                                == seq![NetworkAction::<W>::Delegate(event)],
                            Ok(None) => res matches Ok(actions) && actions@.len() == 0,
                            Err(e) => res == Err::<Vec<NetworkAction<W>>, DecodeError>(e),
                        }
                },
                NetworkEvent::ClosestPeers { id, peers } => {
                    &&& final(self).view() == old(self).view().without_query(id)
                    &&& res matches Ok(actions) && actions@ == if old(
                        self,
                    ).view().closest_peers.contains_key(id) {
                        seq![
                            NetworkAction::<W>::ReplyPeers {
                                reply: old(self).view().closest_peers[id],
                                response: Ok(peers),
                            },
                        ]
                    } else {
                        seq![]
                    }
                },
                NetworkEvent::ClosestPeersTimeout { id } => {
                    &&& final(self).view() == old(self).view().without_query(id)
                    &&& res matches Ok(actions) && actions@ == if old(
                        self,
                    ).view().closest_peers.contains_key(id) {
                        seq![
                            NetworkAction::<W>::ReplyPeers {
                                reply: old(self).view().closest_peers[id],
                                response: Err(RequestError::Timeout),
                            },
                        ]
                    } else {
                        seq![]
                    }
                },
                NetworkEvent::OutboundFailure { request_id, error } => {
                    &&& final(self).view() == old(self).view().without_request(request_id)
                    &&& res matches Ok(actions) && actions@ == if old(
                        self,
                    ).view().headers.contains_key(request_id) {
                        seq![
                            NetworkAction::<W>::ReplyHeaders {
                                reply: old(self).view().headers[request_id].sender,
                                response: Err(RequestError::OutboundFailure(error)),
                            },
                        ]
                    } else {
                        seq![]
                    }
                },
                NetworkEvent::Request { request, channel } => {
                    &&& final(self).view() == old(self).view()
                    &&& res matches Ok(actions) && actions@ == seq![
                        NetworkAction::<W>::Delegate(
                            ChainNetworkEvent::GetBlockHeaders { channel, request },
                        ),
                    ]
                },
                NetworkEvent::Response { request_id, response } => {
                    &&& final(self).view() == old(self).view().without_request(request_id)
                    &&& res matches Ok(actions) && actions@ == if old(
                        self,
                    ).view().headers.contains_key(request_id) {
                        seq![
                            NetworkAction::<W>::ReplyHeaders {
                                reply: old(self).view().headers[request_id].sender,
                                response: Ok(response),
                            },
                        ]
                    } else {
                        seq![]
                    }
                },
                NetworkEvent::NewListenAddr { listener_id } => {
                    &&& final(self).view() == old(self).view().without_listener(listener_id)
                    &&& res matches Ok(actions) && actions@ == if old(
                        self,
                    ).view().listening.contains_key(listener_id) {
                        seq![
                            NetworkAction::<W>::ReplyUnit {
                                reply: old(self).view().listening[listener_id],
                                response: Ok(()),
                            },
                        ]
                    } else {
                        seq![]
                    }
                },
                NetworkEvent::Other => {
                    &&& final(self).view() == old(self).view()
                    &&& res matches Ok(actions) && actions@.len() == 0
                },
            },
    {
        let mut actions: Vec<NetworkAction<W>> = Vec::new();
        match event {
            NetworkEvent::Discovered { peers } => {
                let ghost track = |peer: (W::Peer, W::Addr)|
                    NetworkAction::<W>::TrackPeer { peer: peer.0, addr: peer.1 };
                for peer in iter: peers
                    invariant
                        track == (|peer: (W::Peer, W::Addr)|
                            NetworkAction::<W>::TrackPeer { peer: peer.0, addr: peer.1 }),
                        actions@ == iter.seq().take(iter.index() as int).map_values(track),
                {
                    let (peer, addr) = peer;
                    actions.push(NetworkAction::TrackPeer { peer, addr });
                }
            },
            NetworkEvent::Expired { peers } => {
                let ghost forget = |peer: (W::Peer, W::Addr)|
                    NetworkAction::<W>::ForgetPeer { peer: peer.0, addr: peer.1 };
                for peer in iter: peers
                    invariant
                        forget == (|peer: (W::Peer, W::Addr)|
                            NetworkAction::<W>::ForgetPeer { peer: peer.0, addr: peer.1 }),
                        actions@ == iter.seq().take(iter.index() as int).map_values(forget),
                {
                    let (peer, addr) = peer;
                    actions.push(NetworkAction::ForgetPeer { peer, addr });
                }
            },
            NetworkEvent::Gossip { topic, data } => {
                match self.handle_gossipsub_message(&topic, &data) {
                    Ok(Some(event)) => actions.push(NetworkAction::Delegate(event)),
                    Ok(None) => {},
                    Err(e) => return Err(e),
                }
            },
            NetworkEvent::ClosestPeers { id, peers } => {
                if let Some(reply) = self.pending_get_closest_peers.remove(&id) {
                    actions.push(NetworkAction::ReplyPeers { reply, response: Ok(peers) });
                }
            },
            NetworkEvent::ClosestPeersTimeout { id } => {
                if let Some(reply) = self.pending_get_closest_peers.remove(&id) {
                    actions.push(
                        NetworkAction::ReplyPeers { reply, response: Err(RequestError::Timeout) },
                    );
                }
            },
            NetworkEvent::OutboundFailure { request_id, error } => {
                if let Some(request) = self.pending_request_headers.remove(&request_id) {
                    actions.push(
                        NetworkAction::ReplyHeaders {
                            reply: request.sender,
                            response: Err(RequestError::OutboundFailure(error)),
                        },
                    );
                }
            },
            NetworkEvent::Request { request, channel } => {
                actions.push(
                    NetworkAction::Delegate(ChainNetworkEvent::GetBlockHeaders { channel, request }),
                );
            },
            NetworkEvent::Response { request_id, response } => {
                if let Some(request) = self.pending_request_headers.remove(&request_id) {
                    actions.push(
                        NetworkAction::ReplyHeaders {
                            reply: request.sender,
                            response: Ok(response),
                        },
                    );
                }
            },
            NetworkEvent::NewListenAddr { listener_id } => {
                if let Some(reply) = self.pending_listening.remove(&listener_id) {
                    actions.push(NetworkAction::ReplyUnit { reply, response: Ok(()) });
                }
            },
            NetworkEvent::Other => {},
        }
        Ok(actions)
    }

    /// Which event a message on a topic is. Messages on other topics are none.
    pub fn handle_gossipsub_message(&self, topic: &String, data: &Vec<u8>) -> (res: Result<
        Option<ChainNetworkEvent<W::Channel>>,
        DecodeError,
    >)
        ensures
            gossip_means(topic@, data@, res),
    {
        if *topic == BLOCK_HEADER.to_owned() {
            match decode_header(data.as_slice()) {
                Ok(header) => Ok(Some(ChainNetworkEvent::IncomingNewBlockHeader { header })),
                Err(e) => Err(e),
            }
        } else if *topic == TRANSACTIONS.to_owned() {
            match decode_transactions(data.as_slice()) {
                Ok(transactions) => Ok(
                    Some(ChainNetworkEvent::IncomingTransactions { transactions }),
                ),
                Err(e) => Err(e),
            }
        } else {
            Ok(None)
        }
    }

    /// What to do with the answer for a peer: it is sent, unless there is none.
    pub fn handle_response_block_headers(
        &self,
        response: RequestResponse<GetBlockHeadersResponse<W::Channel>>,
    ) -> (res: Option<NetworkAction<W>>)
        ensures
            res == match response {
                Ok(response) => Some(NetworkAction::<W>::SendResponse(response)),
                Err(_) => None,
            },
    {
        match response {
            Ok(response) => Some(NetworkAction::SendResponse(response)),
            Err(_) => None,
        }
    }
}

/// A reply is sent once: what was replied to no longer waits, and all else waits on.
pub proof fn law_replies_are_sent_once<W: Wire>(pending: PendingView<W>, id: u64, other: u64)
    requires
        id != other,
    ensures
        !pending.without_query(id).closest_peers.contains_key(id),
        !pending.without_request(id).headers.contains_key(id),
        !pending.without_listener(id).listening.contains_key(id),
        pending.without_query(id).closest_peers.contains_key(other)
            == pending.closest_peers.contains_key(other),
        pending.without_request(id).headers.contains_key(other) == pending.headers.contains_key(
            other,
        ),
        pending.without_listener(id).listening.contains_key(other)
            == pending.listening.contains_key(other),
{
}

/// A header that one node broadcasts comes in at another node as that header.
pub proof fn law_broadcast_header_comes_in<C>(
    header: HeaderView,
    data: Seq<u8>,
    meant: Result<Option<ChainNetworkEvent<C>>, DecodeError>,
)
    requires
        data == header_rlp(header),
        data.len() <= u64::MAX,
        gossip_means(BLOCK_HEADER@, data, meant),
    ensures
        meant matches Ok(Some(event)) && event_view(event) == EventView::<C>::Header(header),
{
    assert(header_rlp(header) =~= data.subrange(0, data.len() as int));
    assert(header_rlp(header).is_prefix_of(data));
    if let Ok(Some(event)) = meant {
        if let EventView::Header(read) = event_view(event) {
            law_header_read_back(header, read, data);
        }
    }
}

/// Transactions that one node broadcasts come in at another node as those transactions.
pub proof fn law_broadcast_transactions_come_in<C>(
    txs: Seq<TransactionView>,
    data: Seq<u8>,
    meant: Result<Option<ChainNetworkEvent<C>>, DecodeError>,
)
    requires
        data == transactions_rlp(txs),
        data.len() <= u64::MAX,
        gossip_means(TRANSACTIONS@, data, meant),
    ensures
        meant matches Ok(Some(event)) && event_view(event) == EventView::<C>::Transactions(txs),
{
    reveal_strlit("/lightlayer/block_header");
    reveal_strlit("/lightlayer/transactions");
    assert(BLOCK_HEADER@[12] == 'b');
    assert(TRANSACTIONS@[12] == 't');
    assert(transactions_rlp(txs) =~= data.subrange(0, data.len() as int));
    assert(transactions_rlp(txs).is_prefix_of(data));
    if let Ok(Some(event)) = meant {
        if let EventView::Transactions(read) = event_view(event) {
            law_transactions_read_back(txs, read, data);
        }
    }
}

/// What is sent out and comes in: a header that a part of this node broadcasts is published on the
/// topic for headers, as bytes from which any node gets that header as a new header; the same holds
/// of transactions. A message on another topic is no event.
pub proof fn law_what_is_published_comes_in<W: Wire>(
    sender: NetworkManager<W>,
    receiver: NetworkManager<W>,
    header: Header,
    transactions: Vec<Transaction>,
    tx: W::UnitReply,
    header_action: NetworkAction<W>,
    transactions_action: NetworkAction<W>,
    topic: String,
    data: Vec<u8>,
    res: Result<Option<ChainNetworkEvent<W::Channel>>, DecodeError>,
)
    requires
        call_ensures(
            NetworkManager::<W>::handle_command,
            (&sender, NetworkProviderMessage::BroadcastBlockHeader { header, tx }),
            header_action,
        ),
        call_ensures(
            NetworkManager::<W>::handle_command,
            (&sender, NetworkProviderMessage::BroadcastTransactions { transactions, tx }),
            transactions_action,
        ),
        call_ensures(
            NetworkManager::<W>::handle_gossipsub_message,
            (&receiver, &topic, &data),
            res,
        ),
        data@.len() <= u64::MAX,
    ensures
        header_action matches NetworkAction::Publish { topic: sent_on, data: sent, reply }
            && sent_on@ == "/lightlayer/block_header"@ && reply == tx && (sent_on@ == topic@
            && sent@ == data@ ==> (res matches Ok(
            Some(ChainNetworkEvent::IncomingNewBlockHeader { header: read }),
        ) && read@ == header@)),
        transactions_action matches NetworkAction::Publish { topic: sent_on, data: sent, reply }
            && sent_on@ == "/lightlayer/transactions"@ && reply == tx && (sent_on@ == topic@
            && sent@ == data@ ==> (res matches Ok(
            Some(ChainNetworkEvent::IncomingTransactions { transactions: read }),
        ) && transaction_views(read@) == transaction_views(transactions@))),
        topic@ != "/lightlayer/block_header"@ && topic@ != "/lightlayer/transactions"@
            ==> res matches Ok(None),
{
    reveal_strlit("/lightlayer/block_header");
    reveal_strlit("/lightlayer/transactions");
    assert(BLOCK_HEADER@[12] == 'b');
    assert(TRANSACTIONS@[12] == 't');
    if topic@ == BLOCK_HEADER@ && data@ == header_rlp(header@) {
        law_broadcast_header_comes_in(header@, data@, res);
    }
    if topic@ == TRANSACTIONS@ && data@ == transactions_rlp(transaction_views(transactions@)) {
        law_broadcast_transactions_come_in(transaction_views(transactions@), data@, res);
    }
}

/// What comes in on a topic of this node is what its bytes start with: an event whose header, or
/// whose transactions, they are the encoding of. Bytes that do not start with such an encoding are
/// an error, and only those.
pub proof fn law_gossip_is_read_as_it_was_written<W: Wire>(
    manager: NetworkManager<W>,
    topic: String,
    data: Vec<u8>,
    res: Result<Option<ChainNetworkEvent<W::Channel>>, DecodeError>,
)
    requires
        call_ensures(
            NetworkManager::<W>::handle_gossipsub_message,
            (&manager, &topic, &data),
            res,
        ),
    ensures
        topic@ == "/lightlayer/block_header"@ ==> match res {
            Ok(Some(ChainNetworkEvent::IncomingNewBlockHeader { header })) => header_rlp(
                header@,
            ).is_prefix_of(data@),
            Ok(_) => false,
            Err(_) => forall|header: HeaderView|
                !(#[trigger] header_rlp(header)).is_prefix_of(data@),
        },
        topic@ == "/lightlayer/transactions"@ ==> match res {
            Ok(Some(ChainNetworkEvent::IncomingTransactions { transactions })) => transactions_rlp(
                transaction_views(transactions@),
            ).is_prefix_of(data@),
            Ok(_) => false,
            Err(_) => forall|txs: Seq<TransactionView>|
                !(#[trigger] transactions_rlp(txs)).is_prefix_of(data@),
        },
{
    reveal_strlit("/lightlayer/block_header");
    reveal_strlit("/lightlayer/transactions");
    assert(BLOCK_HEADER@[12] == 'b');
    assert(TRANSACTIONS@[12] == 't');
}

/// What no longer waits after a reply is that alone which was replied to: all else waits on, with
/// the sender that it had.
pub proof fn law_other_requests_wait_on<W: Wire>(pending: PendingView<W>, id: u64, other: u64)
    ensures
        ({
            let after = pending.without_query(id);
            &&& !after.closest_peers.contains_key(id)
            &&& other != id && pending.closest_peers.contains_key(other)
                ==> after.closest_peers.contains_pair(other, pending.closest_peers[other])
            &&& after.closest_peers.contains_key(other) ==> pending.closest_peers.contains_key(
                other,
            )
            &&& after.headers == pending.headers
            &&& after.listening == pending.listening
        }),
        ({
            let after = pending.without_request(id);
            &&& !after.headers.contains_key(id)
            &&& other != id && pending.headers.contains_key(other) ==> after.headers.contains_pair(
                other,
                pending.headers[other],
            )
            &&& after.headers.contains_key(other) ==> pending.headers.contains_key(other)
            &&& after.closest_peers == pending.closest_peers
            &&& after.listening == pending.listening
        }),
        ({
            let after = pending.without_listener(id);
            &&& !after.listening.contains_key(id)
            &&& other != id && pending.listening.contains_key(other)
                ==> after.listening.contains_pair(other, pending.listening[other])
            &&& after.listening.contains_key(other) ==> pending.listening.contains_key(other)
            &&& after.closest_peers == pending.closest_peers
            &&& after.headers == pending.headers
        }),
{
}

/// Who asked for the closest peers gets them, all of them and in their order, when the query ends,
/// or learns that it timed out, and gets one answer.
pub proof fn law_closest_peers_reach_who_asked<W: Wire>(
    asking: &mut NetworkManager<W>,
    answered: &mut NetworkManager<W>,
    timed_out: &mut NetworkManager<W>,
    id: u64,
    reply: W::PeersReply,
    peers: Vec<W::Peer>,
    found: Result<Vec<NetworkAction<W>>, DecodeError>,
    none: Result<Vec<NetworkAction<W>>, DecodeError>,
)
    requires
        call_ensures(NetworkManager::<W>::query_started, (asking, id, reply), ()),
        *answered == *final(asking),
        *timed_out == *final(asking),
        call_ensures(
            NetworkManager::<W>::handle_event,
            (answered, NetworkEvent::ClosestPeers { id, peers }),
            found,
        ),
        call_ensures(
            NetworkManager::<W>::handle_event,
            (timed_out, NetworkEvent::ClosestPeersTimeout { id }),
            none,
        ),
    ensures
        found matches Ok(actions) && actions@.len() == 1 && actions@[0] == (NetworkAction::<
            W,
        >::ReplyPeers { reply, response: Ok(peers) }),
        none matches Ok(actions) && actions@.len() == 1 && actions@[0] == (NetworkAction::<
            W,
        >::ReplyPeers { reply, response: Err(RequestError::Timeout) }),
        !final(answered).view().closest_peers.contains_key(id),
        !final(timed_out).view().closest_peers.contains_key(id),
        final(answered).view().headers == old(asking).view().headers,
        final(answered).view().listening == old(asking).view().listening,
{
}

/// Who asked a peer for headers gets the headers that the peer sent, all of them and in their
/// order, or learns why the request did not get through, and gets one answer.
pub proof fn law_headers_reach_who_asked<W: Wire>(
    asking: &mut NetworkManager<W>,
    answered: &mut NetworkManager<W>,
    failed: &mut NetworkManager<W>,
    request_id: u64,
    request: GetHeadersRequest<W>,
    response: Vec<Header>,
    error: String,
    got: Result<Vec<NetworkAction<W>>, DecodeError>,
    lost: Result<Vec<NetworkAction<W>>, DecodeError>,
)
    requires
        call_ensures(NetworkManager::<W>::request_sent, (asking, request_id, request), ()),
        *answered == *final(asking),
        *failed == *final(asking),
        call_ensures(
            NetworkManager::<W>::handle_event,
            (answered, NetworkEvent::Response { request_id, response }),
            got,
        ),
        call_ensures(
            NetworkManager::<W>::handle_event,
            (failed, NetworkEvent::OutboundFailure { request_id, error }),
            lost,
        ),
    ensures
        got matches Ok(actions) && actions@.len() == 1 && actions@[0] == (NetworkAction::<
            W,
        >::ReplyHeaders { reply: request.sender, response: Ok(response) }),
        lost matches Ok(actions) && actions@.len() == 1 && actions@[0] == (NetworkAction::<
            W,
        >::ReplyHeaders {
            reply: request.sender,
            response: Err(RequestError::OutboundFailure(error)),
        }),
        !final(answered).view().headers.contains_key(request_id),
        !final(failed).view().headers.contains_key(request_id),
        final(answered).view().closest_peers == old(asking).view().closest_peers,
        final(answered).view().listening == old(asking).view().listening,
{
}

/// Who asked to listen learns of it when the address is there, or at once why it cannot be.
pub proof fn law_listening_is_told<W: Wire>(
    asking: &mut NetworkManager<W>,
    told: &mut NetworkManager<W>,
    listener_id: u64,
    reply: W::UnitReply,
    at_once: Option<NetworkAction<W>>,
    later: Result<Vec<NetworkAction<W>>, DecodeError>,
    refused: &mut NetworkManager<W>,
    cause: String,
    refusal: Option<NetworkAction<W>>,
)
    requires
        call_ensures(
            NetworkManager::<W>::listen_started,
            (asking, Ok::<u64, String>(listener_id), reply),
            at_once,
        ),
        *told == *final(asking),
        call_ensures(
            NetworkManager::<W>::handle_event,
            (told, NetworkEvent::NewListenAddr { listener_id }),
            later,
        ),
        call_ensures(
            NetworkManager::<W>::listen_started,
            (refused, Err::<u64, String>(cause), reply),
            refusal,
        ),
    ensures
        at_once is None,
        later matches Ok(actions) && actions@.len() == 1 && actions@[0] == (NetworkAction::<
            W,
        >::ReplyUnit { reply, response: Ok(()) }),
        !final(told).view().listening.contains_key(listener_id),
        refusal == Some(
            NetworkAction::<W>::ReplyUnit {
                reply,
                response: Err(RequestError::TransportError(cause)),
            },
        ),
        final(refused).view() == old(refused).view(),
{
}

/// An answer that nobody waits for is dropped.
pub proof fn law_answers_that_nobody_waits_for_are_dropped<W: Wire>(
    peers_manager: &mut NetworkManager<W>,
    headers_manager: &mut NetworkManager<W>,
    id: u64,
    peers: Vec<W::Peer>,
    response: Vec<Header>,
    found: Result<Vec<NetworkAction<W>>, DecodeError>,
    got: Result<Vec<NetworkAction<W>>, DecodeError>,
)
    requires
        !old(peers_manager).view().closest_peers.contains_key(id),
        !old(headers_manager).view().headers.contains_key(id),
        call_ensures(
            NetworkManager::<W>::handle_event,
            (peers_manager, NetworkEvent::ClosestPeers { id, peers }),
            found,
        ),
        call_ensures(
            NetworkManager::<W>::handle_event,
            (headers_manager, NetworkEvent::Response { request_id: id, response }),
            got,
        ),
    ensures
        found matches Ok(actions) && actions@.len() == 0,
        got matches Ok(actions) && actions@.len() == 0,
        final(peers_manager).view().closest_peers == old(peers_manager).view().closest_peers,
        final(headers_manager).view().headers == old(headers_manager).view().headers,
{
    let ghost_peers = old(peers_manager).view().closest_peers;
    assert(ghost_peers.remove(id) =~= ghost_peers);
    let ghost_headers = old(headers_manager).view().headers;
    assert(ghost_headers.remove(id) =~= ghost_headers);
}

/// Every peer that is discovered becomes known with its address, and every one that is gone is
/// forgotten, in their order and no other one.
pub proof fn law_peers_nearby_are_followed<W: Wire>(
    joined: &mut NetworkManager<W>,
    left: &mut NetworkManager<W>,
    peers: Vec<(W::Peer, W::Addr)>,
    found: Result<Vec<NetworkAction<W>>, DecodeError>,
    gone: Result<Vec<NetworkAction<W>>, DecodeError>,
    i: int,
)
    requires
        call_ensures(
            NetworkManager::<W>::handle_event,
            (joined, NetworkEvent::Discovered { peers }),
            found,
        ),
        call_ensures(
            NetworkManager::<W>::handle_event,
            (left, NetworkEvent::Expired { peers }),
            gone,
        ),
    ensures
        found matches Ok(actions) && actions@.len() == peers@.len() && (0 <= i < peers@.len()
            ==> actions@[i] == (NetworkAction::<W>::TrackPeer {
            peer: peers@[i].0,
            addr: peers@[i].1,
        })),
        gone matches Ok(actions) && actions@.len() == peers@.len() && (0 <= i < peers@.len()
            ==> actions@[i] == (NetworkAction::<W>::ForgetPeer {
            peer: peers@[i].0,
            addr: peers@[i].1,
        })),
        final(joined).view() == old(joined).view(),
        final(left).view() == old(left).view(),
{
}

/// What a peer asks for is handed to the chain network manager as it is, and so is what a message
/// on a topic of this node says.
pub proof fn law_what_concerns_the_chain_is_delegated<W: Wire>(
    asked: &mut NetworkManager<W>,
    heard: &mut NetworkManager<W>,
    request: HeadersRequest,
    channel: W::Channel,
    topic: String,
    data: Vec<u8>,
    on_request: Result<Vec<NetworkAction<W>>, DecodeError>,
    on_gossip: Result<Vec<NetworkAction<W>>, DecodeError>,
)
    requires
        call_ensures(
            NetworkManager::<W>::handle_event,
            (asked, NetworkEvent::Request { request, channel }),
            on_request,
        ),
        call_ensures(
            NetworkManager::<W>::handle_event,
            (heard, NetworkEvent::Gossip { topic, data }),
            on_gossip,
        ),
    ensures
        on_request matches Ok(actions) && actions@.len() == 1 && actions@[0] == (NetworkAction::<
            W,
        >::Delegate(ChainNetworkEvent::GetBlockHeaders { channel, request })),
        topic@ == "/lightlayer/block_header"@ ==> match on_gossip {
            Ok(actions) => actions@.len() == 1 && (actions@[0] matches NetworkAction::Delegate(
                ChainNetworkEvent::IncomingNewBlockHeader { header },
            ) && header_rlp(header@).is_prefix_of(data@)),
            Err(_) => forall|header: HeaderView|
                !(#[trigger] header_rlp(header)).is_prefix_of(data@),
        },
        topic@ == "/lightlayer/transactions"@ ==> match on_gossip {
            Ok(actions) => actions@.len() == 1 && (actions@[0] matches NetworkAction::Delegate(
                ChainNetworkEvent::IncomingTransactions { transactions },
            ) && transactions_rlp(transaction_views(transactions@)).is_prefix_of(data@)),
            Err(_) => forall|txs: Seq<TransactionView>|
                !(#[trigger] transactions_rlp(txs)).is_prefix_of(data@),
        },
        topic@ != "/lightlayer/block_header"@ && topic@ != "/lightlayer/transactions"@
            ==> (on_gossip matches Ok(actions) && actions@.len() == 0),
        final(asked).view() == old(asked).view(),
        final(heard).view() == old(heard).view(),
{
    reveal_strlit("/lightlayer/block_header");
    reveal_strlit("/lightlayer/transactions");
    assert(BLOCK_HEADER@[12] == 'b');
    assert(TRANSACTIONS@[12] == 't');
}

/// A command is carried out for the part of this node that gave it: what it asks for is handed on
/// as it is, with its sender.
pub proof fn law_commands_are_handed_on<W: Wire>(
    manager: NetworkManager<W>,
    command: NetworkProviderMessage<W>,
    res: NetworkAction<W>,
)
    requires
        call_ensures(NetworkManager::<W>::handle_command, (&manager, command), res),
    ensures
        command matches NetworkProviderMessage::GetClosestPeers { sender } ==> (
        res matches NetworkAction::FindClosestPeers { reply } && reply == sender),
        command matches NetworkProviderMessage::GetHeaders(request) ==> (
        res matches NetworkAction::SendRequest(sent) && sent == request),
        command matches NetworkProviderMessage::Dial { peer_id, peer_addr, tx } ==> (
        res matches NetworkAction::Dial { peer, addr, reply } && peer == peer_id && addr
            == peer_addr && reply == tx),
        command matches NetworkProviderMessage::ListenAddrs { tx } ==> (
        res matches NetworkAction::TellListenAddrs { reply } && reply == tx),
        command matches NetworkProviderMessage::StartListening { addr, tx } ==> (
        res matches NetworkAction::Listen { addr: on, reply } && on == addr && reply == tx),
{
}

/// Who asked to dial or to publish learns how it went.
pub proof fn law_outcomes_are_told<W: Wire>(
    manager: NetworkManager<W>,
    outcome: Result<(), String>,
    reply: W::UnitReply,
    dialed: NetworkAction<W>,
    published: NetworkAction<W>,
    response: RequestResponse<GetBlockHeadersResponse<W::Channel>>,
    answer: Option<NetworkAction<W>>,
)
    requires
        call_ensures(NetworkManager::<W>::dialed, (&manager, outcome, reply), dialed),
        call_ensures(NetworkManager::<W>::published, (&manager, outcome, reply), published),
        call_ensures(
            NetworkManager::<W>::handle_response_block_headers,
            (&manager, response),
            answer,
        ),
    ensures
        dialed matches NetworkAction::ReplyUnit { reply: to, response: told } && to == reply
            && match outcome {
            Ok(_) => told is Ok,
            Err(cause) => told == Err::<(), RequestError>(RequestError::DialError(cause)),
        },
        published matches NetworkAction::ReplyUnit { reply: to, response: told } && to == reply
            && match outcome {
            Ok(_) => told is Ok,
            Err(cause) => told == Err::<(), RequestError>(RequestError::PublishError(cause)),
        },
        response matches Ok(headers) ==> answer == Some(NetworkAction::<W>::SendResponse(headers)),
        response is Err ==> answer is None,
{
}

} // verus!
