use simb::interface::{Header, HeadersRequest, RequestError};
use simb::net::network::{NetworkAction, NetworkEvent, NetworkManager, BOOTSTRAP_SECONDS};
use simb::net::{
    ChainNetworkEvent, GetBlockHeadersResponse, GetHeadersRequest, NetworkProviderMessage, Wire,
    BLOCK_HEADER, TRANSACTIONS,
};
use simb::pool::PoolTx;
use simb::rlp::{encode_header, encode_transactions};

struct Numbers {}

impl Wire for Numbers {
    type Peer = u64;
    type Addr = String;
    type Channel = u32;
    type PeersReply = u8;
    type HeadersReply = u8;
    type AddrsReply = u8;
    type UnitReply = u8;
}

type Manager = NetworkManager<Numbers>;

type Action = NetworkAction<Numbers>;

fn header() -> Header {
    Header {
        number: 4,
        hash: "h".to_string(),
        ..Header::default()
    }
}

fn request() -> GetHeadersRequest<Numbers> {
    GetHeadersRequest {
        peer: 11,
        request: HeadersRequest {
            limit: 2,
            start_block: 1,
        },
        sender: 9,
    }
}

/// The single action that an event leads to.
fn only(manager: &mut Manager, event: NetworkEvent<Numbers>) -> Action {
    let mut actions = manager.handle_event(event).unwrap();
    assert_eq!(actions.len(), 1);
    actions.pop().unwrap()
}

fn none(manager: &mut Manager, event: NetworkEvent<Numbers>) {
    assert_eq!(manager.handle_event(event).unwrap().len(), 0);
}

#[test]
fn what_is_broadcast_comes_in() {
    let mut manager = Manager::new();
    let command = NetworkProviderMessage::BroadcastBlockHeader {
        header: header(),
        tx: 5,
    };
    match manager.handle_command(command) {
        Action::Publish { topic, data, reply } => {
            assert_eq!(topic, "/lightlayer/block_header");
            assert_eq!(data, encode_header(&header()));
            assert_eq!(reply, 5);
            match only(&mut manager, NetworkEvent::Gossip { topic, data }) {
                Action::Delegate(event) => assert_eq!(
                    event,
                    ChainNetworkEvent::IncomingNewBlockHeader { header: header() }
                ),
                _ => panic!("not delegated"),
            }
        }
        _ => panic!("not published"),
    }

    let transactions = vec![PoolTx::tx_rng(), PoolTx::tx_rng()];
    let command = NetworkProviderMessage::BroadcastTransactions {
        transactions: transactions.clone(),
        tx: 6,
    };
    match manager.handle_command(command) {
        Action::Publish { topic, data, reply } => {
            assert_eq!(topic, "/lightlayer/transactions");
            assert_eq!(data, encode_transactions(&transactions));
            assert_eq!(reply, 6);
            match only(&mut manager, NetworkEvent::Gossip { topic, data }) {
                Action::Delegate(event) => assert_eq!(
                    event,
                    ChainNetworkEvent::IncomingTransactions { transactions }
                ),
                _ => panic!("not delegated"),
            }
        }
        _ => panic!("not published"),
    }
}

#[test]
fn messages_that_do_not_decode_are_errors() {
    let mut manager = Manager::new();
    for topic in [BLOCK_HEADER, TRANSACTIONS] {
        let event = NetworkEvent::Gossip {
            topic: topic.to_string(),
            data: vec![1, 2, 3],
        };
        assert!(manager.handle_event(event).is_err());
    }
    none(
        &mut manager,
        NetworkEvent::Gossip {
            topic: "/other".to_string(),
            data: vec![1, 2, 3],
        },
    );
}

#[test]
fn commands_become_actions() {
    let manager = Manager::new();
    let command = NetworkProviderMessage::GetClosestPeers { sender: 1 };
    assert!(matches!(
        manager.handle_command(command),
        Action::FindClosestPeers { reply: 1 }
    ));
    match manager.handle_command(NetworkProviderMessage::GetHeaders(request())) {
        Action::SendRequest(GetHeadersRequest {
            peer,
            request,
            sender,
        }) => {
            assert_eq!(peer, 11);
            assert_eq!(request.limit, 2);
            assert_eq!(request.start_block, 1);
            assert_eq!(sender, 9);
        }
        _ => panic!("not sent"),
    }
    let command = NetworkProviderMessage::Dial {
        peer_id: 3,
        peer_addr: "x".to_string(),
        tx: 2,
    };
    match manager.handle_command(command) {
        Action::Dial { peer, addr, reply } => {
            assert_eq!((peer, addr.as_str(), reply), (3, "x", 2))
        }
        _ => panic!("not dialed"),
    }
    let command = NetworkProviderMessage::ListenAddrs { tx: 4 };
    assert!(matches!(
        manager.handle_command(command),
        Action::TellListenAddrs { reply: 4 }
    ));
    let command = NetworkProviderMessage::StartListening {
        addr: "y".to_string(),
        tx: 5,
    };
    match manager.handle_command(command) {
        Action::Listen { addr, reply } => assert_eq!((addr.as_str(), reply), ("y", 5)),
        _ => panic!("not listening"),
    }
}

#[test]
fn closest_peers_are_replied_once() {
    let mut manager = Manager::new();
    manager.query_started(8, 1);
    manager.query_started(9, 2);
    let found = |id| NetworkEvent::ClosestPeers {
        id,
        peers: vec![5, 6],
    };
    none(&mut manager, found(7));
    match only(&mut manager, found(8)) {
        Action::ReplyPeers { reply, response } => {
            assert_eq!(reply, 1);
            assert_eq!(response, Ok(vec![5, 6]));
        }
        _ => panic!("no reply"),
    }
    none(&mut manager, found(8));
    match only(&mut manager, NetworkEvent::ClosestPeersTimeout { id: 9 }) {
        Action::ReplyPeers { reply, response } => {
            assert_eq!(reply, 2);
            assert_eq!(response, Err(RequestError::Timeout));
        }
        _ => panic!("no reply"),
    }
    none(&mut manager, NetworkEvent::ClosestPeersTimeout { id: 9 });
}

#[test]
fn headers_are_replied_once() {
    let mut manager = Manager::new();
    manager.request_sent(1, request());
    manager.request_sent(2, request());
    let response = |request_id| NetworkEvent::Response {
        request_id,
        response: vec![header()],
    };
    none(&mut manager, response(3));
    match only(&mut manager, response(1)) {
        Action::ReplyHeaders { reply, response } => {
            assert_eq!(reply, 9);
            assert_eq!(response, Ok(vec![header()]));
        }
        _ => panic!("no reply"),
    }
    none(&mut manager, response(1));
    let failure = |request_id| NetworkEvent::OutboundFailure {
        request_id,
        error: "closed".to_string(),
    };
    match only(&mut manager, failure(2)) {
        Action::ReplyHeaders { reply, response } => {
            assert_eq!(reply, 9);
            assert_eq!(
                response,
                Err(RequestError::OutboundFailure("closed".to_string()))
            );
        }
        _ => panic!("no reply"),
    }
    none(&mut manager, failure(2));
}

#[test]
fn listening_is_replied_when_the_address_is_there() {
    let mut manager = Manager::new();
    assert!(manager.listen_started(Ok(4), 7).is_none());
    match only(&mut manager, NetworkEvent::NewListenAddr { listener_id: 4 }) {
        Action::ReplyUnit { reply, response } => {
            assert_eq!((reply, response), (7, Ok(())))
        }
        _ => panic!("no reply"),
    }
    none(&mut manager, NetworkEvent::NewListenAddr { listener_id: 4 });
    match manager.listen_started(Err("taken".to_string()), 8) {
        Some(Action::ReplyUnit { reply, response }) => {
            assert_eq!(reply, 8);
            assert_eq!(
                response,
                Err(RequestError::TransportError("taken".to_string()))
            );
        }
        _ => panic!("no reply"),
    }
}

#[test]
fn dialing_and_publishing_are_replied() {
    let manager = Manager::new();
    let replies = [
        (manager.dialed(Ok(()), 1), Ok(())),
        (
            manager.dialed(Err("away".to_string()), 1),
            Err(RequestError::DialError("away".to_string())),
        ),
        (manager.published(Ok(()), 1), Ok(())),
        (
            manager.published(Err("alone".to_string()), 1),
            Err(RequestError::PublishError("alone".to_string())),
        ),
    ];
    for (action, expected) in replies {
        match action {
            Action::ReplyUnit { reply, response } => {
                assert_eq!((reply, response), (1, expected))
            }
            _ => panic!("no reply"),
        }
    }
}

#[test]
fn peers_nearby_come_and_go() {
    let mut manager = Manager::new();
    let peers = vec![(1, "a".to_string()), (2, "b".to_string())];
    let event = NetworkEvent::Discovered {
        peers: peers.clone(),
    };
    let known: Vec<(u64, String)> = manager
        .handle_event(event)
        .unwrap()
        .into_iter()
        .map(|action| match action {
            Action::TrackPeer { peer, addr } => (peer, addr),
            _ => panic!("not known"),
        })
        .collect();
    assert_eq!(known, peers);
    let event = NetworkEvent::Expired {
        peers: peers.clone(),
    };
    let forgotten: Vec<(u64, String)> = manager
        .handle_event(event)
        .unwrap()
        .into_iter()
        .map(|action| match action {
            Action::ForgetPeer { peer, addr } => (peer, addr),
            _ => panic!("not forgotten"),
        })
        .collect();
    assert_eq!(forgotten, peers);
}

#[test]
fn a_request_of_a_peer_is_delegated_and_answered() {
    let mut manager = Manager::new();
    let request = HeadersRequest {
        limit: 1,
        start_block: 2,
    };
    let event = NetworkEvent::Request {
        request,
        channel: 3,
    };
    match only(&mut manager, event) {
        Action::Delegate(event) => assert_eq!(
            event,
            ChainNetworkEvent::GetBlockHeaders {
                channel: 3,
                request
            }
        ),
        _ => panic!("not delegated"),
    }
    let answer = GetBlockHeadersResponse {
        headers: vec![header()],
        channel: 3,
    };
    match manager.handle_response_block_headers(Ok(answer)) {
        Some(Action::SendResponse(sent)) => {
            assert_eq!(sent.channel, 3);
            assert_eq!(sent.headers, vec![header()]);
        }
        _ => panic!("not answered"),
    }
    assert!(manager
        .handle_response_block_headers(Err(RequestError::Timeout))
        .is_none());
}

#[test]
fn other_events_are_left_alone() {
    none(&mut Manager::new(), NetworkEvent::Other);
    assert_eq!(BOOTSTRAP_SECONDS, 60 * 5);
}
