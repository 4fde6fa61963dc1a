use std::collections::BTreeMap;
use std::sync::{Arc, Mutex};

use simb::blocktree::{calculate_hash, AddedBlockResult, BlockTree, Chain, ChainView, Error};
use simb::interface::{Header, HeaderView, HeadersRequest, RequestError, Transaction};
use simb::net::chain::{ChainAction, ChainNetworkManager, Ready};
use simb::net::{ChainNetworkEvent, GetBlockHeadersResponse};
use simb::pool::PoolTx;
use simb::rlp::encode_header;
use simb::tasks::sync_header::{SyncHeader, SyncHeaderError, SyncHeaderOutput, SyncStep};

#[derive(Clone)]
pub struct MockChain {
    pub headers: Arc<Mutex<BTreeMap<u64, Header>>>,
    pub added: Arc<Mutex<Vec<Header>>>,
    pub broken: bool,
}

impl MockChain {
    pub fn new(latest_block: u64) -> Self {
        let initial_headers = generate_headers_from_genesis(latest_block);
        Self {
            headers: Arc::new(Mutex::new(initial_headers)),
            added: Arc::new(Mutex::new(Vec::new())),
            broken: false,
        }
    }

    fn failure(&self) -> Result<(), Error> {
        if self.broken {
            Err(Error::DatabaseError("gone".to_string()))
        } else {
            Ok(())
        }
    }

    pub fn validate(&mut self, parent_header: &Header, header: &Header) -> Result<(), Error> {
        if parent_header.hash != header.parent_hash {
            return Err(Error::Invalid);
        }

        if parent_header.number + 1 != header.number {
            return Err(Error::Invalid);
        }

        Ok(())
    }
}

impl BlockTree for MockChain {
    // what is only there for proofs is never called
    fn wf(&self) -> bool {
        unreachable!()
    }

    fn tables(&self) -> ChainView {
        unreachable!()
    }

    fn available(&self) -> bool {
        unreachable!()
    }

    fn genesis_view() -> HeaderView {
        unreachable!()
    }

    fn lemma_wf(&self) {
        unreachable!()
    }

    fn try_add_block_header(&mut self, header: Header) -> Result<AddedBlockResult, Error> {
        self.failure()?;
        if header != Self::genesis() {
            let parent_header = self.get_header_by_block_number(header.number - 1)?;
            self.validate(&parent_header, &header)?;
        }

        let old_tip = self.tip()?;

        self.headers
            .lock()
            .unwrap()
            .insert(header.number, header.clone());

        if old_tip.number < self.tip()?.number {
            self.added.lock().unwrap().push(header.clone());
            return Ok(AddedBlockResult::ExtendTip);
        }
        Ok(AddedBlockResult::AlreadyInChain)
    }

    fn get_header_by_hash(&self, _hash: String) -> Result<Header, Error> {
        Ok(Header::default())
    }

    fn get_header_by_block_number(&self, number: u64) -> Result<Header, Error> {
        self.failure()?;
        if let Some(header) = self.headers.lock().unwrap().get(&number) {
            return Ok(header.clone());
        }
        Err(Error::BlockHeaderNotFound)
    }

    fn tip(&self) -> Result<Header, Error> {
        self.failure()?;
        Ok(self
            .headers
            .lock()
            .unwrap()
            .last_key_value()
            .unwrap()
            .1
            .clone())
    }

    fn genesis() -> Header {
        Header {
            hash: "0x".to_string(),
            number: 0,
            nonce: 17012,
            parent_hash: "genesis".to_string(),
            state_root: "0x".to_string(),
            timestamp: 1705551177,
        }
    }
}

pub fn hex_text(bytes: &[u8]) -> String {
    bytes.iter().map(|byte| format!("{:02x}", byte)).collect()
}

pub fn generate_headers_from_genesis(to: u64) -> BTreeMap<u64, Header> {
    let mut headers = BTreeMap::new();
    headers.insert(0, MockChain::genesis());

    for number in 1..to + 1 {
        let state_root = "0x".to_string();
        let parent_hash = headers.get(&(number - 1)).unwrap().hash.clone();
        // deterministic timestamp
        let timestamp = 1705551177 + number * 10;
        let nonce = 17012;
        let hash = calculate_hash(number, timestamp, &parent_hash, &state_root, "0x", nonce);

        headers.insert(
            number,
            Header {
                number,
                hash: hex_text(&hash),
                nonce,
                parent_hash,
                state_root,
                timestamp,
            },
        );
    }
    headers
}

/// [from,to]
pub fn get_header_in_interval(from: u64, to: u64) -> Vec<Header> {
    let to = to + 1;
    let initial_headers = generate_headers_from_genesis(to)
        .into_iter()
        .map(|(_, v)| v)
        .collect::<Vec<_>>();

    initial_headers[from as usize..to as usize].to_vec()
}

type Manager = ChainNetworkManager<MockChain, u8>;

fn manager_of(chain: &MockChain) -> Manager {
    ChainNetworkManager::new(chain.clone(), PoolTx::new(), 0)
}

/// Hands an event to the manager and returns what it wants done.
fn on_event(manager: &mut Manager, event: ChainNetworkEvent<u32>) -> Vec<ChainAction<u32>> {
    manager.on_event(event).unwrap()
}

fn incoming(manager: &mut Manager, header: Header) -> Vec<ChainAction<u32>> {
    on_event(manager, ChainNetworkEvent::IncomingNewBlockHeader { header })
}

/// Runs a sync against a peer that has every header.
fn run_sync(mut sync: SyncHeader<u8, u64>) -> SyncHeaderOutput {
    let mut waiting = Vec::new();
    loop {
        match sync.poll() {
            SyncStep::Request { index, request } => waiting.push((index, request)),
            SyncStep::Done { output } => return output,
            SyncStep::Wait => {
                // the latest request is answered first
                let (index, request) = waiting.pop().unwrap();
                let headers = get_header_in_interval(
                    request.start_block,
                    request.start_block + request.limit - 1,
                );
                sync.on_response(index, Ok(headers));
            }
        }
    }
}

/// Syncs from one peer and returns how many headers were added.
fn sync_from_one_peer(manager: &mut Manager) -> usize {
    let mut syncs = manager.on_closest_peers(Ok(vec![7u64])).unwrap();
    assert_eq!(syncs.len(), 1);
    let output = run_sync(syncs.pop().unwrap());
    manager.on_sync_result(output).unwrap()
}

#[test]
fn test_handle_incoming_header() {
    let external_headers = generate_headers_from_genesis(10);
    let chain = MockChain::new(0);
    let mut manager = manager_of(&chain);

    let last = external_headers.last_key_value().unwrap().1.clone();
    let actions = incoming(&mut manager, last.clone());

    // check broadcast event is triggered
    assert_eq!(
        actions,
        vec![
            ChainAction::BroadcastBlockHeader { header: last },
            ChainAction::GetClosestPeers,
        ]
    );

    assert_eq!(sync_from_one_peer(&mut manager), 10);
    assert_eq!(*chain.headers.lock().unwrap(), external_headers);
}

#[test]
fn test_handle_multiple_incoming_headers() {
    // this test is to make sure that we don't sync same header twice
    // cause it will consume a lot of resource
    // and waste of time
    // also make sure that broadcast is not redundant
    let external_headers = generate_headers_from_genesis(100);
    let chain = MockChain::new(0);
    let mut manager = manager_of(&chain);

    let mut actions = Vec::new();
    for number in [50u64, 50, 52] {
        actions.extend(incoming(
            &mut manager,
            external_headers.get(&number).unwrap().clone(),
        ));
    }

    sync_from_one_peer(&mut manager);

    // block should be sync with only one sync request, and it is the first one that we seen
    assert_eq!(
        *chain.headers.lock().unwrap(),
        generate_headers_from_genesis(50)
    );

    // broadcast process should be triggered only once per hash.
    // even if we not sync it.
    assert_eq!(
        actions,
        vec![
            ChainAction::BroadcastBlockHeader {
                header: external_headers.get(&50).unwrap().clone()
            },
            ChainAction::GetClosestPeers,
            ChainAction::BroadcastBlockHeader {
                header: external_headers.get(&52).unwrap().clone()
            },
        ]
    );

    // Incoming block header that already in the chain should be ignored
    let actions = incoming(&mut manager, external_headers.get(&50).unwrap().clone());
    assert_eq!(actions, vec![]);

    let last = external_headers.last_key_value().unwrap().1.clone();
    let actions = incoming(&mut manager, last.clone());
    assert_eq!(
        actions,
        vec![
            ChainAction::BroadcastBlockHeader { header: last },
            ChainAction::GetClosestPeers,
        ]
    );
    sync_from_one_peer(&mut manager);

    // block should be synced with external headers now
    assert_eq!(*chain.headers.lock().unwrap(), external_headers);
}

#[test]
fn test_handle_get_headers_request() {
    let chain = MockChain::new(100);
    let manager = manager_of(&chain);

    let headers = manager
        .handle_get_block_headers_request(HeadersRequest {
            limit: 50,
            start_block: 3,
        })
        .unwrap();

    // only check on number since we heavily rely on block number not hash or other field.
    let target_headers = get_header_in_interval(3, 52);

    assert_eq!(headers.len(), 50);
    assert_eq!(headers, target_headers);

    // headers request limit exceed chain tip
    let headers = manager
        .handle_get_block_headers_request(HeadersRequest {
            limit: 1000,
            start_block: 1,
        })
        .unwrap();

    // get what we have
    assert_eq!(headers.len(), 100);
    assert_eq!(headers, get_header_in_interval(1, 100));

    // headers request start block exceed chain tip
    let headers = manager
        .handle_get_block_headers_request(HeadersRequest {
            limit: 100,
            start_block: 101,
        })
        .unwrap();
    // should get empty result
    assert_eq!(headers.len(), 0);
}

#[test]
fn a_peer_is_answered_on_its_channel() {
    let chain = MockChain::new(5);
    let mut manager = manager_of(&chain);
    let request = HeadersRequest {
        limit: 2,
        start_block: 4,
    };
    let actions = on_event(
        &mut manager,
        ChainNetworkEvent::GetBlockHeaders {
            channel: 42,
            request,
        },
    );
    assert_eq!(
        actions,
        vec![ChainAction::Respond(GetBlockHeadersResponse {
            headers: get_header_in_interval(4, 5),
            channel: 42,
        })]
    );
}

#[test]
fn the_next_header_extends_the_tip_and_is_broadcast() {
    let chain = MockChain::new(3);
    let mut manager = manager_of(&chain);
    let next = generate_headers_from_genesis(4).get(&4).unwrap().clone();
    let actions = incoming(&mut manager, next.clone());
    assert_eq!(
        actions,
        vec![ChainAction::BroadcastBlockHeader { header: next }]
    );
    assert_eq!(chain.tip().unwrap().number, 4);
    assert!(!manager.pending_sync_request);
}

#[test]
fn an_invalid_header_is_ignored() {
    let chain = MockChain::new(3);
    let mut manager = manager_of(&chain);
    let header = Header {
        number: 4,
        parent_hash: "another".to_string(),
        ..Header::default()
    };
    assert_eq!(incoming(&mut manager, header), vec![]);
    assert_eq!(*chain.headers.lock().unwrap(), generate_headers_from_genesis(3));
}

#[test]
fn incoming_transactions_go_into_the_pool_and_are_broadcast() {
    let chain = MockChain::new(0);
    let mut manager = manager_of(&chain);
    let transactions: Vec<Transaction> = (0..3).map(|_| PoolTx::tx_rng()).collect();
    let actions = on_event(
        &mut manager,
        ChainNetworkEvent::IncomingTransactions {
            transactions: transactions.clone(),
        },
    );
    assert_eq!(
        actions,
        vec![ChainAction::BroadcastTransactions {
            transactions: transactions.clone()
        }]
    );
    let mut expected = transactions;
    expected.sort_by(|a, b| a.hash.cmp(&b.hash));
    assert_eq!(manager.pool.get_all(), expected);
}

#[test]
fn a_sync_stops_at_the_last_valid_header() {
    let chain = MockChain::new(0);
    let mut manager = manager_of(&chain);
    incoming(&mut manager, get_header_in_interval(9, 9).pop().unwrap());
    manager.on_closest_peers(Ok(vec![1u64])).unwrap();
    let mut headers = get_header_in_interval(1, 9);
    headers[5].parent_hash = "another".to_string();
    assert_eq!(manager.on_sync_result(Ok(headers)), Ok(5));
    assert_eq!(chain.tip().unwrap().number, 5);
    assert!(!manager.pending_sync_request);
}

#[test]
fn a_failed_sync_lets_the_next_header_start_another() {
    let chain = MockChain::new(0);
    let mut manager = manager_of(&chain);
    let header = get_header_in_interval(9, 9).pop().unwrap();
    incoming(&mut manager, header.clone());
    let syncs = manager.on_closest_peers(Ok(vec![1u64, 2])).unwrap();
    assert_eq!(syncs.len(), 2);
    assert_eq!(*syncs[1].peer_id(), 2);

    // one of two has failed: the other one still runs
    let failed = Err(SyncHeaderError::RequestError(RequestError::Timeout));
    assert_eq!(manager.on_sync_result(failed), Ok(0));
    assert_eq!(incoming(&mut manager, header.clone()), vec![]);

    assert_eq!(
        manager.on_sync_result(Err(SyncHeaderError::EmptyResponse)),
        Ok(0)
    );
    assert_eq!(
        incoming(&mut manager, header),
        vec![ChainAction::GetClosestPeers]
    );
}

#[test]
fn no_header_starts_a_sync_while_one_is_in_flight() {
    let chain = MockChain::new(0);
    let mut manager = manager_of(&chain);
    let headers = get_header_in_interval(1, 20);
    incoming(&mut manager, headers[8].clone());
    let mut syncs = manager.on_closest_peers(Ok(vec![1u64, 2])).unwrap();
    assert_eq!(manager.syncs_in_flight, 2);

    // one peer has delivered: the other one's sync is still in flight
    assert_eq!(manager.on_sync_result(run_sync(syncs.pop().unwrap())), Ok(9));
    assert_eq!(manager.syncs_in_flight, 1);
    let second = headers[14].clone();
    assert_eq!(
        incoming(&mut manager, second.clone()),
        vec![ChainAction::BroadcastBlockHeader {
            header: second.clone()
        }]
    );

    // its late headers are known, and then the next header may start a sync
    assert_eq!(manager.on_sync_result(run_sync(syncs.pop().unwrap())), Ok(9));
    assert_eq!(
        incoming(&mut manager, second),
        vec![ChainAction::GetClosestPeers]
    );
    let third = headers[19].clone();
    assert_eq!(
        incoming(&mut manager, third.clone()),
        vec![ChainAction::BroadcastBlockHeader { header: third }]
    );
    assert_eq!(sync_from_one_peer(&mut manager), 6);
    assert_eq!(chain.tip().unwrap().number, 15);
    assert!(!manager.pending_sync_request);
}

#[test]
fn no_peers_let_the_next_header_ask_again() {
    let chain = MockChain::new(0);
    let mut manager = manager_of(&chain);
    let header = get_header_in_interval(9, 9).pop().unwrap();
    incoming(&mut manager, header.clone());
    let syncs = manager.on_closest_peers(Ok(Vec::<u64>::new())).unwrap();
    assert_eq!(syncs.len(), 0);
    assert_eq!(
        incoming(&mut manager, header.clone()),
        vec![ChainAction::GetClosestPeers]
    );
    let syncs = manager
        .on_closest_peers(Err::<Vec<u64>, RequestError>(RequestError::Timeout))
        .unwrap();
    assert_eq!(syncs.len(), 0);
    assert_eq!(
        incoming(&mut manager, header),
        vec![ChainAction::GetClosestPeers]
    );
}

#[test]
fn a_failure_of_the_database_is_handed_back() {
    let gone = || Error::DatabaseError("gone".to_string());
    let chain = MockChain::new(2);
    let mut manager = manager_of(&chain);
    let header = get_header_in_interval(3, 3).pop().unwrap();
    let ahead = get_header_in_interval(9, 9).pop().unwrap();
    incoming(&mut manager, ahead.clone());

    // the closest peers are there, but not the tip
    manager.chain.broken = true;
    let res = manager.on_closest_peers(Ok(vec![1u64]));
    assert_eq!(res.err(), Some(gone()));
    assert!(manager.closest_peers_request_for_sync.is_none());
    assert!(manager.pending_sync_request);

    // a failed sync changes nothing
    let mut manager = manager_of(&chain);
    incoming(&mut manager, ahead);
    assert_eq!(manager.on_closest_peers(Ok(vec![1u64])).unwrap().len(), 1);
    manager.chain.broken = true;
    assert_eq!(
        manager.on_sync_result(Ok(vec![header.clone()])),
        Err(gone())
    );
    assert!(manager.pending_sync_request);
    assert_eq!(chain.tip().unwrap().number, 2);

    let res = manager.on_event(ChainNetworkEvent::<u32>::IncomingNewBlockHeader { header });
    assert_eq!(res, Err(gone()));
    let request = HeadersRequest {
        limit: 1,
        start_block: 0,
    };
    assert!(manager.handle_get_block_headers_request(request).is_err());
}

#[test]
fn nothing_happens_out_of_nowhere() {
    let chain = MockChain::new(2);
    let mut manager = manager_of(&chain);
    for _ in 0..10 {
        let step = manager.poll(Ready::<u32, u64>::Nothing).unwrap();
        assert_eq!(step.actions, vec![]);
        assert_eq!(step.syncs.len(), 0);
        assert_eq!(step.synced, 0);
    }
    assert_eq!(chain.tip().unwrap().number, 2);
    assert!(chain.added.lock().unwrap().is_empty());

    // nor do transactions, requests, or headers that are known start a sync
    let events = vec![
        ChainNetworkEvent::IncomingTransactions {
            transactions: vec![PoolTx::tx_rng()],
        },
        ChainNetworkEvent::GetBlockHeaders {
            channel: 5u32,
            request: HeadersRequest {
                limit: 10,
                start_block: 1,
            },
        },
        ChainNetworkEvent::IncomingNewBlockHeader {
            header: get_header_in_interval(2, 2).pop().unwrap(),
        },
    ];
    for event in events {
        let step = manager.poll(Ready::<u32, u64>::Event { event }).unwrap();
        assert!(!step.actions.contains(&ChainAction::GetClosestPeers));
        assert_eq!(step.syncs.len(), 0);
    }
    assert!(!manager.pending_sync_request);
}

#[test]
fn a_header_ahead_leads_to_a_sync() {
    let chain = MockChain::new(0);
    let mut manager = manager_of(&chain);
    let header = get_header_in_interval(9, 9).pop().unwrap();
    let event = ChainNetworkEvent::IncomingNewBlockHeader {
        header: header.clone(),
    };
    let step = manager.poll(Ready::<u32, u64>::Event { event }).unwrap();
    assert_eq!(
        step.actions,
        vec![
            ChainAction::BroadcastBlockHeader { header },
            ChainAction::GetClosestPeers,
        ]
    );
    let outcome = Err(RequestError::Timeout);
    let step = manager
        .poll(Ready::<u32, u64>::Broadcast { outcome })
        .unwrap();
    assert_eq!(step.actions, vec![]);

    let outcome = Ok(vec![7u64]);
    let mut step = manager
        .poll(Ready::<u32, u64>::ClosestPeers { outcome })
        .unwrap();
    assert_eq!(step.syncs.len(), 1);
    let output = run_sync(step.syncs.pop().unwrap());
    let step = manager.poll(Ready::<u32, u64>::Sync { output }).unwrap();
    assert_eq!(step.synced, 9);
    assert_eq!(chain.tip().unwrap().number, 9);
    assert!(!manager.pending_sync_request);
}

#[test]
fn the_outcome_of_a_broadcast_is_told() {
    let mut manager = manager_of(&MockChain::new(0));
    for number in 1..3 {
        incoming(&mut manager, get_header_in_interval(number, number).pop().unwrap());
    }
    assert_eq!(manager.on_broadcast_result(Ok(())), None);
    assert_eq!(
        manager.on_broadcast_result(Err(RequestError::Timeout)),
        Some(RequestError::Timeout)
    );
}

#[test]
fn headers_are_served_by_the_numbers_they_have() {
    let header = |number, hash: &str| Header {
        number,
        hash: hash.to_string(),
        ..Header::default()
    };
    let chain = Chain::open(
        vec![
            (1, encode_header(&header(4, "a"))),
            (2, encode_header(&header(2, "b"))),
            (5, encode_header(&header(u64::MAX, "c"))),
        ],
        vec![],
        vec![],
    );
    let manager = ChainNetworkManager::new(chain, PoolTx::new(), ());
    let served = |start_block, limit| {
        let request = HeadersRequest { limit, start_block };
        manager.handle_get_block_headers_request(request).unwrap()
    };
    assert_eq!(served(1, 10), vec![header(4, "a"), header(u64::MAX, "c")]);
    assert_eq!(served(1, 1), vec![header(4, "a")]);
    assert_eq!(served(2, 10), vec![header(2, "b")]);
    assert_eq!(served(3, 10), vec![]);
}

#[test]
fn an_empty_later_batch_keeps_the_headers_before_it() {
    for latest_first in [false, true] {
        let chain = MockChain::new(0);
        let mut manager = manager_of(&chain);
        let header = Header {
            number: 2000,
            hash: "far".to_string(),
            ..Header::default()
        };
        incoming(&mut manager, header.clone());
        let mut sync = manager
            .on_closest_peers(Ok(vec![7u64]))
            .unwrap()
            .pop()
            .unwrap();
        let mut requests = vec![];
        while let SyncStep::Request { index, request } = sync.poll() {
            requests.push((index, request));
        }
        assert_eq!(requests.len(), 2);
        if latest_first {
            requests.reverse();
        }
        for (index, request) in requests {
            let response = if request.start_block == 1 {
                get_header_in_interval(1, 1000)
            } else {
                vec![]
            };
            sync.on_response(index, Ok(response));
        }
        let output = match sync.poll() {
            SyncStep::Done { output } => output,
            _ => panic!("the sync goes on"),
        };
        assert_eq!(manager.on_sync_result(output), Ok(1000));
        assert_eq!(chain.tip().unwrap().number, 1000);

        // a later header restarts the sync
        assert_eq!(
            incoming(&mut manager, header),
            vec![ChainAction::GetClosestPeers]
        );
    }
}

#[test]
fn a_hash_is_broadcast_once() {
    let headers = generate_headers_from_genesis(2);
    let chain = MockChain::new(0);
    let mut manager = manager_of(&chain);
    let second = headers.get(&2).unwrap().clone();
    assert_eq!(
        incoming(&mut manager, second.clone()),
        vec![
            ChainAction::BroadcastBlockHeader {
                header: second.clone()
            },
            ChainAction::GetClosestPeers,
        ]
    );
    let first = headers.get(&1).unwrap().clone();
    assert_eq!(
        incoming(&mut manager, first.clone()),
        vec![ChainAction::BroadcastBlockHeader { header: first }]
    );
    // it extends the tip now, and was broadcast before
    assert_eq!(incoming(&mut manager, second.clone()), vec![]);
    assert_eq!(chain.tip().unwrap(), second);
}

#[test]
fn a_second_header_with_the_first_number_starts_nothing() {
    let mut manager = ChainNetworkManager::new(Chain::new(), PoolTx::new(), ());
    let actions = manager
        .on_event(ChainNetworkEvent::<u32>::IncomingNewBlockHeader {
            header: Header::default(),
        })
        .unwrap();
    assert_eq!(actions, vec![]);
    assert!(!manager.pending_sync_request);
}
