use std::collections::{HashSet, VecDeque};

use simb::blocktree::{BlockTree, Chain, MineBlockResult};
use simb::client::{choose_db_path, seeds_to_dial, ClientBuilder, DEFAULT_LISTENING_ADDR};
use simb::interface::{Header, Transaction};
use simb::net::chain::{ChainAction, ChainNetworkManager};
use simb::net::network::{NetworkAction, NetworkEvent, NetworkManager};
use simb::net::{ChainNetworkEvent, NetworkProviderMessage, Wire};
use simb::pool::PoolTx;
use simb::tasks::sync_header::{SyncHeader, SyncHeaderOutput, SyncStep};

struct InMemory {}

impl Wire for InMemory {
    type Peer = usize;
    type Addr = ();
    type Channel = ();
    type PeersReply = ();
    type HeadersReply = ();
    type AddrsReply = ();
    type UnitReply = ();
}

struct Node {
    manager: ChainNetworkManager<Chain, ()>,
    network: NetworkManager<InMemory>,
    neighbours: Vec<usize>,
    seen: HashSet<Vec<u8>>,
}

/// Nodes that hand their messages to each other. As in a gossip network, a node passes on a message
/// that it has not seen.
struct Network {
    nodes: Vec<Node>,
    messages: VecDeque<(usize, String, Vec<u8>)>,
}

impl Network {
    fn spawn_nodes(num: usize) -> Self {
        let nodes = (0..num)
            .map(|_| Node {
                manager: ChainNetworkManager::new(Chain::new(), PoolTx::new(), ()),
                network: NetworkManager::new(),
                neighbours: vec![],
                seen: HashSet::new(),
            })
            .collect();
        Network {
            nodes,
            messages: VecDeque::new(),
        }
    }

    fn dial(&mut self, from: usize, to: usize) {
        self.nodes[from].neighbours.push(to);
        self.nodes[to].neighbours.push(from);
    }

    fn tip(&self, node: usize) -> Header {
        self.nodes[node].manager.chain.tip().unwrap()
    }

    fn command(&mut self, node: usize, command: NetworkProviderMessage<InMemory>) {
        match self.nodes[node].network.handle_command(command) {
            NetworkAction::Publish { topic, data, .. } => self.publish(node, topic, data),
            _ => panic!("not published"),
        }
    }

    fn publish(&mut self, node: usize, topic: String, data: Vec<u8>) {
        if self.nodes[node].seen.insert(data.clone()) {
            for neighbour in self.nodes[node].neighbours.clone() {
                self.messages
                    .push_back((neighbour, topic.clone(), data.clone()));
            }
        }
    }

    fn mining(&mut self, node: usize) {
        match self.nodes[node].manager.chain.mine_block().unwrap() {
            MineBlockResult::Mined(header) => {
                self.command(
                    node,
                    NetworkProviderMessage::BroadcastBlockHeader { header, tx: () },
                );
            }
            MineBlockResult::BlockFallingBehind => panic!("the block is behind"),
        }
    }

    fn add_external_transaction(&mut self, node: usize, tx: Transaction) {
        let (_, transactions) = self.nodes[node]
            .manager
            .pool
            .add_transactions_and_broadcast(vec![tx]);
        self.command(
            node,
            NetworkProviderMessage::BroadcastTransactions {
                transactions,
                tx: (),
            },
        );
    }

    fn event(&mut self, node: usize, event: ChainNetworkEvent<()>) {
        for action in self.nodes[node].manager.on_event(event).unwrap() {
            match action {
                ChainAction::BroadcastBlockHeader { header } => self.command(
                    node,
                    NetworkProviderMessage::BroadcastBlockHeader { header, tx: () },
                ),
                ChainAction::BroadcastTransactions { transactions } => self.command(
                    node,
                    NetworkProviderMessage::BroadcastTransactions {
                        transactions,
                        tx: (),
                    },
                ),
                ChainAction::GetClosestPeers => {
                    let peers = self.nodes[node].neighbours.clone();
                    let mut syncs = self.nodes[node]
                        .manager
                        .on_closest_peers(Ok(peers))
                        .unwrap();
                    while let Some(sync) = syncs.pop() {
                        let output = self.run_sync(sync);
                        self.nodes[node]
                            .manager
                            .on_sync_result(output)
                            .unwrap();
                    }
                }
                ChainAction::Respond(_) => panic!("nobody asked"),
            }
        }
    }

    fn run_sync(&self, mut sync: SyncHeader<(), usize>) -> SyncHeaderOutput {
        let mut waiting = vec![];
        loop {
            match sync.poll() {
                SyncStep::Request { index, request } => waiting.push((index, request)),
                SyncStep::Done { output } => return output,
                SyncStep::Wait => {
                    let (index, request) = waiting.pop().unwrap();
                    let headers = self.nodes[*sync.peer_id()]
                        .manager
                        .handle_get_block_headers_request(request)
                        .unwrap();
                    sync.on_response(index, Ok(headers));
                }
            }
        }
    }

    /// Delivers messages until there are none.
    fn settle(&mut self) {
        while let Some((node, topic, data)) = self.messages.pop_front() {
            if self.nodes[node].seen.contains(&data) {
                continue;
            }
            self.publish(node, topic.clone(), data.clone());
            let event = NetworkEvent::Gossip { topic, data };
            for action in self.nodes[node].network.handle_event(event).unwrap() {
                match action {
                    NetworkAction::Delegate(event) => self.event(node, event),
                    _ => panic!("not delegated"),
                }
            }
        }
    }
}

#[test]
fn test_two_node_sync() {
    let mut nodes = Network::spawn_nodes(2);
    nodes.dial(0, 1);
    nodes.mining(0);
    nodes.settle();
    assert_eq!(nodes.tip(0).number, 1);
    let head1 = nodes.tip(0);
    let head2 = nodes.tip(1);
    assert!(head1 == head2);
}

#[test]
fn test_line_connected_sync() {
    let num = 10;
    let mut nodes = Network::spawn_nodes(num);

    // node0 -> node1 -> node2 -> node3 -> node4 -> node5 -> node6 -> node7 -> node8 -> node9
    for i in 0..num - 1 {
        nodes.dial(i, i + 1);
    }

    for _ in 0..10 {
        // currently we need to have one node mining since we have no consensus to select best chain
        nodes.mining(0);
        nodes.settle();
    }

    let first = nodes.tip(0);
    assert_eq!(first.number, 10);
    let expected = vec![first.clone(); num];
    let tips: Vec<Header> = (0..num).map(|node| nodes.tip(node)).collect();
    assert_eq!(tips, expected);
}

#[test]
fn test_unconnected_group_sync() {
    let num = 10;
    let mut nodes = Network::spawn_nodes(num);

    // node0 -> node1 -> node2 -> node3 -> node4
    for i in 0..4 {
        nodes.dial(i, i + 1);
    }

    // node5 -> node6 -> node7 -> node8 -> node9
    for i in 5..num - 1 {
        nodes.dial(i, i + 1);
    }

    for _ in 0..10 {
        // currently we need to have one node mining since we have no consensus to select best chain
        nodes.mining(4);
        nodes.mining(7);
    }
    nodes.settle();

    let first_group = nodes.tip(4);
    let second_group = nodes.tip(7);
    assert_ne!(first_group, second_group);

    let mut expected = vec![first_group.clone(); 5];
    expected.extend(vec![second_group.clone(); 5]);
    let tips: Vec<Header> = (0..num).map(|node| nodes.tip(node)).collect();
    assert_eq!(tips, expected);
}

#[test]
fn test_two_node_sync_transaction() {
    let mut nodes = Network::spawn_nodes(2);
    nodes.dial(0, 1);

    let tx = PoolTx::tx_rng();
    nodes.add_external_transaction(0, tx);
    nodes.settle();

    let expected = nodes.nodes[0].manager.pool.get_all();
    assert_eq!(expected.len(), 1);
    assert_eq!(nodes.nodes[1].manager.pool.get_all(), expected);
}

#[test]
fn a_node_that_joins_late_catches_up() {
    let mut nodes = Network::spawn_nodes(2);
    for _ in 0..30 {
        nodes.mining(0);
    }
    nodes.dial(0, 1);
    nodes.mining(0);
    nodes.settle();
    assert_eq!(nodes.tip(1).number, 31);
    assert_eq!(nodes.tip(1), nodes.tip(0));
    for number in 0..32 {
        assert_eq!(
            nodes.nodes[1].manager.chain.get_header_by_block_number(number),
            nodes.nodes[0].manager.chain.get_header_by_block_number(number)
        );
    }
}

#[test]
fn a_mined_header_that_comes_back_is_ignored() {
    let mut nodes = Network::spawn_nodes(1);
    nodes.mining(0);
    let header = nodes.tip(0);
    let actions = nodes.nodes[0]
        .manager
        .on_event(ChainNetworkEvent::<()>::IncomingNewBlockHeader {
            header: header.clone(),
        })
        .unwrap();
    assert_eq!(actions, vec![]);
    assert_eq!(nodes.tip(0), header);
}

#[test]
fn the_settings_of_a_node() {
    let builder: ClientBuilder<u8, &str> = ClientBuilder::new(1);
    assert_eq!(builder.db_path, "./db");
    assert_eq!(builder.auto_mine_interval, None);
    assert!(!builder.enabled_mdns);
    assert_eq!(DEFAULT_LISTENING_ADDR, "/ip4/0.0.0.0/tcp/0");
    assert_eq!(builder.addrs_to_listen_on("any"), vec!["any"]);

    let builder = ClientBuilder::new(1)
        .with_db_path("p".to_string())
        .with_auto_mine_interval(Some(3))
        .with_listening_addrs(vec!["x", "y"])
        .with_keypair(2)
        .with_mdns(true);
    assert_eq!(builder.db_path, "p");
    assert_eq!(builder.auto_mine_interval, Some(3));
    assert_eq!(builder.keypair, 2);
    assert!(builder.enabled_mdns);
    assert_eq!(builder.addrs_to_listen_on("any"), vec!["x", "y"]);
}

#[test]
fn seeds_are_dialed_up_to_one_without_a_peer() {
    assert_eq!(
        seeds_to_dial(vec![(Some(1), "a"), (Some(2), "b")]),
        (vec![(1, "a"), (2, "b")], true)
    );
    assert_eq!(
        seeds_to_dial(vec![(Some(1), "a"), (None, "b"), (Some(3), "c")]),
        (vec![(1, "a")], false)
    );
    assert_eq!(seeds_to_dial(Vec::<(Option<u8>, u8)>::new()), (vec![], true));
}

#[test]
fn the_path_of_the_database() {
    assert_eq!(choose_db_path(Some("p".to_string()), Some(3)), "p");
    assert_eq!(choose_db_path(None, Some(255)), "./db-255.redb");
    assert_eq!(choose_db_path(None, Some(0)), "./db-0.redb");
    assert_eq!(choose_db_path(None, None), "./db.redb");
}
