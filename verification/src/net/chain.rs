//! What the node does with headers, transactions and requests that come from the network.

use vstd::prelude::*;
use vstd::hash_map::StringHashMap;

use crate::blocktree::{
    has_parent_in, law_accepted_header_follows_its_parent, law_adding_again_changes_nothing,
    law_mined_block_extends_the_tip, law_order_is_kept, mined_on, AddedBlockResult, BlockTree,
    ChainView, Error,
};
use crate::interface::{
    header_views, transaction_views, Header, HeaderView, HeadersRequest, RequestError,
    RequestResponse, Transaction, TransactionView,
};
use crate::net::{event_view, ChainNetworkEvent, EventView, GetBlockHeadersResponse};
use crate::pool::{law_added_hashes_are_in_the_pool, pool_with, PoolTx};
use crate::tasks::sync_header::{
    asked_before, joined, law_done_means_all_was_asked_for, lemma_asked_before, SyncHeader,
    SyncHeaderBuilder, SyncHeaderError, SyncHeaderOutput, SyncView,
};

verus! {

/// What gives a component access to the network.
pub trait Provider {

}

/// What the manager wants done on the network.
#[derive(Debug, PartialEq)]
pub enum ChainAction<C> {
    /// Broadcast a block header.
    BroadcastBlockHeader { header: Header },
    /// Broadcast transactions.
    BroadcastTransactions { transactions: Vec<Transaction> },
    /// Ask for the closest peers.
    GetClosestPeers,
    /// Answer a peer.
    Respond(GetBlockHeadersResponse<C>),
}

/// The mathematical content of a [`ChainAction`].
pub enum ActionView<C> {
    BroadcastHeader(HeaderView),
    BroadcastTransactions(Seq<TransactionView>),
    GetClosestPeers,
    Respond(Seq<HeaderView>, C),
}

/// The content of an action.
pub open spec fn action_view<C>(action: ChainAction<C>) -> ActionView<C> {
    match action {
        ChainAction::BroadcastBlockHeader { header } => ActionView::BroadcastHeader(header@),
        ChainAction::BroadcastTransactions { transactions } => ActionView::BroadcastTransactions(
            transaction_views(transactions@),
        ),
        ChainAction::GetClosestPeers => ActionView::GetClosestPeers,
        ChainAction::Respond(response) => ActionView::Respond(
            header_views(response.headers@),
            response.channel,
        ),
    }
}

/// The contents of actions.
pub open spec fn action_views<C>(actions: Seq<ChainAction<C>>) -> Seq<ActionView<C>> {
    actions.map_values(|action: ChainAction<C>| action_view(action))
}

/// What the manager knows of the sync: the header that closest peers are asked for, whether a sync
/// is under way, and the hashes of all headers that were broadcast.
pub struct SyncState {
    pub closest_peers_for: Option<HeaderView>,
    pub pending: bool,
    pub broadcasted: Set<Seq<char>>,
}

/// What a manager knows of a sync before anything came in.
pub open spec fn fresh_state() -> SyncState {
    SyncState { closest_peers_for: None, pending: false, broadcasted: Set::empty() }
}

/// The syncs and the broadcasts that a manager has asked for and whose outcome is not there.
pub struct InFlight {
    pub syncs: nat,
    pub broadcasts: nat,
}

/// How many of the actions are broadcasts.
pub open spec fn broadcast_count<C>(actions: Seq<ActionView<C>>) -> nat
    decreases actions.len(),
{
    if actions.len() == 0 {
        0
    } else {
        broadcast_count(actions.drop_last()) + match actions.last() {
            ActionView::BroadcastHeader(_) => 1nat,
            ActionView::BroadcastTransactions(_) => 1nat,
            _ => 0nat,
        }
    }
}

/// What a manager was waiting for. `Nothing` is there if nothing is.
#[allow(inconsistent_fields)]
pub enum Ready<C, Peer> {
    /// An event that the network delegates.
    Event { event: ChainNetworkEvent<C> },
    /// The closest peers that were asked for.
    ClosestPeers { outcome: RequestResponse<Vec<Peer>> },
    /// The outcome of a sync.
    Sync { output: SyncHeaderOutput },
    /// The outcome of a broadcast.
    Broadcast { outcome: RequestResponse<()> },
    /// Nothing yet.
    Nothing,
}

/// What a manager wants done next, and how many headers it has just synced.
pub struct ChainStep<C, P, Peer> {
    pub actions: Vec<ChainAction<C>>,
    pub syncs: Vec<SyncHeader<P, Peer>>,
    pub synced: usize,
}

/// What adding a header to the chain gives, if the database does not fail.
pub open spec fn adding(tables: ChainView, genesis: HeaderView, header: HeaderView) -> Result<
    AddedBlockResult,
    Error,
> {
    match tables.link_error(genesis, header) {
        None => Ok(tables.added_as(header)),
        Some(e) => Err(e),
    }
}

/// The tables after trying to add a header, if the database does not fail.
pub open spec fn tables_after(
    tables: ChainView,
    genesis: HeaderView,
    header: HeaderView,
) -> ChainView {
    if tables.link_error(genesis, header) is None {
        tables.with(header)
    } else {
        tables
    }
}

/// Whether a header cannot be added because it is ahead of the chain: its parent is missing, and
/// its number is beyond that of the tip.
pub open spec fn is_ahead(
    header: HeaderView,
    outcome: Result<AddedBlockResult, Error>,
    tip_number: u64,
) -> bool {
    &&& outcome == Err::<AddedBlockResult, Error>(Error::BlockHeaderNotFound)
    &&& header.number > tip_number
}

impl SyncState {
    /// Whether a header that is ahead of the chain starts a sync: none is under way.
    pub open spec fn idle(self) -> bool {
        self.closest_peers_for is None && !self.pending
    }

    /// The state after a header came in, where `outcome` is that of adding it to the chain.
    pub open spec fn after_header(
        self,
        header: HeaderView,
        outcome: Result<AddedBlockResult, Error>,
        tip_number: u64,
    ) -> SyncState {
        if outcome == Ok::<AddedBlockResult, Error>(AddedBlockResult::ExtendTip) {
            SyncState { broadcasted: self.broadcasted.insert(header.hash), ..self }
        } else if is_ahead(header, outcome, tip_number) {
            SyncState {
                closest_peers_for: if self.idle() {
                    Some(header)
                } else {
                    self.closest_peers_for
                },
                pending: self.pending || self.idle(),
                broadcasted: self.broadcasted.insert(header.hash),
            }
        } else {
            self
        }
    }

    /// The broadcast of a header whose hash was not broadcast before.
    pub open spec fn broadcast<C>(self, header: HeaderView) -> Seq<ActionView<C>> {
        if self.broadcasted.contains(header.hash) {
            seq![]
        } else {
            seq![ActionView::BroadcastHeader(header)]
        }
    }

    /// What is done about a header that came in. One that extends the tip is broadcast, and so is
    /// one that is ahead of the chain, but no hash is broadcast twice. One that is ahead starts a
    /// sync if none is under way.
    pub open spec fn header_actions<C>(
        self,
        header: HeaderView,
        outcome: Result<AddedBlockResult, Error>,
        tip_number: u64,
    ) -> Seq<ActionView<C>> {
        if outcome == Ok::<AddedBlockResult, Error>(AddedBlockResult::ExtendTip) {
            self.broadcast(header)
        } else if is_ahead(header, outcome, tip_number) {
            self.broadcast(header) + (if self.idle() {
                seq![ActionView::<C>::GetClosestPeers]
            } else {
                seq![]
            })
        } else {
            seq![]
        }
    }

    /// The state while `in_flight` syncs run: if none does, the next header that is ahead of the
    /// chain starts another one.
    pub open spec fn released(self, in_flight: nat) -> SyncState {
        SyncState { pending: self.pending && in_flight > 0, ..self }
    }
}

/// The headers that a chain serves from a number on: each follows the one before it by the number
/// that this one has, up to a limit or to a number that has no header.
pub open spec fn served_from(tables: ChainView, number: u64, limit: nat) -> Seq<HeaderView>
    decreases limit,
{
    if limit == 0 || !tables.headers.contains_key(number) {
        seq![]
    } else {
        let header = tables.headers[number];
        seq![header] + if header.number == u64::MAX {
            seq![]
        } else {
            served_from(tables, (header.number + 1) as u64, (limit - 1) as nat)
        }
    }
}

/// The headers that a chain serves: from the start block on, as many as the limit allows and the
/// chain has.
pub open spec fn served(tables: ChainView, request: HeadersRequest) -> Seq<HeaderView> {
    served_from(tables, request.start_block, request.limit as nat)
}

/// How many headers of a sync are added, one after the other: all before the first one that may not
/// be added.
pub open spec fn synced_count(
    tables: ChainView,
    genesis: HeaderView,
    headers: Seq<HeaderView>,
) -> nat
    decreases headers.len(),
{
    if headers.len() == 0 || tables.link_error(genesis, headers[0]) is Some {
        0
    } else {
        1 + synced_count(tables.with(headers[0]), genesis, headers.drop_first())
    }
}

/// Whether a database holds besides its former contents the first of some headers, at most `limit`
/// of them.
pub open spec fn is_prefix_added(
    before: ChainView,
    headers: Seq<HeaderView>,
    limit: nat,
    after: ChainView,
) -> bool {
    exists|count: int|
        0 <= count <= limit && count <= headers.len() && after == before.with_all(
            #[trigger] headers.take(count),
        )
}

/// Handles what the network delegates: headers and transactions that come in, and peers that ask
/// for headers. `B` is the chain and `P` the way to the network.
pub struct ChainNetworkManager<B: BlockTree, P> {
    pub chain: B,
    pub pool: PoolTx,
    pub provider: P,
    /// The header that closest peers are asked for.
    pub closest_peers_request_for_sync: Option<Header>,
    /// Prevents redundant sync requests.
    pub pending_sync_request: bool,
    /// Prevents redundant broadcasts of headers.
    pub broadcasted_headers: StringHashMap<()>,
    /// How many syncs run. They are all for one header.
    pub syncs_in_flight: usize,
    /// How many broadcasts are not over.
    pub broadcasts_in_flight: Ghost<nat>,
}

impl<B: BlockTree, P: Clone> ChainNetworkManager<B, P> {
    /// What the manager knows of the sync.
    pub open spec fn sync_state(&self) -> SyncState {
        SyncState {
            closest_peers_for: match self.closest_peers_request_for_sync {
                Some(header) => Some(header@),
                None => None,
            },
            pending: self.pending_sync_request,
            broadcasted: self.broadcasted_headers@.dom(),
        }
    }

    /// What has been asked for.
    pub open spec fn in_flight(&self) -> InFlight {
        InFlight {
            syncs: self.syncs_in_flight as nat,
            broadcasts: self.broadcasts_in_flight@,
        }
    }

    /// What every operation keeps. While syncs run, or closest peers are asked for, a sync is under
    /// way, and it is never both.
    pub open spec fn inv(&self) -> bool {
        &&& self.chain.wf()
        &&& self.pool.inv()
        &&& self.syncs_in_flight > 0 ==> self.pending_sync_request
        &&& self.closest_peers_request_for_sync is Some ==> self.pending_sync_request
            && self.syncs_in_flight == 0
    }

    /// Whether handling `event` may give this result and leave the manager as `after`.
    pub open spec fn event_handled<C>(
        self,
        event: ChainNetworkEvent<C>,
        res: Result<Vec<ChainAction<C>>, Error>,
        after: Self,
    ) -> bool {
        &&& after.inv()
        &&& self.chain.available() ==> after.chain.available() && res is Ok
        &&& after.provider == self.provider
        &&& res is Err ==> res->Err_0 is DatabaseError
        &&& after.in_flight() == InFlight {
            broadcasts: self.in_flight().broadcasts + match res {
                Ok(actions) => broadcast_count(action_views(actions@)),
                Err(_) => 0,
            },
            ..self.in_flight()
        }
        &&& match event_view(event) {
            EventView::Header(header) => {
                let tables = self.chain.tables();
                let outcome = adding(tables, B::genesis_view(), header);
                &&& after.pool == self.pool
                &&& match res {
                    Ok(actions) => {
                        &&& after.chain.tables() == tables_after(tables, B::genesis_view(), header)
                        &&& after.sync_state() == self.sync_state().after_header(
                            header,
                            outcome,
                            tables.tip().number,
                        )
                        &&& action_views(actions@) == self.sync_state().header_actions::<C>(
                            header,
                            outcome,
                            tables.tip().number,
                        )
                    },
                    Err(_) => {
                        &&& after.sync_state() == self.sync_state()
                        &&& after.chain.tables() == tables || after.chain.tables() == tables_after(
                            tables,
                            B::genesis_view(),
                            header,
                        )
                    },
                }
            },
            EventView::Transactions(txs) => {
                &&& res matches Ok(actions) && action_views(actions@)
                    == seq![ActionView::<C>::BroadcastTransactions(txs)]
                &&& after.chain == self.chain
                &&& after.sync_state() == self.sync_state()
                &&& after.pool.view() == pool_with(self.pool.view(), txs)
            },
            EventView::GetHeaders(channel, request) => {
                &&& after.chain == self.chain
                &&& after.pool == self.pool
                &&& after.sync_state() == self.sync_state()
                &&& res matches Ok(actions) ==> action_views(actions@)
                    == seq![ActionView::Respond(served(self.chain.tables(), request), channel)]
            },
        }
    }

    /// Whether taking the closest peers may give this result and leave the manager as `after`.
    pub open spec fn peers_handled<Peer>(
        self,
        outcome: RequestResponse<Vec<Peer>>,
        res: Result<Vec<SyncHeader<P, Peer>>, Error>,
        after: Self,
    ) -> bool {
        let peers = match outcome {
            Ok(peers) => peers@,
            Err(_) => seq![],
        };
        let asked = SyncState { closest_peers_for: None, ..self.sync_state() };
        &&& after.inv()
        &&& after.chain == self.chain
        &&& after.pool == self.pool
        &&& after.provider == self.provider
        &&& match res {
            Ok(syncs) => {
                &&& after.sync_state() == asked.released(peers.len())
                &&& after.in_flight() == InFlight { syncs: peers.len(), ..self.in_flight() }
                &&& syncs@.len() == peers.len()
                &&& forall|i: int|
                    0 <= i < syncs@.len() ==> {
                        &&& (#[trigger] syncs@[i]).inv()
                        &&& cloned(self.provider, syncs@[i].source().0)
                        &&& syncs@[i].source().1 == peers[i]
                        &&& syncs@[i].view() == sync_from(
                            self.chain.tables().tip().number,
                            self.sync_state().closest_peers_for->0.number,
                        )
                    }
            },
            Err(e) => {
                &&& e is DatabaseError && !self.chain.available() && outcome is Ok
                &&& after.sync_state() == asked
                &&& after.in_flight() == self.in_flight()
            },
        }
    }

    /// Whether taking the outcome of a sync may give this result and leave the manager as `after`.
    pub open spec fn sync_handled(
        self,
        output: SyncHeaderOutput,
        res: Result<usize, Error>,
        after: Self,
    ) -> bool {
        let tables = self.chain.tables();
        &&& after.inv()
        &&& self.chain.available() ==> after.chain.available()
        &&& after.pool == self.pool
        &&& after.provider == self.provider
        &&& after.in_flight() == InFlight {
            syncs: (self.in_flight().syncs - 1) as nat,
            ..self.in_flight()
        }
        &&& match output {
            Ok(headers) => {
                let views = header_views(headers@);
                let valid = synced_count(tables, B::genesis_view(), views);
                match res {
                    Ok(count) => {
                        &&& count == valid
                        &&& count <= headers@.len()
                        &&& after.chain.tables() == tables.with_all(views.take(count as int))
                        &&& after.sync_state() == self.sync_state().released(
                            after.in_flight().syncs,
                        )
                    },
                    Err(e) => {
                        &&& e is DatabaseError && !self.chain.available()
                        &&& after.sync_state() == self.sync_state()
                        &&& is_prefix_added(tables, views, valid, after.chain.tables())
                    },
                }
            },
            Err(_) => {
                &&& res matches Ok(count) && count == 0
                &&& after.chain == self.chain
                &&& after.sync_state() == self.sync_state().released(after.in_flight().syncs)
            },
        }
    }

    /// Whether something may be ready: events may come at any time, and what was asked for until
    /// its outcome is there.
    pub open spec fn can_be_ready<C, Peer>(self, ready: Ready<C, Peer>) -> bool {
        match ready {
            Ready::Event { .. } => true,
            Ready::ClosestPeers { .. } => self.sync_state().closest_peers_for is Some,
            Ready::Sync { .. } => self.in_flight().syncs > 0,
            Ready::Broadcast { .. } => self.in_flight().broadcasts > 0,
            Ready::Nothing => true,
        }
    }

    /// A manager that has not seen anything.
    pub fn new(chain: B, pool: PoolTx, provider: P) -> (res: Self)
        requires
            chain.wf(),
            pool.inv(),
        ensures
            res.inv(),
            res.chain == chain,
            res.pool == pool,
            res.provider == provider,
            res.sync_state() == fresh_state(),
            res.in_flight() == (InFlight { syncs: 0, broadcasts: 0 }),
    {
        let broadcasted_headers: StringHashMap<()> = StringHashMap::new();
        assert(broadcasted_headers@.dom() =~= Set::empty());
        ChainNetworkManager {
            chain,
            pool,
            provider,
            closest_peers_request_for_sync: None,
            pending_sync_request: false,
            broadcasted_headers,
            syncs_in_flight: 0,
            broadcasts_in_flight: Ghost(0),
        }
    }

    /// Decides what to do about a header that came in, where `outcome` is that of adding it to the
    /// chain, whose tip has the number `tip_number`. A failure of the database is fatal and handed
    /// back.
    pub fn on_header<C>(
        &mut self,
        header: Header,
        outcome: Result<AddedBlockResult, Error>,
        tip_number: u64,
    ) -> (res: Result<Vec<ChainAction<C>>, Error>)
        ensures
            final(self).chain == old(self).chain,
            final(self).pool == old(self).pool,
            final(self).provider == old(self).provider,
            final(self).sync_state() == old(self).sync_state().after_header(
                header@,
                outcome,
                tip_number,
            ),
            match res {
                Ok(actions) => {
                    &&& !(outcome is Err && outcome->Err_0 is DatabaseError)
                    &&& action_views(actions@) == old(self).sync_state().header_actions::<C>(
                        header@,
                        outcome,
                        tip_number,
                    )
                },
                Err(e) => e is DatabaseError && outcome == Err::<AddedBlockResult, Error>(e),
            },
            final(self).in_flight() == (InFlight {
                broadcasts: old(self).in_flight().broadcasts + match res {
                    Ok(actions) => broadcast_count(action_views(actions@)),
                    Err(_) => 0,
                },
                ..old(self).in_flight()
            }),
    {
        let mut actions: Vec<ChainAction<C>> = Vec::new();
        assert(action_views(actions@) =~= seq![]);
        match outcome {
            Ok(AddedBlockResult::ExtendTip) => {
                self.broadcast_once(&header, &mut actions);
            },
            Ok(AddedBlockResult::AlreadyInChain) => {},
            // The parent is missing, so the header cannot be validated. If it is ahead of the chain,
            // a sync is required.
            Err(Error::BlockHeaderNotFound) => {
                if header.number > tip_number {
                    self.broadcast_once(&header, &mut actions);
                    if self.closest_peers_request_for_sync.is_none() && !self.pending_sync_request {
                        let ghost before = actions@;
                        actions.push(ChainAction::GetClosestPeers);
                        assert(action_views(actions@) =~= action_views(before)
                            + seq![ActionView::<C>::GetClosestPeers]);
                        self.pending_sync_request = true;
                        self.closest_peers_request_for_sync = Some(header);
                    } else {
                        assert(action_views(actions@) =~= action_views(actions@) + seq![]);
                    }
                }
            },
            Err(Error::Invalid) => {},
            Err(e) => {
                return Err(e);
            },
        }
        self.note_broadcasts(&actions);
        Ok(actions)
    }

    /// Notes the broadcasts among actions as in flight.
    fn note_broadcasts<C>(&mut self, actions: &Vec<ChainAction<C>>)
        ensures
            *final(self) == (ChainNetworkManager {
                broadcasts_in_flight: final(self).broadcasts_in_flight,
                ..*old(self)
            }),
            final(self).in_flight() == (InFlight {
                broadcasts: old(self).in_flight().broadcasts + broadcast_count(
                    action_views(actions@),
                ),
                ..old(self).in_flight()
            }),
    {
        proof {
            self.broadcasts_in_flight@ = self.broadcasts_in_flight@ + broadcast_count(
                action_views(actions@),
            );
        }
    }

    /// Broadcasts a header and notes its hash, unless that hash was broadcast before.
    fn broadcast_once<C>(&mut self, header: &Header, actions: &mut Vec<ChainAction<C>>)
        requires
            old(actions)@.len() == 0,
        ensures
            final(self).chain == old(self).chain,
            final(self).pool == old(self).pool,
            final(self).provider == old(self).provider,
            final(self).in_flight() == old(self).in_flight(),
            final(self).sync_state() == (SyncState {
                broadcasted: old(self).sync_state().broadcasted.insert(header@.hash),
                ..old(self).sync_state()
            }),
            action_views(final(actions)@) == old(self).sync_state().broadcast::<C>(header@),
    {
        if !self.broadcasted_headers.contains_key(header.hash.as_str()) {
            actions.push(ChainAction::BroadcastBlockHeader { header: header.clone() });
            self.broadcasted_headers.insert(header.hash.clone(), ());
        }
        assert(self.sync_state().broadcasted =~= old(self).sync_state().broadcasted.insert(
            header@.hash,
        ));
        assert(action_views(actions@) =~= old(self).sync_state().broadcast::<C>(header@));
    }

    /// Handles what the network delegates. A header is added to the chain, or starts a sync if it
    /// is ahead of the chain; transactions go into the pool and are all broadcast; a peer that asks
    /// for headers is answered. A failure of the database is fatal and handed back.
    pub fn on_event<C>(&mut self, event: ChainNetworkEvent<C>) -> (res: Result<
        Vec<ChainAction<C>>,
        Error,
    >)
        requires
            old(self).inv(),
        ensures
            old(self).event_handled(event, res, *final(self)),
    {
        match event {
            ChainNetworkEvent::IncomingNewBlockHeader { header } => {
                let outcome = self.chain.try_add_block_header(header.clone());
                // Only a header whose parent is missing is held against the tip.
                let mut tip_number: u64 = 0;
                if let Err(Error::BlockHeaderNotFound) = &outcome {
                    match self.chain.tip() {
                        Ok(tip) => {
                            proof {
                                self.chain.lemma_wf();
                            }
                            tip_number = tip.number;
                        },
                        Err(e) => return Err(e),
                    }
                }
                self.on_header(header, outcome, tip_number)
            },
            ChainNetworkEvent::IncomingTransactions { transactions } => {
                let copies = transactions.clone();
                assert(transaction_views(copies@) =~= transaction_views(transactions@));
                self.pool.add_transactions(copies);
                let mut actions: Vec<ChainAction<C>> = Vec::new();
                actions.push(ChainAction::BroadcastTransactions { transactions });
                assert(action_views(actions@) =~= seq![
                    ActionView::<C>::BroadcastTransactions(transaction_views(transactions@)),
                ]);
                self.note_broadcasts(&actions);
                Ok(actions)
            },
            ChainNetworkEvent::GetBlockHeaders { channel, request } => {
                let headers = match self.handle_get_block_headers_request(request) {
                    Ok(headers) => headers,
                    Err(e) => return Err(e),
                };
                let mut actions: Vec<ChainAction<C>> = Vec::new();
                actions.push(ChainAction::Respond(GetBlockHeadersResponse { headers, channel }));
                assert(action_views(actions@) =~= seq![
                    ActionView::Respond(header_views(headers@), channel),
                ]);
                self.note_broadcasts(&actions);
                Ok(actions)
            },
        }
    }

    /// The headers that a peer asks for, from the earliest to the latest, as far as the chain has
    /// them. A failure of the database is fatal and handed back.
    pub fn handle_get_block_headers_request(&self, request: HeadersRequest) -> (res: Result<
        Vec<Header>,
        Error,
    >)
        requires
            self.inv(),
        ensures
            match res {
                Ok(headers) => header_views(headers@) == served(self.chain.tables(), request),
                Err(e) => e is DatabaseError && !self.chain.available(),
            },
    {
        let ghost tables = self.chain.tables();
        let mut headers: Vec<Header> = Vec::new();
        let mut left: u64 = request.limit;
        let mut number: u64 = request.start_block;
        assert(header_views(headers@) + served(tables, request) =~= served(tables, request));
        while left > 0
            invariant
                self.inv(),
                tables == self.chain.tables(),
                served(tables, request) == header_views(headers@) + served_from(
                    tables,
                    number,
                    left as nat,
                ),
            decreases left,
        {
            match self.chain.get_header_by_block_number(number) {
                Ok(header) => {
                    let ghost before = headers@;
                    let next: u64 = header.number;
                    headers.push(header);
                    assert(header_views(headers@) =~= header_views(before).push(header@));
                    if next == u64::MAX {
                        assert(served(tables, request) =~= header_views(headers@));
                        return Ok(headers);
                    }
                    number = next + 1;
                    left = left - 1;
                    assert(served(tables, request) =~= header_views(headers@) + served_from(
                        tables,
                        number,
                        left as nat,
                    ));
                },
                // The limit may exceed the tip: the peer gets what there is.
                Err(Error::BlockHeaderNotFound) => {
                    assert(served(tables, request) =~= header_views(headers@));
                    return Ok(headers);
                },
                Err(e) => return Err(e),
            }
        }
        assert(served(tables, request) =~= header_views(headers@));
        Ok(headers)
    }

    /// A sync for each peer, from the tip of the chain to a header.
    pub fn send_sync_requests<Peer: Copy>(&self, header: Header, peers: Vec<Peer>) -> (res: Result<
        Vec<SyncHeader<P, Peer>>,
        Error,
    >)
        requires
            self.inv(),
        ensures
            match res {
                Ok(syncs) => {
                    &&& syncs@.len() == peers@.len()
                    &&& forall|i: int|
                        0 <= i < syncs@.len() ==> {
                            &&& (#[trigger] syncs@[i]).inv()
                            &&& cloned(self.provider, syncs@[i].source().0)
                            &&& syncs@[i].source().1 == peers@[i]
                            &&& syncs@[i].view() == sync_from(
                                self.chain.tables().tip().number,
                                header.number,
                            )
                        }
                },
                Err(e) => e is DatabaseError && !self.chain.available(),
            },
    {
        let local_header = match self.chain.tip() {
            Ok(local_header) => local_header,
            Err(e) => return Err(e),
        };
        let mut syncs: Vec<SyncHeader<P, Peer>> = Vec::new();
        let mut i: usize = 0;
        while i < peers.len()
            invariant
                i <= peers@.len(),
                syncs@.len() == i,
                local_header@ == self.chain.tables().tip(),
                forall|k: int|
                    0 <= k < syncs@.len() ==> {
                        &&& (#[trigger] syncs@[k]).inv()
                        &&& cloned(self.provider, syncs@[k].source().0)
                        &&& syncs@[k].source().1 == peers@[k]
                        &&& syncs@[k].view() == sync_from(
                            self.chain.tables().tip().number,
                            header.number,
                        )
                    },
            decreases peers@.len() - i,
        {
            let builder: SyncHeaderBuilder<P, Peer> = SyncHeaderBuilder::default();
            let sync = builder.provider(self.provider.clone()).local_head_block(
                local_header.number,
            ).target_head(header.number).peer_id(peers[i]).build();
            syncs.push(sync);
            i = i + 1;
        }
        Ok(syncs)
    }

    /// Takes the closest peers that were asked for, or the failure to get them, and returns the
    /// syncs to run. If there is none, the next header that is ahead may start another sync. A
    /// failure of the database is fatal and handed back.
    pub fn on_closest_peers<Peer: Copy>(&mut self, outcome: RequestResponse<Vec<Peer>>) -> (res:
        Result<Vec<SyncHeader<P, Peer>>, Error>)
        requires
            old(self).inv(),
            old(self).closest_peers_request_for_sync is Some,
        ensures
            old(self).peers_handled(outcome, res, *final(self)),
    {
        let header = self.closest_peers_request_for_sync.take().unwrap();
        let peers = match outcome {
            Ok(peers) => peers,
            Err(_) => Vec::new(),
        };
        if peers.len() == 0 {
            self.pending_sync_request = false;
            return Ok(Vec::new());
        }
        match self.send_sync_requests(header, peers) {
            Ok(syncs) => {
                self.syncs_in_flight = syncs.len();
                Ok(syncs)
            },
            Err(e) => Err(e),
        }
    }

    /// Takes the outcome of a sync and returns how many of its headers were added to the chain: all
    /// before the first one that may not be. After the last of the syncs that run, the next header
    /// that is ahead may start another one. A failure of the database is fatal and handed back.
    pub fn on_sync_result(&mut self, output: SyncHeaderOutput) -> (res: Result<usize, Error>)
        requires
            old(self).inv(),
            old(self).syncs_in_flight > 0,
        ensures
            old(self).sync_handled(output, res, *final(self)),
    {
        self.syncs_in_flight = self.syncs_in_flight - 1;
        match output {
            Ok(headers) => {
                let ghost tables = self.chain.tables();
                let ghost views = header_views(headers@);
                let ghost before = *self;
                let mut count: usize = 0;
                let mut going: bool = true;
                assert(views.take(0) =~= seq![]);
                assert(views.skip(0) =~= views);
                while going && count < headers.len()
                    invariant
                        count <= headers@.len(),
                        output == Ok::<Vec<Header>, SyncHeaderError>(headers),
                        tables == old(self).chain.tables(),
                        before.chain == old(self).chain,
                        before.pool == old(self).pool,
                        before.provider == old(self).provider,
                        before.sync_state() == old(self).sync_state(),
                        before.in_flight() == (InFlight {
                            syncs: (old(self).in_flight().syncs - 1) as nat,
                            ..old(self).in_flight()
                        }),
                        self.in_flight() == before.in_flight(),
                        views == header_views(headers@),
                        self.inv(),
                        before.chain.available() ==> self.chain.available(),
                        self.pool == before.pool,
                        self.provider == before.provider,
                        self.sync_state() == before.sync_state(),
                        self.chain.tables() == tables.with_all(views.take(count as int)),
                        synced_count(tables, B::genesis_view(), views) == count + synced_count(
                            self.chain.tables(),
                            B::genesis_view(),
                            views.skip(count as int),
                        ),
                        !going ==> synced_count(
                            self.chain.tables(),
                            B::genesis_view(),
                            views.skip(count as int),
                        ) == 0,
                    decreases headers@.len() - count + if going {
                        1int
                    } else {
                        0int
                    },
                {
                    assert(views.skip(count as int)[0] == headers@[count as int]@);
                    assert(views.take(count + 1).drop_last() =~= views.take(count as int));
                    assert(views.skip(count as int).drop_first() =~= views.skip(count + 1));
                    let ghost rest = synced_count(
                        self.chain.tables(),
                        B::genesis_view(),
                        views.skip(count as int),
                    );
                    match self.chain.try_add_block_header(headers[count].clone()) {
                        Ok(_) => {
                            count = count + 1;
                        },
                        Err(Error::DatabaseError(e)) => {
                            proof {
                                let stored: int = if self.chain.tables() == tables.with_all(
                                    views.take(count as int),
                                ) {
                                    count as int
                                } else {
                                    count + 1
                                };
                                assert(stored <= count + rest);
                                assert(self.chain.tables() == tables.with_all(views.take(stored)));
                                assert(is_prefix_added(
                                    tables,
                                    views,
                                    (count + rest) as nat,
                                    self.chain.tables(),
                                ));
                            }
                            return Err(Error::DatabaseError(e));
                        },
                        Err(_) => {
                            going = false;
                        },
                    }
                }
                if self.syncs_in_flight == 0 {
                    self.pending_sync_request = false;
                }
                Ok(count)
            },
            Err(_) => {
                if self.syncs_in_flight == 0 {
                    self.pending_sync_request = false;
                }
                Ok(0)
            },
        }
    }

    /// Takes the outcome of a broadcast and returns why it failed, if it did. Nothing else comes of
    /// it.
    pub fn on_broadcast_result(&mut self, outcome: RequestResponse<()>) -> (res: Option<
        RequestError,
    >)
        requires
            old(self).in_flight().broadcasts > 0,
        ensures
            *final(self) == (ChainNetworkManager {
                broadcasts_in_flight: final(self).broadcasts_in_flight,
                ..*old(self)
            }),
            final(self).in_flight() == (InFlight {
                broadcasts: (old(self).in_flight().broadcasts - 1) as nat,
                ..old(self).in_flight()
            }),
            res == match outcome {
                Ok(_) => None,
                Err(e) => Some(e),
            },
    {
        proof {
            self.broadcasts_in_flight@ = (self.broadcasts_in_flight@ - 1) as nat;
        }
        match outcome {
            Ok(_) => None,
            Err(e) => Some(e),
        }
    }

    /// Takes what is ready and returns what is to be done. If nothing is ready, nothing is done. A
    /// failure of the database is fatal and handed back.
    pub fn poll<C, Peer: Copy>(&mut self, ready: Ready<C, Peer>) -> (res: Result<
        ChainStep<C, P, Peer>,
        Error,
    >)
        requires
            old(self).inv(),
            old(self).can_be_ready(ready),
        ensures
            match ready {
                Ready::Event { event } => {
                    &&& old(self).event_handled(
                        event,
                        match res {
                            Ok(step) => Ok(step.actions),
                            Err(e) => Err(e),
                        },
                        *final(self),
                    )
                    &&& res matches Ok(step) ==> step.syncs@.len() == 0 && step.synced == 0
                },
                Ready::ClosestPeers { outcome } => {
                    &&& old(self).peers_handled(
                        outcome,
                        match res {
                            Ok(step) => Ok(step.syncs),
                            Err(e) => Err(e),
                        },
                        *final(self),
                    )
                    &&& res matches Ok(step) ==> step.actions@.len() == 0 && step.synced == 0
                },
                Ready::Sync { output } => {
                    &&& old(self).sync_handled(
                        output,
                        match res {
                            Ok(step) => Ok(step.synced),
                            Err(e) => Err(e),
                        },
                        *final(self),
                    )
                    &&& res matches Ok(step) ==> step.actions@.len() == 0 && step.syncs@.len() == 0
                },
                Ready::Broadcast { outcome } => {
                    &&& *final(self) == (ChainNetworkManager {
                        broadcasts_in_flight: final(self).broadcasts_in_flight,
                        ..*old(self)
                    })
                    &&& final(self).in_flight() == (InFlight {
                        broadcasts: (old(self).in_flight().broadcasts - 1) as nat,
                        ..old(self).in_flight()
                    })
                    &&& res matches Ok(step) && step.actions@.len() == 0 && step.syncs@.len() == 0
                        && step.synced == 0
                },
                Ready::Nothing => {
                    &&& *final(self) == *old(self)
                    &&& res matches Ok(step) && step.actions@.len() == 0 && step.syncs@.len() == 0
                        && step.synced == 0
                },
            },
    {
        match ready {
            Ready::Event { event } => match self.on_event(event) {
                Ok(actions) => Ok(ChainStep { actions, syncs: Vec::new(), synced: 0 }),
                Err(e) => Err(e),
            },
            Ready::ClosestPeers { outcome } => match self.on_closest_peers(outcome) {
                Ok(syncs) => Ok(ChainStep { actions: Vec::new(), syncs, synced: 0 }),
                Err(e) => Err(e),
            },
            Ready::Sync { output } => match self.on_sync_result(output) {
                Ok(synced) => Ok(ChainStep { actions: Vec::new(), syncs: Vec::new(), synced }),
                Err(e) => Err(e),
            },
            Ready::Broadcast { outcome } => {
                self.on_broadcast_result(outcome);
                Ok(ChainStep { actions: Vec::new(), syncs: Vec::new(), synced: 0 })
            },
            Ready::Nothing => Ok(
                ChainStep { actions: Vec::new(), syncs: Vec::new(), synced: 0 },
            ),
        }
    }
}

/// A sync that has not sent a request, from a local head to a target head.
pub open spec fn sync_from(local_head: u64, target_head: u64) -> SyncView {
    SyncView {
        first_head: local_head,
        local_head,
        target_head,
        request_limit: 1000,
        max_concurrent_limit: 10,
        requests: seq![],
        batches: seq![],
        failure: None,
    }
}

/// Nothing happens out of nowhere: to a manager that has not seen anything, nothing comes but an
/// event.
pub proof fn law_nothing_happens_before_an_event<B: BlockTree, P: Clone, C, Peer>(
    manager: ChainNetworkManager<B, P>,
    ready: Ready<C, Peer>,
)
    requires
        manager.sync_state() == fresh_state(),
        manager.in_flight() == (InFlight { syncs: 0, broadcasts: 0 }),
        manager.can_be_ready(ready),
    ensures
        ready is Event || ready is Nothing,
{
}

/// No sync starts out of nowhere: closest peers are asked for only when a header comes in that is
/// ahead of the chain, and no sync is under way. No event starts a sync itself. To a manager that
/// has not seen anything, every such header leads to one.
pub proof fn law_no_sync_starts_out_of_nowhere<B: BlockTree, P: Clone, C>(
    manager: ChainNetworkManager<B, P>,
    event: ChainNetworkEvent<C>,
    actions: Vec<ChainAction<C>>,
    after: ChainNetworkManager<B, P>,
)
    requires
        manager.event_handled(event, Ok(actions), after),
    ensures
        action_views(actions@).contains(ActionView::GetClosestPeers) ==> {
            &&& manager.sync_state().idle()
            &&& event_view(event) matches EventView::Header(header) && is_ahead(
                header,
                adding(manager.chain.tables(), B::genesis_view(), header),
                manager.chain.tables().tip().number,
            )
        },
        after.in_flight().syncs == manager.in_flight().syncs,
        after.sync_state().closest_peers_for != manager.sync_state().closest_peers_for
            ==> action_views(actions@).contains(ActionView::GetClosestPeers),
        manager.sync_state() == fresh_state() ==> (event_view(event) matches EventView::Header(
            header,
        ) ==> (is_ahead(
            header,
            adding(manager.chain.tables(), B::genesis_view(), header),
            manager.chain.tables().tip().number,
        ) ==> action_views(actions@).contains(ActionView::GetClosestPeers))),
{
    let views = action_views(actions@);
    if let EventView::Header(header) = event_view(event) {
        let outcome = adding(manager.chain.tables(), B::genesis_view(), header);
        if manager.sync_state().idle() && is_ahead(
            header,
            outcome,
            manager.chain.tables().tip().number,
        ) {
            assert(views[views.len() - 1] == ActionView::<C>::GetClosestPeers);
        }
    }
}

/// Only headers ahead of the chain are broadcast: one that extends the tip, or one further ahead.
/// Nor does any other header start a sync.
pub proof fn law_only_headers_ahead_are_broadcast<C>(
    state: SyncState,
    tables: ChainView,
    genesis: HeaderView,
    header: HeaderView,
)
    requires
        tables.valid(genesis),
        state.header_actions::<C>(
            header,
            adding(tables, genesis, header),
            tables.tip().number,
        ).len() > 0,
    ensures
        header.number > tables.tip().number,
{
}

/// A header that is in the chain already changes nothing of the sync and starts nothing.
pub proof fn law_known_headers_are_ignored<C>(
    state: SyncState,
    tables: ChainView,
    genesis: HeaderView,
    header: HeaderView,
)
    requires
        tables.valid(genesis),
        tables.at_number(header.number) == Some(header),
        tables.link_error(genesis, header) is None,
    ensures
        state.header_actions::<C>(header, adding(tables, genesis, header), tables.tip().number)
            == Seq::<ActionView<C>>::empty(),
        state.after_header(header, adding(tables, genesis, header), tables.tip().number) == state,
        tables.with(header).headers == tables.headers,
{
    assert(tables.with(header).headers =~= tables.headers);
}

/// A block that this node mined is not broadcast again when its header comes back: it is in the
/// chain by then.
pub proof fn law_own_blocks_are_not_broadcast_again<C>(
    state: SyncState,
    tables: ChainView,
    genesis: HeaderView,
    header: HeaderView,
)
    requires
        tables.valid(genesis),
        tables.tip().number == tables.last,
        tables.tip().number < u64::MAX,
        mined_on(tables.tip(), header),
    ensures
        state.header_actions::<C>(
            header,
            adding(tables.with(header), genesis, header),
            tables.with(header).tip().number,
        ) == Seq::<ActionView<C>>::empty(),
{
    law_mined_block_extends_the_tip(tables, genesis, header);
    law_adding_again_changes_nothing(tables, genesis, header);
}

/// A header that is invalid is neither added nor broadcast, and starts nothing.
pub proof fn law_invalid_headers_are_ignored<C>(
    state: SyncState,
    tables: ChainView,
    genesis: HeaderView,
    header: HeaderView,
)
    requires
        tables.link_error(genesis, header) == Some(Error::Invalid),
    ensures
        state.header_actions::<C>(header, adding(tables, genesis, header), tables.tip().number)
            == Seq::<ActionView<C>>::empty(),
        state.after_header(header, adding(tables, genesis, header), tables.tip().number) == state,
        tables_after(tables, genesis, header) == tables,
{
}

/// Every hash is broadcast at most once, whatever became of its headers: a broadcast is noted, what
/// is noted is never forgotten, and a hash that is noted is not broadcast.
pub proof fn law_hashes_are_broadcast_once<C>(
    state: SyncState,
    header: HeaderView,
    outcome: Result<AddedBlockResult, Error>,
    tip_number: u64,
    other: HeaderView,
    in_flight: nat,
)
    ensures
        state.header_actions::<C>(header, outcome, tip_number).contains(
            ActionView::BroadcastHeader(other),
        ) ==> {
            &&& other == header
            &&& !state.broadcasted.contains(header.hash)
            &&& state.after_header(header, outcome, tip_number).broadcasted.contains(header.hash)
        },
        state.broadcasted.subset_of(state.after_header(header, outcome, tip_number).broadcasted),
        state.released(in_flight).broadcasted == state.broadcasted,
{
}

/// There is one sync at a time: closest peers are asked for only if none are asked for already and
/// no sync is in flight, and then for the header that came in. While a sync is under way, no event
/// changes what it is for.
pub proof fn law_one_sync_at_a_time<B: BlockTree, P: Clone, C>(
    manager: ChainNetworkManager<B, P>,
    event: ChainNetworkEvent<C>,
    actions: Vec<ChainAction<C>>,
    after: ChainNetworkManager<B, P>,
)
    requires
        manager.inv(),
        manager.event_handled(event, Ok(actions), after),
    ensures
        action_views(actions@).contains(ActionView::GetClosestPeers) ==> {
            &&& manager.in_flight().syncs == 0
            &&& manager.sync_state().closest_peers_for is None
            &&& event_view(event) matches EventView::Header(header)
                && after.sync_state().closest_peers_for == Some(header)
        },
        manager.in_flight().syncs > 0 || manager.sync_state().closest_peers_for is Some ==> {
            &&& !action_views(actions@).contains(ActionView::GetClosestPeers)
            &&& after.sync_state().closest_peers_for == manager.sync_state().closest_peers_for
            &&& after.sync_state().pending
            &&& after.in_flight().syncs == manager.in_flight().syncs
        },
{
}

/// The syncs in flight are all for one header: closest peers come only while none is in flight.
/// Once the last of them is over, no sync is under way, unless the database failed.
pub proof fn law_syncs_in_flight_belong_together<B: BlockTree, P: Clone, Peer>(
    manager: ChainNetworkManager<B, P>,
    outcome: RequestResponse<Vec<Peer>>,
    output: SyncHeaderOutput,
    count: usize,
    after: ChainNetworkManager<B, P>,
)
    requires
        manager.inv(),
    ensures
        manager.can_be_ready(Ready::<(), Peer>::ClosestPeers { outcome })
            ==> manager.in_flight().syncs == 0 && !manager.can_be_ready(
            Ready::<(), Peer>::Sync { output },
        ),
        manager.can_be_ready(Ready::<(), Peer>::Sync { output }) && manager.sync_handled(
            output,
            Ok(count),
            after,
        ) ==> (after.sync_state().idle() <==> after.in_flight().syncs == 0),
{
}

/// A sync that ends without anything left in flight lets the next header that is ahead of the chain
/// start another one.
pub proof fn law_later_headers_restart_the_sync<C>(
    state: SyncState,
    header: HeaderView,
    outcome: Result<AddedBlockResult, Error>,
    tip_number: u64,
)
    requires
        state.closest_peers_for is None,
        is_ahead(header, outcome, tip_number),
    ensures
        state.released(0).header_actions::<C>(header, outcome, tip_number).contains(
            ActionView::GetClosestPeers,
        ),
{
    let actions = state.released(0).header_actions::<C>(header, outcome, tip_number);
    assert(actions[actions.len() - 1] == ActionView::<C>::GetClosestPeers);
}

/// In a chain that is ordered, the headers served have consecutive numbers; they end at the limit,
/// at a gap, or at the last number.
proof fn lemma_served(tables: ChainView, start: u64, limit: nat)
    requires
        tables.ordered(),
    ensures
        served_from(tables, start, limit).len() <= limit,
        start + served_from(tables, start, limit).len() <= u64::MAX + 1,
        forall|n: u64|
            start <= n < start + served_from(tables, start, limit).len()
                ==> #[trigger] tables.headers.contains_key(n) && served_from(
                tables,
                start,
                limit,
            )[n - start] == tables.headers[n],
        served_from(tables, start, limit).len() < limit ==> start + served_from(
            tables,
            start,
            limit,
        ).len() > u64::MAX || !tables.headers.contains_key(
            (start + served_from(tables, start, limit).len()) as u64,
        ),
    decreases limit,
{
    let headers = served_from(tables, start, limit);
    if limit > 0 && tables.headers.contains_key(start) && start < u64::MAX {
        let next = (start + 1) as u64;
        lemma_served(tables, next, (limit - 1) as nat);
        let rest = served_from(tables, next, (limit - 1) as nat);
        assert(headers == seq![tables.headers[start]] + rest);
        assert forall|n: u64| start <= n < start + headers.len() implies
            #[trigger] tables.headers.contains_key(n) && headers[n - start]
            == tables.headers[n] by {
            if n > start {
                assert(tables.headers.contains_key(n));
                assert(headers[n - start] == rest[n - next]);
            }
        }
    }
}

/// The headers that a chain serves, if it is ordered, are the ones that were asked for, from the
/// earliest to the latest, no more than the limit; they end early only where the chain does; and,
/// where the chain is linked, each is the parent of the next.
pub proof fn law_served_headers_can_be_validated(
    tables: ChainView,
    genesis: HeaderView,
    request: HeadersRequest,
)
    requires
        tables.valid(genesis),
        tables.ordered(),
    ensures
        served(tables, request).len() <= request.limit,
        forall|i: int|
            0 <= i < served(tables, request).len() ==> (#[trigger] served(
                tables,
                request,
            )[i]).number == request.start_block + i,
        tables.linked() ==> forall|i: int|
            0 < i < served(tables, request).len() ==> (#[trigger] served(
                tables,
                request,
            )[i]).parent_hash == served(tables, request)[i - 1].hash,
        tables.gapless() && served(tables, request).len() < request.limit ==> request.start_block
            + served(tables, request).len() > tables.tip().number,
{
    lemma_served(tables, request.start_block, request.limit as nat);
    let headers = served(tables, request);
    assert forall|i: int| 0 <= i < headers.len() implies (#[trigger] headers[i]).number
        == request.start_block + i by {
        assert(tables.headers.contains_key((request.start_block + i) as u64));
    }
    if tables.linked() {
        assert forall|i: int| 0 < i < headers.len() implies (#[trigger] headers[i]).parent_hash
            == headers[i - 1].hash by {
            let n = (request.start_block + i) as u64;
            assert(tables.headers.contains_key(n));
            assert(tables.headers.contains_key((n - 1) as u64));
        }
    }
}

/// A sync adds headers up to the last valid one: those that are added may be added, one after the
/// other, and the one after them may not.
pub proof fn law_sync_goes_up_to_the_last_valid_header(
    tables: ChainView,
    genesis: HeaderView,
    headers: Seq<HeaderView>,
)
    ensures
        synced_count(tables, genesis, headers) <= headers.len(),
        forall|i: int|
            #![trigger headers[i]]
            0 <= i < synced_count(tables, genesis, headers) ==> tables.with_all(
                headers.take(i),
            ).link_error(genesis, headers[i]) is None,
        synced_count(tables, genesis, headers) < headers.len() ==> {
            let count = synced_count(tables, genesis, headers) as int;
            tables.with_all(headers.take(count)).link_error(genesis, headers[count]) is Some
        },
    decreases headers.len(),
{
    if headers.len() > 0 {
        assert(headers.take(0) =~= seq![]);
        if tables.link_error(genesis, headers[0]) is None {
            let next = tables.with(headers[0]);
            let rest = headers.drop_first();
            law_sync_goes_up_to_the_last_valid_header(next, genesis, rest);
            assert forall|i: int|
                #![trigger headers[i]]
                0 <= i < synced_count(tables, genesis, headers) implies tables.with_all(
                headers.take(i),
            ).link_error(genesis, headers[i]) is None by {
                if i > 0 {
                    assert(rest[i - 1] == headers[i]);
                    assert(headers.take(i).drop_first() =~= rest.take(i - 1));
                    lemma_with_all_first(tables, headers.take(i));
                }
            }
            let count = synced_count(tables, genesis, headers) as int;
            if count < headers.len() {
                assert(rest[count - 1] == headers[count]);
                assert(headers.take(count).drop_first() =~= rest.take(count - 1));
                lemma_with_all_first(tables, headers.take(count));
            }
        }
    }
}

/// Adding headers can start with the first one.
proof fn lemma_with_all_first(tables: ChainView, headers: Seq<HeaderView>)
    requires
        headers.len() > 0,
    ensures
        tables.with_all(headers) == tables.with(headers[0]).with_all(headers.drop_first()),
    decreases headers.len(),
{
    if headers.len() == 1 {
        assert(tables.with_all(headers.drop_last()) == tables);
        assert(tables.with(headers[0]).with_all(headers.drop_first()) == tables.with(headers[0]));
    } else {
        lemma_with_all_first(tables, headers.drop_last());
        assert(headers.drop_last().drop_first() =~= headers.drop_first().drop_last());
    }
}

/// Whether headers continue a chain: they are numbered from the next number on, and each names the
/// hash of the one before as its parent.
pub open spec fn continues(tables: ChainView, headers: Seq<HeaderView>) -> bool {
    forall|i: int|
        0 <= i < headers.len() ==> {
            &&& (#[trigger] headers[i]).number == tables.last + 1 + i
            &&& headers[i].parent_hash == if i == 0 {
                tables.tip().hash
            } else {
                headers[i - 1].hash
            }
        }
}

/// A sync whose headers continue the chain adds all of them: each is then at its number, the
/// headers up to the former tip are as they were, and the last one is the tip.
pub proof fn law_sync_adds_a_continuation(
    tables: ChainView,
    genesis: HeaderView,
    headers: Seq<HeaderView>,
)
    requires
        tables.valid(genesis),
        tables.ordered(),
        continues(tables, headers),
    ensures
        synced_count(tables, genesis, headers) == headers.len(),
        tables.with_all(headers).last == tables.last + headers.len(),
        forall|i: int|
            0 <= i < headers.len() ==> tables.with_all(headers).at_number(
                (#[trigger] headers[i]).number,
            ) == Some(headers[i]),
        forall|n: u64|
            n <= tables.last ==> #[trigger] tables.with_all(headers).at_number(n)
                == tables.at_number(n),
    decreases headers.len(),
{
    if headers.len() > 0 {
        let next = tables.with(headers[0]);
        let rest = headers.drop_first();
        assert(headers[0].number == tables.last + 1);
        assert(tables.headers.contains_key((headers[0].number - 1) as u64));
        law_order_is_kept(tables, genesis, headers[0]);
        assert forall|i: int| 0 <= i < rest.len() implies {
            &&& (#[trigger] rest[i]).number == next.last + 1 + i
            &&& rest[i].parent_hash == if i == 0 {
                next.tip().hash
            } else {
                rest[i - 1].hash
            }
        } by {
            assert(rest[i] == headers[i + 1]);
            assert(headers[i + 1].parent_hash == headers[i].hash);
        }
        law_sync_adds_a_continuation(next, genesis, rest);
        lemma_with_all_first(tables, headers);
        let after = tables.with_all(headers);
        assert(after == next.with_all(rest));
        assert forall|i: int| 0 <= i < headers.len() implies after.at_number(
            (#[trigger] headers[i]).number,
        ) == Some(headers[i]) by {
            if i == 0 {
                assert(after.at_number(headers[0].number) == next.at_number(headers[0].number));
            } else {
                assert(rest[i - 1] == headers[i]);
            }
        }
        assert forall|n: u64| n <= tables.last implies #[trigger] after.at_number(n)
            == tables.at_number(n) by {
            assert(after.at_number(n) == next.at_number(n));
        }
    }
}

/// Whether a peer with these tables answered the first `count` requests of a sync.
pub open spec fn served_first(remote: ChainView, sync: SyncView, count: int) -> bool {
    &&& 0 <= count <= sync.batches.len()
    &&& forall|i: int|
        0 <= i < count ==> #[trigger] sync.batches[i] == Some(served(remote, sync.requests[i]))
}

/// Syncing catches up: a chain that is a part of the chain of a peer, and that asks the peer for
/// headers up to one that the peer has, gets and adds what the peer answers. Where all requests are
/// answered, the chains are then the same up to the target. Where a request fails, they are the
/// same up to the last number that was asked for before it.
pub proof fn law_sync_catches_up(
    local: ChainView,
    remote: ChainView,
    genesis: HeaderView,
    sync: SyncView,
)
    requires
        local.valid(genesis),
        remote.valid(genesis),
        local.ordered(),
        remote.ordered(),
        remote.linked(),
        remote.gapless(),
        local.last <= remote.last,
        forall|n: u64|
            n <= local.last ==> #[trigger] local.at_number(n) == remote.at_number(n),
        sync.valid(),
        sync.first_head == local.last,
        sync.first_head <= sync.target_head <= remote.last,
        served_first(remote, sync, sync.end()),
    ensures
        sync.failure is None && sync.local_head == sync.target_head ==> asked_before(
            sync.first_head,
            sync.requests,
            sync.end(),
        ) == sync.target_head,
        sync.output() matches Ok(headers) ==> {
            let reached = asked_before(sync.first_head, sync.requests, sync.end());
            &&& synced_count(local, genesis, headers) == headers.len()
            &&& local.with_all(headers).last == reached
            &&& forall|n: u64|
                n <= reached ==> #[trigger] local.with_all(headers).at_number(n)
                    == remote.at_number(n)
        },
{
    let end = sync.end();
    let reached = asked_before(sync.first_head, sync.requests, end);
    let headers = joined(sync.batches.take(end));
    lemma_joined_is_served(remote, sync, end);
    assert(continues(local, headers)) by {
        assert forall|i: int| 0 <= i < headers.len() implies {
            &&& (#[trigger] headers[i]).number == local.last + 1 + i
            &&& headers[i].parent_hash == if i == 0 {
                local.tip().hash
            } else {
                headers[i - 1].hash
            }
        } by {
            let n = (sync.first_head + 1 + i) as u64;
            let m = (n - 1) as u64;
            assert(headers[i] == remote.headers[n]);
            assert(remote.headers.contains_key(n));
            assert(remote.headers.contains_key(m));
            if i == 0 {
                assert(local.at_number(m) == remote.at_number(m));
            } else {
                assert(headers[i - 1] == remote.headers[m]);
            }
        }
    }
    law_sync_adds_a_continuation(local, genesis, headers);
    let after = local.with_all(headers);
    assert forall|n: u64| n <= reached implies #[trigger] after.at_number(n) == remote.at_number(
        n,
    ) by {
        if n > local.last {
            let i = n - local.last - 1;
            assert(headers[i] == remote.headers[(sync.first_head + 1 + i) as u64]);
            assert(headers[i].number == n);
            assert(remote.headers.contains_key(n));
        } else {
            assert(after.at_number(n) == local.at_number(n));
        }
    }
}

/// The answer of a peer to a request is all that was asked for, if the peer has it.
proof fn lemma_served_in_full(remote: ChainView, request: HeadersRequest)
    requires
        remote.ordered(),
        remote.gapless(),
        request.start_block + request.limit - 1 <= remote.last,
    ensures
        served(remote, request).len() == request.limit,
        forall|i: int|
            0 <= i < request.limit ==> #[trigger] served(remote, request)[i] == remote.headers[(
            request.start_block + i) as u64],
{
    lemma_served(remote, request.start_block, request.limit as nat);
    let headers = served(remote, request);
    if headers.len() < request.limit {
        assert(remote.headers.contains_key((request.start_block + headers.len()) as u64));
    }
    assert forall|i: int| 0 <= i < request.limit implies #[trigger] headers[i] == remote.headers[(
    request.start_block + i) as u64] by {
        assert(remote.headers.contains_key((request.start_block + i) as u64));
    }
}

/// The answers of a peer to the first requests are its headers after the first head.
#[verifier::spinoff_prover]
proof fn lemma_joined_is_served(remote: ChainView, sync: SyncView, k: int)
    requires
        remote.ordered(),
        remote.gapless(),
        sync.valid(),
        sync.first_head <= sync.target_head <= remote.last,
        served_first(remote, sync, k),
    ensures
        sync.first_head <= asked_before(sync.first_head, sync.requests, k) <= sync.target_head,
        joined(sync.batches.take(k)).len() == asked_before(sync.first_head, sync.requests, k)
            - sync.first_head,
        forall|i: int|
            0 <= i < joined(sync.batches.take(k)).len() ==> #[trigger] joined(
                sync.batches.take(k),
            )[i] == remote.headers[(sync.first_head + 1 + i) as u64],
    decreases k,
{
    lemma_asked_before(sync.first_head, sync.requests, k);
    if k == 0 {
        assert(sync.batches.take(0) =~= seq![]);
    } else {
        lemma_joined_is_served(remote, sync, k - 1);
        let request = sync.requests[k - 1];
        assert(request.start_block == asked_before(sync.first_head, sync.requests, k - 1) + 1);
        assert(sync.batches.take(k).drop_last() =~= sync.batches.take(k - 1));
        assert(sync.batches[k - 1] == Some(served(remote, request)));
        lemma_served_in_full(remote, request);
        let init = joined(sync.batches.take(k - 1));
        let last = served(remote, request);
        let all = joined(sync.batches.take(k));
        assert(all == init + last);
        assert forall|i: int| 0 <= i < all.len() implies #[trigger] all[i] == remote.headers[(
        sync.first_head + 1 + i) as u64] by {
            if i < init.len() {
                assert(init[i] == remote.headers[(sync.first_head + 1 + i) as u64]);
            } else {
                assert(last[i - init.len()] == remote.headers[(request.start_block + (i
                    - init.len())) as u64]);
            }
        }
    }
}

/// Whether an action broadcasts a header.
pub open spec fn broadcasts_header<C>(action: ChainAction<C>, header: HeaderView) -> bool {
    action matches ChainAction::BroadcastBlockHeader { header: sent } && sent@ == header
}

/// A header that comes in is added to the chain exactly if it is the genesis header or its parent
/// is in its place. It is broadcast exactly if its hash was not broadcast before and it extends the
/// tip, or is ahead of the tip with its parent missing. In the latter case, and in no other,
/// closest peers are asked for, if no sync is under way. Nothing else is done. Its hash is noted,
/// and no other one, exactly if it was broadcast or had been before.
pub proof fn law_header_that_comes_in<B: BlockTree, P: Clone, C>(
    manager: ChainNetworkManager<B, P>,
    header: Header,
    actions: Vec<ChainAction<C>>,
    after: ChainNetworkManager<B, P>,
    linked: bool,
    extends: bool,
    ahead: bool,
    asked: bool,
)
    requires
        manager.inv(),
        manager.event_handled(
            ChainNetworkEvent::IncomingNewBlockHeader { header },
            Ok(actions),
            after,
        ),
        linked == (header@ == B::genesis_view() || has_parent_in(
            manager.chain.tables().headers,
            header@,
        )),
        extends == (linked && after.chain.tables().headers[after.chain.tables().last].number
            > manager.chain.tables().headers[manager.chain.tables().last].number),
        ahead == (!linked && !(header.number > 0 && manager.chain.tables().headers.contains_key(
            (header.number - 1) as u64,
        )) && header.number > manager.chain.tables().headers[manager.chain.tables().last].number),
        asked == (ahead && manager.closest_peers_request_for_sync is None
            && !manager.pending_sync_request),
    ensures
        linked ==> {
            &&& after.chain.tables().headers == manager.chain.tables().headers.insert(
                header.number,
                header@,
            )
            &&& after.chain.tables().by_hash == manager.chain.tables().by_hash.insert(
                header.hash@,
                header@,
            )
        },
        !linked ==> after.chain.tables() == manager.chain.tables(),
        (extends || ahead) && !manager.broadcasted_headers@.contains_key(header.hash@)
            ==> actions@.len() > 0 && broadcasts_header(actions@[0], header@),
        asked ==> actions@.len() > 0 && actions@.last() is GetClosestPeers,
        actions@.len() == (if (extends || ahead) && !manager.broadcasted_headers@.contains_key(
            header.hash@,
        ) {
            1int
        } else {
            0int
        }) + (if asked {
            1int
        } else {
            0int
        }),
        after.closest_peers_request_for_sync is Some <==> asked
            || manager.closest_peers_request_for_sync is Some,
        after.closest_peers_request_for_sync matches Some(wanted) ==> wanted@ == if asked {
            header@
        } else {
            (manager.closest_peers_request_for_sync->0)@
        },
        after.pending_sync_request == (manager.pending_sync_request || asked),
        forall|hash: Seq<char>| #[trigger]
            after.broadcasted_headers@.dom().contains(hash)
                <==> manager.broadcasted_headers@.dom().contains(hash) || (extends || ahead) && hash
                == header.hash@,
        after.syncs_in_flight == manager.syncs_in_flight,
        after.broadcasts_in_flight@ == manager.broadcasts_in_flight@ + (if (extends || ahead)
            && !manager.broadcasted_headers@.contains_key(header.hash@) {
            1int
        } else {
            0int
        }),
        after.pool == manager.pool,
        after.provider == manager.provider,
{
    let tables = manager.chain.tables();
    let h = header@;
    law_accepted_header_follows_its_parent(
        tables,
        B::genesis_view(),
        h,
        adding(tables, B::genesis_view(), h),
        tables_after(tables, B::genesis_view(), h),
    );
    let views = action_views(actions@);
    assert(views.len() == actions@.len());
    assert forall|i: int| 0 <= i < actions@.len() implies views[i] == action_view(
        #[trigger] actions@[i],
    ) by {}
    reveal_with_fuel(broadcast_count, 3);
    let known = manager.sync_state().broadcasted;
    assert(known.contains(h.hash) == manager.broadcasted_headers@.contains_key(h.hash));
    assert(after.sync_state().broadcasted == after.broadcasted_headers@.dom());
    if views.len() > 0 {
        assert(views[0] == action_view(actions@[0]));
        assert(views.last() == action_view(actions@.last()));
        assert(views.drop_last() =~= views.take(views.len() - 1));
    }
    assert(after.closest_peers_request_for_sync is Some
        == after.sync_state().closest_peers_for is Some);
}

/// Transactions that come in are all broadcast, in their order, and nothing else is. The pool has
/// their hashes besides the ones that it had; the chain and the sync stay as they are.
pub proof fn law_transactions_that_come_in<B: BlockTree, P: Clone, C>(
    manager: ChainNetworkManager<B, P>,
    transactions: Vec<Transaction>,
    actions: Vec<ChainAction<C>>,
    after: ChainNetworkManager<B, P>,
    hash: Seq<char>,
)
    requires
        manager.event_handled(
            ChainNetworkEvent::IncomingTransactions { transactions },
            Ok(actions),
            after,
        ),
    ensures
        actions@.len() == 1,
        actions@[0] matches ChainAction::BroadcastTransactions { transactions: sent }
            && sent@.len() == transactions@.len() && forall|i: int|
            0 <= i < sent@.len() ==> (#[trigger] sent@[i])@ == transactions@[i]@,
        after.pool.view().contains_key(hash) <==> manager.pool.view().contains_key(hash) || exists|
            i: int,
        |
            0 <= i < transactions@.len() && (#[trigger] transactions@[i]).hash@ == hash,
        after.chain == manager.chain,
        after.closest_peers_request_for_sync is Some
            <==> manager.closest_peers_request_for_sync is Some,
        after.pending_sync_request == manager.pending_sync_request,
        after.syncs_in_flight == manager.syncs_in_flight,
        after.broadcasts_in_flight@ == manager.broadcasts_in_flight@ + 1,
{
    let txs = transaction_views(transactions@);
    let views = action_views(actions@);
    assert(views.len() == actions@.len());
    assert(views[0] == action_view(actions@[0]));
    if let ChainAction::BroadcastTransactions { transactions: sent } = actions@[0] {
        assert(transaction_views(sent@) == txs);
        assert(transaction_views(sent@).len() == sent@.len());
        assert forall|i: int| 0 <= i < sent@.len() implies (#[trigger] sent@[i])@
            == transactions@[i]@ by {
            assert(transaction_views(sent@)[i] == txs[i]);
        }
    }
    reveal_with_fuel(broadcast_count, 3);
    assert(views.drop_last() =~= seq![]);
    law_added_hashes_are_in_the_pool(manager.pool.view(), txs, hash);
    if exists|i: int| 0 <= i < txs.len() && (#[trigger] txs[i]).hash == hash {
        let i = choose|i: int| 0 <= i < txs.len() && (#[trigger] txs[i]).hash == hash;
        assert(transactions@[i].hash@ == hash);
    }
    if exists|i: int| 0 <= i < transactions@.len() && (#[trigger] transactions@[i]).hash@ == hash {
        let i = choose|i: int|
            0 <= i < transactions@.len() && (#[trigger] transactions@[i]).hash@ == hash;
        assert(txs[i].hash == hash);
    }
    assert(after.sync_state().closest_peers_for is Some
        == after.closest_peers_request_for_sync is Some);
}

/// Whether a header stands at the number after that of another one.
pub open spec fn stands_next(
    headers: Map<u64, HeaderView>,
    header: HeaderView,
    next: HeaderView,
) -> bool {
    header.number < u64::MAX && headers.contains_pair((header.number + 1) as u64, next)
}

/// The headers that are served are those that are stored: the first one stands at the number asked
/// for, and each of the others at the number after that of the one before. They end at the limit,
/// or where nothing is stored at the next number.
pub proof fn law_served_headers_are_those_stored(tables: ChainView, request: HeadersRequest)
    ensures
        ({
            let headers = served(tables, request);
            &&& headers.len() <= request.limit
            &&& headers.len() == 0 <==> request.limit == 0 || !tables.headers.contains_key(
                request.start_block,
            )
            &&& headers.len() > 0 ==> headers[0] == tables.headers[request.start_block]
            &&& forall|i: int, j: int|
                0 <= i < headers.len() && 0 < j < headers.len() && j == i + 1
                    ==> #[trigger] stands_next(tables.headers, headers[i], headers[j])
            &&& 0 < headers.len() < request.limit ==> headers.last().number == u64::MAX
                || !tables.headers.contains_key((headers.last().number + 1) as u64)
        }),
{
    lemma_served_is_stored(tables, request.start_block, request.limit as nat);
}

proof fn lemma_served_is_stored(tables: ChainView, number: u64, limit: nat)
    ensures
        ({
            let headers = served_from(tables, number, limit);
            &&& headers.len() <= limit
            &&& headers.len() == 0 <==> limit == 0 || !tables.headers.contains_key(number)
            &&& headers.len() > 0 ==> headers[0] == tables.headers[number]
            &&& forall|i: int, j: int|
                0 <= i < headers.len() && 0 < j < headers.len() && j == i + 1
                    ==> #[trigger] stands_next(tables.headers, headers[i], headers[j])
            &&& 0 < headers.len() < limit ==> headers.last().number == u64::MAX
                || !tables.headers.contains_key((headers.last().number + 1) as u64)
        }),
    decreases limit,
{
    let headers = served_from(tables, number, limit);
    if limit > 0 && tables.headers.contains_key(number) {
        let first = tables.headers[number];
        if first.number < u64::MAX {
            let next = (first.number + 1) as u64;
            let rest = served_from(tables, next, (limit - 1) as nat);
            lemma_served_is_stored(tables, next, (limit - 1) as nat);
            assert(headers == seq![first] + rest);
            assert forall|i: int, j: int|
                0 <= i < headers.len() && 0 < j < headers.len() && j == i
                    + 1 implies #[trigger] stands_next(tables.headers, headers[i], headers[j]) by {
                assert(headers[j] == rest[j - 1]);
                if i > 0 {
                    assert(headers[i] == rest[i - 1]);
                    assert(stands_next(tables.headers, rest[i - 1], rest[j - 1]));
                }
            }
            if rest.len() > 0 {
                assert(headers.last() == rest.last());
            }
        } else {
            assert(headers =~= seq![first]);
        }
    }
}

/// A peer that asks for headers gets those that the chain serves, on the channel on which it waits,
/// and nothing changes.
pub proof fn law_peer_that_asks_is_answered<B: BlockTree, P: Clone, C>(
    manager: ChainNetworkManager<B, P>,
    channel: C,
    request: HeadersRequest,
    actions: Vec<ChainAction<C>>,
    after: ChainNetworkManager<B, P>,
    looked_up: Vec<Header>,
)
    requires
        manager.inv(),
        manager.event_handled(
            ChainNetworkEvent::GetBlockHeaders { channel, request },
            Ok(actions),
            after,
        ),
        call_ensures(
            ChainNetworkManager::<B, P>::handle_get_block_headers_request,
            (&manager, request),
            Ok(looked_up),
        ),
    ensures
        actions@.len() == 1,
        actions@[0] matches ChainAction::Respond(response) && response.channel == channel
            && response.headers@.len() == looked_up@.len() && forall|i: int|
            0 <= i < looked_up@.len() ==> (#[trigger] response.headers@[i])@ == looked_up@[i]@,
        looked_up@.len() <= request.limit,
        looked_up@.len() == 0 <==> request.limit == 0
            || !manager.chain.tables().headers.contains_key(request.start_block),
        looked_up@.len() > 0 ==> looked_up@[0]@ == manager.chain.tables().headers[
        request.start_block],
        forall|i: int, j: int|
            0 <= i < looked_up@.len() && 0 < j < looked_up@.len() && j == i
                + 1 ==> #[trigger] stands_next(
                manager.chain.tables().headers,
                looked_up@[i]@,
                looked_up@[j]@,
            ),
        after.chain == manager.chain,
        after.pool == manager.pool,
        after.pending_sync_request == manager.pending_sync_request,
        after.syncs_in_flight == manager.syncs_in_flight,
        after.broadcasts_in_flight@ == manager.broadcasts_in_flight@,
{
    let tables = manager.chain.tables();
    let headers = served(tables, request);
    law_served_headers_are_those_stored(tables, request);
    let views = action_views(actions@);
    assert(views.len() == actions@.len());
    assert(views[0] == action_view(actions@[0]));
    reveal_with_fuel(broadcast_count, 3);
    assert(views.drop_last() =~= seq![]);
    assert(header_views(looked_up@) == headers);
    assert(header_views(looked_up@).len() == looked_up@.len());
    if let ChainAction::Respond(response) = actions@[0] {
        assert(header_views(response.headers@) == headers);
        assert(header_views(response.headers@).len() == response.headers@.len());
        assert forall|i: int| 0 <= i < looked_up@.len() implies (
        #[trigger] response.headers@[i])@ == looked_up@[i]@ by {
            assert(header_views(response.headers@)[i] == headers[i]);
            assert(header_views(looked_up@)[i] == headers[i]);
        }
    }
    assert forall|i: int, j: int|
        0 <= i < looked_up@.len() && 0 < j < looked_up@.len() && j == i
            + 1 implies #[trigger] stands_next(
        tables.headers,
        looked_up@[i]@,
        looked_up@[j]@,
    ) by {
        assert(header_views(looked_up@)[i] == headers[i]);
        assert(header_views(looked_up@)[j] == headers[j]);
        assert(stands_next(tables.headers, headers[i], headers[j]));
    }
    if looked_up@.len() > 0 {
        assert(header_views(looked_up@)[0] == headers[0]);
    }
}

/// Every sync that is started for a header begins at the number of the tip and has the number of
/// that header as its target, whatever these numbers are. There is one for each of the closest
/// peers, in their order. It has asked for nothing yet; it asks for at most a thousand headers at a
/// time, and ten requests may wait.
pub proof fn law_sync_goes_from_the_tip_to_the_header<B: BlockTree, P: Clone, Peer: Copy>(
    manager: ChainNetworkManager<B, P>,
    header: Header,
    peers: Vec<Peer>,
    syncs: Vec<SyncHeader<P, Peer>>,
    i: int,
)
    requires
        manager.inv(),
        call_ensures(
            ChainNetworkManager::<B, P>::send_sync_requests::<Peer>,
            (&manager, header, peers),
            Ok(syncs),
        ),
        0 <= i < peers@.len(),
    ensures
        syncs@.len() == peers@.len(),
        syncs@[i].inv(),
        cloned(manager.provider, syncs@[i].source().0),
        syncs@[i].source().1 == peers@[i],
        syncs@[i].view().first_head == manager.chain.tables().headers[
        manager.chain.tables().last].number,
        syncs@[i].view().local_head == syncs@[i].view().first_head,
        syncs@[i].view().target_head == header.number,
        syncs@[i].view().request_limit == 1000,
        syncs@[i].view().max_concurrent_limit == 10,
        syncs@[i].view().requests.len() == 0,
        syncs@[i].view().batches.len() == 0,
        syncs@[i].view().failure is None,
{
}

/// The closest peers that come in are each synced with, from the number of the tip to that of the
/// header that they were asked for. No peers are then asked for any more. Without peers, no sync is
/// under way.
pub proof fn law_closest_peers_are_synced_with<B: BlockTree, P: Clone, Peer>(
    manager: ChainNetworkManager<B, P>,
    header: Header,
    outcome: RequestResponse<Vec<Peer>>,
    syncs: Vec<SyncHeader<P, Peer>>,
    after: ChainNetworkManager<B, P>,
    i: int,
)
    requires
        manager.inv(),
        manager.closest_peers_request_for_sync == Some(header),
        manager.peers_handled(outcome, Ok(syncs), after),
    ensures
        outcome is Err ==> syncs@.len() == 0,
        outcome matches Ok(peers) ==> syncs@.len() == peers@.len(),
        outcome matches Ok(peers) ==> (0 <= i < peers@.len() ==> {
            &&& syncs@[i].source().1 == peers@[i]
            &&& syncs@[i].view().first_head == manager.chain.tables().headers[
            manager.chain.tables().last].number
            &&& syncs@[i].view().local_head == syncs@[i].view().first_head
            &&& syncs@[i].view().target_head == header.number
            &&& syncs@[i].view().requests.len() == 0
            &&& syncs@[i].view().failure is None
        }),
        after.closest_peers_request_for_sync is None,
        after.pending_sync_request == (syncs@.len() > 0),
        after.syncs_in_flight == syncs@.len(),
        after.broadcasted_headers@.dom() == manager.broadcasted_headers@.dom(),
        after.broadcasts_in_flight@ == manager.broadcasts_in_flight@,
        after.chain == manager.chain,
        after.pool == manager.pool,
{
    assert(after.in_flight().syncs == after.syncs_in_flight);
    assert(after.in_flight().broadcasts == after.broadcasts_in_flight@);
    assert(after.sync_state().broadcasted == after.broadcasted_headers@.dom());
    assert(after.sync_state().closest_peers_for is None);
}

/// A sync in which no request fails reaches the header that it was started for: when it is over,
/// the chain has the headers of the peer up to the number of that header, and that number is the
/// last one.
pub proof fn law_sync_reaches_the_announced_header<B: BlockTree, P: Clone, Peer: Copy>(
    manager: ChainNetworkManager<B, P>,
    header: Header,
    peers: Vec<Peer>,
    syncs: Vec<SyncHeader<P, Peer>>,
    i: int,
    sync: SyncView,
    remote: ChainView,
)
    requires
        manager.inv(),
        call_ensures(
            ChainNetworkManager::<B, P>::send_sync_requests::<Peer>,
            (&manager, header, peers),
            Ok(syncs),
        ),
        0 <= i < peers@.len(),
        // the sync, once it is over
        sync.valid(),
        sync.first_head == syncs@[i].view().first_head,
        sync.target_head == syncs@[i].view().target_head,
        sync.request_limit == syncs@[i].view().request_limit,
        sync.max_concurrent_limit == syncs@[i].view().max_concurrent_limit,
        sync.failure is None,
        !sync.may_request(),
        sync.awaited() == 0,
        // the chain, and that of the peer, which continues it
        manager.chain.tables().valid(B::genesis_view()),
        manager.chain.tables().ordered(),
        remote.valid(B::genesis_view()),
        remote.ordered(),
        remote.linked(),
        remote.gapless(),
        manager.chain.tables().last <= header.number <= remote.last,
        forall|n: u64|
            n <= manager.chain.tables().last ==> #[trigger] manager.chain.tables().at_number(n)
                == remote.at_number(n),
        served_first(remote, sync, sync.end()),
    ensures
        sync.output() matches Ok(headers) && {
            let after = manager.chain.tables().with_all(headers);
            &&& synced_count(manager.chain.tables(), B::genesis_view(), headers) == headers.len()
            &&& after.last == header.number
            &&& after.headers[after.last] == remote.headers[header.number]
            &&& forall|n: u64|
                n <= header.number ==> #[trigger] after.at_number(n) == remote.at_number(n)
        },
{
    let local = manager.chain.tables();
    law_sync_goes_from_the_tip_to_the_header(manager, header, peers, syncs, i);
    law_done_means_all_was_asked_for(sync);
    law_sync_catches_up(local, remote, B::genesis_view(), sync);
    if let Ok(headers) = sync.output() {
        let after = local.with_all(headers);
        assert(after.at_number(header.number) == remote.at_number(header.number));
        assert(remote.headers.contains_key(header.number));
    }
}

/// What comes of the outcome of a sync: its headers are added one after the other, as long as the
/// parent of each is in its place, and none after the first one for which it is not. One sync less
/// is in flight, and when there is none left, no sync is under way. A sync that failed adds
/// nothing. Nothing else changes.
pub proof fn law_synced_headers_are_added<B: BlockTree, P: Clone>(
    manager: ChainNetworkManager<B, P>,
    output: SyncHeaderOutput,
    count: usize,
    after: ChainNetworkManager<B, P>,
    i: int,
)
    requires
        manager.inv(),
        manager.syncs_in_flight > 0,
        manager.sync_handled(output, Ok(count), after),
    ensures
        output is Err ==> count == 0 && after.chain == manager.chain,
        output matches Ok(headers) ==> {
            let views = header_views(headers@);
            &&& count <= headers@.len()
            &&& after.chain.tables() == manager.chain.tables().with_all(views.take(count as int))
            &&& 0 <= i < count ==> headers@[i]@ == B::genesis_view() || has_parent_in(
                manager.chain.tables().with_all(views.take(i)).headers,
                headers@[i]@,
            )
            &&& count < headers@.len() ==> headers@[count as int]@ != B::genesis_view()
                && !has_parent_in(after.chain.tables().headers, headers@[count as int]@)
        },
        after.syncs_in_flight == manager.syncs_in_flight - 1,
        after.pending_sync_request == (after.syncs_in_flight > 0),
        after.closest_peers_request_for_sync is None,
        after.broadcasted_headers@.dom() == manager.broadcasted_headers@.dom(),
        after.broadcasts_in_flight@ == manager.broadcasts_in_flight@,
        after.pool == manager.pool,
        after.provider == manager.provider,
{
    assert(after.in_flight().syncs == after.syncs_in_flight);
    assert(after.in_flight().broadcasts == after.broadcasts_in_flight@);
    assert(after.sync_state().broadcasted == after.broadcasted_headers@.dom());
    assert(after.sync_state().closest_peers_for is None);
    if let Ok(headers) = output {
        let views = header_views(headers@);
        let tables = manager.chain.tables();
        law_sync_goes_up_to_the_last_valid_header(tables, B::genesis_view(), views);
        if 0 <= i < count {
            assert(views[i] == headers@[i]@);
            let before = tables.with_all(views.take(i));
            law_accepted_header_follows_its_parent(
                before,
                B::genesis_view(),
                views[i],
                adding(before, B::genesis_view(), views[i]),
                tables_after(before, B::genesis_view(), views[i]),
            );
        }
        if count < headers@.len() {
            let next = views[count as int];
            assert(next == headers@[count as int]@);
            law_accepted_header_follows_its_parent(
                after.chain.tables(),
                B::genesis_view(),
                next,
                adding(after.chain.tables(), B::genesis_view(), next),
                tables_after(after.chain.tables(), B::genesis_view(), next),
            );
        }
    }
}

/// An event may come at any time, and so may nothing. Closest peers, the outcome of a sync and that
/// of a broadcast may come exactly while they are asked for.
pub proof fn law_what_was_asked_for_may_come<B: BlockTree, P: Clone, C, Peer>(
    manager: ChainNetworkManager<B, P>,
    event: ChainNetworkEvent<C>,
    peers: RequestResponse<Vec<Peer>>,
    output: SyncHeaderOutput,
    outcome: RequestResponse<()>,
)
    ensures
        manager.can_be_ready(Ready::<C, Peer>::Event { event }),
        manager.can_be_ready(Ready::<C, Peer>::Nothing),
        manager.can_be_ready(Ready::<C, Peer>::ClosestPeers { outcome: peers })
            <==> manager.closest_peers_request_for_sync is Some,
        manager.can_be_ready(Ready::<C, Peer>::Sync { output }) <==> manager.syncs_in_flight > 0,
        manager.can_be_ready(Ready::<C, Peer>::Broadcast { outcome })
            <==> manager.broadcasts_in_flight@ > 0,
{
}

/// On a chain whose database does not fail, every event is handled.
pub proof fn law_events_are_handled<B: BlockTree, P: Clone, C>(
    manager: ChainNetworkManager<B, P>,
    event: ChainNetworkEvent<C>,
    res: Result<Vec<ChainAction<C>>, Error>,
    after: ChainNetworkManager<B, P>,
)
    requires
        manager.event_handled(event, res, after),
    ensures
        manager.chain.available() ==> res is Ok,
        res is Err ==> res->Err_0 is DatabaseError,
        after.inv(),
{
}

/// A manager that is polled does with what is ready what it does with an event, with closest peers,
/// or with the outcome of a sync: the actions, the syncs and the count of headers are the same, and
/// there are no others. Of a broadcast, or of nothing, nothing comes.
pub proof fn law_polling_hands_on_what_is_ready<B: BlockTree, P: Clone, C, Peer: Copy>(
    manager: &mut ChainNetworkManager<B, P>,
    ready: Ready<C, Peer>,
    res: Result<ChainStep<C, P, Peer>, Error>,
)
    requires
        old(manager).inv(),
        old(manager).can_be_ready(ready),
        call_ensures(ChainNetworkManager::<B, P>::poll::<C, Peer>, (manager, ready), res),
    ensures
        ready matches Ready::Event { event } ==> old(manager).event_handled(
            event,
            match res {
                Ok(step) => Ok(step.actions),
                Err(e) => Err(e),
            },
            *final(manager),
        ),
        ready matches Ready::ClosestPeers { outcome } ==> old(manager).peers_handled(
            outcome,
            match res {
                Ok(step) => Ok(step.syncs),
                Err(e) => Err(e),
            },
            *final(manager),
        ),
        ready matches Ready::Sync { output } ==> old(manager).sync_handled(
            output,
            match res {
                Ok(step) => Ok(step.synced),
                Err(e) => Err(e),
            },
            *final(manager),
        ),
        ready is Broadcast || ready is Nothing ==> {
            &&& res is Ok
            &&& final(manager).chain == old(manager).chain
            &&& final(manager).pool == old(manager).pool
            &&& final(manager).provider == old(manager).provider
            &&& final(manager).closest_peers_request_for_sync == old(
                manager,
            ).closest_peers_request_for_sync
            &&& final(manager).pending_sync_request == old(manager).pending_sync_request
            &&& final(manager).syncs_in_flight == old(manager).syncs_in_flight
        },
        ready is Nothing ==> final(manager).broadcasts_in_flight@ == old(
            manager,
        ).broadcasts_in_flight@,
        ready is Broadcast ==> final(manager).broadcasts_in_flight@ + 1 == old(
            manager,
        ).broadcasts_in_flight@,
        res matches Ok(step) ==> {
            &&& !(ready is Event) ==> step.actions@.len() == 0
            &&& !(ready is ClosestPeers) ==> step.syncs@.len() == 0
            &&& !(ready is Sync) ==> step.synced == 0
        },
{
}

/// Handling an event, taking closest peers and taking the outcome of a sync each lead from the state
/// before to the state after by the relation that is named for them.
pub proof fn law_steps_keep_to_their_relations<B: BlockTree, P: Clone, C, Peer: Copy>(
    on_event: &mut ChainNetworkManager<B, P>,
    event: ChainNetworkEvent<C>,
    actions: Result<Vec<ChainAction<C>>, Error>,
    on_peers: &mut ChainNetworkManager<B, P>,
    outcome: RequestResponse<Vec<Peer>>,
    syncs: Result<Vec<SyncHeader<P, Peer>>, Error>,
    on_sync: &mut ChainNetworkManager<B, P>,
    output: SyncHeaderOutput,
    count: Result<usize, Error>,
)
    requires
        old(on_event).inv(),
        call_ensures(ChainNetworkManager::<B, P>::on_event::<C>, (on_event, event), actions),
        old(on_peers).inv(),
        old(on_peers).closest_peers_request_for_sync is Some,
        call_ensures(
            ChainNetworkManager::<B, P>::on_closest_peers::<Peer>,
            (on_peers, outcome),
            syncs,
        ),
        old(on_sync).inv(),
        old(on_sync).syncs_in_flight > 0,
        call_ensures(ChainNetworkManager::<B, P>::on_sync_result, (on_sync, output), count),
    ensures
        old(on_event).event_handled(event, actions, *final(on_event)),
        old(on_peers).peers_handled(outcome, syncs, *final(on_peers)),
        old(on_sync).sync_handled(output, count, *final(on_sync)),
{
}

/// A failure of the database is the only one that is handed back, and only by a chain that may
/// fail. It leaves the sync as it was, but for the request for peers, which is over, and the sync
/// that ended.
pub proof fn law_only_the_database_fails<B: BlockTree, P: Clone, Peer>(
    manager: ChainNetworkManager<B, P>,
    outcome: RequestResponse<Vec<Peer>>,
    output: SyncHeaderOutput,
    e: Error,
    after: ChainNetworkManager<B, P>,
)
    ensures
        manager.peers_handled(outcome, Err(e), after) ==> {
            &&& e is DatabaseError
            &&& !manager.chain.available()
            &&& after.chain == manager.chain
            &&& after.closest_peers_request_for_sync is None
            &&& after.pending_sync_request == manager.pending_sync_request
            &&& after.syncs_in_flight == manager.syncs_in_flight
        },
        manager.sync_handled(output, Err(e), after) && manager.syncs_in_flight > 0 ==> {
            &&& e is DatabaseError
            &&& !manager.chain.available()
            &&& output is Ok
            &&& after.pending_sync_request == manager.pending_sync_request
            &&& after.syncs_in_flight == manager.syncs_in_flight - 1
            &&& exists|count: int|
                {
                    &&& 0 <= count <= output->Ok_0@.len()
                    &&& after.chain.tables() == manager.chain.tables().with_all(
                        #[trigger] header_views(output->Ok_0@).take(count),
                    )
                }
        },
{
    assert(after.sync_state().closest_peers_for is Some
        == after.closest_peers_request_for_sync is Some);
    assert(after.sync_state().pending == after.pending_sync_request);
    assert(after.in_flight().syncs == after.syncs_in_flight);
    if manager.sync_handled(output, Err(e), after) {
        if let Ok(headers) = output {
            let views = header_views(headers@);
            let valid = synced_count(manager.chain.tables(), B::genesis_view(), views);
            assert(is_prefix_added(manager.chain.tables(), views, valid, after.chain.tables()));
            let count = choose|count: int|
                0 <= count <= valid && count <= views.len() && after.chain.tables()
                    == manager.chain.tables().with_all(#[trigger] views.take(count));
            assert(after.chain.tables() == manager.chain.tables().with_all(views.take(count)));
        }
    }
}

/// A new manager has the chain, the pool and the provider that it was given, and has asked for
/// nothing, noted nothing and started nothing.
pub proof fn law_new_manager_has_done_nothing<B: BlockTree, P: Clone>(
    chain: B,
    pool: PoolTx,
    provider: P,
    res: ChainNetworkManager<B, P>,
    hash: Seq<char>,
)
    requires
        chain.wf(),
        pool.inv(),
        call_ensures(ChainNetworkManager::<B, P>::new, (chain, pool, provider), res),
    ensures
        res.inv(),
        res.chain == chain,
        res.pool == pool,
        res.provider == provider,
        res.closest_peers_request_for_sync is None,
        !res.pending_sync_request,
        !res.broadcasted_headers@.contains_key(hash),
        res.syncs_in_flight == 0,
        res.broadcasts_in_flight@ == 0,
{
    assert(res.sync_state().closest_peers_for is Some
        == res.closest_peers_request_for_sync is Some);
    assert(res.sync_state().broadcasted == res.broadcasted_headers@.dom());
    assert(res.in_flight().syncs == res.syncs_in_flight);
    assert(res.in_flight().broadcasts == res.broadcasts_in_flight@);
}

} // verus!
