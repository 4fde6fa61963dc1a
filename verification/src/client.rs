//! Setting up a node.

use vstd::prelude::*;

use crate::text::{decimal_digits, decimal_number};

verus! {

/// The address that a node listens on if none is given: any port on all interfaces.
pub const DEFAULT_LISTENING_ADDR: &'static str = "/ip4/0.0.0.0/tcp/0";

/// How many seconds a connection may be idle.
pub const IDLE_CONNECTION_SECONDS: u64 = 60;

/// The settings of a node. `K` is the key that identifies the node, `A` an address.
pub struct ClientBuilder<K, A> {
    pub db_path: String,
    pub auto_mine_interval: Option<u64>,
    pub keypair: K,
    pub listening_addrs: Vec<A>,
    pub enabled_mdns: bool,
}

impl<K, A> ClientBuilder<K, A> {
    /// The default settings, with a key: no mining, no discovery of peers nearby.
    pub fn new(keypair: K) -> (res: Self)
        ensures
            res.db_path@ == "./db"@,
            res.auto_mine_interval is None,
            res.keypair == keypair,
            res.listening_addrs@.len() == 0,
            !res.enabled_mdns,
    {
        ClientBuilder {
            db_path: "./db".to_owned(),
            auto_mine_interval: None,
            keypair,
            listening_addrs: Vec::new(),
            enabled_mdns: false,
        }
    }

    /// Sets the path of the database.
    pub fn with_db_path(self, path: String) -> (res: Self)
        ensures
            res == (ClientBuilder { db_path: path, ..self }),
    {
        ClientBuilder { db_path: path, ..self }
    }

    /// Sets the seconds between two blocks that the node mines, or that it does not mine.
    pub fn with_auto_mine_interval(self, interval: Option<u64>) -> (res: Self)
        ensures
            res == (ClientBuilder { auto_mine_interval: interval, ..self }),
    {
        ClientBuilder { auto_mine_interval: interval, ..self }
    }

    /// Sets the addresses to listen on.
    pub fn with_listening_addrs(self, listening_addrs: Vec<A>) -> (res: Self)
        ensures
            res == (ClientBuilder { listening_addrs, ..self }),
    {
        ClientBuilder { listening_addrs, ..self }
    }

    /// Sets the key that identifies the node.
    pub fn with_keypair(self, keypair: K) -> (res: Self)
        ensures
            res == (ClientBuilder { keypair, ..self }),
    {
        ClientBuilder { keypair, ..self }
    }

    /// Sets whether peers nearby are discovered.
    pub fn with_mdns(self, enabled: bool) -> (res: Self)
        ensures
            res == (ClientBuilder { enabled_mdns: enabled, ..self }),
    {
        ClientBuilder { enabled_mdns: enabled, ..self }
    }

    /// The addresses to listen on: those that were given, in their order, or `fallback` if none
    /// was.
    pub fn addrs_to_listen_on(self, fallback: A) -> (res: Vec<A>)
        ensures
            res@ == if self.listening_addrs@.len() == 0 {
                seq![fallback]
            } else {
                self.listening_addrs@
            },
    {
        let mut addrs = self.listening_addrs;
        if addrs.len() == 0 {
            addrs.push(fallback);
        }
        addrs
    }
}

/// How many of the first seed nodes can be dialed: those before the first one whose address does
/// not tell its peer.
pub open spec fn dialable<Peer, A>(seeds: Seq<(Option<Peer>, A)>) -> nat
    decreases seeds.len(),
{
    if seeds.len() == 0 || seeds[0].0 is None {
        0
    } else {
        1 + dialable(seeds.drop_first())
    }
}

/// The seed nodes to dial, in their order, given the peer that each address ends in, if it does. An
/// address that does not end in a peer is fatal: the ones before it are dialed, and `false` is
/// returned.
pub fn seeds_to_dial<Peer, A>(seeds: Vec<(Option<Peer>, A)>) -> (res: (Vec<(Peer, A)>, bool))
    ensures
        res.0@.len() == dialable(seeds@),
        res.1 == (dialable(seeds@) == seeds@.len()),
        forall|i: int|
            0 <= i < res.0@.len() ==> seeds@[i] == (Some((#[trigger] res.0@[i]).0), res.0@[i].1),
{
    let mut dials: Vec<(Peer, A)> = Vec::new();
    let ghost all = seeds@;
    let mut complete: bool = true;
    assert(all.skip(0) =~= all);
    for seed in iter: seeds
        invariant
            iter.seq() == all,
            dials@.len() <= iter.index() <= all.len(),
            complete ==> dials@.len() == iter.index(),
            dialable(all) == dials@.len() + if complete {
                dialable(all.skip(iter.index() as int))
            } else {
                0
            },
            !complete ==> dialable(all) < all.len(),
            forall|i: int|
                0 <= i < dials@.len() ==> all[i] == (Some((#[trigger] dials@[i]).0), dials@[i].1),
    {
        assert(all.skip(iter.index() as int).drop_first() =~= all.skip(iter.index() + 1));
        if complete {
            let (peer, addr) = seed;
            match peer {
                Some(peer) => dials.push((peer, addr)),
                None => {
                    complete = false;
                },
            }
        }
    }
    (dials, complete)
}

/// The path of the database: the one that was given, or one that names the seed of the node, if it
/// has one.
pub fn choose_db_path(given: Option<String>, seed: Option<u8>) -> (res: String)
    ensures
        match given {
            Some(path) => res == path,
            None => res@ == match seed {
                Some(seed) => "./db-"@ + decimal_digits(seed as nat) + ".redb"@,
                None => "./db.redb"@,
            },
        },
{
    match given {
        Some(path) => path,
        None => match seed {
            Some(seed) => "./db-".to_owned().concat(decimal_number(seed as u64).as_str()).concat(
                ".redb",
            ),
            None => "./db.redb".to_owned(),
        },
    }
}

/// The seed nodes are dialed up to the first one whose address does not tell its peer: all before
/// it tell theirs, in their order and with their addresses.
pub proof fn law_seeds_are_dialed_up_to_the_first_unknown<Peer, A>(
    seeds: Vec<(Option<Peer>, A)>,
    res: (Vec<(Peer, A)>, bool),
    i: int,
)
    requires
        call_ensures(seeds_to_dial::<Peer, A>, (seeds,), res),
    ensures
        res.0@.len() <= seeds@.len(),
        0 <= i < res.0@.len() ==> seeds@[i].0 == Some(res.0@[i].0) && seeds@[i].1 == res.0@[i].1,
        res.0@.len() < seeds@.len() ==> seeds@[res.0@.len() as int].0 is None,
        res.1 <==> res.0@.len() == seeds@.len(),
{
    lemma_dialable(seeds@);
}

proof fn lemma_dialable<Peer, A>(seeds: Seq<(Option<Peer>, A)>)
    ensures
        dialable(seeds) <= seeds.len(),
        dialable(seeds) < seeds.len() ==> seeds[dialable(seeds) as int].0 is None,
    decreases seeds.len(),
{
    if seeds.len() > 0 && seeds[0].0 is Some {
        lemma_dialable(seeds.drop_first());
    }
}

/// The addresses to listen on are those that were given, or the fallback alone if none was.
pub proof fn law_given_addresses_are_listened_on<K, A>(
    client: ClientBuilder<K, A>,
    fallback: A,
    res: Vec<A>,
)
    requires
        call_ensures(ClientBuilder::<K, A>::addrs_to_listen_on, (client, fallback), res),
    ensures
        client.listening_addrs@.len() > 0 ==> res@ == client.listening_addrs@,
        client.listening_addrs@.len() == 0 ==> res@.len() == 1 && res@[0] == fallback,
{
}

/// A path that was given is the path of the database; otherwise it names the seed, if there is one.
pub proof fn law_database_is_named_after_the_seed(
    given: Option<String>,
    seed: Option<u8>,
    res: String,
    digits: String,
)
    requires
        call_ensures(choose_db_path, (given, seed), res),
        seed matches Some(n) ==> call_ensures(decimal_number, (n as u64,), digits),
    ensures
        given matches Some(path) ==> res@ == path@,
        given is None && seed is Some ==> res@ == "./db-"@ + digits@ + ".redb"@,
        given is None && seed is None ==> res@ == "./db.redb"@,
{
}

/// Each setting of a node is what it was last set to, and setting one leaves the others.
pub proof fn law_settings_are_kept<K, A>(
    client: ClientBuilder<K, A>,
    path: String,
    interval: Option<u64>,
    addrs: Vec<A>,
    keypair: K,
    mdns: bool,
    with_path: ClientBuilder<K, A>,
    with_interval: ClientBuilder<K, A>,
    with_addrs: ClientBuilder<K, A>,
    with_keypair: ClientBuilder<K, A>,
    with_mdns: ClientBuilder<K, A>,
)
    requires
        call_ensures(ClientBuilder::<K, A>::with_db_path, (client, path), with_path),
        call_ensures(
            ClientBuilder::<K, A>::with_auto_mine_interval,
            (client, interval),
            with_interval,
        ),
        call_ensures(ClientBuilder::<K, A>::with_listening_addrs, (client, addrs), with_addrs),
        call_ensures(ClientBuilder::<K, A>::with_keypair, (client, keypair), with_keypair),
        call_ensures(ClientBuilder::<K, A>::with_mdns, (client, mdns), with_mdns),
    ensures
        with_path.db_path == path,
        with_path == (ClientBuilder { db_path: with_path.db_path, ..client }),
        with_interval.auto_mine_interval == interval,
        with_interval == (ClientBuilder {
            auto_mine_interval: with_interval.auto_mine_interval,
            ..client
        }),
        with_addrs.listening_addrs == addrs,
        with_addrs == (ClientBuilder { listening_addrs: with_addrs.listening_addrs, ..client }),
        with_keypair.keypair == keypair,
        with_keypair == (ClientBuilder { keypair: with_keypair.keypair, ..client }),
        with_mdns.enabled_mdns == mdns,
        with_mdns == (ClientBuilder { enabled_mdns: with_mdns.enabled_mdns, ..client }),
{
}

} // verus!
