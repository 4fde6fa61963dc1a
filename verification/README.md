# simb

A simplified blockchain node client. Most of what a real client does is mocked: blocks are mined
without work, transactions are drawn by chance, and headers and transactions are taken to be valid
as far as their order can be checked.

The library under `src/` holds the rules of the node, and Verus proves that its functions keep their
contracts:

- `blocktree`: the chain of block headers, what may be added to it, and mining on top of it.
- `pool`: the pool of pending transactions.
- `net/chain`: what the node does with headers, transactions and requests from the network.
- `net/network`: what it does with commands of its own parts and with events of the network.
- `tasks/sync_header`: downloading a range of headers from a peer, in batches.
- `rpc`: the answers of the RPC server.
- `client`: setting up a node.
- `interface`: the values that these exchange. `rlp`, `json`, `hash`, `text` and `chance` hold their
  encodings, digests, texts, and what comes from chance and the clock.

The laws that relate several of these functions are the public proof functions named `law_...`.

The program under `app/` does the input and output: libp2p, the database, the RPC server, timers. It
hands events to the library and carries out the actions that come back.

## Gossip

The node subscribes to two topics:

- `/lightlayer/block_header`
- `/lightlayer/transactions`

A header that extends the tip is added to the chain and broadcast. A header further ahead is
broadcast too and starts a sync with the closest peers, unless one is under way; headers that come
in meanwhile are not synced to. A sync is over when it is with all of these peers. No hash is
broadcast twice. A sync asks for headers in batches. Where a batch fails, is empty or does not fit,
the headers up to the last valid one are added and the rest is left out; a later header restarts the
sync. Transactions that come in go into the pool and are broadcast.

## The chain

A header is added if its parent is there. One at a number that is taken replaces the header there; the
replaced header can still be found by its hash.

A database is opened whatever its rows hold, and the genesis header goes over what is in its place. A
row that holds no header fails when it is read; one whose header has another number is returned as it
is. The laws that need every header at its own number say so.
