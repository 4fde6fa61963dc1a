//! The pool of pending transactions.

use vstd::prelude::*;

use crate::chance::{is_abridged_hash, random_h160_text, random_h256_text, random_u64};
use crate::interface::{transaction_views, RequestResponse, Transaction, TransactionView};
use crate::text::{
    is_before, lemma_text_irreflexive, lemma_text_total, lemma_text_transitive, text_before,
};

verus! {

/// The pending transactions, ready to be included in a block, one for each hash. All of them are
/// taken to be valid.
pub struct PoolTx {
    transactions: Vec<Transaction>,
    contents: Ghost<Map<Seq<char>, TransactionView>>,
}

/// A pool that transactions were added to, one after the other.
pub open spec fn pool_with(
    pool: Map<Seq<char>, TransactionView>,
    txs: Seq<TransactionView>,
) -> Map<Seq<char>, TransactionView>
    decreases txs.len(),
{
    if txs.len() == 0 {
        pool
    } else {
        pool_with(pool, txs.drop_last()).insert(txs.last().hash, txs.last())
    }
}

/// The hashes that were not in the pool when their transactions were added, in that order.
pub open spec fn new_hashes(
    pool: Map<Seq<char>, TransactionView>,
    txs: Seq<TransactionView>,
) -> Seq<Seq<char>>
    decreases txs.len(),
{
    if txs.len() == 0 {
        seq![]
    } else {
        let before = new_hashes(pool, txs.drop_last());
        if pool_with(pool, txs.drop_last()).contains_key(txs.last().hash) {
            before
        } else {
            before.push(txs.last().hash)
        }
    }
}

/// The transactions whose hash is among `hashes`, in their order.
pub open spec fn with_hash_in(
    txs: Seq<TransactionView>,
    hashes: Seq<Seq<char>>,
) -> Seq<TransactionView> {
    txs.filter(|t: TransactionView| hashes.contains(t.hash))
}

/// Whether transactions are in the order of their hashes, each hash once.
pub open spec fn in_hash_order(txs: Seq<TransactionView>) -> bool {
    forall|i: int, j: int|
        0 <= i < j < txs.len() ==> text_before((#[trigger] txs[i]).hash, (#[trigger] txs[j]).hash)
}

/// Whether transactions are those of the pool, no more and no less.
pub open spec fn lists_pool(
    txs: Seq<TransactionView>,
    pool: Map<Seq<char>, TransactionView>,
) -> bool {
    &&& forall|i: int|
        0 <= i < txs.len() ==> pool.contains_key((#[trigger] txs[i]).hash) && pool[txs[i].hash]
            == txs[i]
    &&& forall|hash: Seq<char>| #[trigger]
        pool.contains_key(hash) ==> exists|i: int|
            0 <= i < txs.len() && (#[trigger] txs[i]).hash == hash
}

/// Whether `taken` is the transaction with the first hash, if there is one, and `after` what is
/// left of the pool.
pub open spec fn takes_first(
    pool: Map<Seq<char>, TransactionView>,
    taken: Option<TransactionView>,
    after: Map<Seq<char>, TransactionView>,
) -> bool {
    match taken {
        Some(tx) => {
            &&& pool.contains_key(tx.hash)
            &&& pool[tx.hash] == tx
            &&& after == pool.remove(tx.hash)
            &&& forall|hash: Seq<char>| #[trigger]
                after.contains_key(hash) ==> text_before(tx.hash, hash)
        },
        None => {
            &&& pool == Map::<Seq<char>, TransactionView>::empty()
            &&& after == pool
        },
    }
}

/// The texts in a vector of strings.
pub open spec fn texts(strings: Seq<String>) -> Seq<Seq<char>> {
    strings.map_values(|s: String| s@)
}

impl PoolTx {
    /// The transactions by their hashes.
    pub closed spec fn view(&self) -> Map<Seq<char>, TransactionView> {
        self.contents@
    }

    /// The transactions are kept in the order of their hashes.
    pub closed spec fn inv(&self) -> bool {
        &&& in_hash_order(transaction_views(self.transactions@))
        &&& lists_pool(transaction_views(self.transactions@), self.contents@)
    }

    /// An empty pool.
    pub fn new() -> (res: PoolTx)
        ensures
            res.inv(),
            res.view() == Map::<Seq<char>, TransactionView>::empty(),
    {
        PoolTx { transactions: Vec::new(), contents: Ghost(Map::empty()) }
    }

    /// How many transactions stand before a hash.
    fn position(&self, hash: &str) -> (res: usize)
        requires
            self.inv(),
        ensures
            res <= self.transactions@.len(),
            forall|i: int|
                0 <= i < res ==> text_before((#[trigger] self.transactions@[i]).hash@, hash@),
            forall|i: int|
                res <= i < self.transactions@.len() ==> !text_before(
                    (#[trigger] self.transactions@[i]).hash@,
                    hash@,
                ),
    {
        let mut low: usize = 0;
        let mut high: usize = self.transactions.len();
        let ghost views = transaction_views(self.transactions@);
        while low < high
            invariant
                low <= high <= self.transactions@.len(),
                views == transaction_views(self.transactions@),
                in_hash_order(views),
                forall|i: int|
                    0 <= i < low ==> text_before((#[trigger] self.transactions@[i]).hash@, hash@),
                forall|i: int|
                    high <= i < self.transactions@.len() ==> !text_before(
                        (#[trigger] self.transactions@[i]).hash@,
                        hash@,
                    ),
            decreases high - low,
        {
            let mid: usize = low + (high - low) / 2;
            if is_before(self.transactions[mid].hash.as_str(), hash) {
                assert forall|i: int| 0 <= i < mid + 1 implies text_before(
                    (#[trigger] self.transactions@[i]).hash@,
                    hash@,
                ) by {
                    if i < mid {
                        assert(text_before(views[i].hash, views[mid as int].hash));
                        lemma_text_transitive(views[i].hash, views[mid as int].hash, hash@);
                    }
                }
                low = mid + 1;
            } else {
                assert forall|i: int| mid <= i < self.transactions@.len() implies !text_before(
                    (#[trigger] self.transactions@[i]).hash@,
                    hash@,
                ) by {
                    if i > mid && text_before(views[i].hash, hash@) {
                        assert(text_before(views[mid as int].hash, views[i].hash));
                        lemma_text_transitive(views[mid as int].hash, views[i].hash, hash@);
                    }
                }
                high = mid;
            }
        }
        low
    }

    /// Adds a transaction and returns its hash if that is new to the pool. A transaction that was
    /// there with the hash is replaced.
    pub fn add_transaction(&mut self, tx: Transaction) -> (res: Option<String>)
        requires
            old(self).inv(),
        ensures
            final(self).inv(),
            final(self).view() == old(self).view().insert(tx.hash@, tx@),
            match res {
                Some(hash) => !old(self).view().contains_key(tx.hash@) && hash@ == tx.hash@,
                None => old(self).view().contains_key(tx.hash@),
            },
    {
        let hash = tx.hash.clone();
        let at = self.position(hash.as_str());
        let ghost before = transaction_views(self.transactions@);
        let ghost t = tx@;
        let found = at < self.transactions.len() && self.transactions[at].hash == hash;
        proof {
            assert(found == old(self).view().contains_key(t.hash)) by {
                if old(self).view().contains_key(t.hash) {
                    let i = choose|i: int|
                        0 <= i < before.len() && (#[trigger] before[i]).hash == t.hash;
                    lemma_text_irreflexive(t.hash);
                    assert(i >= at);
                    if i > at {
                        assert(text_before(before[at as int].hash, before[i].hash));
                        assert(!text_before(self.transactions@[at as int].hash@, hash@));
                    }
                }
                if found {
                    assert(before[at as int].hash == t.hash);
                }
            }
            assert forall|i: int| at <= i < before.len() && !(found && i == at) implies text_before(
                t.hash,
                (#[trigger] before[i]).hash,
            ) by {
                assert(!text_before(self.transactions@[i].hash@, hash@));
                lemma_text_total(t.hash, before[i].hash);
                if before[i].hash == t.hash && i > at {
                    assert(text_before(before[at as int].hash, before[i].hash));
                    assert(!text_before(self.transactions@[at as int].hash@, hash@));
                }
            }
            self.contents@ = self.contents@.insert(t.hash, t);
        }
        if found {
            self.transactions.set(at, tx);
            proof {
                let after = transaction_views(self.transactions@);
                assert(after =~= before.update(at as int, t));
                assert forall|h: Seq<char>| #[trigger]
                    self.contents@.contains_key(h) implies exists|i: int|
                    0 <= i < after.len() && (#[trigger] after[i]).hash == h by {
                    if h == t.hash {
                        assert(after[at as int].hash == h);
                    } else {
                        assert(old(self).view().contains_key(h));
                        let i = choose|i: int|
                            0 <= i < before.len() && (#[trigger] before[i]).hash == h;
                        assert(after[i].hash == h);
                    }
                }
                assert forall|i: int| 0 <= i < after.len() implies self.contents@.contains_key(
                    (#[trigger] after[i]).hash,
                ) && self.contents@[after[i].hash] == after[i] by {
                    if i != at {
                        assert(after[i] == before[i]);
                        lemma_text_irreflexive(t.hash);
                        assert(self.transactions@[i].hash@ == before[i].hash);
                        if i < at {
                            assert(text_before(before[i].hash, before[at as int].hash));
                        } else {
                            assert(text_before(before[at as int].hash, before[i].hash));
                        }
                    }
                }
                assert(in_hash_order(after)) by {
                    assert forall|i: int, j: int| 0 <= i < j < after.len() implies text_before(
                        (#[trigger] after[i]).hash,
                        (#[trigger] after[j]).hash,
                    ) by {
                        assert(after[i].hash == before[i].hash);
                        assert(after[j].hash == before[j].hash);
                        assert(text_before(before[i].hash, before[j].hash));
                    }
                }
            }
            None
        } else {
            self.transactions.insert(at, tx);
            proof {
                let after = transaction_views(self.transactions@);
                assert(after =~= before.insert(at as int, t));
                assert forall|h: Seq<char>| #[trigger]
                    self.contents@.contains_key(h) implies exists|i: int|
                    0 <= i < after.len() && (#[trigger] after[i]).hash == h by {
                    if h == t.hash {
                        assert(after[at as int].hash == h);
                    } else {
                        assert(old(self).view().contains_key(h));
                        let i = choose|i: int|
                            0 <= i < before.len() && (#[trigger] before[i]).hash == h;
                        if i < at {
                            assert(after[i].hash == h);
                        } else {
                            assert(after[i + 1].hash == h);
                        }
                    }
                }
                assert forall|i: int| 0 <= i < after.len() implies self.contents@.contains_key(
                    (#[trigger] after[i]).hash,
                ) && self.contents@[after[i].hash] == after[i] by {
                    if i < at {
                        assert(after[i] == before[i]);
                    } else if i > at {
                        assert(after[i] == before[i - 1]);
                    }
                }
                assert(in_hash_order(after)) by {
                    assert forall|i: int, j: int| 0 <= i < j < after.len() implies text_before(
                        (#[trigger] after[i]).hash,
                        (#[trigger] after[j]).hash,
                    ) by {
                        let p = if i > at {
                            i - 1
                        } else {
                            i
                        };
                        let q = if j > at {
                            j - 1
                        } else {
                            j
                        };
                        if i == at {
                            assert(text_before(t.hash, before[q].hash));
                        } else if j == at {
                            assert(after[i] == before[i]);
                            assert(text_before(before[i].hash, t.hash));
                        } else {
                            assert(text_before(before[p].hash, before[q].hash));
                        }
                    }
                }
            }
            Some(hash)
        }
    }

    /// Adds transactions, one after the other, and returns the hashes that are new to the pool.
    pub fn add_transactions(&mut self, txs: Vec<Transaction>) -> (res: Vec<String>)
        requires
            old(self).inv(),
        ensures
            final(self).inv(),
            final(self).view() == pool_with(old(self).view(), transaction_views(txs@)),
            texts(res@) == new_hashes(old(self).view(), transaction_views(txs@)),
    {
        let mut added: Vec<String> = Vec::new();
        let ghost pool = self.view();
        let ghost all = transaction_views(txs@);
        let mut i: usize = 0;
        while i < txs.len()
            invariant
                i <= txs@.len(),
                all == transaction_views(txs@),
                self.inv(),
                self.view() == pool_with(pool, all.take(i as int)),
                texts(added@) == new_hashes(pool, all.take(i as int)),
            decreases txs@.len() - i,
        {
            assert(all.take(i + 1).drop_last() =~= all.take(i as int));
            assert(all.take(i + 1).last() == txs@[i as int]@);
            let ghost before = added@;
            if let Some(hash) = self.add_transaction(txs[i].clone()) {
                added.push(hash);
                assert(texts(added@) =~= texts(before).push(hash@));
            }
            i = i + 1;
        }
        assert(all.take(i as int) =~= all);
        added
    }

    /// Adds external transactions, for clients of the node. It returns the hashes that are new to
    /// the pool, and the transactions with these hashes, which are to be broadcast.
    pub fn add_transactions_and_broadcast(&mut self, txs: Vec<Transaction>) -> (res: (
        Vec<String>,
        Vec<Transaction>,
    ))
        requires
            old(self).inv(),
        ensures
            final(self).inv(),
            final(self).view() == pool_with(old(self).view(), transaction_views(txs@)),
            texts(res.0@) == new_hashes(old(self).view(), transaction_views(txs@)),
            transaction_views(res.1@) == with_hash_in(transaction_views(txs@), texts(res.0@)),
    {
        let ghost all = transaction_views(txs@);
        let copies = txs.clone();
        assert(transaction_views(copies@) =~= all);
        let added = self.add_transactions(copies);
        let ghost is_new = |t: TransactionView| texts(added@).contains(t.hash);
        let mut broadcast: Vec<Transaction> = Vec::new();
        proof {
            reveal(Seq::filter);
            assert(all.take(0).filter(is_new) =~= seq![]);
        }
        let mut i: usize = 0;
        while i < txs.len()
            invariant
                i <= txs@.len(),
                all == transaction_views(txs@),
                is_new == (|t: TransactionView| texts(added@).contains(t.hash)),
                transaction_views(broadcast@) == all.take(i as int).filter(is_new),
            decreases txs@.len() - i,
        {
            proof {
                reveal(Seq::filter);
                assert(all.take(i + 1).drop_last() =~= all.take(i as int));
                assert(all.take(i + 1).last() == txs@[i as int]@);
            }
            let ghost before = broadcast@;
            if contains_text(&added, &txs[i].hash) {
                broadcast.push(txs[i].clone());
                assert(transaction_views(broadcast@) =~= transaction_views(before).push(
                    txs@[i as int]@,
                ));
            }
            i = i + 1;
        }
        assert(all.take(i as int) =~= all);
        (added, broadcast)
    }

    /// What a client is told of the transactions that it added: the new hashes, once these
    /// transactions were broadcast. Transactions stay in the pool if they could not be broadcast.
    pub fn broadcast_result(
        added: Vec<String>,
        outcome: RequestResponse<()>,
    ) -> (res: RequestResponse<Vec<String>>)
        ensures
            res == match outcome {
                Ok(_) => Ok(added),
                Err(e) => Err(e),
            },
    {
        match outcome {
            Ok(_) => Ok(added),
            Err(e) => Err(e),
        }
    }

    /// All transactions, in the order of their hashes.
    pub fn get_all(&self) -> (res: Vec<Transaction>)
        requires
            self.inv(),
        ensures
            in_hash_order(transaction_views(res@)),
            lists_pool(transaction_views(res@), self.view()),
    {
        let mut all: Vec<Transaction> = Vec::new();
        let mut i: usize = 0;
        while i < self.transactions.len()
            invariant
                i <= self.transactions@.len(),
                all@ =~= self.transactions@.take(i as int),
            decreases self.transactions@.len() - i,
        {
            all.push(self.transactions[i].clone());
            i = i + 1;
        }
        assert(all@ =~= self.transactions@);
        all
    }

    /// Takes the transaction with the first hash out of the pool.
    pub fn next(&mut self) -> (res: Option<Transaction>)
        requires
            old(self).inv(),
        ensures
            final(self).inv(),
            takes_first(
                old(self).view(),
                match res {
                    Some(tx) => Some(tx@),
                    None => None,
                },
                final(self).view(),
            ),
    {
        if self.transactions.len() == 0 {
            assert(self.view() =~= Map::empty());
            return None;
        }
        let ghost before = transaction_views(self.transactions@);
        let tx = self.transactions.remove(0);
        proof {
            self.contents@ = self.contents@.remove(tx.hash@);
            let after = transaction_views(self.transactions@);
            assert(after =~= before.remove(0));
            assert(before[0] == tx@);
            lemma_text_irreflexive(tx.hash@);
            assert forall|h: Seq<char>| #[trigger] self.contents@.contains_key(h) implies exists|
                i: int,
            |
                0 <= i < after.len() && (#[trigger] after[i]).hash == h by {
                assert(old(self).view().contains_key(h));
                let i = choose|i: int| 0 <= i < before.len() && (#[trigger] before[i]).hash == h;
                assert(after[i - 1].hash == h);
            }
            assert forall|i: int| 0 <= i < after.len() implies self.contents@.contains_key(
                (#[trigger] after[i]).hash,
            ) && self.contents@[after[i].hash] == after[i] by {
                assert(after[i] == before[i + 1]);
                assert(text_before(before[0].hash, before[i + 1].hash));
            }
            assert forall|i: int, j: int| 0 <= i < j < after.len() implies text_before(
                (#[trigger] after[i]).hash,
                (#[trigger] after[j]).hash,
            ) by {
                assert(text_before(before[i + 1].hash, before[j + 1].hash));
            }
            assert forall|h: Seq<char>| #[trigger] self.view().contains_key(h) implies text_before(
                tx.hash@,
                h,
            ) by {
                let i = choose|i: int| 0 <= i < after.len() && (#[trigger] after[i]).hash == h;
                assert(text_before(before[0].hash, before[i + 1].hash));
            }
        }
        Some(tx)
    }

    /// A transaction drawn by chance, with the nonce 0.
    pub fn tx_rng() -> (res: Transaction)
        ensures
            is_abridged_hash(res.hash@),
            is_abridged_hash(res.from@),
            is_abridged_hash(res.to@),
            res.nonce == 0,
    {
        Transaction {
            hash: random_h256_text(),
            from: random_h160_text(),
            to: random_h256_text(),
            value: random_u64(),
            nonce: 0,
        }
    }
}

/// Whether a text is among strings.
fn contains_text(strings: &Vec<String>, text: &String) -> (res: bool)
    ensures
        res == texts(strings@).contains(text@),
{
    let mut i: usize = 0;
    while i < strings.len()
        invariant
            i <= strings@.len(),
            forall|k: int| 0 <= k < i ==> (#[trigger] strings@[k])@ != text@,
        decreases strings@.len() - i,
    {
        if strings[i] == *text {
            assert(texts(strings@)[i as int] == text@);
            return true;
        }
        i = i + 1;
    }
    assert(!texts(strings@).contains(text@)) by {
        if texts(strings@).contains(text@) {
            let k = choose|k: int| 0 <= k < texts(strings@).len() && texts(strings@)[k] == text@;
            assert(strings@[k]@ == text@);
        }
    }
    false
}

/// Nothing leaves the pool when transactions are added: a hash is in the pool afterwards exactly if
/// it was there before or one of them has it.
pub proof fn law_added_hashes_are_in_the_pool(
    pool: Map<Seq<char>, TransactionView>,
    txs: Seq<TransactionView>,
    hash: Seq<char>,
)
    ensures
        pool_with(pool, txs).contains_key(hash) <==> pool.contains_key(hash) || exists|i: int|
            0 <= i < txs.len() && (#[trigger] txs[i]).hash == hash,
    decreases txs.len(),
{
    if txs.len() > 0 {
        let init = txs.drop_last();
        law_added_hashes_are_in_the_pool(pool, init, hash);
        if exists|i: int| 0 <= i < txs.len() && (#[trigger] txs[i]).hash == hash {
            let i = choose|i: int| 0 <= i < txs.len() && (#[trigger] txs[i]).hash == hash;
            if i < txs.len() - 1 {
                assert(init[i].hash == hash);
            }
        }
        if exists|i: int| 0 <= i < init.len() && (#[trigger] init[i]).hash == hash {
            let i = choose|i: int| 0 <= i < init.len() && (#[trigger] init[i]).hash == hash;
            assert(txs[i].hash == hash);
        }
        if txs.last().hash == hash {
            assert(txs[txs.len() - 1].hash == hash);
        }
    }
}

/// The last transaction with a hash stays: the pool has it under its hash.
pub proof fn law_last_transaction_stays(
    pool: Map<Seq<char>, TransactionView>,
    txs: Seq<TransactionView>,
    i: int,
)
    requires
        0 <= i < txs.len(),
        forall|j: int| i < j < txs.len() ==> (#[trigger] txs[j]).hash != txs[i].hash,
    ensures
        pool_with(pool, txs).contains_key(txs[i].hash),
        pool_with(pool, txs)[txs[i].hash] == txs[i],
    decreases txs.len(),
{
    if i < txs.len() - 1 {
        assert(txs[txs.len() - 1].hash != txs[i].hash);
        law_last_transaction_stays(pool, txs.drop_last(), i);
    }
}

/// Where no transaction has a hash, the pool is as it was.
pub proof fn law_other_transactions_stay(
    pool: Map<Seq<char>, TransactionView>,
    txs: Seq<TransactionView>,
    hash: Seq<char>,
)
    requires
        forall|i: int| 0 <= i < txs.len() ==> (#[trigger] txs[i]).hash != hash,
        pool.contains_key(hash),
    ensures
        pool_with(pool, txs).contains_key(hash),
        pool_with(pool, txs)[hash] == pool[hash],
    decreases txs.len(),
{
    if txs.len() > 0 {
        assert(txs[txs.len() - 1].hash != hash);
        law_other_transactions_stay(pool, txs.drop_last(), hash);
    }
}

/// A hash is reported as new exactly if one of the transactions has it and the pool did not.
pub proof fn law_new_hashes_were_not_in_the_pool(
    pool: Map<Seq<char>, TransactionView>,
    txs: Seq<TransactionView>,
    hash: Seq<char>,
)
    ensures
        new_hashes(pool, txs).contains(hash) <==> !pool.contains_key(hash) && exists|i: int|
            0 <= i < txs.len() && (#[trigger] txs[i]).hash == hash,
    decreases txs.len(),
{
    if txs.len() > 0 {
        let init = txs.drop_last();
        let before = new_hashes(pool, init);
        law_new_hashes_were_not_in_the_pool(pool, init, hash);
        law_added_hashes_are_in_the_pool(pool, init, hash);
        if exists|i: int| 0 <= i < txs.len() && (#[trigger] txs[i]).hash == hash {
            let i = choose|i: int| 0 <= i < txs.len() && (#[trigger] txs[i]).hash == hash;
            if i < txs.len() - 1 {
                assert(init[i].hash == hash);
            }
        }
        if exists|i: int| 0 <= i < init.len() && (#[trigger] init[i]).hash == hash {
            let i = choose|i: int| 0 <= i < init.len() && (#[trigger] init[i]).hash == hash;
            assert(txs[i].hash == hash);
        }
        let pushed = before.push(txs.last().hash);
        if before.contains(hash) {
            let k = choose|k: int| 0 <= k < before.len() && before[k] == hash;
            assert(pushed[k] == hash);
        }
        if txs.last().hash == hash {
            assert(txs[txs.len() - 1].hash == hash);
            assert(pushed[before.len() as int] == hash);
        }
        if pushed.contains(hash) {
            let k = choose|k: int| 0 <= k < pushed.len() && pushed[k] == hash;
            if k < before.len() {
                assert(before[k] == hash);
            }
        }
    }
}

/// Every new hash is reported once.
pub proof fn law_new_hashes_are_reported_once(
    pool: Map<Seq<char>, TransactionView>,
    txs: Seq<TransactionView>,
)
    ensures
        new_hashes(pool, txs).no_duplicates(),
    decreases txs.len(),
{
    if txs.len() > 0 {
        let init = txs.drop_last();
        law_new_hashes_are_reported_once(pool, init);
        law_new_hashes_were_not_in_the_pool(pool, init, txs.last().hash);
        law_added_hashes_are_in_the_pool(pool, init, txs.last().hash);
    }
}

/// A transaction is broadcast exactly if its hash was not in the pool before.
pub proof fn law_only_new_transactions_are_broadcast(
    pool: Map<Seq<char>, TransactionView>,
    txs: Seq<TransactionView>,
)
    ensures
        with_hash_in(txs, new_hashes(pool, txs)) == txs.filter(
            |t: TransactionView| !pool.contains_key(t.hash),
        ),
{
    let hashes = new_hashes(pool, txs);
    let is_new = |t: TransactionView| hashes.contains(t.hash);
    let is_absent = |t: TransactionView| !pool.contains_key(t.hash);
    assert forall|i: int| 0 <= i < txs.len() implies is_new(#[trigger] txs[i]) == is_absent(
        txs[i],
    ) by {
        law_new_hashes_were_not_in_the_pool(pool, txs, txs[i].hash);
    }
    lemma_filter_agrees(txs, is_new, is_absent);
}

/// Conditions that agree on a sequence pick the same items.
proof fn lemma_filter_agrees(
    txs: Seq<TransactionView>,
    p: spec_fn(TransactionView) -> bool,
    q: spec_fn(TransactionView) -> bool,
)
    requires
        forall|i: int| 0 <= i < txs.len() ==> p(#[trigger] txs[i]) == q(txs[i]),
    ensures
        txs.filter(p) == txs.filter(q),
    decreases txs.len(),
{
    reveal(Seq::filter);
    if txs.len() > 0 {
        let init = txs.drop_last();
        assert forall|i: int| 0 <= i < init.len() implies p(#[trigger] init[i]) == q(init[i]) by {
            assert(init[i] == txs[i]);
        }
        lemma_filter_agrees(init, p, q);
        assert(p(txs[txs.len() - 1]) == q(txs[txs.len() - 1]));
    }
}

/// Transactions are taken in the order in which they are listed: the one that is taken is the first
/// one listed, and the others list what is left. If none is listed, none is taken.
pub proof fn law_transactions_are_taken_as_listed(
    pool: Map<Seq<char>, TransactionView>,
    listed: Seq<TransactionView>,
    taken: Option<TransactionView>,
    after: Map<Seq<char>, TransactionView>,
)
    requires
        in_hash_order(listed),
        lists_pool(listed, pool),
        takes_first(pool, taken, after),
    ensures
        listed.len() == 0 ==> taken is None,
        listed.len() > 0 ==> {
            &&& taken == Some(listed[0])
            &&& in_hash_order(listed.drop_first())
            &&& lists_pool(listed.drop_first(), after)
        },
{
    if listed.len() > 0 {
        let first = listed[0];
        assert(pool.contains_key(first.hash));
        let tx = taken->0;
        let i = choose|i: int| 0 <= i < listed.len() && (#[trigger] listed[i]).hash == tx.hash;
        if i > 0 {
            assert(text_before(first.hash, listed[i].hash));
            lemma_text_irreflexive(first.hash);
            assert(after.contains_key(first.hash));
            lemma_text_transitive(first.hash, tx.hash, first.hash);
        }
        let rest = listed.drop_first();
        assert forall|k: int| 0 <= k < rest.len() implies after.contains_key(
            (#[trigger] rest[k]).hash,
        ) && after[rest[k].hash] == rest[k] by {
            assert(rest[k] == listed[k + 1]);
            assert(text_before(listed[0].hash, listed[k + 1].hash));
            lemma_text_irreflexive(first.hash);
        }
        assert forall|hash: Seq<char>| #[trigger] after.contains_key(hash) implies exists|k: int|
            0 <= k < rest.len() && (#[trigger] rest[k]).hash == hash by {
            assert(pool.contains_key(hash));
            let k = choose|k: int| 0 <= k < listed.len() && (#[trigger] listed[k]).hash == hash;
            assert(rest[k - 1].hash == hash);
        }
        assert forall|k: int, l: int| 0 <= k < l < rest.len() implies text_before(
            (#[trigger] rest[k]).hash,
            (#[trigger] rest[l]).hash,
        ) by {
            assert(text_before(listed[k + 1].hash, listed[l + 1].hash));
        }
    } else if taken is Some {
        assert(pool.contains_key((taken->0).hash));
    }
}

/// New hashes come in the order in which their transactions do: those of the first transactions
/// come first, whatever follows, and a further transaction adds its hash at the end, or nothing.
pub proof fn law_new_hashes_come_in_order(
    pool: Map<Seq<char>, TransactionView>,
    txs: Seq<TransactionView>,
    tx: TransactionView,
)
    ensures
        new_hashes(pool, Seq::empty()).len() == 0,
        ({
            let before = new_hashes(pool, txs);
            let after = new_hashes(pool, txs.push(tx));
            if pool.contains_key(tx.hash) || exists|i: int|
                0 <= i < txs.len() && (#[trigger] txs[i]).hash == tx.hash {
                after == before
            } else {
                after == before.push(tx.hash)
            }
        }),
{
    assert(txs.push(tx).drop_last() =~= txs);
    law_added_hashes_are_in_the_pool(pool, txs, tx.hash);
}

/// What adding transactions gives a client: the hashes that are new to the pool, and for broadcast
/// the transactions that have them, all of them, in their order.
pub proof fn law_new_transactions_are_broadcast(
    pool: Map<Seq<char>, TransactionView>,
    txs: Seq<TransactionView>,
    hashes: Seq<Seq<char>>,
    i: int,
)
    requires
        hashes == new_hashes(pool, txs),
        0 <= i < txs.len(),
    ensures
        with_hash_in(txs, hashes).contains(txs[i]) <==> !pool.contains_key(txs[i].hash),
{
    let is_absent = |t: TransactionView| !pool.contains_key(t.hash);
    law_only_new_transactions_are_broadcast(pool, txs);
    lemma_filter_contains(txs, is_absent, txs[i]);
    assert(txs.contains(txs[i]));
}

proof fn lemma_filter_contains(
    txs: Seq<TransactionView>,
    p: spec_fn(TransactionView) -> bool,
    tx: TransactionView,
)
    ensures
        txs.filter(p).contains(tx) <==> txs.contains(tx) && p(tx),
    decreases txs.len(),
{
    reveal(Seq::filter);
    if txs.len() > 0 {
        let init = txs.drop_last();
        let last = txs.last();
        lemma_filter_contains(init, p, tx);
        let picked = init.filter(p);
        if init.contains(tx) {
            let k = choose|k: int| 0 <= k < init.len() && init[k] == tx;
            assert(txs[k] == tx);
        }
        if txs.contains(tx) && tx != last {
            let k = choose|k: int| 0 <= k < txs.len() && txs[k] == tx;
            assert(init[k] == tx);
        }
        if tx == last {
            assert(txs[txs.len() - 1] == tx);
        }
        if p(last) {
            let all = picked.push(last);
            assert(txs.filter(p) == all);
            assert(all[picked.len() as int] == last);
            if picked.contains(tx) {
                let k = choose|k: int| 0 <= k < picked.len() && picked[k] == tx;
                assert(all[k] == tx);
            }
            if all.contains(tx) && tx != last {
                let k = choose|k: int| 0 <= k < all.len() && all[k] == tx;
                assert(picked[k] == tx);
            }
        }
    }
}

/// All transactions of the pool are listed, each once and as it is, in the order of the bytes of
/// their hashes, and no other ones.
pub proof fn law_pool_is_listed_in_full(
    pool: PoolTx,
    res: Vec<Transaction>,
    hash: Seq<char>,
    i: int,
    j: int,
)
    requires
        pool.inv(),
        call_ensures(PoolTx::get_all, (&pool,), res),
    ensures
        0 <= i < res@.len() ==> pool.view().contains_pair(res@[i].hash@, res@[i]@),
        pool.view().contains_key(hash) ==> exists|k: int|
            0 <= k < res@.len() && (#[trigger] res@[k]).hash@ == hash && res@[k]@
                == pool.view()[hash],
        0 <= i < j < res@.len() ==> text_before(res@[i].hash@, res@[j].hash@),
        0 <= i < j < res@.len() ==> res@[i].hash@ != res@[j].hash@,
{
    let txs = transaction_views(res@);
    if 0 <= i < res@.len() {
        assert(txs[i] == res@[i]@);
    }
    if 0 <= j < res@.len() {
        assert(txs[j] == res@[j]@);
    }
    if pool.view().contains_key(hash) {
        let k = choose|k: int| 0 <= k < txs.len() && (#[trigger] txs[k]).hash == hash;
        assert(res@[k].hash@ == hash);
        assert(res@[k]@ == txs[k]);
    }
    if 0 <= i < j < res@.len() {
        lemma_text_irreflexive(res@[i].hash@);
    }
}

/// The transaction that is taken is in the pool, no other one has a hash before its own, and it is
/// all that leaves the pool. One is taken exactly if there is one.
pub proof fn law_first_transaction_is_taken(
    pool: Map<Seq<char>, TransactionView>,
    taken: Option<TransactionView>,
    after: Map<Seq<char>, TransactionView>,
    hash: Seq<char>,
)
    requires
        takes_first(pool, taken, after),
    ensures
        pool.contains_key(hash) ==> taken is Some,
        taken matches Some(tx) ==> {
            &&& pool.contains_pair(tx.hash, tx)
            &&& !after.contains_key(tx.hash)
            &&& pool.contains_key(hash) && hash != tx.hash ==> after.contains_pair(
                hash,
                pool[hash],
            ) && text_before(tx.hash, hash)
            &&& after.contains_key(hash) ==> pool.contains_key(hash)
        },
        taken is None ==> after == pool,
{
}

/// A client is told the new hashes once they were broadcast, or why they were not.
pub proof fn law_client_is_told_of_the_broadcast(
    added: Vec<String>,
    outcome: RequestResponse<()>,
    res: RequestResponse<Vec<String>>,
)
    requires
        call_ensures(PoolTx::broadcast_result, (added, outcome), res),
    ensures
        outcome is Ok ==> res == Ok::<Vec<String>, crate::interface::RequestError>(added),
        outcome matches Err(e) ==> res == Err::<Vec<String>, crate::interface::RequestError>(e),
{
}

/// A transaction that is added is in the pool, under its hash and as it is; all others stay. Its
/// hash is told exactly if it was not in the pool.
pub proof fn law_added_transaction_is_in_the_pool(
    pool: &mut PoolTx,
    tx: Transaction,
    res: Option<String>,
    hash: Seq<char>,
)
    requires
        old(pool).inv(),
        call_ensures(PoolTx::add_transaction, (pool, tx), res),
    ensures
        final(pool).inv(),
        final(pool).view().contains_pair(tx.hash@, tx@),
        hash != tx.hash@ ==> final(pool).view().contains_key(hash) == old(
            pool,
        ).view().contains_key(hash),
        hash != tx.hash@ && old(pool).view().contains_key(hash) ==> final(pool).view()[hash] == old(
            pool,
        ).view()[hash],
        old(pool).view().contains_key(tx.hash@) ==> res is None,
        !old(pool).view().contains_key(tx.hash@) ==> (res matches Some(told) && told@ == tx.hash@),
{
}

/// Transactions that are added are in the pool, each under its hash unless a later one has the same
/// one; all others stay. The hashes that were not in the pool are told, each once, and the
/// transactions that have them are to be broadcast, in their order.
pub proof fn law_added_transactions_are_in_the_pool(
    pool: &mut PoolTx,
    txs: Vec<Transaction>,
    res: (Vec<String>, Vec<Transaction>),
    hash: Seq<char>,
    i: int,
)
    requires
        old(pool).inv(),
        call_ensures(PoolTx::add_transactions_and_broadcast, (pool, txs), res),
        0 <= i < txs@.len(),
        txs@[i].hash@ == hash,
        forall|j: int| i < j < txs@.len() ==> (#[trigger] txs@[j]).hash@ != hash,
    ensures
        final(pool).inv(),
        final(pool).view().contains_pair(hash, txs@[i]@),
        texts(res.0@).contains(hash) <==> !old(pool).view().contains_key(hash),
        texts(res.0@).no_duplicates(),
        transaction_views(res.1@) == transaction_views(txs@).filter(
            |t: TransactionView| !old(pool).view().contains_key(t.hash),
        ),
{
    let views = transaction_views(txs@);
    assert(views[i] == txs@[i]@);
    assert forall|j: int| i < j < views.len() implies (#[trigger] views[j]).hash
        != views[i].hash by {
        assert(txs@[j].hash@ != hash);
    }
    law_last_transaction_stays(old(pool).view(), views, i);
    law_new_hashes_were_not_in_the_pool(old(pool).view(), views, hash);
    law_new_hashes_are_reported_once(old(pool).view(), views);
    law_only_new_transactions_are_broadcast(old(pool).view(), views);
}

/// Transactions come out of the pool in the order of their hashes: one that is taken later has a
/// later hash, if none was added meanwhile.
pub proof fn law_transactions_are_taken_in_order(
    first_pool: &mut PoolTx,
    next_pool: &mut PoolTx,
    first: Option<Transaction>,
    next: Option<Transaction>,
)
    requires
        old(first_pool).inv(),
        call_ensures(PoolTx::next, (first_pool,), first),
        *next_pool == *final(first_pool),
        call_ensures(PoolTx::next, (next_pool,), next),
    ensures
        next is Some ==> first is Some,
        next matches Some(second) ==> (first matches Some(before) && text_before(
            before.hash@,
            second.hash@,
        )),
        first matches Some(tx) ==> old(first_pool).view().contains_pair(tx.hash@, tx@)
            && !final(first_pool).view().contains_key(tx.hash@),
        first is None ==> old(first_pool).view() == Map::<Seq<char>, TransactionView>::empty(),
{
}

} // verus!
