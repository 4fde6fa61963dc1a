use simb::interface::{RequestError, Transaction};
use simb::pool::PoolTx;

fn tx(hash: &str, value: u64) -> Transaction {
    Transaction {
        hash: hash.to_string(),
        from: "a".to_string(),
        to: "b".to_string(),
        value,
        nonce: 0,
    }
}

#[test]
fn test_pool() {
    let mut pool = PoolTx::new();
    let tx = PoolTx::tx_rng();
    let res = pool.add_transaction(tx.clone());

    assert_eq!(tx.hash, res.unwrap());

    let res = pool.add_transaction(tx.clone());
    assert_eq!(None, res);

    assert_eq!(pool.next(), Some(tx));
    assert_eq!(pool.next(), None);

    let tx = PoolTx::tx_rng();
    pool.add_transaction(tx.clone());
    assert_eq!(pool.next(), Some(tx));
    assert_eq!(pool.next(), None);
}

#[test]
fn transactions_come_out_in_the_order_of_their_hashes() {
    let mut pool = PoolTx::new();
    let txs = vec![tx("b", 1), tx("", 2), tx("ba", 3), tx("a", 4), tx("\u{e9}", 5), tx("z", 6)];
    let added = pool.add_transactions(txs);
    assert_eq!(added, vec!["b", "", "ba", "a", "\u{e9}", "z"]);
    let listed = pool.get_all();
    let hashes: Vec<String> = pool.get_all().into_iter().map(|t| t.hash).collect();
    assert_eq!(hashes, vec!["", "a", "b", "ba", "z", "\u{e9}"]);
    let mut taken = vec![];
    while let Some(t) = pool.next() {
        assert_eq!(t, listed[taken.len()]);
        taken.push(t.value);
    }
    assert_eq!(taken, vec![2, 4, 1, 3, 6, 5]);
}

#[test]
fn the_last_transaction_with_a_hash_stays() {
    let mut pool = PoolTx::new();
    assert_eq!(pool.add_transactions(vec![tx("a", 1), tx("a", 2)]), vec!["a"]);
    assert_eq!(pool.get_all(), vec![tx("a", 2)]);
    assert_eq!(pool.add_transaction(tx("a", 3)), None);
    assert_eq!(pool.get_all(), vec![tx("a", 3)]);
}

#[test]
fn only_transactions_new_to_the_pool_are_broadcast() {
    let mut pool = PoolTx::new();
    pool.add_transaction(tx("a", 1));
    let (added, broadcast) =
        pool.add_transactions_and_broadcast(vec![tx("b", 2), tx("a", 3), tx("c", 4), tx("b", 5)]);
    assert_eq!(added, vec!["b", "c"]);
    assert_eq!(broadcast, vec![tx("b", 2), tx("c", 4), tx("b", 5)]);
    assert_eq!(pool.get_all(), vec![tx("a", 3), tx("b", 5), tx("c", 4)]);
}

#[test]
fn a_client_learns_of_a_failed_broadcast() {
    let added = vec!["a".to_string()];
    assert_eq!(
        PoolTx::broadcast_result(added.clone(), Ok(())),
        Ok(added.clone())
    );
    assert_eq!(
        PoolTx::broadcast_result(added, Err(RequestError::Timeout)),
        Err(RequestError::Timeout)
    );
}

#[test]
fn a_random_transaction_has_abridged_hashes() {
    let tx = PoolTx::tx_rng();
    for text in [&tx.hash, &tx.from, &tx.to] {
        let chars: Vec<char> = text.chars().collect();
        assert_eq!(chars.len(), 11);
        assert!(text.starts_with("0x"));
        assert_eq!(chars[6], '\u{2026}');
        for i in [2, 3, 4, 5, 7, 8, 9, 10] {
            assert!(chars[i].is_ascii_hexdigit() && !chars[i].is_ascii_uppercase());
        }
    }
    assert_eq!(tx.nonce, 0);
    let others: Vec<u64> = (0..8).map(|_| PoolTx::tx_rng().value).collect();
    assert!(others.iter().any(|value| *value != tx.value));
}
