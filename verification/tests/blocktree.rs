use simb::blocktree::{
    balance_of, calculate_hash, mine_block, mined_as, mined_header, AddedBlockResult, BlockTree,
    Chain, Error, FixedBlockTimeMiner, MineBlockResult,
};
use simb::interface::{Header, RequestError};
use simb::rlp::encode_header;

#[test]
fn test_add_block() {
    let mut chain = Chain::new();

    let res = chain.try_add_block_header(Header {
        number: 1,
        ..Default::default()
    });
    assert_eq!(res, Err(Error::Invalid));

    let mut header = Header {
        number: 1,
        hash: "0x".to_string(),
        nonce: 0,
        parent_hash: Chain::genesis().hash,
        timestamp: chrono::Utc::now().timestamp() as u64,
        state_root: "0x".to_string(),
    };
    let (nonce, hash) = mine_block(
        1,
        header.timestamp,
        &header.parent_hash,
        &header.state_root,
        "0x",
    );
    header.nonce = nonce;
    header.hash = hex::encode(hash);

    let res = chain.try_add_block_header(header.clone());
    assert_eq!(res, Ok(AddedBlockResult::ExtendTip));

    let res = chain.try_add_block_header(header);
    assert_eq!(res, Ok(AddedBlockResult::AlreadyInChain));
}

#[test]
fn test_add_block_ahead_of_tip() {
    let mut chain = Chain::new();
    let res = chain.try_add_block_header(Header {
        number: 100,
        ..Default::default()
    });
    assert_eq!(res, Err(Error::BlockHeaderNotFound));
}

#[test]
fn test_add_genesis_block() {
    let mut chain = Chain::new();
    let res = chain.try_add_block_header(Chain::genesis());
    assert_eq!(res, Ok(AddedBlockResult::AlreadyInChain));
}

#[test]
fn test_validation_logic() {
    let chain = Chain::new();

    chain
        .validate_adjacent_block_header(&Chain::genesis())
        .unwrap();

    let err = chain
        .validate_adjacent_block_header(&Header {
            number: 10,
            ..Default::default()
        })
        .unwrap_err();
    assert_eq!(err, Error::BlockHeaderNotFound);

    chain
        .validate_adjacent_block_header(&Header {
            number: 1,
            parent_hash: Chain::genesis().hash,
            ..Default::default()
        })
        .unwrap();

    let err = chain
        .validate_adjacent_block_header(&Header {
            number: 1,
            parent_hash: "0x".to_string(),
            ..Default::default()
        })
        .unwrap_err();
    assert_eq!(err, Error::Invalid);
}

#[test]
fn test_auto_mine() {
    let mut chain = Chain::new();
    let mut miner = FixedBlockTimeMiner::new(3, ());
    // the first block comes at once: seven seconds hold three of them
    let mut seconds = 0;
    while seconds < 7 {
        let header = miner.on_tick(&mut chain).unwrap().unwrap();
        assert_eq!(header, chain.tip().unwrap());
        assert_eq!(miner.pending_broadcast, Some(header));
        assert_eq!(miner.on_broadcast_outcome(Ok(())), None);
        assert_eq!(miner.pending_broadcast, None);
        seconds += miner.interval;
    }
    assert!(chain.tip().unwrap().number > 2);
}

#[test]
fn test_non_auto_mine() {
    let chain = Chain::new();
    assert!(chain.tip().unwrap().number == 0);
}

#[test]
fn a_digest_of_a_block() {
    let text = "{\"block_number\":7,\"data\":\"d\",\"nonce\":5,\"parent_hash\":\"p\\\"\",\"state_root\":\"s\",\"timestamp\":9}";
    let digest = <sha2::Sha256 as sha2::Digest>::digest(text.as_bytes());
    assert_eq!(
        calculate_hash(7, 9, "p\"", "s", "d", 5),
        digest.as_slice().to_vec()
    );
}

#[test]
fn the_genesis_header() {
    let genesis = Chain::genesis();
    let hash = calculate_hash(0, 1705551177, "genesis", "0x", "0x", 17012);
    assert_eq!(
        genesis,
        Header {
            number: 0,
            parent_hash: "genesis".to_string(),
            state_root: "0x".to_string(),
            timestamp: 1705551177,
            nonce: 17012,
            hash: hex::encode(hash),
        }
    );
    let chain = Chain::new();
    assert_eq!(chain.tip(), Ok(Chain::genesis()));
    assert_eq!(chain.get_header_by_hash(genesis.hash), Ok(Chain::genesis()));
}

#[test]
fn a_mined_block_extends_the_tip() {
    let mut chain = Chain::new();
    for number in 1..4 {
        let tip = chain.tip().unwrap();
        match chain.mine_block().unwrap() {
            MineBlockResult::Mined(header) => {
                assert_eq!(header.number, number);
                assert_eq!(header.parent_hash, tip.hash);
                assert_eq!(header.state_root, "");
                assert_eq!(header.timestamp, 0);
                assert_eq!(header.hash.len(), 64);
                assert_ne!(header.hash, tip.hash);
                assert_eq!(chain.tip(), Ok(header.clone()));
                assert_eq!(chain.get_header_by_block_number(number), Ok(header.clone()));
                assert_eq!(chain.get_header_by_hash(header.hash.clone()), Ok(header));
            }
            MineBlockResult::BlockFallingBehind => panic!("the block is behind"),
        }
    }
    assert_eq!(
        chain.get_header_by_block_number(4),
        Err(Error::BlockHeaderNotFound)
    );
    assert_eq!(
        chain.get_header_by_hash("0x".to_string()),
        Err(Error::BlockHeaderNotFound)
    );
}

#[test]
fn the_nonce_and_the_hash_of_a_mined_block_belong_together() {
    let (nonce, hash) = mine_block(3, 4, "p", "s", "d");
    assert_eq!(hash, hex::encode(calculate_hash(3, 4, "p", "s", "d", nonce)));
    let others: Vec<u64> = (0..8).map(|_| mine_block(3, 4, "p", "s", "d").0).collect();
    assert!(others.iter().any(|other| *other != nonce));
}

#[test]
fn mining_on_a_tip() {
    let tip = Header {
        number: 8,
        hash: "h".to_string(),
        ..Header::default()
    };
    let header = mined_header(&tip, 3, "x".to_string());
    assert_eq!(
        header,
        Header {
            number: 9,
            parent_hash: "h".to_string(),
            nonce: 3,
            hash: "x".to_string(),
            ..Header::default()
        }
    );
    assert_eq!(
        mined_as(header.clone(), AddedBlockResult::ExtendTip),
        MineBlockResult::Mined(header.clone())
    );
    assert_eq!(
        mined_as(header, AddedBlockResult::AlreadyInChain),
        MineBlockResult::BlockFallingBehind
    );
}

#[test]
fn a_mined_block_is_broadcast() {
    let header = Header::default();
    let mined = MineBlockResult::Mined(header.clone());
    assert_eq!(mined.to_broadcast(), Some(header.clone()));
    assert_eq!(
        mined.after_broadcast(Ok(())),
        Ok(MineBlockResult::Mined(header.clone()))
    );
    assert_eq!(
        MineBlockResult::Mined(header.clone()).after_broadcast(Err(RequestError::Timeout)),
        Err(RequestError::Timeout)
    );
    let behind = MineBlockResult::BlockFallingBehind;
    assert_eq!(behind.to_broadcast(), None);
    assert_eq!(
        behind.after_broadcast(Err(RequestError::Timeout)),
        Ok(MineBlockResult::BlockFallingBehind)
    );

    let mut miner = FixedBlockTimeMiner::new(1, ());
    assert_eq!(
        miner.on_mined(MineBlockResult::Mined(header.clone())),
        Some(header.clone())
    );
    assert_eq!(miner.on_mined(MineBlockResult::BlockFallingBehind), None);
    assert_eq!(miner.pending_broadcast, Some(header));
    assert_eq!(
        miner.on_broadcast_outcome(Err(RequestError::Timeout)),
        Some(RequestError::Timeout)
    );
    assert_eq!(miner.pending_broadcast, None);
}

#[test]
fn a_header_is_found_by_its_own_hash() {
    let mut chain = Chain::new();
    let first = Header {
        number: 1,
        parent_hash: Chain::genesis().hash,
        hash: "aa".to_string(),
        ..Header::default()
    };
    let second = Header {
        hash: "bb".to_string(),
        ..first.clone()
    };
    assert_eq!(
        chain.try_add_block_header(first.clone()),
        Ok(AddedBlockResult::ExtendTip)
    );
    assert_eq!(
        chain.try_add_block_header(second.clone()),
        Ok(AddedBlockResult::AlreadyInChain)
    );
    assert_eq!(chain.get_header_by_hash("aa".to_string()), Ok(first));
    assert_eq!(chain.get_header_by_hash("bb".to_string()), Ok(second.clone()));
    assert_eq!(chain.get_header_by_block_number(1), Ok(second));
    assert_eq!(
        chain.get_header_by_hash("cc".to_string()),
        Err(Error::BlockHeaderNotFound)
    );
}

#[test]
fn a_second_header_with_the_first_number_has_no_parent() {
    let mut chain = Chain::new();
    let header = Header {
        parent_hash: Chain::genesis().hash,
        ..Header::default()
    };
    assert_eq!(
        chain.try_add_block_header(header),
        Err(Error::BlockHeaderNotFound)
    );
}

#[test]
fn a_stored_chain_is_opened_again() {
    let mut chain = Chain::new();
    let mut header_rows = vec![(0, encode_header(&Chain::genesis()))];
    let mut hash_rows = vec![(Chain::genesis().hash, 0)];
    let mut history = vec![encode_header(&Chain::genesis())];
    let replaced = Header {
        number: 1,
        parent_hash: Chain::genesis().hash,
        hash: "replaced".to_string(),
        ..Header::default()
    };
    hash_rows.push((replaced.hash.clone(), 1));
    history.push(encode_header(&replaced));
    for number in 1..6 {
        chain.mine_block().unwrap();
        let header = chain.tip().unwrap();
        header_rows.push((number, encode_header(&header)));
        hash_rows.push((header.hash.clone(), number));
        history.push(encode_header(&header));
    }
    let opened = Chain::open(header_rows.clone(), hash_rows.clone(), history);
    for number in 0..6 {
        let header = chain.get_header_by_block_number(number).unwrap();
        assert_eq!(opened.get_header_by_hash(header.hash.clone()), Ok(header.clone()));
        assert_eq!(opened.get_header_by_block_number(number), Ok(header));
    }
    assert_eq!(opened.tip(), chain.tip());
    assert_eq!(opened.get_header_by_hash("replaced".to_string()), Ok(replaced));

    // the hash table alone finds the headers that are in the header table
    let opened = Chain::open(header_rows, hash_rows, vec![]);
    let tip = chain.tip().unwrap();
    assert_eq!(opened.get_header_by_hash(tip.hash.clone()), Ok(tip));
    assert_eq!(
        opened.get_header_by_hash("replaced".to_string()),
        Err(Error::BlockHeaderNotFound)
    );

    let empty = Chain::open(vec![], vec![], vec![]);
    assert_eq!(empty.tip(), Ok(Chain::genesis()));
}

#[test]
fn a_database_with_a_gap_is_opened() {
    let row = |number| {
        let header = Header {
            number,
            hash: "h".repeat(number as usize),
            ..Header::default()
        };
        (number, encode_header(&header))
    };
    let mut chain = Chain::open(vec![row(0), row(1), row(7)], vec![], vec![]);
    assert_eq!(chain.get_header_by_block_number(0), Ok(Chain::genesis()));
    assert_eq!(chain.get_header_by_block_number(1).unwrap().hash, "h");
    assert_eq!(
        chain.get_header_by_block_number(2),
        Err(Error::BlockHeaderNotFound)
    );
    assert_eq!(chain.tip().unwrap().number, 7);
    let second = Header {
        number: 2,
        parent_hash: "h".to_string(),
        ..Header::default()
    };
    assert_eq!(
        chain.try_add_block_header(second),
        Ok(AddedBlockResult::AlreadyInChain)
    );
}

fn decode_failure<T>() -> Result<T, Error> {
    Err(Error::DatabaseError("decode header".to_string()))
}

#[test]
fn a_row_that_holds_no_header_fails_when_it_is_read() {
    let first = Header {
        number: 1,
        hash: "first".to_string(),
        ..Header::default()
    };
    let child_of = |number, parent_hash: &str| Header {
        number,
        parent_hash: parent_hash.to_string(),
        hash: "child".to_string(),
        ..Header::default()
    };
    let mut chain = Chain::open(
        vec![(1, encode_header(&first)), (2, vec![1, 2])],
        vec![],
        vec![vec![1, 2]],
    );
    // what does not need the row works
    assert_eq!(chain.get_header_by_block_number(0), Ok(Chain::genesis()));
    assert_eq!(chain.get_header_by_block_number(1), Ok(first));
    assert_eq!(
        chain.get_header_by_block_number(3),
        Err(Error::BlockHeaderNotFound)
    );
    assert_eq!(
        chain.try_add_block_header(child_of(2, "other")),
        Err(Error::Invalid)
    );
    // what needs it does not
    assert_eq!(chain.get_header_by_block_number(2), decode_failure());
    assert_eq!(chain.tip(), decode_failure());
    assert_eq!(chain.try_add_block_header(child_of(3, "second")), decode_failure());
    assert_eq!(chain.try_add_block_header(child_of(2, "first")), decode_failure());
    assert!(matches!(chain.mine_block(), Err(Error::DatabaseError(_))));

    // beneath a tip that can be read, it is written over
    let seventh = Header {
        number: 7,
        hash: "seventh".to_string(),
        ..Header::default()
    };
    let mut chain = Chain::open(
        vec![(1, vec![1, 2]), (7, encode_header(&seventh))],
        vec![],
        vec![],
    );
    assert_eq!(chain.tip(), Ok(seventh));
    assert_eq!(chain.get_header_by_block_number(1), decode_failure());
    let first = child_of(1, &Chain::genesis().hash);
    assert_eq!(
        chain.try_add_block_header(first.clone()),
        Ok(AddedBlockResult::AlreadyInChain)
    );
    assert_eq!(chain.get_header_by_block_number(1), Ok(first));
}

#[test]
fn a_row_that_holds_another_number_is_returned_as_it_is() {
    let ninth = Header {
        number: 9,
        hash: "ninth".to_string(),
        ..Header::default()
    };
    let mut chain = Chain::open(
        vec![(1, encode_header(&ninth))],
        vec![("ninth".to_string(), 1)],
        vec![],
    );
    assert_eq!(chain.get_header_by_block_number(1), Ok(ninth.clone()));
    assert_eq!(chain.get_header_by_hash("ninth".to_string()), Ok(ninth.clone()));
    assert_eq!(chain.tip(), Ok(ninth));
    assert_eq!(
        chain.get_header_by_block_number(9),
        Err(Error::BlockHeaderNotFound)
    );
    let second = Header {
        number: 2,
        parent_hash: "ninth".to_string(),
        ..Header::default()
    };
    assert_eq!(chain.try_add_block_header(second), Err(Error::Invalid));
}

#[test]
fn mining_builds_a_linked_chain() {
    let mut chain = Chain::new();
    let mut headers = vec![Chain::genesis()];
    for number in 1..8 {
        match chain.mine_block() {
            Ok(MineBlockResult::Mined(header)) => headers.push(header),
            _ => panic!("the block extends the tip"),
        }
        assert_eq!(chain.tip(), Ok(headers[number].clone()));
    }
    for (number, header) in headers.iter().enumerate() {
        assert_eq!(header.number, number as u64);
        assert_eq!(
            chain.get_header_by_block_number(number as u64),
            Ok(header.clone())
        );
        if number > 0 {
            assert_eq!(header.parent_hash, headers[number - 1].hash);
        }
    }
}

#[test]
fn mining_goes_on_above_rows_that_hold_another_number() {
    let header = |number, hash: &str| Header {
        number,
        hash: hash.to_string(),
        ..Header::default()
    };
    let mut chain = Chain::open(
        vec![
            (1, encode_header(&header(9, "ninth"))),
            (2, encode_header(&header(2, "second"))),
        ],
        vec![],
        vec![],
    );
    match chain.mine_block() {
        Ok(MineBlockResult::Mined(mined)) => {
            assert_eq!(mined.number, 3);
            assert_eq!(mined.parent_hash, "second");
            assert_eq!(chain.tip(), Ok(mined));
        }
        _ => panic!("the block extends the tip"),
    }

    // where the tip itself holds the number of a lower one, the block goes below it
    let mut chain = Chain::open(
        vec![
            (2, encode_header(&header(2, "second"))),
            (5, encode_header(&header(2, "second"))),
        ],
        vec![],
        vec![],
    );
    assert_eq!(chain.mine_block(), Ok(MineBlockResult::BlockFallingBehind));
    assert_eq!(chain.tip(), Ok(header(2, "second")));
    assert_eq!(
        chain.get_header_by_block_number(3).unwrap().parent_hash,
        "second"
    );
}

#[test]
fn the_balance_of_an_address() {
    let dead = "0x000000000000000000000000000000000000dead".to_string();
    let chain = Chain::new();
    assert_eq!(chain.get_balance(dead.clone()), Ok(57005));
    assert_eq!(balance_of(&dead, 3), 57005);
    assert_eq!(balance_of(&"0x".to_string(), 3), 3);
    let drawn: Vec<u64> = (0..8)
        .map(|_| chain.get_balance("0x".to_string()).unwrap())
        .collect();
    assert!(drawn.iter().any(|balance| *balance != drawn[0]));
}

#[test]
fn the_texts_of_chain_errors() {
    assert_eq!(Error::Invalid.message(), "Invalid header");
    assert_eq!(
        Error::BlockHeaderNotFound.message(),
        "Block header not found in database"
    );
    assert_eq!(
        Error::DatabaseError("full".to_string()).message(),
        "Database error: full"
    );
}

#[test]
fn the_texts_of_request_errors() {
    let cause = "cause".to_string();
    let texts = [
        (RequestError::ChannelClosed(cause.clone()), "Channel closed."),
        (RequestError::Timeout, "Timeout while waiting for response."),
        (
            RequestError::OutboundFailure(cause.clone()),
            "Outbound network failure.",
        ),
        (RequestError::DialError(cause.clone()), "Dial peer error."),
        (RequestError::TransportError(cause.clone()), "Transport error."),
        (RequestError::PublishError(cause), "Publish error."),
    ];
    for (error, text) in texts {
        assert_eq!(error.message(), text);
    }
}
