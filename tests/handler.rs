use cardano_substreams::block::{Asset, Block, Body, Header, Input, MintGroup, Output, Transaction};
use cardano_substreams::handler::{map_blocks, HandlerError, LogRecord};

fn hash(fill: u8) -> Vec<u8> {
    vec![fill; 32]
}

fn policy(fill: u8) -> Vec<u8> {
    vec![fill; 28]
}

fn tx(n_outputs: usize, mint: Vec<MintGroup>) -> Transaction {
    Transaction {
        inputs: vec![Input { tx_hash: hash(7), index: 0 }],
        outputs: (0..n_outputs).map(|k| Output { coin: 1000 + k as u64 }).collect(),
        fee: 170000,
        mint,
    }
}

#[test]
fn empty_block_gives_missing_header_and_timestamp() {
    let block = Block { header: None, body: None, timestamp: 1_600_000_000 };
    let mut log = Vec::new();
    let r = map_blocks(block.clone(), &mut log);
    assert_eq!(r, Ok(block));
    assert_eq!(
        log,
        vec![LogRecord::MissingHeader, LogRecord::Timestamp { seconds: 1_600_000_000 }]
    );
}

#[test]
fn header_summary_is_hex_encoded() {
    let mut h = hash(0);
    h[0] = 0xab;
    h[1] = 0x01;
    h[31] = 0xf0;
    let block = Block { header: Some(Header { slot: 42, hash: h }), body: None, timestamp: 9 };
    let mut log = Vec::new();
    map_blocks(block, &mut log).unwrap();
    let expected = format!("ab01{}f0", "00".repeat(29));
    assert_eq!(
        log,
        vec![
            LogRecord::BlockSummary { slot: 42, hash: expected },
            LogRecord::Timestamp { seconds: 9 },
        ]
    );
}

#[test]
fn negative_quantity_is_a_burn_of_its_magnitude() {
    let group = MintGroup {
        policy_id: policy(0x11),
        assets: vec![Asset { name: vec![0x41, 0x42], mint_coin: -5 }],
    };
    let block = Block { header: None, body: Some(Body { tx: vec![tx(0, vec![group])] }), timestamp: 0 };
    let mut log = Vec::new();
    map_blocks(block, &mut log).unwrap();
    assert!(log.contains(&LogRecord::Burned { name: "4142".to_string(), amount: 5 }));
    assert!(!log.iter().any(|r| matches!(r, LogRecord::Minted { .. })));
}

#[test]
fn most_negative_quantity_burns_its_full_magnitude() {
    let group = MintGroup {
        policy_id: policy(0x22),
        assets: vec![Asset { name: vec![], mint_coin: i64::MIN }],
    };
    let block = Block { header: None, body: Some(Body { tx: vec![tx(0, vec![group])] }), timestamp: 0 };
    let mut log = Vec::new();
    map_blocks(block, &mut log).unwrap();
    assert!(log.contains(&LogRecord::Burned { name: String::new(), amount: 1u64 << 63 }));
}

#[test]
fn zero_quantity_is_neither_mint_nor_burn() {
    let group = MintGroup {
        policy_id: policy(0x33),
        assets: vec![
            Asset { name: vec![1], mint_coin: 0 },
            Asset { name: vec![2], mint_coin: 3 },
        ],
    };
    let block = Block { header: None, body: Some(Body { tx: vec![tx(0, vec![group])] }), timestamp: 0 };
    let mut log = Vec::new();
    map_blocks(block, &mut log).unwrap();
    let policy_hex = "33".repeat(28);
    assert_eq!(
        log,
        vec![
            LogRecord::MissingHeader,
            LogRecord::TransactionCount { count: 1 },
            LogRecord::Transaction { index: 0, inputs: 1, outputs: 0, fee: 170000 },
            LogRecord::MintPolicy { policy: policy_hex },
            LogRecord::Minted { name: "02".to_string(), amount: 3 },
            LogRecord::Timestamp { seconds: 0 },
        ]
    );
}

#[test]
fn bare_transaction_gives_only_its_summary() {
    let t = Transaction { inputs: vec![], outputs: vec![], fee: 0, mint: vec![] };
    let block = Block {
        header: Some(Header { slot: 1, hash: hash(0) }),
        body: Some(Body { tx: vec![t] }),
        timestamp: 5,
    };
    let mut log = Vec::new();
    map_blocks(block, &mut log).unwrap();
    assert_eq!(log.len(), 4);
    assert_eq!(log[1], LogRecord::TransactionCount { count: 1 });
    assert_eq!(log[2], LogRecord::Transaction { index: 0, inputs: 0, outputs: 0, fee: 0 });
}

#[test]
fn records_follow_block_order_and_count() {
    let block = Block {
        header: Some(Header { slot: 100, hash: hash(9) }),
        body: Some(Body { tx: vec![tx(2, vec![]), tx(0, vec![]), tx(1, vec![])] }),
        timestamp: 77,
    };
    let mut log = Vec::new();
    map_blocks(block.clone(), &mut log).unwrap();
    let tx_records: Vec<&LogRecord> =
        log.iter().filter(|r| matches!(r, LogRecord::Transaction { .. })).collect();
    assert_eq!(
        tx_records,
        vec![
            &LogRecord::Transaction { index: 0, inputs: 1, outputs: 2, fee: 170000 },
            &LogRecord::Transaction { index: 1, inputs: 1, outputs: 0, fee: 170000 },
            &LogRecord::Transaction { index: 2, inputs: 1, outputs: 1, fee: 170000 },
        ]
    );
    let outputs: Vec<&LogRecord> =
        log.iter().filter(|r| matches!(r, LogRecord::Output { .. })).collect();
    assert_eq!(
        outputs,
        vec![
            &LogRecord::Output { index: 0, coin: 1000 },
            &LogRecord::Output { index: 1, coin: 1001 },
            &LogRecord::Output { index: 0, coin: 1000 },
        ]
    );
    assert_eq!(log.last(), Some(&LogRecord::Timestamp { seconds: 77 }));
}

#[test]
fn body_is_walked_without_a_header() {
    let block = Block { header: None, body: Some(Body { tx: vec![tx(1, vec![])] }), timestamp: 3 };
    let mut log = Vec::new();
    map_blocks(block, &mut log).unwrap();
    assert_eq!(
        log,
        vec![
            LogRecord::MissingHeader,
            LogRecord::TransactionCount { count: 1 },
            LogRecord::Transaction { index: 0, inputs: 1, outputs: 1, fee: 170000 },
            LogRecord::Output { index: 0, coin: 1000 },
            LogRecord::Timestamp { seconds: 3 },
        ]
    );
}

#[test]
fn short_hash_is_refused_without_records() {
    let block = Block { header: Some(Header { slot: 1, hash: vec![1, 2, 3] }), body: None, timestamp: 0 };
    let mut log = vec![LogRecord::MissingHeader];
    assert_eq!(map_blocks(block, &mut log), Err(HandlerError::InvalidBlock));
    assert_eq!(log, vec![LogRecord::MissingHeader]);
}

#[test]
fn short_policy_is_refused() {
    let group = MintGroup { policy_id: vec![0; 27], assets: vec![] };
    let block = Block { header: None, body: Some(Body { tx: vec![tx(0, vec![group])] }), timestamp: 0 };
    let mut log = Vec::new();
    assert_eq!(map_blocks(block.clone(), &mut log), Err(HandlerError::InvalidBlock));
    assert!(log.is_empty());
    assert!(!block.is_valid());
}
