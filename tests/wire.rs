use cardano_substreams::block::{Asset, Block, Body, Header, Input, MintGroup, Output, Transaction};
use cardano_substreams::wire::{decode, encode, DecodeError};

fn sample_block() -> Block {
    Block {
        header: Some(Header { slot: 123_456_789, hash: (0..32).collect() }),
        body: Some(Body {
            tx: vec![
                Transaction {
                    inputs: vec![
                        Input { tx_hash: vec![0xaa; 32], index: 0 },
                        Input { tx_hash: vec![0xbb; 32], index: 3 },
                    ],
                    outputs: vec![Output { coin: 2_000_000 }, Output { coin: u64::MAX }],
                    fee: 180_000,
                    mint: vec![MintGroup {
                        policy_id: vec![0x5c; 28],
                        assets: vec![
                            Asset { name: b"TOKEN".to_vec(), mint_coin: 1000 },
                            Asset { name: vec![], mint_coin: -5 },
                            Asset { name: vec![0], mint_coin: 0 },
                            Asset { name: vec![1], mint_coin: i64::MIN },
                        ],
                    }],
                },
                Transaction { inputs: vec![], outputs: vec![], fee: 0, mint: vec![] },
            ],
        }),
        timestamp: 1_700_000_000,
    }
}

#[test]
fn round_trip_full_block() {
    let b = sample_block();
    assert_eq!(decode(&encode(&b)), Ok(b));
}

#[test]
fn round_trip_header_only() {
    let b = Block { header: Some(Header { slot: 0, hash: vec![0; 32] }), body: None, timestamp: 0 };
    assert_eq!(decode(&encode(&b)), Ok(b));
}

#[test]
fn empty_block_encoding_is_exact() {
    let b = Block { header: None, body: None, timestamp: 0x0102 };
    let bytes = encode(&b);
    assert_eq!(bytes, vec![0, 0, 0, 0, 0, 0, 0, 0, 0x01, 0x02]);
    assert_eq!(decode(&bytes), Ok(b));
}

#[test]
fn header_encoding_is_exact() {
    let b = Block { header: Some(Header { slot: 5, hash: vec![0xee; 32] }), body: None, timestamp: 1 };
    let bytes = encode(&b);
    let mut expected = vec![1, 0, 0, 0, 0, 0, 0, 0, 5, 0, 0, 0, 0, 0, 0, 0, 32];
    expected.extend(vec![0xee; 32]);
    expected.extend(vec![0, 0, 0, 0, 0, 0, 0, 0, 1]);
    assert_eq!(bytes, expected);
}

#[test]
fn empty_input_is_truncated() {
    assert_eq!(decode(&[]), Err(DecodeError::Truncated));
}

#[test]
fn every_proper_prefix_is_refused() {
    let bytes = encode(&sample_block());
    for n in 0..bytes.len() {
        assert!(decode(&bytes[..n]).is_err(), "prefix of length {} decoded", n);
    }
}

#[test]
fn bad_presence_flag_is_refused() {
    assert_eq!(decode(&[2, 0, 0, 0, 0, 0, 0, 0, 0, 0]), Err(DecodeError::BadPresenceFlag));
    assert_eq!(decode(&[0, 7, 0, 0, 0, 0, 0, 0, 0, 0]), Err(DecodeError::BadPresenceFlag));
}

#[test]
fn trailing_bytes_are_refused() {
    let mut bytes = encode(&sample_block());
    bytes.push(0);
    assert_eq!(decode(&bytes), Err(DecodeError::TrailingBytes));
}

#[test]
fn wrong_hash_length_is_refused() {
    let b = Block { header: Some(Header { slot: 5, hash: vec![1; 31] }), body: None, timestamp: 1 };
    assert_eq!(decode(&encode(&b)), Err(DecodeError::BadDigestLength));
}

#[test]
fn wrong_policy_length_is_refused() {
    let mut b = sample_block();
    b.body.as_mut().unwrap().tx[0].mint[0].policy_id = vec![1; 32];
    assert_eq!(decode(&encode(&b)), Err(DecodeError::BadDigestLength));
}

#[test]
fn huge_length_prefix_is_truncated() {
    let mut bytes = vec![1, 0, 0, 0, 0, 0, 0, 0, 0];
    bytes.extend(vec![0xff; 8]);
    assert_eq!(decode(&bytes), Err(DecodeError::Truncated));
}
