use accum_node::block::BlockHeader;
use accum_node::error::Error;
use accum_node::share::{target_share_from_block, SharePacket, SharePool};
use accum_node::types::Target;

fn share(miner: u8, hash_byte: u8) -> SharePacket {
    let header = BlockHeader {
        version: 1,
        prev_hash: [0u8; 32],
        merkle_root: [0u8; 32],
        timestamp: 1741353600,
        difficulty: Target([0xFF; 32]),
        nonce: 0,
        epoch_index: 1,
    };
    SharePacket { miner_id: [miner; 20], header, nonce: 0, hash: [hash_byte; 32] }
}

#[test]
fn share_pool_counts_per_miner() {
    let mut pool = SharePool::new();
    assert_eq!(pool.add_share(share(1, 1)), Ok(()));
    assert_eq!(pool.add_share(share(2, 2)), Ok(()));
    assert_eq!(pool.add_share(share(1, 3)), Ok(()));
    assert_eq!(pool.total_shares(), 3);
    assert_eq!(pool.miner_share_count(&[1u8; 20]), 2);
    assert_eq!(pool.miners(), vec![[1u8; 20], [2u8; 20]]);
    assert_eq!(pool.get_miner_shares(&[2u8; 20]).unwrap()[0].hash, [2u8; 32]);
    pool.clear();
    assert_eq!(pool.total_shares(), 0);
    assert!(pool.miners().is_empty());
}

#[test]
fn share_limit_per_miner() {
    let mut pool = SharePool::new();
    for i in 0..5000u32 {
        assert_eq!(pool.add_share(share(4, (i % 251) as u8)), Ok(()));
    }
    assert_eq!(pool.add_share(share(4, 0)), Err(Error::InvalidShare));
    assert_eq!(pool.add_share(share(5, 0)), Ok(()));
    assert_eq!(pool.miner_share_count(&[4u8; 20]), 5000);
}

#[test]
fn ban_above_thirty_percent_invalid() {
    let mut pool = SharePool::new();
    let m = [7u8; 20];
    assert!(!pool.should_ban(m));
    for _ in 0..7 {
        pool.track_valid(m);
    }
    for _ in 0..3 {
        pool.track_invalid(m);
    }
    // exactly 30% is not above the limit
    assert!(!pool.should_ban(m));
    pool.track_invalid(m);
    assert!(pool.should_ban(m));
}

#[test]
fn share_target_is_one_byte_easier_shift() {
    let mut bytes = [0u8; 32];
    bytes[3] = 0x01;
    bytes[31] = 0xEE;
    let share_target = target_share_from_block(&Target(bytes));
    let mut expected = [0u8; 32];
    expected[2] = 0x01;
    expected[30] = 0xEE;
    assert_eq!(share_target.0, expected);
}

#[test]
fn share_failing_prefilter_is_invalid() {
    // with a pre-filter target of zero almost every share is refused early
    let s = share(1, 0);
    assert_eq!(s.validate(&Target([0xFF; 32])), Err(Error::InvalidShare));
}

#[test]
fn new_share_takes_the_nonce() {
    let header = BlockHeader {
        version: 1,
        prev_hash: [4u8; 32],
        merkle_root: [5u8; 32],
        timestamp: 1741353600,
        difficulty: Target([0xFF; 32]),
        nonce: 0,
        epoch_index: 1,
    };
    let s = SharePacket::new([6u8; 20], header, 5);
    assert_eq!(s.nonce, 5);
    assert_eq!(s.header.nonce, 5);
    assert_eq!(s.header.prev_hash, [4u8; 32]);
    assert_ne!(s.hash, [0u8; 32]);
}
