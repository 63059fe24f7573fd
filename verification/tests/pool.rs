use accum_node::block::BlockHeader;
use accum_node::crypto::argon2id_hash;
use accum_node::error::Error;
use accum_node::pool::{merkle_root, PersistentSharePool};
use accum_node::share::SharePacket;
use accum_node::types::{Hash32, Target};

const ROOT_OF_1_2: [u8; 32] = [
    248, 24, 175, 211, 122, 109, 195, 188, 146, 251, 68, 115, 16, 17, 39, 112, 6, 219, 78, 250,
    110, 144, 35, 205, 116, 104, 192, 35, 53, 210, 42, 77,
];

const ROOT_OF_1_2_3: [u8; 32] = [
    4, 121, 208, 111, 188, 139, 214, 103, 214, 197, 62, 62, 194, 41, 133, 143, 194, 123, 184,
    216, 131, 1, 84, 120, 162, 146, 117, 115, 56, 87, 103, 151,
];

fn header(epoch_index: u32) -> BlockHeader {
    BlockHeader {
        version: 1,
        prev_hash: [0u8; 32],
        merkle_root: [0u8; 32],
        timestamp: 1741353600,
        difficulty: Target([0xFF; 32]),
        nonce: 0,
        epoch_index,
    }
}

fn share(miner: u8, hash: Hash32, epoch_index: u32) -> SharePacket {
    SharePacket { miner_id: [miner; 20], header: header(epoch_index), nonce: 0, hash }
}

#[test]
fn test_merkle_root() {
    let hash1 = [1u8; 32];
    let hash2 = [2u8; 32];
    let hash3 = [3u8; 32];

    let root = merkle_root(&[hash1, hash2, hash3]);
    assert_ne!(root, [0u8; 32]);
}

#[test]
fn test_pool_operations() {
    let mut pool = PersistentSharePool::new(500);

    // Create dummy share
    let header = BlockHeader {
        version: 1,
        prev_hash: [0u8; 32],
        merkle_root: [0u8; 32],
        timestamp: 1741353600,
        difficulty: Target([0xFF; 32]),
        nonce: 0,
        epoch_index: 1,
    };

    let share = SharePacket {
        miner_id: [1u8; 20],
        header,
        nonce: 0,
        hash: argon2id_hash(b"test"),
    };

    // Add share
    assert!(pool.add_share(share).is_ok());
    assert_eq!(pool.total_shares(), 1);

    // Create epoch commit
    let commit = pool.create_epoch_commit();
    assert_eq!(commit.epoch_index, 1);

    // New epoch
    pool.new_epoch();
    assert_eq!(pool.total_shares(), 0);
}

#[test]
fn merkle_root_values() {
    assert_eq!(merkle_root(&[]), [0u8; 32]);
    assert_eq!(merkle_root(&[[7u8; 32]]), [7u8; 32]);
    assert_eq!(merkle_root(&[[1u8; 32], [2u8; 32]]), ROOT_OF_1_2);
    assert_eq!(merkle_root(&[[1u8; 32], [2u8; 32], [3u8; 32]]), ROOT_OF_1_2_3);
}

#[test]
fn pool_root_does_not_depend_on_arrival_order() {
    let mut a = PersistentSharePool::new(1);
    let mut b = PersistentSharePool::new(1);
    assert_eq!(a.add_share(share(1, [3u8; 32], 1)), Ok(()));
    assert_eq!(a.add_share(share(2, [1u8; 32], 1)), Ok(()));
    assert_eq!(a.add_share(share(1, [2u8; 32], 1)), Ok(()));
    assert_eq!(b.add_share(share(2, [1u8; 32], 1)), Ok(()));
    assert_eq!(b.add_share(share(1, [2u8; 32], 1)), Ok(()));
    assert_eq!(b.add_share(share(1, [3u8; 32], 1)), Ok(()));
    assert_eq!(a.compute_merkle_root(), ROOT_OF_1_2_3);
    assert_eq!(b.compute_merkle_root(), ROOT_OF_1_2_3);
    assert!(a.check_consistency(&b.compute_merkle_root()));
    assert!(!a.check_consistency(&[0u8; 32]));
}

#[test]
fn duplicate_and_foreign_epoch_shares_are_refused() {
    let mut pool = PersistentSharePool::new(1);
    assert_eq!(pool.add_share(share(1, [5u8; 32], 1)), Ok(()));
    assert_eq!(pool.add_share(share(2, [5u8; 32], 1)), Err(Error::InvalidShare));
    assert_eq!(pool.add_share(share(2, [6u8; 32], 2)), Err(Error::InvalidShare));
    assert_eq!(pool.total_shares(), 1);
    assert_eq!(pool.miners(), vec![[1u8; 20]]);
}

#[test]
fn shares_are_kept_per_miner() {
    let mut pool = PersistentSharePool::new(1);
    assert_eq!(pool.add_share(share(1, [1u8; 32], 1)), Ok(()));
    assert_eq!(pool.add_share(share(2, [2u8; 32], 1)), Ok(()));
    assert_eq!(pool.add_share(share(1, [3u8; 32], 1)), Ok(()));
    assert_eq!(pool.miner_share_count(&[1u8; 20]), 2);
    assert_eq!(pool.miner_share_count(&[2u8; 20]), 1);
    assert_eq!(pool.miner_share_count(&[9u8; 20]), 0);
    let mine = pool.get_miner_shares(&[1u8; 20]).unwrap();
    assert_eq!(mine[0].hash, [1u8; 32]);
    assert_eq!(mine[1].hash, [3u8; 32]);
    assert!(pool.get_miner_shares(&[9u8; 20]).is_none());
    let stats = pool.stats();
    assert_eq!(stats.total_shares, 3);
    assert_eq!(stats.total_miners, 2);
    assert_eq!(stats.current_epoch, 1);
}

#[test]
fn shares_batch_skips_and_limits() {
    let mut pool = PersistentSharePool::new(1);
    for i in 0..5u8 {
        assert_eq!(pool.add_share(share(1, [10 + i; 32], 1)), Ok(()));
    }
    for i in 0..3u8 {
        assert_eq!(pool.add_share(share(2, [20 + i; 32], 1)), Ok(()));
    }
    let batch = pool.get_shares_batch(&[[1u8; 20], [2u8; 20]], 1, 2);
    let hashes: Vec<Hash32> = batch.iter().map(|s| s.hash).collect();
    assert_eq!(hashes, vec![[11u8; 32], [12u8; 32], [21u8; 32], [22u8; 32]]);
}

#[test]
fn epoch_commit_is_recorded() {
    let mut pool = PersistentSharePool::new(1);
    assert_eq!(pool.add_share(share(1, [1u8; 32], 1)), Ok(()));
    assert_eq!(pool.add_share(share(1, [2u8; 32], 1)), Ok(()));
    let commit = pool.create_epoch_commit_at(777);
    assert_eq!(commit.epoch_index, 1);
    assert_eq!(commit.timestamp, 777);
    assert_eq!(commit.root, ROOT_OF_1_2);
    assert_eq!(pool.get_epoch_commit(1).unwrap().root, ROOT_OF_1_2);
    assert!(pool.get_epoch_commit(2).is_none());
    pool.new_epoch();
    assert_eq!(pool.stats().current_epoch, 2);
    assert_eq!(pool.get_epoch_commit(1).unwrap().timestamp, 777);
    assert_eq!(pool.add_share(share(1, [1u8; 32], 1)), Err(Error::InvalidShare));
    assert_eq!(pool.add_share(share(1, [1u8; 32], 2)), Ok(()));
}

fn timed_share(miner: u8, n: u32, timestamp: u64) -> SharePacket {
    let mut hash = [0u8; 32];
    hash[0] = miner;
    hash[1..5].copy_from_slice(&n.to_be_bytes());
    let mut h = header(1);
    h.timestamp = timestamp;
    SharePacket { miner_id: [miner; 20], header: h, nonce: 0, hash }
}

#[test]
fn full_pool_spills_earliest_share_and_ignores_shares_over_limit() {
    let capacity = (1024 * 1024) / std::mem::size_of::<SharePacket>();
    let mut pool = PersistentSharePool::new(1);
    // miner 2's only share is the earliest
    assert_eq!(pool.add_share(timed_share(2, 0, 5)), Ok(()));
    // miner 1 reaches the limit
    for n in 0..5000u32 {
        assert_eq!(pool.add_share(timed_share(1, n, 1000 + n as u64)), Ok(()));
    }
    // miner 3 fills the pool
    let mut n = 0u32;
    while pool.total_shares() < capacity {
        assert_eq!(pool.add_share(timed_share(3, n, 9000 + n as u64)), Ok(()));
        n += 1;
    }
    // a share over miner 1's limit is ignored: nothing is spilled for it
    assert_eq!(pool.add_share(timed_share(1, 5000, 20_000)), Err(Error::InvalidShare));
    assert_eq!(pool.total_shares(), capacity);
    assert_eq!(pool.miner_share_count(&[2u8; 20]), 1);
    // the next share makes room by dropping the earliest share, miner 2's
    assert_eq!(pool.add_share(timed_share(3, n, 20_000)), Ok(()));
    assert_eq!(pool.total_shares(), capacity);
    assert_eq!(pool.miner_share_count(&[2u8; 20]), 0);
    assert_eq!(pool.miner_share_count(&[1u8; 20]), 5000);
    // then the next earliest, miner 1's first
    assert_eq!(pool.add_share(timed_share(3, n + 1, 20_001)), Ok(()));
    assert_eq!(pool.miner_share_count(&[1u8; 20]), 4999);
    assert_eq!(pool.get_miner_shares(&[1u8; 20]).unwrap()[0].header.timestamp, 1001);
}
