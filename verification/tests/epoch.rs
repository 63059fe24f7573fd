use accum_node::block::BlockHeader;
use accum_node::epoch::{calculate_next_target, Epoch, EpochManager};
use accum_node::error::Error;
use accum_node::types::Target;

fn header_at(timestamp: u64, nonce: u64, epoch_index: u32, target: Target) -> BlockHeader {
    BlockHeader {
        version: 1,
        prev_hash: [0u8; 32],
        merkle_root: [0u8; 32],
        timestamp,
        difficulty: target,
        nonce,
        epoch_index,
    }
}

#[test]
fn test_epoch_creation() {
    let target = Target([0xFF; 32]);
    let epoch = Epoch::new(1, 0, 1741353600, target);

    assert_eq!(epoch.index, 1);
    assert_eq!(epoch.start_block, 0);
    assert_eq!(epoch.end_block, 1439);
    assert!(epoch.contains_block(1000));
    assert!(!epoch.contains_block(1500));
}

#[test]
fn test_timestamp_verification() {
    let target = Target([0xFF; 32]);
    let mut manager = EpochManager::new(target);

    // Add 11 blocks with increasing timestamps
    for i in 0..11 {
        let header = header_at(1741353600 + i * 60, i, 1, target);
        let _ = manager.add_block(&header);
    }

    // Timestamp should be > median of last 11
    assert!(manager.verify_timestamp(1741353600 + 11 * 60 + 1));
    assert!(!manager.verify_timestamp(1741353600)); // Too old
}

#[test]
fn epoch_share_target_is_block_target_shifted() {
    let mut bytes = [0u8; 32];
    bytes[0] = 0x00;
    bytes[1] = 0x0F;
    bytes[2] = 0xAB;
    bytes[31] = 0x01;
    let epoch = Epoch::new(3, 2880, 100, Target(bytes));
    let mut expected = [0u8; 32];
    expected[0] = 0x0F;
    expected[1] = 0xAB;
    expected[30] = 0x01;
    assert_eq!(epoch.target_share.0, expected);
    assert_eq!(epoch.end_block, 2880 + 1439);
    assert_eq!(epoch.end_time, None);
    assert_eq!(epoch.total_shares, 0);
}

#[test]
fn epoch_end_and_stats() {
    let mut epoch = Epoch::new(1, 0, 10, Target([0x11; 32]));
    epoch.end(500);
    epoch.update_stats(42, 7);
    assert_eq!(epoch.end_time, Some(500));
    assert_eq!(epoch.total_shares, 42);
    assert_eq!(epoch.active_miners, 7);
    assert_eq!(epoch.start_time, 10);
}

#[test]
fn block_of_another_epoch_is_refused() {
    let target = Target([0xFF; 32]);
    let mut manager = EpochManager::new(target);
    let header = header_at(1741353600, 1, 2, target);
    assert_eq!(manager.add_block(&header), Err(Error::InvalidEpoch));
    assert_eq!(manager.current().unwrap().index, 1);
}

#[test]
fn timestamp_at_median_is_refused() {
    let target = Target([0xFF; 32]);
    let mut manager = EpochManager::new(target);
    for i in 0..11u64 {
        let header = header_at(1000 + i * 10, i, 1, target);
        assert_eq!(manager.add_block(&header), Ok(()));
    }
    // the median of 1000, 1010, .., 1100 is 1050
    let at_median = header_at(1050, 11, 1, target);
    assert_eq!(manager.add_block(&at_median), Err(Error::InvalidTimestamp));
    let after_median = header_at(1051, 11, 1, target);
    assert_eq!(manager.add_block(&after_median), Ok(()));
}

#[test]
fn full_epoch_starts_the_next() {
    let target = Target([0x40; 32]);
    let mut manager = EpochManager::new(target);
    // 1440 blocks one minute apart: the last 120 took 119 minutes
    for i in 0..1440u64 {
        let header = header_at(1_000_000 + i * 60, i, 1, target);
        assert!(manager.can_add_block(&header));
        assert_eq!(manager.add_block_at(&header, 9_999), Ok(()));
    }
    let first = manager.get_epoch(1).unwrap();
    assert_eq!(first.end_time, Some(9_999));
    let second = manager.current().unwrap();
    assert_eq!(second.index, 2);
    assert_eq!(second.start_time, 9_999);
    // the last block was recorded at height 1 * 1440 + 1439
    assert_eq!(second.start_block, 1440 + 1439 + 1);
    // 7140 s over 7200 s: the whole target times 7140 / 7200, rounded down
    assert_eq!(&second.target_block.0[0..6], &[0x3F, 0xB7, 0x2E, 0xA6, 0x1D, 0x95]);
    assert_eq!(manager.share_pool().stats().current_epoch, 2);
    assert!(manager.get_epoch(3).is_none());
}

#[test]
fn each_epoch_ends_after_its_own_1440_blocks() {
    let target = Target([0x40; 32]);
    let mut manager = EpochManager::new(target);
    let mut t = 1_000_000u64;
    for i in 0..1440u64 {
        t += 60;
        assert_eq!(manager.add_block_at(&header_at(t, i, 1, target), 5), Ok(()));
    }
    assert_eq!(manager.current().unwrap().index, 2);
    let next = manager.current().unwrap().target_block;
    // the 1441st block is the first of epoch 2 and ends nothing
    t += 60;
    assert_eq!(manager.add_block_at(&header_at(t, 0, 2, next), 6), Ok(()));
    assert_eq!(manager.current().unwrap().index, 2);
    for i in 1..1439u64 {
        t += 60;
        assert_eq!(manager.add_block_at(&header_at(t, i, 2, next), 6), Ok(()));
    }
    assert_eq!(manager.current().unwrap().index, 2);
    // the 1440th block of epoch 2 ends it
    t += 60;
    assert_eq!(manager.add_block_at(&header_at(t, 1439, 2, next), 7), Ok(()));
    assert_eq!(manager.current().unwrap().index, 3);
    assert_eq!(manager.get_epoch(2).unwrap().end_time, Some(7));
}

#[test]
fn next_target_needs_120_blocks() {
    let target = Target([0x80; 32]);
    let few: Vec<u64> = (0..119u64).map(|i| i * 30).collect();
    assert_eq!(calculate_next_target(&few, target).0, target.0);
    let many: Vec<u64> = (0..120u64).map(|i| i * 30).collect();
    // 3570 s is clamped to 5400 s: 0x80 * 0.75 = 0x60
    assert_eq!(calculate_next_target(&many, target).0[0], 0x60);
}
