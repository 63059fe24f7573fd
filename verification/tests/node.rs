use accum_node::block::BlockHeader;
use accum_node::error::Error;
use accum_node::node::{below_target_bytewise, block_header_for, check_block_link, window_start};
use accum_node::types::Target;

#[test]
fn wrong_previous_hash_is_refused_first() {
    let header = BlockHeader {
        version: 1,
        prev_hash: [1u8; 32],
        merkle_root: [0u8; 32],
        timestamp: 1741353600,
        difficulty: Target([0x00; 32]),
        nonce: 0,
        epoch_index: 1,
    };
    assert_eq!(check_block_link(&header, &[2u8; 32]), Err(Error::InvalidPrevHash));
}

#[test]
fn bytewise_test_needs_every_byte_below() {
    let target = Target([0x10; 32]);
    assert!(below_target_bytewise(&[0x0F; 32], &target));
    let mut hash = [0x0Fu8; 32];
    hash[31] = 0x10;
    assert!(!below_target_bytewise(&hash, &target));
    let mut lower_first = [0x0Fu8; 32];
    lower_first[0] = 0x00;
    lower_first[5] = 0x20;
    assert!(!below_target_bytewise(&lower_first, &target));
}

#[test]
fn timestamp_window() {
    assert_eq!(window_start(500, 121), 380);
    assert_eq!(window_start(121, 121), 0);
    assert_eq!(window_start(10, 121), 0);
}

#[test]
fn proof_of_work_is_checked_against_own_target() {
    let easy = BlockHeader {
        version: 1,
        prev_hash: [2u8; 32],
        merkle_root: [0u8; 32],
        timestamp: 1741353600,
        difficulty: Target([0xFF; 32]),
        nonce: 0,
        epoch_index: 1,
    };
    assert_eq!(check_block_link(&easy, &[2u8; 32]), Ok(()));
}

#[test]
fn hash_above_own_target_is_refused() {
    let impossible = BlockHeader {
        version: 1,
        prev_hash: [2u8; 32],
        merkle_root: [0u8; 32],
        timestamp: 1741353600,
        difficulty: Target([0x00; 32]),
        nonce: 0,
        epoch_index: 1,
    };
    assert_eq!(check_block_link(&impossible, &[2u8; 32]), Err(Error::InvalidProofOfWork));
}

#[test]
fn header_for_mining() {
    let h = block_header_for([8u8; 32], 1234, Target([0x0F; 32]), 77, 3);
    assert_eq!(h.version, 1);
    assert_eq!(h.prev_hash, [8u8; 32]);
    assert_eq!(h.merkle_root, [0u8; 32]);
    assert_eq!(h.timestamp, 1234);
    assert_eq!(h.difficulty.0, [0x0F; 32]);
    assert_eq!(h.nonce, 77);
    assert_eq!(h.epoch_index, 3);
}
