use accum_node::block::BlockHeader;
use accum_node::error::Error;
use accum_node::miner::{
    bonds_total, cleanup_bond_list, invalid_ratio_exceeded, new_bond, BondEntry, EquivocationProof,
};
use accum_node::types::Target;

fn bond(amount: u64, locked_until: u64) -> BondEntry {
    BondEntry { amount, locked_until, created_at: 0 }
}

#[test]
fn bond_below_minimum_is_refused() {
    assert_eq!(new_bond(9_999_999, 100).unwrap_err(), Error::InsufficientInput);
    let b = new_bond(10_000_000, 100).unwrap();
    assert_eq!(b.amount, 10_000_000);
    assert_eq!(b.created_at, 100);
    assert_eq!(b.locked_until, 100 + 20_160);
}

#[test]
fn expired_bonds_are_dropped_in_order() {
    let mut bonds = vec![bond(10, 5), bond(20, 50), bond(30, 6), bond(40, 100)];
    assert_eq!(bonds_total(&bonds), 100);
    let recorded = cleanup_bond_list(&mut bonds, 6, 999);
    let kept: Vec<u64> = bonds.iter().map(|b| b.amount).collect();
    assert_eq!(kept, vec![20, 40]);
    assert_eq!(recorded, 60);
}

#[test]
fn unchanged_bonds_keep_recorded_total() {
    let mut bonds = vec![bond(10, 50), bond(20, 60)];
    let recorded = cleanup_bond_list(&mut bonds, 10, 12345);
    assert_eq!(bonds.len(), 2);
    assert_eq!(recorded, 12345);
}

#[test]
fn ban_ratio_rule() {
    assert!(!invalid_ratio_exceeded(0, 0));
    assert!(!invalid_ratio_exceeded(3, 10));
    assert!(invalid_ratio_exceeded(4, 10));
    assert!(invalid_ratio_exceeded(1, 3));
    assert!(!invalid_ratio_exceeded(30, 100));
    assert!(invalid_ratio_exceeded(31, 100));
}

fn sample_header() -> BlockHeader {
    BlockHeader {
        version: 1,
        prev_hash: [0u8; 32],
        merkle_root: [0u8; 32],
        timestamp: 1741353600,
        difficulty: Target([0xFF; 32]),
        nonce: 0,
        epoch_index: 1,
    }
}

#[test]
fn same_header_twice_is_no_equivocation() {
    let header = sample_header();
    let same = EquivocationProof { miner_id: [1u8; 20], block_header_a: header, block_header_b: header };
    assert!(!same.verify());
}

#[test]
fn header_missing_its_target_is_no_equivocation() {
    let mut a = sample_header();
    a.difficulty = Target([0x00; 32]);
    let mut b = sample_header();
    b.nonce = 1;
    let proof = EquivocationProof { miner_id: [1u8; 20], block_header_a: a, block_header_b: b };
    assert!(!proof.verify());
}
