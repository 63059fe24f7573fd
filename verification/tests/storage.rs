use accum_node::storage::{block_key, bond_key, epoch_key, is_miner_key, miner_key, share_key, Column};

#[test]
fn column_names() {
    assert_eq!(Column::Blocks.name(), "blocks");
    assert_eq!(Column::Shares.name(), "shares");
    assert_eq!(Column::Miners.name(), "miners");
    assert_eq!(Column::Bonds.name(), "bonds");
    assert_eq!(Column::Peers.name(), "peers");
    assert_eq!(Column::Epochs.name(), "epochs");
    assert_eq!(Column::State.name(), "state");
}

#[test]
fn block_and_epoch_keys() {
    assert_eq!(block_key(0), b"b:0".to_vec());
    assert_eq!(block_key(1234567), format!("b:{}", 1234567).into_bytes());
    assert_eq!(block_key(u64::MAX), format!("b:{}", u64::MAX).into_bytes());
    assert_eq!(epoch_key(42), b"e:42".to_vec());
    assert_eq!(epoch_key(u32::MAX), format!("e:{}", u32::MAX).into_bytes());
}

#[test]
fn miner_and_bond_keys_use_debug_notation() {
    let mut id = [0u8; 20];
    id[0] = 255;
    id[1] = 7;
    id[19] = 10;
    assert_eq!(miner_key(&id), format!("m:{:?}", id).into_bytes());
    let txid = [3u8; 32];
    assert_eq!(bond_key(&id, &txid), format!("bond:{:?}:{:?}", id, txid).into_bytes());
}

#[test]
fn share_key_holds_hex_hash() {
    let id = [1u8; 20];
    let mut hash = [0u8; 32];
    hash[0] = 0xAB;
    hash[31] = 0x0F;
    let expected = format!("s:{}:{:?}:{}", 9, id, hex::encode(hash)).into_bytes();
    assert_eq!(share_key(9, &id, &hash), expected);
    let text = String::from_utf8(share_key(9, &id, &hash)).unwrap();
    assert!(text.ends_with("0f"));
    assert!(text.contains(":ab00"));
}

#[test]
fn miner_keys_are_recognised() {
    assert!(is_miner_key(b"m:[1, 2]"));
    assert!(!is_miner_key(b"b:1"));
    assert!(!is_miner_key(b"m"));
}
