use accum_node::block::{Block, Transaction, TxIn, TxOut};
use accum_node::genesis::{
    calculate_genesis_merkle_root, create_genesis_block, create_genesis_coinbase,
    create_genesis_header, genesis_block_hash, verify_genesis_block, GENESIS_OUTPUT_SCRIPT,
};

const EXPECTED_GENESIS_ROOT: [u8; 32] = [
    205, 2, 162, 242, 25, 189, 175, 118, 17, 176, 166, 123, 56, 42, 73, 81, 175, 19, 242, 166,
    82, 33, 124, 118, 168, 254, 73, 198, 132, 112, 173, 54,
];

#[test]
fn test_genesis_creation() {
    let block = create_genesis_block();
    assert!(verify_genesis_block(&block));
}

#[test]
fn test_genesis_hash() {
    let hash = genesis_block_hash();
    assert_ne!(hash, [0u8; 32]);
}

#[test]
fn test_genesis_merkle_root() {
    let root = calculate_genesis_merkle_root();
    assert_ne!(root, [0u8; 32]);
}

#[test]
fn genesis_merkle_root_is_sha256_of_coinbase() {
    assert_eq!(calculate_genesis_merkle_root(), EXPECTED_GENESIS_ROOT);
    assert_eq!(create_genesis_header().merkle_root, EXPECTED_GENESIS_ROOT);
}

#[test]
fn genesis_coinbase_fields() {
    let tx = create_genesis_coinbase();
    assert_eq!(tx.version, 1);
    assert_eq!(tx.inputs.len(), 1);
    assert_eq!(tx.inputs[0].prev_txid, [0u8; 32]);
    assert_eq!(tx.inputs[0].prev_index, 0xFFFF_FFFF);
    assert_eq!(tx.outputs.len(), 1);
    assert_eq!(tx.outputs[0].value, 500_000_000);
    assert_eq!(tx.outputs[0].script_pubkey, GENESIS_OUTPUT_SCRIPT.to_vec());
    assert_eq!(tx.locktime, 0);
}

#[test]
fn altered_genesis_is_refused() {
    let mut block = create_genesis_block();
    block.header.nonce = 1;
    assert!(!verify_genesis_block(&block));

    let mut block = create_genesis_block();
    block.header.merkle_root[0] ^= 1;
    assert!(!verify_genesis_block(&block));

    let mut block = create_genesis_block();
    block.transactions[0].outputs[0].value = 1;
    assert!(!verify_genesis_block(&block));

    let mut block = create_genesis_block();
    let extra = Transaction {
        version: 1,
        inputs: vec![TxIn { prev_txid: [1u8; 32], prev_index: 0, script_sig: vec![], sequence: 0 }],
        outputs: vec![TxOut { value: 1, script_pubkey: vec![0x51] }],
        locktime: 0,
    };
    block.transactions.push(extra);
    assert!(!verify_genesis_block(&block));

    let header = create_genesis_header();
    let empty = Block { header, transactions: vec![] };
    assert!(!verify_genesis_block(&empty));
}
