//! Genesis block configuration

use crate::block::{header_bytes, header_hash, transaction_bytes, tx_bytes, Block, BlockHeader, Transaction, TxIn, TxOut};
use crate::crypto::{argon2id_hash, pow_hash, sha256, sha256_digest};
use crate::encoding::{le_bytes, push_all};
use crate::types::{bytes32_eq, Hash32, Target};
use vstd::prelude::*;

verus! {

/// Genesis block timestamp (2026-03-09 00:00:00 UTC)
pub const GENESIS_TIMESTAMP: u64 = 1741353600;

/// Genesis block difficulty (minimum difficulty)
pub const GENESIS_DIFFICULTY: [u8; 32] = [
    0x00, 0x00, 0x00, 0x00, 0xFF, 0xFF, 0xFF, 0xFF,
    0xFF, 0xFF, 0xFF, 0xFF, 0xFF, 0xFF, 0xFF, 0xFF,
    0xFF, 0xFF, 0xFF, 0xFF, 0xFF, 0xFF, 0xFF, 0xFF,
    0xFF, 0xFF, 0xFF, 0xFF, 0xFF, 0xFF, 0xFF, 0xFF,
];

/// Genesis output value (50 ACM)
pub const GENESIS_OUTPUT_VALUE: u64 = 500_000_000;

/// Genesis output script (unspendable)
pub const GENESIS_OUTPUT_SCRIPT: [u8; 25] = [
    0x76, 0xa9, 0x14, 0x62, 0xe9, 0x07, 0xb1, 0x5c,
    0xbf, 0x27, 0xd5, 0x42, 0x53, 0x99, 0xeb, 0xf6,
    0xf0, 0xfb, 0x50, 0xeb, 0xb8, 0x8f, 0x18, 0x88, 0xac,
];

/// Genesis block prev_hash (all zeros)
pub const GENESIS_PREV_HASH: [u8; 32] = [
    0x00, 0x00, 0x00, 0x00, 0x00, 0x00, 0x00, 0x00,
    0x00, 0x00, 0x00, 0x00, 0x00, 0x00, 0x00, 0x00,
    0x00, 0x00, 0x00, 0x00, 0x00, 0x00, 0x00, 0x00,
    0x00, 0x00, 0x00, 0x00, 0x00, 0x00, 0x00, 0x00,
];

/// 32 zero bytes.
pub open spec fn zeros32() -> Seq<u8> {
    Seq::new(32, |i: int| 0u8)
}

/// The bytes of the genesis coinbase transaction: version 1, one input
/// spending nothing (zero txid, index and sequence 0xFFFFFFFF, empty script),
/// one output of 50 ACM to the unspendable script, lock time 0.
pub open spec fn genesis_coinbase_bytes() -> Seq<u8> {
    le_bytes(1, 4) + le_bytes(1, 8) + (zeros32() + le_bytes(0xFFFF_FFFF, 4) + (le_bytes(0, 8)
        + Seq::<u8>::empty()) + le_bytes(0xFFFF_FFFF, 4)) + le_bytes(1, 8) + (le_bytes(
        GENESIS_OUTPUT_VALUE as nat,
        8,
    ) + (le_bytes(25, 8) + GENESIS_OUTPUT_SCRIPT@)) + le_bytes(0, 4)
}

/// The fields of the genesis coinbase: version 1, one input spending nothing
/// (zero txid, index and sequence 0xFFFFFFFF, empty script), one output of
/// 50 ACM to the unspendable script, lock time 0.
pub open spec fn is_genesis_coinbase(t: Transaction) -> bool {
    &&& t.version == 1
    &&& t.locktime == 0
    &&& t.inputs@.len() == 1
    &&& t.inputs@[0].prev_txid@ == zeros32()
    &&& t.inputs@[0].prev_index == 0xFFFF_FFFF
    &&& t.inputs@[0].script_sig@ == Seq::<u8>::empty()
    &&& t.inputs@[0].sequence == 0xFFFF_FFFF
    &&& t.outputs@.len() == 1
    &&& t.outputs@[0].value == GENESIS_OUTPUT_VALUE
    &&& t.outputs@[0].script_pubkey@ == GENESIS_OUTPUT_SCRIPT@
}

/// The genesis merkle root: SHA256 of the coinbase transaction's bytes.
pub open spec fn spec_genesis_merkle_root() -> Seq<u8> {
    sha256_digest(genesis_coinbase_bytes())
}

/// The header fields of the genesis block, given its merkle root.
pub open spec fn is_genesis_header(h: BlockHeader) -> bool {
    &&& h.version == 1
    &&& h.prev_hash@ == zeros32()
    &&& h.merkle_root@ == spec_genesis_merkle_root()
    &&& h.timestamp == GENESIS_TIMESTAMP
    &&& h.difficulty.0@ == GENESIS_DIFFICULTY@
    &&& h.nonce == 0
    &&& h.epoch_index == 1
}

/// What the genesis check accepts: the genesis header fields, and a single
/// transaction with a single output of the genesis value to the genesis script.
pub open spec fn spec_verify_genesis(b: Block) -> bool {
    &&& is_genesis_header(b.header)
    &&& b.transactions@.len() == 1
    &&& b.transactions@[0].outputs@.len() == 1
    &&& b.transactions@[0].outputs@[0].value == GENESIS_OUTPUT_VALUE
    &&& b.transactions@[0].outputs@[0].script_pubkey@ == GENESIS_OUTPUT_SCRIPT@
}

/// The bytes of the genesis header.
pub open spec fn genesis_header_bytes() -> Seq<u8> {
    le_bytes(1, 4) + zeros32() + spec_genesis_merkle_root() + le_bytes(GENESIS_TIMESTAMP as nat, 8)
        + GENESIS_DIFFICULTY@ + le_bytes(0, 8) + le_bytes(1, 4)
}

/// Genesis coinbase transaction
pub fn create_genesis_coinbase() -> (r: Transaction)
    ensures
        tx_bytes(r) == genesis_coinbase_bytes(),
        is_genesis_coinbase(r),
{
    // Coinbase input
    let tx_in = TxIn {
        prev_txid: [0u8; 32],
        prev_index: 0xFFFFFFFF,
        script_sig: Vec::new(),
        sequence: 0xFFFFFFFF,
    };
    // Genesis output (unspendable)
    let script: [u8; 25] = GENESIS_OUTPUT_SCRIPT;
    let mut script_pubkey: Vec<u8> = Vec::new();
    push_all(&mut script_pubkey, script.as_slice());
    let tx_out = TxOut { value: GENESIS_OUTPUT_VALUE, script_pubkey };
    let mut inputs: Vec<TxIn> = Vec::new();
    inputs.push(tx_in);
    let mut outputs: Vec<TxOut> = Vec::new();
    outputs.push(tx_out);
    let tx = Transaction { version: 1, inputs, outputs, locktime: 0 };
    proof {
        assert(tx.inputs@[0].prev_txid@ =~= zeros32());
        assert(script_pubkey@ =~= GENESIS_OUTPUT_SCRIPT@);
        assert(tx.inputs@.drop_last() =~= Seq::<TxIn>::empty());
        assert(tx.outputs@.drop_last() =~= Seq::<TxOut>::empty());
        assert(Seq::<u8>::empty() + crate::block::txin_bytes(tx_in) =~= crate::block::txin_bytes(
            tx_in,
        ));
        assert(Seq::<u8>::empty() + crate::block::txout_bytes(tx_out)
            =~= crate::block::txout_bytes(tx_out));
        assert(tx.inputs@.last() == tx_in);
        assert(tx.outputs@.last() == tx_out);
        assert(crate::block::txins_bytes(tx.inputs@.drop_last()) == Seq::<u8>::empty());
        assert(crate::block::txouts_bytes(tx.outputs@.drop_last()) == Seq::<u8>::empty());
        assert(crate::block::txins_bytes(tx.inputs@) == crate::block::txin_bytes(tx_in));
        assert(crate::block::txouts_bytes(tx.outputs@) == crate::block::txout_bytes(tx_out));
        assert(tx_in.prev_txid@ =~= zeros32());
        assert(tx_in.script_sig@ =~= Seq::<u8>::empty());
        assert(crate::block::var_bytes(tx_in.script_sig@) =~= le_bytes(0, 8) + Seq::<u8>::empty());
        assert(crate::block::var_bytes(tx_out.script_pubkey@) =~= le_bytes(25, 8)
            + GENESIS_OUTPUT_SCRIPT@);
        assert(crate::block::txin_bytes(tx_in) =~= zeros32() + le_bytes(0xFFFF_FFFF, 4) + (le_bytes(
            0,
            8,
        ) + Seq::<u8>::empty()) + le_bytes(0xFFFF_FFFF, 4));
        assert(tx_bytes(tx) =~= genesis_coinbase_bytes());
    }
    tx
}

/// Calculate genesis merkle root
pub fn calculate_genesis_merkle_root() -> (r: Hash32)
    ensures
        r@ == spec_genesis_merkle_root(),
{
    let coinbase = create_genesis_coinbase();
    let coinbase_bytes = transaction_bytes(&coinbase);
    sha256(coinbase_bytes.as_slice())
}

/// Create genesis block header
pub fn create_genesis_header() -> (r: BlockHeader)
    ensures
        is_genesis_header(r),
        header_bytes(r) == genesis_header_bytes(),
{
    let r = BlockHeader {
        version: 1,
        prev_hash: GENESIS_PREV_HASH,
        merkle_root: calculate_genesis_merkle_root(),
        timestamp: GENESIS_TIMESTAMP,
        difficulty: Target(GENESIS_DIFFICULTY),
        nonce: 0,
        epoch_index: 1,
    };
    assert(r.prev_hash@ =~= zeros32());
    assert(header_bytes(r) =~= genesis_header_bytes());
    r
}

/// Create complete genesis block
pub fn create_genesis_block() -> (r: Block)
    ensures
        is_genesis_header(r.header),
        r.transactions@.len() == 1,
        tx_bytes(r.transactions@[0]) == genesis_coinbase_bytes(),
        is_genesis_coinbase(r.transactions@[0]),
        spec_verify_genesis(r),
{
    let mut transactions: Vec<Transaction> = Vec::new();
    transactions.push(create_genesis_coinbase());
    Block { header: create_genesis_header(), transactions }
}

/// Byte strings compared for equality.
fn bytes_equal(a: &[u8], b: &[u8]) -> (r: bool)
    ensures
        r == (a@ == b@),
{
    if a.len() != b.len() {
        return false;
    }
    let mut i: usize = 0;
    while i < a.len()
        invariant
            a@.len() == b@.len(),
            i <= a@.len(),
            forall|j: int| 0 <= j < i ==> a@[j] == b@[j],
        decreases a@.len() - i,
    {
        if a[i] != b[i] {
            return false;
        }
        i = i + 1;
    }
    assert(a@ =~= b@);
    true
}

/// Verify genesis block
pub fn verify_genesis_block(block: &Block) -> (r: bool)
    ensures
        r == spec_verify_genesis(*block),
{
    // Check version
    if block.header.version != 1 {
        return false;
    }
    // Check prev_hash (must be zero)
    let zero: [u8; 32] = GENESIS_PREV_HASH;
    assert(zero@ =~= zeros32());
    if !bytes32_eq(&block.header.prev_hash, &zero) {
        return false;
    }
    // Check timestamp
    if block.header.timestamp != GENESIS_TIMESTAMP {
        return false;
    }
    // Check difficulty
    let difficulty: [u8; 32] = GENESIS_DIFFICULTY;
    if !bytes32_eq(&block.header.difficulty.0, &difficulty) {
        return false;
    }
    // Check epoch index
    if block.header.epoch_index != 1 {
        return false;
    }
    // Check nonce
    if block.header.nonce != 0 {
        return false;
    }
    // Check merkle root
    let calculated_root = calculate_genesis_merkle_root();
    if !bytes32_eq(&block.header.merkle_root, &calculated_root) {
        return false;
    }
    // Check transaction count
    if block.transactions.len() != 1 {
        return false;
    }
    // Check coinbase output
    let tx = &block.transactions[0];
    if tx.outputs.len() != 1 {
        return false;
    }
    let output = &tx.outputs[0];
    if output.value != GENESIS_OUTPUT_VALUE {
        return false;
    }
    let script: [u8; 25] = GENESIS_OUTPUT_SCRIPT;
    if !bytes_equal(output.script_pubkey.as_slice(), script.as_slice()) {
        return false;
    }
    true
}

/// Get genesis block hash
pub fn genesis_block_hash() -> (r: Hash32)
    ensures
        r@ == pow_hash(genesis_header_bytes()),
{
    let header = create_genesis_header();
    let bytes = header.as_bytes();
    argon2id_hash(bytes.as_slice())
}

/// The genesis check accepts a block only when its header is the genesis
/// header, byte for byte and so with the genesis proof-of-work hash: version 1,
/// zero previous hash, the coinbase's merkle root, the genesis time, the
/// genesis difficulty, nonce 0 and epoch 1.
pub proof fn lemma_genesis_check_exact(b: Block)
    ensures
        spec_verify_genesis(b) ==> {
            &&& b.header.version == 1
            &&& b.header.prev_hash@ == Seq::new(32, |i: int| 0u8)
            &&& b.header.merkle_root@ == sha256_digest(genesis_coinbase_bytes())
            &&& b.header.timestamp == GENESIS_TIMESTAMP
            &&& b.header.difficulty.0@ == GENESIS_DIFFICULTY@
            &&& b.header.nonce == 0
            &&& b.header.epoch_index == 1
            &&& header_bytes(b.header) == genesis_header_bytes()
            &&& header_hash(b.header) == pow_hash(genesis_header_bytes())
            &&& b.transactions@.len() == 1
            &&& b.transactions@[0].outputs@.len() == 1
            &&& b.transactions@[0].outputs@[0].value == GENESIS_OUTPUT_VALUE
            &&& b.transactions@[0].outputs@[0].script_pubkey@ == GENESIS_OUTPUT_SCRIPT@
        },
{
    if spec_verify_genesis(b) {
        assert(zeros32() =~= Seq::new(32, |i: int| 0u8));
        assert(header_bytes(b.header) =~= genesis_header_bytes());
    }
}

/// The genesis block that is built passes the genesis check.
pub proof fn lemma_genesis_verifies(b: Block)
    requires
        is_genesis_header(b.header),
        b.transactions@.len() == 1,
        tx_bytes(b.transactions@[0]) == genesis_coinbase_bytes(),
        b.transactions@[0].outputs@.len() == 1,
        b.transactions@[0].outputs@[0].value == GENESIS_OUTPUT_VALUE,
        b.transactions@[0].outputs@[0].script_pubkey@ == GENESIS_OUTPUT_SCRIPT@,
    ensures
        spec_verify_genesis(b),
{
}

} // verus!
