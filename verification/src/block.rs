//! Block structures and validation

use crate::clock::unix_time_now;
use crate::crypto::{argon2id_hash, pow_hash};
use crate::encoding::{le_bytes, lemma_le_bytes_len, push_all, push_le};
use crate::error::Error;
use crate::types::{bytes32_lt, bytes_lt, Hash32, Target};
use vstd::prelude::*;

verus! {

/// Block header (120 bytes, little-endian)
#[derive(Debug, Clone, Copy)]
pub struct BlockHeader {
    pub version: u32,
    pub prev_hash: Hash32,
    pub merkle_root: Hash32,
    pub timestamp: u64,
    pub difficulty: Target,
    pub nonce: u64,
    pub epoch_index: u32,
}

/// The header's 120 bytes: each field in order, integers little-endian.
pub open spec fn header_bytes(h: BlockHeader) -> Seq<u8> {
    le_bytes(h.version as nat, 4) + h.prev_hash@ + h.merkle_root@ + le_bytes(h.timestamp as nat, 8)
        + h.difficulty.0@ + le_bytes(h.nonce as nat, 8) + le_bytes(h.epoch_index as nat, 4)
}

pub proof fn lemma_header_bytes_len(h: BlockHeader)
    ensures
        header_bytes(h).len() == 120,
{
    lemma_le_bytes_len(h.version as nat, 4);
    lemma_le_bytes_len(h.timestamp as nat, 8);
    lemma_le_bytes_len(h.nonce as nat, 8);
    lemma_le_bytes_len(h.epoch_index as nat, 4);
}

/// The header's proof-of-work hash.
pub open spec fn header_hash(h: BlockHeader) -> Seq<u8> {
    pow_hash(header_bytes(h))
}

/// Outcome of the timestamp rules for a header checked at time `now`: less
/// than two hours ahead of `now`, and later than the previous block.
pub open spec fn spec_validate_timestamp(h: BlockHeader, prev_timestamp: Option<u64>, now: u64) -> Result<(), Error> {
    if h.timestamp >= now + 7200 {
        Err(Error::InvalidTimestamp)
    } else if prev_timestamp is Some && h.timestamp <= prev_timestamp->0 {
        Err(Error::InvalidTimestamp)
    } else {
        Ok(())
    }
}

impl BlockHeader {
    /// Convert header to bytes for hashing
    pub fn as_bytes(&self) -> (r: Vec<u8>)
        ensures
            r@ == header_bytes(*self),
            r@.len() == 120,
    {
        let mut bytes: Vec<u8> = Vec::new();
        push_le(&mut bytes, self.version as u64, 4);
        push_all(&mut bytes, self.prev_hash.as_slice());
        push_all(&mut bytes, self.merkle_root.as_slice());
        push_le(&mut bytes, self.timestamp, 8);
        push_all(&mut bytes, self.difficulty.0.as_slice());
        push_le(&mut bytes, self.nonce, 8);
        push_le(&mut bytes, self.epoch_index as u64, 4);
        proof {
            lemma_header_bytes_len(*self);
            assert(bytes@ =~= header_bytes(*self));
        }
        bytes
    }

    /// Compute block hash using Argon2id
    pub fn hash(&self) -> (r: Hash32)
        ensures
            r@ == header_hash(*self),
    {
        let bytes = self.as_bytes();
        argon2id_hash(bytes.as_slice())
    }

    /// Check if hash meets target (PoW valid)
    pub fn meets_target(&self, target: &Target) -> (r: bool)
        ensures
            r == bytes_lt(header_hash(*self), target.0@),
    {
        let hash = self.hash();
        bytes32_lt(&hash, &target.0)
    }

    /// Timestamp validation against a given current time `now` (seconds since
    /// the Unix epoch).
    pub fn validate_timestamp_at(&self, prev_timestamp: Option<u64>, now: u64) -> (r: Result<(), Error>)
        ensures
            r == spec_validate_timestamp(*self, prev_timestamp, now),
    {
        // Not too far in future
        if self.timestamp >= now && self.timestamp - now >= 7200 {
            return Err(Error::InvalidTimestamp);
        }
        // Must be after previous block timestamp
        if let Some(prev) = prev_timestamp {
            if self.timestamp <= prev {
                return Err(Error::InvalidTimestamp);
            }
        }
        Ok(())
    }

    /// Basic timestamp validation against the wall clock
    pub fn validate_timestamp(&self, prev_timestamp: Option<u64>) -> (r: Result<(), Error>)
        ensures
            exists|now: u64| r == spec_validate_timestamp(*self, prev_timestamp, now),
    {
        let now = unix_time_now();
        self.validate_timestamp_at(prev_timestamp, now)
    }
}

/// Full block with transactions
#[derive(Debug, Clone)]
pub struct Block {
    pub header: BlockHeader,
    pub transactions: Vec<Transaction>,
}

/// Transaction structure
#[derive(Debug, Clone)]
pub struct Transaction {
    pub version: u32,
    pub inputs: Vec<TxIn>,
    pub outputs: Vec<TxOut>,
    pub locktime: u32,
}

#[derive(Debug, Clone)]
pub struct TxIn {
    pub prev_txid: Hash32,
    pub prev_index: u32,
    pub script_sig: Vec<u8>,
    pub sequence: u32,
}

#[derive(Debug, Clone)]
pub struct TxOut {
    pub value: u64,
    pub script_pubkey: Vec<u8>,
}

/// A byte string with its length in front, as eight little-endian bytes.
pub open spec fn var_bytes(s: Seq<u8>) -> Seq<u8> {
    le_bytes(s.len(), 8) + s
}

pub open spec fn txin_bytes(i: TxIn) -> Seq<u8> {
    i.prev_txid@ + le_bytes(i.prev_index as nat, 4) + var_bytes(i.script_sig@) + le_bytes(
        i.sequence as nat,
        4,
    )
}

pub open spec fn txout_bytes(o: TxOut) -> Seq<u8> {
    le_bytes(o.value as nat, 8) + var_bytes(o.script_pubkey@)
}

pub open spec fn txins_bytes(s: Seq<TxIn>) -> Seq<u8>
    decreases s.len(),
{
    if s.len() == 0 {
        Seq::empty()
    } else {
        txins_bytes(s.drop_last()) + txin_bytes(s.last())
    }
}

pub open spec fn txouts_bytes(s: Seq<TxOut>) -> Seq<u8>
    decreases s.len(),
{
    if s.len() == 0 {
        Seq::empty()
    } else {
        txouts_bytes(s.drop_last()) + txout_bytes(s.last())
    }
}

/// The byte layout of a transaction: version, the inputs and the outputs each
/// preceded by their count, then the lock time; integers little-endian and
/// every count and script length as eight bytes. This is the layout the
/// bincode crate's default options give the same fields.
pub open spec fn tx_bytes(t: Transaction) -> Seq<u8> {
    le_bytes(t.version as nat, 4) + le_bytes(t.inputs@.len(), 8) + txins_bytes(t.inputs@)
        + le_bytes(t.outputs@.len(), 8) + txouts_bytes(t.outputs@) + le_bytes(t.locktime as nat, 4)
}

/// Calls `bincode::serialize` on the transaction's fields, taken as a tuple
/// of plain values in field order. Claimed: the bytes are `tx_bytes`, the
/// layout of bincode 1's default options (integers little-endian at their
/// width, each sequence preceded by its length as eight bytes, arrays with no
/// length); serializing these values into memory does not fail.
#[verifier::external_body]
pub(crate) fn transaction_bytes(tx: &Transaction) -> (r: Vec<u8>)
    ensures
        r@ == tx_bytes(*tx),
{
    let inputs: Vec<(Hash32, u32, &Vec<u8>, u32)> = tx.inputs.iter().map(
        |i| (i.prev_txid, i.prev_index, &i.script_sig, i.sequence),
    ).collect();
    let outputs: Vec<(u64, &Vec<u8>)> = tx.outputs.iter().map(|o| (o.value, &o.script_pubkey)).collect();
    bincode::serialize(&(tx.version, inputs, outputs, tx.locktime)).expect("bincode serialize")
}

} // verus!
