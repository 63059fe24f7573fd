//! The node's rules on blocks it chains and mines

use crate::block::{header_hash, BlockHeader};
use crate::error::Error;
use crate::types::{bytes32_eq, bytes_lt, Hash32, Target};
use vstd::prelude::*;

verus! {

/// Outcome of the checks on a block to be chained after the block whose hash
/// is `expected_prev`: it links to that block, and its hash is below its
/// own target.
pub open spec fn spec_check_link(h: BlockHeader, expected_prev: Seq<u8>) -> Result<(), Error> {
    if h.prev_hash@ != expected_prev {
        Err(Error::InvalidPrevHash)
    } else if !bytes_lt(header_hash(h), h.difficulty.0@) {
        Err(Error::InvalidProofOfWork)
    } else {
        Ok(())
    }
}

/// Checks a block to be chained after the block whose hash is `expected_prev`.
pub fn check_block_link(header: &BlockHeader, expected_prev: &Hash32) -> (r: Result<(), Error>)
    ensures
        r == spec_check_link(*header, expected_prev@),
{
    if !bytes32_eq(&header.prev_hash, expected_prev) {
        return Err(Error::InvalidPrevHash);
    }
    if !header.meets_target(&header.difficulty) {
        return Err(Error::InvalidProofOfWork);
    }
    Ok(())
}

/// Whether every byte of `hash` is below the byte of `target` at the same place,
/// the miner's test of a found block.
pub fn below_target_bytewise(hash: &Hash32, target: &Target) -> (r: bool)
    ensures
        r == (forall|i: int| 0 <= i < 32 ==> #[trigger] hash@[i] < target.0@[i]),
{
    let mut i: usize = 0;
    while i < 32
        invariant
            0 <= i <= 32,
            forall|j: int| 0 <= j < i ==> #[trigger] hash@[j] < target.0@[j],
        decreases 32 - i,
    {
        if hash[i] >= target.0[i] {
            return false;
        }
        i = i + 1;
    }
    true
}

/// The first height of the window of the last `count` blocks up to
/// `current_height`: the window starts at 0 when the chain is not longer.
pub fn window_start(current_height: u64, count: u64) -> (r: u64)
    requires
        current_height > count ==> current_height - count + 1 <= u64::MAX,
    ensures
        r == (if current_height > count {
            current_height - count + 1
        } else {
            0
        }),
{
    if current_height > count {
        current_height - count + 1
    } else {
        0
    }
}

/// The header of a block to mine on top of the block whose hash is
/// `prev_hash`: version 1 and no transactions committed yet.
pub fn block_header_for(prev_hash: Hash32, timestamp: u64, difficulty: Target, nonce: u64, epoch_index: u32) -> (r: BlockHeader)
    ensures
        r.version == 1,
        r.prev_hash == prev_hash,
        r.merkle_root@ == Seq::new(32, |i: int| 0u8),
        r.timestamp == timestamp,
        r.difficulty == difficulty,
        r.nonce == nonce,
        r.epoch_index == epoch_index,
{
    let merkle_root: [u8; 32] = [0u8; 32];
    assert(merkle_root@ =~= Seq::new(32, |i: int| 0u8));
    BlockHeader { version: 1, prev_hash, merkle_root, timestamp, difficulty, nonce, epoch_index }
}

} // verus!
