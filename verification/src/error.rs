//! Unified error type

use vstd::prelude::*;

verus! {

#[derive(Debug, Clone, Copy, PartialEq, Eq, Structural)]
pub enum Error {
    InvalidBlock,
    InvalidTimestamp,
    InvalidPrevHash,
    InvalidMerkleRoot,
    InvalidProofOfWork,
    InvalidCoinbase,
    InvalidShare,
    InsufficientInput,
    FeeTooLow,
    DustOutput,
    DoubleSpend,
    InvalidScript,
    InvalidEpoch,
    P2p,
    Storage,
}

} // verus!
