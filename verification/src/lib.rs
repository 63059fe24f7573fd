//! Core primitives of the ACCUM node: block and share formats, targets and
//! difficulty, the share pools, the genesis block and the peer protocol,
//! each with its contract proved by Verus.

pub mod constants;
pub mod types;
pub mod encoding;
pub mod crypto;
pub mod clock;
pub mod error;
pub mod block;
pub mod difficulty;
pub mod share;
pub mod pool;
pub mod p2p;
pub mod genesis;
pub mod epoch;
pub mod miner;
pub mod storage;
pub mod node;
