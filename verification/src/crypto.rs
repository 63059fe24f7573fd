//! Cryptographic functions: Argon2id, hashing, miner ID

use crate::constants::{ARGON2_ITERATIONS, ARGON2_MEMORY, ARGON2_PARALLELISM};
use crate::encoding::{le_bytes, le_value, push_all, push_le, read_u64_le};
use crate::types::{bytes32_lt, bytes_lt, Hash32, MinerId, Target};
use ripemd::Ripemd160;
use sha2::Digest;
use sha2::Sha256;
use vstd::prelude::*;

verus! {

/// What `argon2::Argon2` (Argon2id, version 0x13, 32-byte output) computes from
/// a password, a salt and the memory, time and lane costs.
pub uninterp spec fn argon2id_digest(
    pwd: Seq<u8>,
    salt: Seq<u8>,
    m_cost: u32,
    t_cost: u32,
    p_cost: u32,
) -> Seq<u8>;

/// What `sha2::Sha256::digest` returns for a byte string.
pub uninterp spec fn sha256_digest(data: Seq<u8>) -> Seq<u8>;

/// What `ripemd::Ripemd160::digest` returns for a byte string.
pub uninterp spec fn ripemd160_digest(data: Seq<u8>) -> Seq<u8>;

/// Calls `argon2::Params::new` and `argon2::Argon2::hash_password_into` with
/// Argon2id, version 0x13 and a 32-byte output. Claimed: the output is the
/// value named by `argon2id_digest` for these arguments. The `requires` holds
/// the bounds under which the crate's source returns `Ok` from both calls.
#[verifier::external_body]
fn argon2id_raw(pwd: &[u8], salt: &[u8], m_cost: u32, t_cost: u32, p_cost: u32) -> (r: Hash32)
    requires
        pwd@.len() <= 0xFFFF_FFFF,
        8 <= salt@.len() <= 0xFFFF_FFFF,
        1 <= t_cost,
        1 <= p_cost <= 0xFF_FFFF,
        8 <= m_cost,
        8 * p_cost <= m_cost,
    ensures
        r@ == argon2id_digest(pwd@, salt@, m_cost, t_cost, p_cost),
{
    let params = argon2::Params::new(m_cost, t_cost, p_cost, Some(32)).expect("argon2 params");
    let hasher = argon2::Argon2::new(argon2::Algorithm::Argon2id, argon2::Version::V0x13, params);
    let mut output = [0u8; 32];
    hasher.hash_password_into(pwd, salt, &mut output).expect("argon2id");
    output
}

/// Calls `sha2::Sha256::digest`. Claimed: the 32 bytes are the value named by
/// `sha256_digest` for the input.
#[verifier::external_body]
pub(crate) fn sha256(data: &[u8]) -> (r: Hash32)
    ensures
        r@ == sha256_digest(data@),
{
    Sha256::digest(data).into()
}

/// Calls `ripemd::Ripemd160::digest`. Claimed: the 20 bytes are the value
/// named by `ripemd160_digest` for the input.
#[verifier::external_body]
fn ripemd160(data: &[u8]) -> (r: MinerId)
    ensures
        r@ == ripemd160_digest(data@),
{
    Ripemd160::digest(data).into()
}

/// The salt of the proof-of-work hash, the bytes of "accum_salt".
pub open spec fn pow_salt() -> Seq<u8> {
    seq![97u8, 99, 99, 117, 109, 95, 115, 97, 108, 116]
}

/// The proof-of-work hash of a byte string: Argon2id with 256 MiB of memory,
/// 2 passes, 4 lanes and the salt "accum_salt".
pub open spec fn pow_hash(data: Seq<u8>) -> Seq<u8> {
    argon2id_digest(
        data,
        pow_salt(),
        ARGON2_MEMORY / 1024,
        ARGON2_ITERATIONS,
        ARGON2_PARALLELISM,
    )
}

/// Argon2id hashing with protocol parameters (256MB memory, 2 iterations, 4 parallelism)
pub fn argon2id_hash(data: &[u8]) -> (r: Hash32)
    requires
        data@.len() <= 0xFFFF_FFFF,
    ensures
        r@ == pow_hash(data@),
{
    // Params::new expects the memory cost in KiB
    let memory_kb: u32 = ARGON2_MEMORY / 1024;
    let salt: [u8; 10] = [97u8, 99, 99, 117, 109, 95, 115, 97, 108, 116];
    assert(salt@ =~= pow_salt());
    argon2id_raw(data, &salt, memory_kb, ARGON2_ITERATIONS, ARGON2_PARALLELISM)
}

/// The miner identity of a public key: RIPEMD160(SHA256(pubkey)).
pub open spec fn spec_miner_id(pubkey: Seq<u8>) -> Seq<u8> {
    ripemd160_digest(sha256_digest(pubkey))
}

/// Compute miner ID from compressed public key (RIPEMD160(SHA256(pubkey)))
pub fn miner_id_from_pubkey(pubkey: &[u8]) -> (r: MinerId)
    ensures
        r@ == spec_miner_id(pubkey@),
{
    let digest = sha256(pubkey);
    ripemd160(&digest)
}

/// Compare hash against target: true when the hash, read as a big-endian
/// number, is below the target.
pub fn hash_meets_target(hash: &Hash32, target: &Target) -> (r: bool)
    ensures
        r == bytes_lt(hash@, target.0@),
{
    bytes32_lt(hash, &target.0)
}

/// The pre-filter value of a header and nonce: the first eight bytes of
/// SHA256(header || nonce as 8 little-endian bytes), read little-endian.
pub open spec fn prefilter_value(header: Seq<u8>, nonce: u64) -> nat {
    le_value(sha256_digest(header + le_bytes(nonce as nat, 8)).take(8))
}

/// Quick pre-filter using SHA256 (rejects before Argon2)
pub fn quick_prefilter(header: &[u8], nonce: u64, target: u64) -> (r: bool)
    ensures
        r == (prefilter_value(header@, nonce) <= target),
{
    let mut data: Vec<u8> = Vec::new();
    push_all(&mut data, header);
    push_le(&mut data, nonce, 8);
    let hash = sha256(data.as_slice());
    let first_bytes = read_u64_le(&hash);
    first_bytes <= target
}

} // verus!
