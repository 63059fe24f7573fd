use accum_node::crypto::{argon2id_hash, hash_meets_target, miner_id_from_pubkey, quick_prefilter};
use accum_node::types::Target;

#[test]
fn miner_id_is_ripemd160_of_sha256() {
    let mut pubkey = vec![0x02u8];
    pubkey.extend_from_slice(&[0x11u8; 32]);
    let id = miner_id_from_pubkey(&pubkey);
    assert_eq!(
        id,
        [173, 252, 229, 79, 82, 155, 33, 84, 227, 195, 97, 187, 227, 247, 212, 29, 176, 99, 87, 23]
    );
}

#[test]
fn prefilter_reads_first_eight_sha256_bytes() {
    let header: Vec<u8> = (0..120u8).collect();
    let v0: u64 = 7683652314169150251;
    assert!(quick_prefilter(&header, 0, v0));
    assert!(!quick_prefilter(&header, 0, v0 - 1));
    assert!(quick_prefilter(&header, 0, u64::MAX));
    let v5: u64 = 1764342259556814065;
    assert!(quick_prefilter(&header, 5, v5));
    assert!(!quick_prefilter(&header, 5, v5 - 1));
    assert!(!quick_prefilter(&header, 1, 0));
}

#[test]
fn hash_must_be_below_target() {
    let target = Target([0x10; 32]);
    assert!(!hash_meets_target(&[0x10; 32], &target));
    let mut below = [0x10u8; 32];
    below[31] = 0x0F;
    assert!(hash_meets_target(&below, &target));
    let mut above = [0x00u8; 32];
    above[0] = 0x11;
    assert!(!hash_meets_target(&above, &target));
    assert!(target.is_met_by(&below));
    assert!(!target.is_met_by(&[0x10; 32]));
    assert!(!target.is_met_by(&above));
    assert!(accum_node::difficulty::hash_meets_target(&below, &target));
    assert!(!accum_node::difficulty::hash_meets_target(&[0x10; 32], &target));
}

/// Argon2id with 262144 KiB, 2 passes, 4 lanes and the salt "accum_salt",
/// as the argon2 crate computes it for the input "accum".
const POW_HASH_OF_ACCUM: [u8; 32] = [
    191, 106, 214, 27, 110, 123, 141, 159, 164, 109, 20, 143, 253, 167, 23, 139, 91, 37, 68, 72,
    210, 248, 145, 111, 41, 226, 8, 129, 0, 211, 228, 190,
];

#[test]
fn pow_hash_uses_protocol_parameters() {
    let data = b"accum";
    let ours = argon2id_hash(data);
    assert_eq!(ours, POW_HASH_OF_ACCUM);
    assert_ne!(&ours[..5], &data[..]);
}
