use accum_node::block::BlockHeader;
use accum_node::error::Error;
use accum_node::types::{bytes32_eq, bytes32_le, Target};

#[test]
fn target_compact_round_trip_keeps_leading_bytes() {
    let mut bytes = [0u8; 32];
    bytes[10] = 0x7A;
    bytes[11] = 0x01;
    bytes[12] = 0xFE;
    bytes[13] = 0x99;
    let target = Target(bytes);
    let compact = target.compact();
    assert_eq!(compact, (22u32 << 24) | 0x7A01FE);
    let back = Target::from_compact(compact);
    let mut expected = [0u8; 32];
    expected[10] = 0x7A;
    expected[11] = 0x01;
    expected[12] = 0xFE;
    assert_eq!(back.0, expected);
}

#[test]
fn small_exponents_place_mantissa_at_the_end() {
    let back = Target::from_compact(0x0312_3456);
    let mut expected = [0u8; 32];
    expected[29] = 0x12;
    expected[30] = 0x34;
    expected[31] = 0x56;
    assert_eq!(back.0, expected);
}

#[test]
fn exponents_below_three_drop_mantissa_bytes() {
    assert_eq!(Target::from_compact(0x0012_3456).0, [0u8; 32]);
    let mut one = [0u8; 32];
    one[31] = 0x12;
    assert_eq!(Target::from_compact(0x0112_3456).0, one);
    let mut two = [0u8; 32];
    two[30] = 0x12;
    two[31] = 0x34;
    assert_eq!(Target::from_compact(0x0212_3456).0, two);
}

#[test]
fn byte_order_is_big_endian() {
    let mut a = [0u8; 32];
    let mut b = [0u8; 32];
    a[0] = 1;
    b[31] = 0xFF;
    assert!(bytes32_le(&b, &a));
    assert!(!bytes32_le(&a, &b));
    assert!(bytes32_le(&a, &a));
    assert!(bytes32_eq(&a, &a));
    assert!(!bytes32_eq(&a, &b));
}

#[test]
fn header_bytes_layout() {
    let header = BlockHeader {
        version: 0x0403_0201,
        prev_hash: [0xAA; 32],
        merkle_root: [0xBB; 32],
        timestamp: 0x0807_0605_0403_0201,
        difficulty: Target([0xCC; 32]),
        nonce: 0x1122_3344_5566_7788,
        epoch_index: 9,
    };
    let bytes = header.as_bytes();
    assert_eq!(bytes.len(), 120);
    assert_eq!(&bytes[0..4], &[1, 2, 3, 4]);
    assert_eq!(&bytes[4..36], &[0xAA; 32]);
    assert_eq!(&bytes[36..68], &[0xBB; 32]);
    assert_eq!(&bytes[68..76], &[1, 2, 3, 4, 5, 6, 7, 8]);
    assert_eq!(&bytes[76..108], &[0xCC; 32]);
    assert_eq!(&bytes[108..116], &0x1122_3344_5566_7788u64.to_le_bytes());
    assert_eq!(&bytes[116..120], &[9, 0, 0, 0]);
}

#[test]
fn timestamp_rules() {
    let header = BlockHeader {
        version: 1,
        prev_hash: [0u8; 32],
        merkle_root: [0u8; 32],
        timestamp: 10_000,
        difficulty: Target([0xFF; 32]),
        nonce: 0,
        epoch_index: 1,
    };
    assert_eq!(header.validate_timestamp_at(None, 10_000), Ok(()));
    assert_eq!(header.validate_timestamp_at(Some(9_999), 3_000), Ok(()));
    assert_eq!(header.validate_timestamp_at(None, 2_799), Err(Error::InvalidTimestamp));
    // exactly two hours ahead is too far
    assert_eq!(header.validate_timestamp_at(None, 2_800), Err(Error::InvalidTimestamp));
    assert_eq!(header.validate_timestamp_at(None, 2_801), Ok(()));
    assert_eq!(header.validate_timestamp_at(Some(10_000), 10_000), Err(Error::InvalidTimestamp));
}
