use accum_node::difficulty::{adjust_difficulty, calculate_time_span, compact_from_target, target_from_compact};
use accum_node::types::Target;

#[test]
fn test_compact_conversion() {
    let target = Target([0x00, 0x00, 0x00, 0x00, 0x00, 0x00, 0x00, 0x00,
                         0x00, 0x00, 0x00, 0x00, 0x00, 0x00, 0x00, 0x00,
                         0x00, 0x00, 0x00, 0x00, 0x00, 0x00, 0x00, 0x00,
                         0x00, 0x00, 0x00, 0x00, 0x00, 0xFF, 0xFF, 0xFF]);

    let compact = compact_from_target(&target);
    let recovered = target_from_compact(compact);

    assert_eq!(target.0[29], recovered.0[29]);
    assert_eq!(target.0[30], recovered.0[30]);
    assert_eq!(target.0[31], recovered.0[31]);
}

#[test]
fn compact_of_leading_byte_target() {
    let mut bytes = [0u8; 32];
    bytes[4] = 0x12;
    bytes[5] = 0x34;
    bytes[6] = 0x56;
    bytes[7] = 0x78;
    let target = Target(bytes);
    let compact = compact_from_target(&target);
    // 28 significant bytes, mantissa from the first three of them
    assert_eq!(compact, 0x1C12_3456);
    let recovered = target_from_compact(compact);
    let mut expected = [0u8; 32];
    expected[4] = 0x12;
    expected[5] = 0x34;
    expected[6] = 0x56;
    assert_eq!(recovered.0, expected);
}

#[test]
fn compact_of_zero_target_is_zero() {
    let target = Target([0u8; 32]);
    assert_eq!(compact_from_target(&target), 0);
    assert_eq!(target_from_compact(0).0, [0u8; 32]);
}

#[test]
fn test_difficulty_adjustment() {
    let target = Target([0xFF; 32]);

    // Faster blocks (half time) -> harder
    let adjusted = adjust_difficulty(&target, 3600);
    assert!(adjusted.0[0] < target.0[0]);

    // Clamp test
    let adjusted = adjust_difficulty(&target, 36000); // 5x slower
    assert!(adjusted.0[0] <= (target.0[0] as f64 * 1.25) as u8);
}

#[test]
fn faster_blocks_make_target_harder() {
    let mut bytes = [0u8; 32];
    bytes[0] = 0x80;
    bytes[1] = 0x40;
    bytes[2] = 0x10;
    bytes[3] = 0x03;
    bytes[4] = 0x77;
    let target = Target(bytes);
    // half the expected time: clamped to 0.75 of the whole 256-bit target
    let adjusted = adjust_difficulty(&target, 3600);
    assert_eq!(&adjusted.0[0..6], &[0x60, 0x30, 0x0C, 0x02, 0x99, 0x40]);
}

#[test]
fn slower_blocks_make_target_easier() {
    let mut bytes = [0u8; 32];
    bytes[0] = 0x80;
    bytes[1] = 0xF0;
    bytes[2] = 0x02;
    let target = Target(bytes);
    // double the expected time: clamped to 1.25
    let adjusted = adjust_difficulty(&target, 14400);
    assert_eq!(&adjusted.0[0..5], &[0xA1, 0x2C, 0x02, 0x80, 0x00]);
}

#[test]
fn genesis_target_gets_harder() {
    let mut bytes = [0xFFu8; 32];
    bytes[0] = 0;
    bytes[1] = 0;
    bytes[2] = 0;
    bytes[3] = 0;
    let adjusted = adjust_difficulty(&Target(bytes), 3600);
    assert_eq!(&adjusted.0[0..6], &[0, 0, 0, 0, 0xBF, 0xFF]);
    assert_eq!(adjusted.0[31], 0xFF);
}

#[test]
fn increase_is_at_most_a_quarter() {
    let mut bytes = [0u8; 32];
    bytes[0] = 0x02;
    let adjusted = adjust_difficulty(&Target(bytes), 36000);
    let mut expected = [0u8; 32];
    expected[0] = 0x02;
    expected[1] = 0x80;
    assert_eq!(adjusted.0, expected);
}

#[test]
fn easiest_target_stays_easiest() {
    let adjusted = adjust_difficulty(&Target([0xFF; 32]), 36000);
    assert_eq!(adjusted.0, [0xFF; 32]);
    let harder = adjust_difficulty(&Target([0xFF; 32]), 3600);
    assert_eq!(harder.0[0], 0xBF);
    assert_eq!(&harder.0[1..], &[0xFF; 31]);
}

#[test]
fn on_time_blocks_keep_target() {
    let target = Target([0x55; 32]);
    let adjusted = adjust_difficulty(&target, 7200);
    assert_eq!(adjusted.0, target.0);
}

#[test]
fn adjustment_is_clamped_for_long_spans() {
    let target = Target([0x40; 32]);
    let clamped = adjust_difficulty(&target, 9000);
    let far = adjust_difficulty(&target, 36000);
    assert_eq!(clamped.0, far.0);
    assert_eq!(far.0[0], 0x50);
    assert_eq!(far.0[31], 0x50);
}

#[test]
fn time_span_needs_more_than_interval() {
    let ts: Vec<u64> = (0..10u64).map(|i| 1000 + i * 60).collect();
    assert_eq!(calculate_time_span(&ts, 10), None);
    assert_eq!(calculate_time_span(&ts, 9), Some(540));
    assert_eq!(calculate_time_span(&ts, 3), Some(180));
}
