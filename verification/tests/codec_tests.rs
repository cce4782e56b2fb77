//! Tests of the byte codec, the 256-bit arithmetic, and the retarget rule
//! on concrete values, including the historical genesis block.

use btc_relay::codec::{
    extract_merkle_root, extract_prev_hash, extract_target_at, extract_timestamp,
    extract_timestamp_le, hash256,
};
use btc_relay::errors::RelayError;
use btc_relay::retarget::{
    is_correct_difficulty_target, is_period_end, is_period_start, retarget_algorithm,
};
use btc_relay::u256::{compact_to_target, U256};
use btc_relay::RETARGET_PERIOD;

fn hex_to_bytes(s: &str) -> Vec<u8> {
    let b = s.as_bytes();
    let mut out = Vec::new();
    let mut i = 0;
    while i + 1 < b.len() {
        let hi = (b[i] as char).to_digit(16).unwrap() as u8;
        let lo = (b[i + 1] as char).to_digit(16).unwrap() as u8;
        out.push(hi * 16 + lo);
        i += 2;
    }
    out
}

/// The historical Bitcoin genesis block header.
fn genesis_header() -> Vec<u8> {
    let mut h = hex_to_bytes("01000000");
    h.extend_from_slice(&hex_to_bytes(
        "0000000000000000000000000000000000000000000000000000000000000000",
    ));
    h.extend_from_slice(&hex_to_bytes(
        "3ba3edfd7a7b12b27ac72c3e67768f617fc81bc3888a51323a9fb8aa4b1e5e4a",
    ));
    h.extend_from_slice(&hex_to_bytes("29ab5f49"));
    h.extend_from_slice(&hex_to_bytes("ffff001d"));
    h.extend_from_slice(&hex_to_bytes("1dac2b7c"));
    h
}

#[test]
fn test_hash_header_deterministic_and_genesis_hash() {
    let header = genesis_header();
    assert_eq!(header.len(), 80);
    let h1 = hash256(&header);
    let h2 = hash256(&header);
    // deterministic: the same bytes always hash the same
    assert_eq!(h1, h2);
    // and to the historically known genesis hash (little-endian bytes)
    let expected = hex_to_bytes("6fe28c0ab6f1b372c1a6a246ae63f74f931e8365e15a089c68d6190000000000");
    assert_eq!(h1, expected);
}

#[test]
fn test_compact_to_target_genesis_bits() {
    // genesis difficulty bits 0x1d00ffff: mantissa 0xffff shifted by
    // 0x1d - 3 = 26 bytes
    let t = compact_to_target(0x1d00ffff);
    let bytes = t.to_le_bytes();
    let mut expected = vec![0u8; 32];
    expected[26] = 0xff;
    expected[27] = 0xff;
    assert_eq!(bytes, expected);
    // the genesis hash clears the genesis target
    let hash = hash256(&genesis_header());
    let hash_num = U256::from_le_bytes(&hash);
    assert!(hash_num.le(&t));
}

#[test]
fn test_compact_to_target_edges() {
    // an exponent below three degenerates to no shift
    let small = compact_to_target(0x01003456);
    let mut expected = vec![0u8; 32];
    expected[0] = 0x56;
    expected[1] = 0x34;
    assert_eq!(small.to_le_bytes(), expected);
    // an unrepresentable target saturates to zero
    let huge = compact_to_target(0xff_ffffff);
    assert_eq!(huge.to_le_bytes(), vec![0u8; 32]);
    // a mantissa partially out of range also saturates
    let partial = compact_to_target(0x21_ffffff);
    assert_eq!(partial.to_le_bytes(), vec![0u8; 32]);
}

#[test]
fn test_extracts_on_genesis() {
    let header = genesis_header();
    assert_eq!(extract_timestamp(&header), 1231006505);
    assert_eq!(extract_timestamp_le(&header), vec![0x29, 0xab, 0x5f, 0x49]);
    assert_eq!(extract_prev_hash(&header), vec![0u8; 32]);
    assert_eq!(
        extract_merkle_root(&header),
        hex_to_bytes("3ba3edfd7a7b12b27ac72c3e67768f617fc81bc3888a51323a9fb8aa4b1e5e4a")
    );
    let t = extract_target_at(&header, 0);
    assert_eq!(t.to_le_bytes(), compact_to_target(0x1d00ffff).to_le_bytes());
}

#[test]
fn test_u256_arithmetic() {
    let mut b = vec![0u8; 32];
    b[0] = 0x15;
    b[1] = 0xcd;
    b[2] = 0x5b;
    b[3] = 0x07; // 123456789
    let v = U256::from_le_bytes(&b);
    let q = v.div_u64(1000);
    let mut expected = vec![0u8; 32];
    expected[0] = 0x40;
    expected[1] = 0xe2;
    expected[2] = 0x01; // 123456
    assert_eq!(q.to_le_bytes(), expected);
    let doubled = v.checked_mul_u64(2).unwrap();
    let mut exp2 = vec![0u8; 32];
    exp2[0] = 0x2a;
    exp2[1] = 0x9a;
    exp2[2] = 0xb7;
    exp2[3] = 0x0e; // 246913578
    assert_eq!(doubled.to_le_bytes(), exp2);
    // a full-range value overflows on any doubling
    let max = U256::from_le_bytes(&vec![0xffu8; 32]);
    assert!(max.checked_mul_u64(2).is_none());
    assert!(max.checked_mul65536().is_none());
    // shifts by two bytes in either direction
    let shifted = v.div65536();
    let mut exp3 = vec![0u8; 32];
    exp3[0] = 0x5b;
    exp3[1] = 0x07; // 123456789 >> 16 == 1883
    assert_eq!(shifted.to_le_bytes(), exp3);
    let back = shifted.checked_mul65536().unwrap();
    let mut exp4 = vec![0u8; 32];
    exp4[2] = 0x5b;
    exp4[3] = 0x07;
    assert_eq!(back.to_le_bytes(), exp4);
    // numeric comparison and equality
    assert!(shifted.le(&v));
    assert!(!v.le(&shifted));
    assert!(v.eq_val(&U256::from_le_bytes(&b)));
    assert!(!v.eq_val(&q));
    assert_eq!(U256::zero().to_le_bytes(), vec![0u8; 32]);
}

#[test]
fn test_period_boundaries() {
    assert!(is_period_start(0));
    assert!(is_period_start(2016));
    assert!(!is_period_start(2015));
    assert!(is_period_end(2015));
    assert!(is_period_end(4031));
    assert!(!is_period_end(2016));
}

#[test]
fn test_retarget_clamps_extremes() {
    // elapsed zero clamps to a quarter period; a huge elapsed clamps to
    // four periods
    let t = compact_to_target(0x1d00ffff);
    let low = retarget_algorithm(&t, 1000, 1000).unwrap();
    let quarter = retarget_algorithm(&t, 0, RETARGET_PERIOD / 4).unwrap();
    assert_eq!(low.to_le_bytes(), quarter.to_le_bytes());
    let high = retarget_algorithm(&t, 0, 100 * RETARGET_PERIOD).unwrap();
    let four = retarget_algorithm(&t, 0, 4 * RETARGET_PERIOD).unwrap();
    assert_eq!(high.to_le_bytes(), four.to_le_bytes());
    // an end time before the start time is an arithmetic failure
    assert_eq!(
        retarget_algorithm(&t, 1000, 999).err(),
        Some(RelayError::ArithmeticError)
    );
}

#[test]
fn test_retarget_exact_values() {
    // the genesis target is divisible by 65536: one intended period of
    // elapsed time reproduces it exactly
    let t = compact_to_target(0x1d00ffff); // 0xffff * 256^26
    let same = retarget_algorithm(&t, 0, RETARGET_PERIOD).unwrap();
    assert_eq!(same.to_le_bytes(), t.to_le_bytes());
    // half the intended time halves the target: 0xffff * 256^26 / 2
    let half = retarget_algorithm(&t, 0, RETARGET_PERIOD / 2).unwrap();
    let mut expected = vec![0u8; 32];
    expected[25] = 0x80;
    expected[26] = 0xff;
    expected[27] = 0x7f;
    assert_eq!(half.to_le_bytes(), expected);
    // double the intended time doubles it: 0x1fffe * 256^26
    let double = retarget_algorithm(&t, 0, 2 * RETARGET_PERIOD).unwrap();
    let mut exp2 = vec![0u8; 32];
    exp2[26] = 0xfe;
    exp2[27] = 0xff;
    exp2[28] = 0x01;
    assert_eq!(double.to_le_bytes(), exp2);
    // a target too large for the intermediate product fails instead of
    // overflowing
    let big = compact_to_target(0x2200_00ff); // 0xff * 256^31
    assert_eq!(
        retarget_algorithm(&big, 0, RETARGET_PERIOD).err(),
        Some(RelayError::ArithmeticError)
    );
}

#[test]
fn test_is_correct_difficulty_target_cases() {
    let t = compact_to_target(0x1d00ffff); // the genesis target
    let t_half = retarget_algorithm(&t, 0, RETARGET_PERIOD / 2).unwrap();
    // identical start and end targets: the period had no second sample
    let r = is_correct_difficulty_target(&t, 0, &t, RETARGET_PERIOD, &t);
    assert_eq!(r.err(), Some(RelayError::InvalidDifficultyPeriod));
    // exactly one period elapsed: the expected target is the old one,
    // and the old one subsumes into itself
    let ok = is_correct_difficulty_target(&t, 0, &t_half, RETARGET_PERIOD, &t);
    assert_eq!(ok, Ok(true));
    // a target with a bit the expected one lacks is refused
    let stray = compact_to_target(0x1f0000ff); // 0xff * 256^28
    let no = is_correct_difficulty_target(&t, 0, &t_half, RETARGET_PERIOD, &stray);
    assert_eq!(no, Ok(false));
    // an end time before the start time propagates the arithmetic failure
    let arith = is_correct_difficulty_target(&t, 1000, &t_half, 999, &t);
    assert_eq!(arith.err(), Some(RelayError::ArithmeticError));
}
