//! Tests for the bit-level codec: extraction, insertion, sign extension,
//! and the round trip between them.

use can_viz::bits::{extract_bits, insert_bits, sign_extend, ByteOrder};

#[test]
fn test_extract_bits_intel_single_byte() {
    let data = [0b11010010u8];
    // Extract bits 2-5 (4 bits starting at bit 2)
    let result = extract_bits(&data, 2, 4, ByteOrder::Intel);
    assert_eq!(result, Some(0b0100)); // bits 2-5 are 0100
}

#[test]
fn test_extract_bits_intel_full_byte() {
    let data = [0xABu8];
    let result = extract_bits(&data, 0, 8, ByteOrder::Intel);
    assert_eq!(result, Some(0xAB));
}

#[test]
fn test_extract_bits_intel_multi_byte() {
    let data = [0xCDu8, 0xABu8];
    // Little-endian: 0xABCD = 0xCD at byte 0, 0xAB at byte 1
    let result = extract_bits(&data, 0, 16, ByteOrder::Intel);
    assert_eq!(result, Some(0xABCD));
}

#[test]
fn test_insert_bits_intel() {
    let mut data = [0u8, 0u8];
    insert_bits(&mut data, 0xABCD, 0, 16, ByteOrder::Intel);
    assert_eq!(data[0], 0xCD);
    assert_eq!(data[1], 0xAB);
}

#[test]
fn test_sign_extend_positive() {
    let result = sign_extend(5, 4); // 0101 in 4 bits
    // This is positive, should not change
    assert_eq!(result as i64, 5);
}

#[test]
fn test_sign_extend_negative() {
    let result = sign_extend(0b1111, 4) as i64; // -1 in 4-bit two's complement
    assert_eq!(result, -1);
}

#[test]
fn test_insert_and_extract_roundtrip() {
    let mut data = [0u8; 8];

    // Test various bit positions and lengths
    let test_cases = [
        (0u8, 8u8, 0xABu64),   // First byte
        (8, 8, 0xCDu64),       // Second byte
        (4, 12, 0xABCu64),     // Crossing byte boundary
        (16, 16, 0x1234u64),   // Two bytes
    ];

    for (start, len, value) in test_cases {
        data.fill(0);
        insert_bits(&mut data, value, start, len, ByteOrder::Intel);
        let result = extract_bits(&data, start, len, ByteOrder::Intel);
        assert_eq!(result, Some(value), "Failed for start={}, len={}", start, len);
    }
}

#[test]
fn test_sign_extend_full_width() {
    // at 64 bits, the value is returned unchanged
    assert_eq!(sign_extend(0, 64), 0);
    assert_eq!(sign_extend(u64::MAX, 64), u64::MAX);
    assert_eq!(sign_extend(0x8000_0000_0000_0000, 64), 0x8000_0000_0000_0000);
}

#[test]
fn test_roundtrip_motorola_in_range() {
    // a Motorola field whose flat positions stay inside the payload
    let mut data = [0u8; 8];
    insert_bits(&mut data, 0x5A5A, 7, 16, ByteOrder::Motorola);
    assert_eq!(extract_bits(&data, 7, 16, ByteOrder::Motorola), Some(0x5A5A));
}

#[test]
fn test_roundtrip_many_positions() {
    // sweep little-endian positions across the whole payload
    let mut data = [0u8; 8];
    for start in 0..57u8 {
        for len in [1u8, 3, 8, 12, 32] {
            if start as u16 + len as u16 > 64 {
                continue;
            }
            let value = 0xDEADBEEFCAFEF00Du64 & ((1u64 << len) - 1).max(1);
            data.fill(0);
            assert!(insert_bits(&mut data, value, start, len, ByteOrder::Intel));
            assert_eq!(
                extract_bits(&data, start, len, ByteOrder::Intel),
                Some(value & if len < 64 { (1u64 << len) - 1 } else { u64::MAX })
            );
        }
    }
}

#[test]
fn test_extract_bits_bounds_failures() {
    let data = [0xFFu8, 0xFF];
    // empty payload
    assert_eq!(extract_bits(&[], 0, 8, ByteOrder::Intel), None);
    // zero width
    assert_eq!(extract_bits(&data, 0, 0, ByteOrder::Intel), None);
    // width over 64
    assert_eq!(extract_bits(&data, 0, 65, ByteOrder::Intel), None);
    // starting byte out of range
    assert_eq!(extract_bits(&data, 16, 4, ByteOrder::Intel), None);
    assert_eq!(extract_bits(&data, 16, 4, ByteOrder::Motorola), None);
}

#[test]
fn test_insert_bits_bounds_failures() {
    let mut data = [0u8, 0u8];
    assert!(!insert_bits(&mut [], 1, 0, 8, ByteOrder::Intel));
    assert!(!insert_bits(&mut data, 1, 0, 0, ByteOrder::Intel));
    assert!(!insert_bits(&mut data, 1, 0, 65, ByteOrder::Intel));
    assert!(!insert_bits(&mut data, 1, 16, 4, ByteOrder::Intel));
    // a failed insert writes nothing
    assert_eq!(data, [0u8, 0u8]);
}

#[test]
fn test_insert_bits_preserves_other_bits() {
    let mut data = [0xFFu8, 0xFF];
    assert!(insert_bits(&mut data, 0, 4, 4, ByteOrder::Intel));
    assert_eq!(data[0], 0x0F);
    assert_eq!(data[1], 0xFF);
}

#[test]
fn test_extract_bits_motorola_bit_numbering() {
    // the Motorola transform reverses the bit number within its byte:
    // DBC bit 0 reads the MSB of byte 0, DBC bit 7 reads its LSB
    let data = [0b1000_0000u8];
    assert_eq!(extract_bits(&data, 0, 1, ByteOrder::Motorola), Some(1));
    assert_eq!(extract_bits(&data, 7, 1, ByteOrder::Motorola), Some(0));
    // under the flat Intel numbering, bit 7 is the MSB of byte 0
    assert_eq!(extract_bits(&data, 7, 1, ByteOrder::Intel), Some(1));
}
