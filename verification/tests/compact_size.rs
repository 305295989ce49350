use bitcoin_wire::{BitcoinError, CompactSize};

fn round_trip(value: u64, expected: &[u8]) {
    let encoded = CompactSize::new(value).to_bytes();
    assert_eq!(encoded, expected);
    let (decoded, used) = CompactSize::from_bytes(&encoded).unwrap();
    assert_eq!(decoded, CompactSize::new(value));
    assert_eq!(decoded.value, value);
    assert_eq!(used, expected.len());
}

#[test]
fn zero_is_one_zero_byte() {
    assert_eq!(CompactSize::new(0).to_bytes(), vec![0x00]);
}

#[test]
fn new_keeps_the_value() {
    assert_eq!(CompactSize::new(7).value, 7);
    assert_eq!(CompactSize::new(u64::MAX).value, u64::MAX);
}

#[test]
fn two_byte_and_four_byte_forms() {
    assert_eq!(CompactSize::new(253).to_bytes(), vec![0xFD, 0xFD, 0x00]);
    assert_eq!(CompactSize::new(0x10000).to_bytes(), vec![0xFE, 0x00, 0x00, 0x01, 0x00]);
}

#[test]
fn boundary_values_round_trip() {
    round_trip(0, &[0x00]);
    round_trip(252, &[0xFC]);
    round_trip(253, &[0xFD, 0xFD, 0x00]);
    round_trip(65535, &[0xFD, 0xFF, 0xFF]);
    round_trip(65536, &[0xFE, 0x00, 0x00, 0x01, 0x00]);
    round_trip(4294967295, &[0xFE, 0xFF, 0xFF, 0xFF, 0xFF]);
    round_trip(4294967296, &[0xFF, 0x00, 0x00, 0x00, 0x00, 0x01, 0x00, 0x00, 0x00]);
    round_trip(u64::MAX, &[0xFF, 0xFF, 0xFF, 0xFF, 0xFF, 0xFF, 0xFF, 0xFF, 0xFF]);
}

#[test]
fn payload_is_little_endian() {
    round_trip(0x1234, &[0xFD, 0x34, 0x12]);
    round_trip(0x1234_5678, &[0xFE, 0x78, 0x56, 0x34, 0x12]);
    round_trip(
        0x0102_0304_0506_0708,
        &[0xFF, 0x08, 0x07, 0x06, 0x05, 0x04, 0x03, 0x02, 0x01],
    );
}

#[test]
fn empty_buffer_is_insufficient() {
    assert_eq!(CompactSize::from_bytes(&[]), Err(BitcoinError::InsufficientBytes));
}

#[test]
fn truncated_encodings_are_insufficient() {
    for value in [0u64, 252, 253, 65535, 65536, 4294967295, 4294967296, u64::MAX] {
        let mut encoded = CompactSize::new(value).to_bytes();
        encoded.pop();
        assert_eq!(CompactSize::from_bytes(&encoded), Err(BitcoinError::InsufficientBytes));
    }
}

#[test]
fn each_tag_demands_its_payload() {
    assert_eq!(CompactSize::from_bytes(&[0xFD]), Err(BitcoinError::InsufficientBytes));
    assert_eq!(CompactSize::from_bytes(&[0xFD, 0x01]), Err(BitcoinError::InsufficientBytes));
    assert_eq!(
        CompactSize::from_bytes(&[0xFE, 0x01, 0x02, 0x03]),
        Err(BitcoinError::InsufficientBytes)
    );
    assert_eq!(
        CompactSize::from_bytes(&[0xFF, 1, 2, 3, 4, 5, 6, 7]),
        Err(BitcoinError::InsufficientBytes)
    );
}

#[test]
fn decoding_stops_after_the_value() {
    let (decoded, used) = CompactSize::from_bytes(&[0x2A, 0xFF, 0xFF]).unwrap();
    assert_eq!((decoded.value, used), (42, 1));
    let (decoded, used) = CompactSize::from_bytes(&[0xFD, 0x00, 0x01, 0xAA, 0xBB]).unwrap();
    assert_eq!((decoded.value, used), (256, 3));
}

#[test]
fn over_long_encodings_are_accepted() {
    let (decoded, used) = CompactSize::from_bytes(&[0xFD, 0x0A, 0x00]).unwrap();
    assert_eq!((decoded.value, used), (10, 3));
    let (decoded, used) = CompactSize::from_bytes(&[0xFE, 0x0A, 0x00, 0x00, 0x00]).unwrap();
    assert_eq!((decoded.value, used), (10, 5));
    let (decoded, used) =
        CompactSize::from_bytes(&[0xFF, 0x0A, 0, 0, 0, 0, 0, 0, 0]).unwrap();
    assert_eq!((decoded.value, used), (10, 9));
    assert_eq!(CompactSize::new(10).to_bytes(), vec![0x0A]);
}
