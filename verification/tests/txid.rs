use bitcoin_wire::{BitcoinError, Txid};

fn counting() -> [u8; 32] {
    let mut id = [0u8; 32];
    for (i, byte) in id.iter_mut().enumerate() {
        *byte = (i * 8 + 1) as u8;
    }
    id
}

#[test]
fn txid_to_hex_is_lowercase_in_stored_order() {
    let mut id = [0u8; 32];
    id[0] = 0xAB;
    id[1] = 0x01;
    id[31] = 0xF0;
    let text = Txid(id).to_hex();
    assert_eq!(
        text,
        "ab010000000000000000000000000000000000000000000000000000000000f0"
    );
    assert_eq!(text.len(), 64);
}

#[test]
fn txid_to_hex_agrees_with_the_hex_crate() {
    let id = counting();
    assert_eq!(Txid(id).to_hex(), hex::encode(id));
}

#[test]
fn txid_from_hex_reads_known_bytes() {
    let text = "000102030405060708090a0b0c0d0e0f101112131415161718191a1b1c1d1e1f";
    let mut expected = [0u8; 32];
    for (i, byte) in expected.iter_mut().enumerate() {
        *byte = i as u8;
    }
    assert_eq!(Txid::from_hex(text), Ok(Txid(expected)));
}

#[test]
fn txid_hex_round_trip() {
    for id in [[0u8; 32], [0xFFu8; 32], counting()] {
        let text = Txid(id).to_hex();
        assert_eq!(Txid::from_hex(&text), Ok(Txid(id)));
    }
}

#[test]
fn txid_from_hex_accepts_upper_and_mixed_case() {
    let lower = "ab".repeat(32);
    let upper = "AB".repeat(32);
    let mixed = "aB".repeat(32);
    let expected = Ok(Txid([0xAB; 32]));
    assert_eq!(Txid::from_hex(&lower), expected);
    assert_eq!(Txid::from_hex(&upper), expected);
    assert_eq!(Txid::from_hex(&mixed), expected);
}

#[test]
fn txid_from_hex_rejects_wrong_lengths() {
    assert_eq!(Txid::from_hex(&"0".repeat(62)), Err(BitcoinError::InvalidFormat));
    assert_eq!(Txid::from_hex(&"0".repeat(66)), Err(BitcoinError::InvalidFormat));
    assert_eq!(Txid::from_hex(&"0".repeat(63)), Err(BitcoinError::InvalidFormat));
    assert_eq!(Txid::from_hex(""), Err(BitcoinError::InvalidFormat));
}

#[test]
fn txid_from_hex_rejects_non_hex_text() {
    assert_eq!(Txid::from_hex(&"g".repeat(64)), Err(BitcoinError::InvalidFormat));
    assert_eq!(Txid::from_hex(&"zz".repeat(32)), Err(BitcoinError::InvalidFormat));
    let mut text = "0".repeat(63);
    text.push(' ');
    assert_eq!(Txid::from_hex(&text), Err(BitcoinError::InvalidFormat));
    assert_eq!(Txid::from_hex("not a transaction id"), Err(BitcoinError::InvalidFormat));
}

#[test]
fn txid_from_hex_rejects_non_ascii_text() {
    let text = "é".repeat(32);
    assert_eq!(text.len(), 64);
    assert_eq!(Txid::from_hex(&text), Err(BitcoinError::InvalidFormat));
    let text = "é".repeat(64);
    assert_eq!(text.chars().count(), 64);
    assert_eq!(Txid::from_hex(&text), Err(BitcoinError::InvalidFormat));
}

#[test]
fn txid_bytes_round_trip() {
    let id = counting();
    let encoded = Txid(id).to_bytes();
    assert_eq!(encoded, id.to_vec());
    assert_eq!(Txid::from_bytes(&encoded), Ok((Txid(id), 32)));
}

#[test]
fn txid_from_bytes_reads_only_the_first_32() {
    let mut buffer = counting().to_vec();
    buffer.extend_from_slice(&[9, 9, 9]);
    assert_eq!(Txid::from_bytes(&buffer), Ok((Txid(counting()), 32)));
}

#[test]
fn txid_from_bytes_needs_32_bytes() {
    assert_eq!(Txid::from_bytes(&[0u8; 31]), Err(BitcoinError::InsufficientBytes));
    assert_eq!(Txid::from_bytes(&[]), Err(BitcoinError::InsufficientBytes));
}
