use bitcoin_wire::{BitcoinError, OutPoint, Script, TransactionInput};

fn sample() -> TransactionInput {
    TransactionInput::new(OutPoint::new([0x22; 32], 5), Script::new(vec![0xCA, 0xFE]), 0xFFFF_FFFE)
}

#[test]
fn input_new_keeps_its_fields() {
    let input = sample();
    assert_eq!(input.previous_output, OutPoint::new([0x22; 32], 5));
    assert_eq!(input.script_sig, Script::new(vec![0xCA, 0xFE]));
    assert_eq!(input.sequence, 0xFFFF_FFFE);
}

#[test]
fn input_is_outpoint_script_sequence() {
    let encoded = sample().to_bytes();
    let mut expected = vec![0x22u8; 32];
    expected.extend_from_slice(&[5, 0, 0, 0]);
    expected.extend_from_slice(&[2, 0xCA, 0xFE]);
    expected.extend_from_slice(&[0xFE, 0xFF, 0xFF, 0xFF]);
    assert_eq!(encoded, expected);
}

#[test]
fn input_encoding_is_the_concatenation_of_its_fields() {
    let input = sample();
    let mut expected = input.previous_output.to_bytes();
    expected.extend_from_slice(&input.script_sig.to_bytes());
    expected.extend_from_slice(&input.sequence.to_le_bytes());
    assert_eq!(input.to_bytes(), expected);
}

#[test]
fn input_round_trip() {
    let inputs = [
        sample(),
        TransactionInput::new(OutPoint::new([0; 32], 0), Script::new(Vec::new()), 0),
        TransactionInput::new(
            OutPoint::new([0xFF; 32], u32::MAX),
            Script::new(vec![1; 300]),
            u32::MAX,
        ),
    ];
    for input in inputs {
        let encoded = input.to_bytes();
        assert_eq!(TransactionInput::from_bytes(&encoded), Ok((input, encoded.len())));
    }
}

#[test]
fn input_decoding_reports_what_it_consumed() {
    let mut buffer = sample().to_bytes();
    let own = buffer.len();
    buffer.extend_from_slice(&[0xAB; 10]);
    assert_eq!(TransactionInput::from_bytes(&buffer), Ok((sample(), own)));
    assert_eq!(own, 36 + 3 + 4);
}

#[test]
fn truncated_input_is_insufficient() {
    let mut encoded = sample().to_bytes();
    encoded.pop();
    assert_eq!(TransactionInput::from_bytes(&encoded), Err(BitcoinError::InsufficientBytes));
}

#[test]
fn every_proper_prefix_of_an_input_is_insufficient() {
    let encoded = sample().to_bytes();
    for cut in 0..encoded.len() {
        assert_eq!(
            TransactionInput::from_bytes(&encoded[..cut]),
            Err(BitcoinError::InsufficientBytes)
        );
    }
}

#[test]
fn input_with_a_cut_script_prefix_is_insufficient() {
    let mut buffer = vec![0u8; 36];
    buffer.extend_from_slice(&[0xFD, 0x01]);
    assert_eq!(TransactionInput::from_bytes(&buffer), Err(BitcoinError::InsufficientBytes));
}

#[test]
fn input_with_a_huge_script_length_is_insufficient() {
    let mut buffer = vec![0u8; 36];
    buffer.extend_from_slice(&[0xFF; 9]);
    buffer.extend_from_slice(&[0; 4]);
    assert_eq!(TransactionInput::from_bytes(&buffer), Err(BitcoinError::InsufficientBytes));
}
