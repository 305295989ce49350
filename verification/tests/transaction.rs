use bitcoin_wire::{BitcoinError, BitcoinTransaction, OutPoint, Script, TransactionInput};

fn input(seed: u8, script: Vec<u8>) -> TransactionInput {
    TransactionInput::new(
        OutPoint::new([seed; 32], seed as u32),
        Script::new(script),
        0xFFFF_FFFF - seed as u32,
    )
}

fn sample() -> BitcoinTransaction {
    BitcoinTransaction::new(
        2,
        vec![input(1, vec![0xAA]), input(2, Vec::new()), input(3, vec![0x10; 260])],
        500_000,
    )
}

#[test]
fn transaction_new_keeps_its_fields() {
    let tx = sample();
    assert_eq!(tx.version, 2);
    assert_eq!(tx.inputs.len(), 3);
    assert_eq!(tx.inputs[1], input(2, Vec::new()));
    assert_eq!(tx.lock_time, 500_000);
}

#[test]
fn transaction_without_inputs() {
    let tx = BitcoinTransaction::new(1, Vec::new(), 0);
    let encoded = tx.to_bytes();
    assert_eq!(encoded, vec![0x01, 0x00, 0x00, 0x00, 0x00, 0x00, 0x00, 0x00, 0x00]);
    assert_eq!(BitcoinTransaction::from_bytes(&encoded), Ok((tx, 9)));
}

#[test]
fn transaction_layout() {
    let tx = BitcoinTransaction::new(0x0102_0304, vec![input(7, vec![0xEE])], 0x0A0B_0C0D);
    let mut expected = vec![0x04, 0x03, 0x02, 0x01];
    expected.push(1);
    expected.extend_from_slice(&input(7, vec![0xEE]).to_bytes());
    expected.extend_from_slice(&[0x0D, 0x0C, 0x0B, 0x0A]);
    assert_eq!(tx.to_bytes(), expected);
}

#[test]
fn transaction_count_on_the_wire_is_the_number_of_inputs() {
    let inputs: Vec<TransactionInput> = (0..253).map(|i| input(i as u8, Vec::new())).collect();
    let tx = BitcoinTransaction::new(1, inputs, 0);
    let encoded = tx.to_bytes();
    assert_eq!(&encoded[4..7], &[0xFD, 0xFD, 0x00]);
    assert_eq!(encoded.len(), 4 + 3 + 253 * 41 + 4);
    let (decoded, used) = BitcoinTransaction::from_bytes(&encoded).unwrap();
    assert_eq!(decoded.inputs.len(), 253);
    assert_eq!(used, encoded.len());
    assert_eq!(decoded, tx);
}

#[test]
fn transaction_round_trip() {
    let tx = sample();
    let encoded = tx.to_bytes();
    assert_eq!(BitcoinTransaction::from_bytes(&encoded), Ok((tx, encoded.len())));
}

#[test]
fn transaction_decoding_reports_what_it_consumed() {
    let mut buffer = sample().to_bytes();
    let own = buffer.len();
    buffer.extend_from_slice(&[1, 2, 3, 4, 5]);
    assert_eq!(BitcoinTransaction::from_bytes(&buffer), Ok((sample(), own)));
}

#[test]
fn truncated_transaction_is_insufficient() {
    for tx in [sample(), BitcoinTransaction::new(1, Vec::new(), 0)] {
        let mut encoded = tx.to_bytes();
        encoded.pop();
        assert_eq!(BitcoinTransaction::from_bytes(&encoded), Err(BitcoinError::InsufficientBytes));
    }
}

#[test]
fn every_proper_prefix_of_a_transaction_is_insufficient() {
    let encoded = BitcoinTransaction::new(2, vec![input(1, vec![0xAA]), input(2, Vec::new())], 9)
        .to_bytes();
    for cut in 0..encoded.len() {
        assert_eq!(
            BitcoinTransaction::from_bytes(&encoded[..cut]),
            Err(BitcoinError::InsufficientBytes)
        );
    }
}

#[test]
fn transaction_needs_its_version() {
    assert_eq!(BitcoinTransaction::from_bytes(&[]), Err(BitcoinError::InsufficientBytes));
    assert_eq!(BitcoinTransaction::from_bytes(&[1, 0, 0]), Err(BitcoinError::InsufficientBytes));
    assert_eq!(BitcoinTransaction::from_bytes(&[1, 0, 0, 0]), Err(BitcoinError::InsufficientBytes));
}

#[test]
fn two_inputs_declared_one_present() {
    let mut buffer = vec![1, 0, 0, 0];
    buffer.push(2);
    buffer.extend_from_slice(&input(1, vec![0xAA, 0xBB]).to_bytes());
    assert_eq!(BitcoinTransaction::from_bytes(&buffer), Err(BitcoinError::InsufficientBytes));
    buffer.extend_from_slice(&[0, 0, 0, 0]);
    assert_eq!(BitcoinTransaction::from_bytes(&buffer), Err(BitcoinError::InsufficientBytes));
}

#[test]
fn huge_declared_count_is_insufficient() {
    let mut buffer = vec![1, 0, 0, 0];
    buffer.extend_from_slice(&[0xFF; 9]);
    buffer.extend_from_slice(&input(1, Vec::new()).to_bytes());
    buffer.extend_from_slice(&[0, 0, 0, 0]);
    assert_eq!(BitcoinTransaction::from_bytes(&buffer), Err(BitcoinError::InsufficientBytes));
}

#[test]
fn transaction_with_over_long_count_is_read() {
    let mut buffer = vec![1, 0, 0, 0];
    buffer.extend_from_slice(&[0xFD, 0x01, 0x00]);
    buffer.extend_from_slice(&input(4, vec![1, 2]).to_bytes());
    buffer.extend_from_slice(&[9, 0, 0, 0]);
    let expected = BitcoinTransaction::new(1, vec![input(4, vec![1, 2])], 9);
    assert_eq!(BitcoinTransaction::from_bytes(&buffer), Ok((expected.clone(), buffer.len())));
    assert_eq!(expected.to_bytes().len(), buffer.len() - 2);
}

#[test]
fn transaction_rendering_without_inputs() {
    let tx = BitcoinTransaction::new(1, Vec::new(), 0);
    assert_eq!(tx.to_string(), "Version: 1\nInputs (0):\nLock Time: 0\n");
}

#[test]
fn transaction_rendering() {
    let first = TransactionInput::new(
        OutPoint::new([0xAB; 32], 1),
        Script::new(vec![0xDE, 0xAD]),
        u32::MAX,
    );
    let mut id = [0u8; 32];
    id[0] = 0x0F;
    id[31] = 0xF0;
    let second =
        TransactionInput::new(OutPoint::new(id, 4_000_000_000), Script::new(Vec::new()), 10);
    let tx = BitcoinTransaction::new(2, vec![first, second], 500_000);
    let expected = [
        "Version: 2\n",
        "Inputs (2):\n",
        "  Input #0:\n",
        "    Previous Output TXID: ",
        "abababababababababababababababababababababababababababababababab\n",
        "    Previous Output Vout: 1\n",
        "    ScriptSig (2 bytes): dead\n",
        "    Sequence: 4294967295\n",
        "  Input #1:\n",
        "    Previous Output TXID: ",
        "0f000000000000000000000000000000000000000000000000000000000000f0\n",
        "    Previous Output Vout: 4000000000\n",
        "    ScriptSig (0 bytes): \n",
        "    Sequence: 10\n",
        "Lock Time: 500000\n",
    ]
    .concat();
    assert_eq!(tx.to_string(), expected);
}

#[test]
fn transaction_rendering_numbers_inputs_in_decimal() {
    let inputs: Vec<TransactionInput> = (0..12).map(|i| input(i as u8, vec![0; 101])).collect();
    let text = BitcoinTransaction::new(4_294_967_295, inputs, 1_000).to_string();
    assert!(text.starts_with("Version: 4294967295\nInputs (12):\n  Input #0:\n"));
    assert!(text.contains("\n  Input #9:\n"));
    assert!(text.contains("\n  Input #10:\n"));
    assert!(text.contains("\n  Input #11:\n"));
    assert!(!text.contains("Input #12"));
    assert!(text.contains("    ScriptSig (101 bytes): 0000"));
    assert!(text.ends_with("\nLock Time: 1000\n"));
}
