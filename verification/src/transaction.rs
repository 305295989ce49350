//! The transaction: a version, a counted sequence of inputs and a lock time.

use vstd::prelude::*;
use vstd::string::StringExecFns;
use crate::compact_size::CompactSize;
use crate::decimal::{decimal, push_decimal};
use crate::endian::{
    append_bytes, le_bytes, le_value, lemma_le_bytes_len, lemma_le_value_bound,
    lemma_le_value_of_le_bytes, lemma_pow256_widths, push_le, read_le,
};
use crate::error::{decodes_to, BitcoinError};
use crate::hex_text::{hex_encode, hex_text};
use crate::input::{TransactionInput, TransactionInputView};

verus! {

/// A transaction. It has inputs only: outputs are not part of this format.
#[derive(Debug, PartialEq, Eq, Clone)]
pub struct BitcoinTransaction {
    pub version: u32,
    pub inputs: Vec<TransactionInput>,
    pub lock_time: u32,
}

/// The mathematical value of a [`BitcoinTransaction`].
pub struct BitcoinTransactionView {
    pub version: u32,
    pub inputs: Seq<TransactionInputView>,
    pub lock_time: u32,
}

/// The values of a sequence of inputs, in order.
pub open spec fn input_views(inputs: Seq<TransactionInput>) -> Seq<TransactionInputView> {
    Seq::new(inputs.len(), |i: int| inputs[i]@)
}

impl View for BitcoinTransaction {
    type V = BitcoinTransactionView;

    open spec fn view(&self) -> BitcoinTransactionView {
        BitcoinTransactionView {
            version: self.version,
            inputs: input_views(self.inputs@),
            lock_time: self.lock_time,
        }
    }
}

impl BitcoinTransaction {
    /// A transaction is valid where each of its inputs is and their number
    /// can be written as a compact size.
    pub open spec fn valid(tx: BitcoinTransactionView) -> bool {
        &&& tx.inputs.len() <= u64::MAX
        &&& forall|i: int|
            0 <= i < tx.inputs.len() ==> TransactionInput::valid(#[trigger] tx.inputs[i])
    }

    /// The encodings of `inputs`, one after the other.
    pub open spec fn inputs_encoding(inputs: Seq<TransactionInputView>) -> Seq<u8>
        decreases inputs.len(),
    {
        if inputs.len() == 0 {
            Seq::empty()
        } else {
            Self::inputs_encoding(inputs.drop_last()) + TransactionInput::encoding(inputs.last())
        }
    }

    /// What the front of `bytes` reads as when `count` inputs are read from
    /// it one after the other: the inputs and the number of bytes they
    /// occupy together, or `None` where any of them is cut short.
    pub open spec fn inputs_decoding(bytes: Seq<u8>, count: nat) -> Option<
        (Seq<TransactionInputView>, nat),
    >
        decreases count,
    {
        if count == 0 {
            Some((Seq::empty(), 0))
        } else {
            match Self::inputs_decoding(bytes, (count - 1) as nat) {
                None => None,
                Some((inputs, used)) => match TransactionInput::decoding(bytes.skip(used as int)) {
                    None => None,
                    Some((input, more)) => Some((inputs.push(input), used + more)),
                },
            }
        }
    }

    /// The wire form: the version as 4 little-endian bytes, the number of
    /// inputs as a compact size, the inputs, then the lock time as 4
    /// little-endian bytes.
    pub open spec fn encoding(tx: BitcoinTransactionView) -> Seq<u8> {
        le_bytes(tx.version as nat, 4) + CompactSize::encoding(tx.inputs.len() as u64)
            + Self::inputs_encoding(tx.inputs) + le_bytes(tx.lock_time as nat, 4)
    }

    /// What the front of `bytes` reads as: 4 bytes of version, a compact
    /// size, as many inputs as it declares and 4 bytes of lock time; `None`
    /// where any of them is cut short.
    pub open spec fn decoding(bytes: Seq<u8>) -> Option<(BitcoinTransactionView, nat)> {
        if bytes.len() < 4 {
            None
        } else {
            match CompactSize::decoding(bytes.skip(4)) {
                None => None,
                Some((count, prefix)) => match Self::inputs_decoding(
                    bytes.skip(4 + prefix as int),
                    count as nat,
                ) {
                    None => None,
                    Some((inputs, used)) => {
                        let at = 4 + prefix as int + used as int;
                        if bytes.len() < at + 4 {
                            None
                        } else {
                            Some(
                                (
                                    BitcoinTransactionView {
                                        version: le_value(bytes.subrange(0, 4)) as u32,
                                        inputs,
                                        lock_time: le_value(bytes.subrange(at, at + 4)) as u32,
                                    },
                                    (at + 4) as nat,
                                ),
                            )
                        }
                    },
                },
            }
        }
    }

    /// The lines that describe the input at position `index`.
    pub open spec fn input_text(index: nat, input: TransactionInputView) -> Seq<char> {
        "  Input #"@ + decimal(index) + ":\n"@ + "    Previous Output TXID: "@ + hex_text(
            input.previous_output.txid,
        ) + "\n"@ + "    Previous Output Vout: "@ + decimal(input.previous_output.vout as nat)
            + "\n"@ + "    ScriptSig ("@ + decimal(input.script_sig.len()) + " bytes): "@
            + hex_text(input.script_sig) + "\n"@ + "    Sequence: "@ + decimal(
            input.sequence as nat,
        ) + "\n"@
    }

    /// The descriptions of `inputs`, in order, each under its position.
    pub open spec fn inputs_text(inputs: Seq<TransactionInputView>) -> Seq<char>
        decreases inputs.len(),
    {
        if inputs.len() == 0 {
            Seq::empty()
        } else {
            Self::inputs_text(inputs.drop_last()) + Self::input_text(
                (inputs.len() - 1) as nat,
                inputs.last(),
            )
        }
    }

    /// The human-readable rendering: the version, the number of inputs, each
    /// input (the identifier and index it spends, its script's length and
    /// hexadecimal text, its sequence number) and the lock time, one field
    /// to a line, numbers in decimal.
    pub open spec fn text(tx: BitcoinTransactionView) -> Seq<char> {
        "Version: "@ + decimal(tx.version as nat) + "\n"@ + "Inputs ("@ + decimal(
            tx.inputs.len(),
        ) + "):\n"@ + Self::inputs_text(tx.inputs) + "Lock Time: "@ + decimal(
            tx.lock_time as nat,
        ) + "\n"@
    }

    pub fn new(version: u32, inputs: Vec<TransactionInput>, lock_time: u32) -> (tx: Self)
        ensures
            tx == (BitcoinTransaction { version, inputs, lock_time }),
    {
        BitcoinTransaction { version, inputs, lock_time }
    }

    /// Every transaction is valid.
    pub proof fn lemma_valid(&self)
        ensures
            Self::valid(self@),
    {
        assert(self.inputs@.len() == self.inputs.len());
        assert forall|i: int| 0 <= i < self@.inputs.len() implies TransactionInput::valid(
            #[trigger] self@.inputs[i],
        ) by {
            self.inputs@[i].lemma_valid();
        }
    }

    /// Encodes the transaction: the number of inputs on the wire is the
    /// number of inputs it has.
    pub fn to_bytes(&self) -> (out: Vec<u8>)
        ensures
            out@ == Self::encoding(self@),
    {
        let mut out: Vec<u8> = Vec::new();
        push_le(&mut out, self.version as u64, 4);
        let count = CompactSize::new(self.inputs.len() as u64).to_bytes();
        append_bytes(&mut out, count.as_slice());
        let ghost head = out@;
        let mut i: usize = 0;
        while i < self.inputs.len()
            invariant
                i <= self.inputs.len(),
                out@ == head + Self::inputs_encoding(self@.inputs.take(i as int)),
            decreases self.inputs.len() - i,
        {
            let input = self.inputs[i].to_bytes();
            append_bytes(&mut out, input.as_slice());
            proof {
                let longer = self@.inputs.take(i + 1);
                assert(longer.drop_last() =~= self@.inputs.take(i as int));
                assert(longer.last() == self.inputs@[i as int]@);
            }
            i = i + 1;
        }
        assert(self@.inputs.take(i as int) =~= self@.inputs);
        push_le(&mut out, self.lock_time as u64, 4);
        out
    }

    /// Decodes a transaction from the front of `bytes`: exactly as many
    /// inputs as the buffer declares, or an error and no inputs at all.
    pub fn from_bytes(bytes: &[u8]) -> (result: Result<(Self, usize), BitcoinError>)
        ensures
            decodes_to(result, Self::decoding(bytes@)),
    {
        if bytes.len() < 4 {
            return Err(BitcoinError::InsufficientBytes);
        }
        let version = read_le(bytes, 0, 4);
        proof {
            lemma_le_value_bound(bytes@.subrange(0, 4));
            lemma_pow256_widths();
        }
        let (size, prefix) = match CompactSize::from_bytes(&bytes[4..bytes.len()]) {
            Err(error) => { return Err(error); },
            Ok(decoded) => decoded,
        };
        assert(bytes@.subrange(4, bytes@.len() as int) =~= bytes@.skip(4));
        let start = 4 + prefix;
        let ghost body = bytes@.skip(start as int);
        let mut inputs: Vec<TransactionInput> = Vec::new();
        let mut offset = start;
        let mut read: u64 = 0;
        assert(input_views(inputs@) =~= Seq::empty());
        while read < size.value
            invariant
                read <= size.value,
                4 <= start == 4 + prefix <= offset <= bytes.len(),
                CompactSize::decoding(bytes@.skip(4)) == Some((size.value, prefix as nat)),
                body == bytes@.skip(start as int),
                Self::inputs_decoding(body, read as nat) == Some(
                    (input_views(inputs@), (offset - start) as nat),
                ),
            decreases size.value - read,
        {
            assert(bytes@.subrange(offset as int, bytes@.len() as int) =~= body.skip(
                offset - start,
            ));
            match TransactionInput::from_bytes(&bytes[offset..bytes.len()]) {
                Err(error) => {
                    proof {
                        assert(Self::inputs_decoding(body, (read + 1) as nat) is None);
                        Self::lemma_inputs_decoding_stays_none(
                            body,
                            (read + 1) as nat,
                            size.value as nat,
                        );
                    }
                    return Err(error);
                },
                Ok((input, consumed)) => {
                    assert(input_views(inputs@.push(input)) =~= input_views(inputs@).push(input@));
                    inputs.push(input);
                    offset = offset + consumed;
                },
            }
            read = read + 1;
        }
        if bytes.len() - offset < 4 {
            return Err(BitcoinError::InsufficientBytes);
        }
        let lock_time = read_le(bytes, offset, 4);
        proof {
            lemma_le_value_bound(bytes@.subrange(offset as int, offset + 4));
        }
        Ok((BitcoinTransaction::new(version as u32, inputs, lock_time as u32), offset + 4))
    }

    /// Renders the lines that describe the input at position `index`.
    fn render_input(index: usize, input: &TransactionInput) -> (text: String)
        ensures
            text@ == Self::input_text(index as nat, input@),
    {
        let txid = hex_encode(input.previous_output.txid.0.as_slice());
        let script = hex_encode(input.script_sig.bytes.as_slice());
        let mut text = String::from_str("  Input #");
        push_decimal(&mut text, index as u64);
        text.append(":\n");
        text.append("    Previous Output TXID: ");
        text.append(txid.as_str());
        text.append("\n");
        text.append("    Previous Output Vout: ");
        push_decimal(&mut text, input.previous_output.vout as u64);
        text.append("\n");
        text.append("    ScriptSig (");
        push_decimal(&mut text, input.script_sig.bytes.len() as u64);
        text.append(" bytes): ");
        text.append(script.as_str());
        text.append("\n");
        text.append("    Sequence: ");
        push_decimal(&mut text, input.sequence as u64);
        text.append("\n");
        text
    }

    /// Renders the transaction for a human reader, for diagnostics.
    pub fn to_string(&self) -> (text: String)
        ensures
            text@ == Self::text(self@),
    {
        let mut text = String::from_str("Version: ");
        push_decimal(&mut text, self.version as u64);
        text.append("\n");
        text.append("Inputs (");
        push_decimal(&mut text, self.inputs.len() as u64);
        text.append("):\n");
        let ghost head = text@;
        let mut i: usize = 0;
        while i < self.inputs.len()
            invariant
                i <= self.inputs.len(),
                text@ == head + Self::inputs_text(self@.inputs.take(i as int)),
            decreases self.inputs.len() - i,
        {
            let input = Self::render_input(i, &self.inputs[i]);
            text.append(input.as_str());
            proof {
                let longer = self@.inputs.take(i + 1);
                assert(longer.drop_last() =~= self@.inputs.take(i as int));
                assert(longer.last() == self.inputs@[i as int]@);
                assert(text@ =~= head + Self::inputs_text(longer));
            }
            i = i + 1;
        }
        assert(self@.inputs.take(i as int) =~= self@.inputs);
        text.append("Lock Time: ");
        push_decimal(&mut text, self.lock_time as u64);
        text.append("\n");
        text
    }

    /// Once reading some number of inputs fails, reading more fails too.
    pub proof fn lemma_inputs_decoding_stays_none(bytes: Seq<u8>, fewer: nat, more: nat)
        requires
            fewer <= more,
            Self::inputs_decoding(bytes, fewer) is None,
        ensures
            Self::inputs_decoding(bytes, more) is None,
        decreases more,
    {
        if fewer < more {
            Self::lemma_inputs_decoding_stays_none(bytes, fewer, (more - 1) as nat);
        }
    }

    /// Reading back as many inputs as were encoded gives them back and
    /// consumes exactly their encoding, whatever follows it in the buffer.
    pub proof fn lemma_inputs_round_trip(inputs: Seq<TransactionInputView>, rest: Seq<u8>)
        requires
            forall|i: int| 0 <= i < inputs.len() ==> TransactionInput::valid(#[trigger] inputs[i]),
        ensures
            Self::inputs_decoding(Self::inputs_encoding(inputs) + rest, inputs.len()) == Some(
                (inputs, Self::inputs_encoding(inputs).len()),
            ),
        decreases inputs.len(),
    {
        if inputs.len() == 0 {
            assert(inputs =~= Seq::empty());
        } else {
            let front = inputs.drop_last();
            let last = TransactionInput::encoding(inputs.last());
            let bytes = Self::inputs_encoding(inputs) + rest;
            Self::lemma_inputs_round_trip(front, last + rest);
            assert(bytes =~= Self::inputs_encoding(front) + (last + rest));
            TransactionInput::lemma_round_trip_within(inputs.last(), rest);
            assert(bytes.skip(Self::inputs_encoding(front).len() as int) =~= last + rest);
            assert(front.push(inputs.last()) =~= inputs);
        }
    }

    /// Decoding the encoding of a transaction gives the transaction back and
    /// consumes the whole encoding.
    pub proof fn lemma_round_trip(tx: BitcoinTransactionView)
        requires
            Self::valid(tx),
        ensures
            Self::decoding(Self::encoding(tx)) == Some((tx, Self::encoding(tx).len())),
    {
        Self::lemma_round_trip_within(tx, Seq::empty());
        assert(Self::encoding(tx) + Seq::<u8>::empty() =~= Self::encoding(tx));
    }

    /// The same with anything after the encoding: decoding reads the
    /// transaction and stops where its encoding ends.
    pub proof fn lemma_round_trip_within(tx: BitcoinTransactionView, rest: Seq<u8>)
        requires
            Self::valid(tx),
        ensures
            Self::decoding(Self::encoding(tx) + rest) == Some((tx, Self::encoding(tx).len())),
    {
        let version = le_bytes(tx.version as nat, 4);
        let count = CompactSize::encoding(tx.inputs.len() as u64);
        let inputs = Self::inputs_encoding(tx.inputs);
        let lock_time = le_bytes(tx.lock_time as nat, 4);
        let bytes = Self::encoding(tx) + rest;
        lemma_le_bytes_len(tx.version as nat, 4);
        lemma_le_bytes_len(tx.lock_time as nat, 4);
        lemma_pow256_widths();
        lemma_le_value_of_le_bytes(tx.version as nat, 4);
        lemma_le_value_of_le_bytes(tx.lock_time as nat, 4);
        assert(bytes.subrange(0, 4) =~= version);
        CompactSize::lemma_round_trip_within(tx.inputs.len() as u64, inputs + lock_time + rest);
        assert(bytes.skip(4) =~= count + (inputs + lock_time + rest));
        Self::lemma_inputs_round_trip(tx.inputs, lock_time + rest);
        assert(bytes.skip(4 + count.len() as int) =~= inputs + (lock_time + rest));
        let at = 4 + count.len() as int + inputs.len() as int;
        assert(bytes.subrange(at, at + 4) =~= lock_time);
    }

    /// Reading `count` inputs yields, where it yields anything, exactly
    /// `count` valid inputs, read from within the buffer.
    pub proof fn lemma_inputs_decoding_within(bytes: Seq<u8>, count: nat)
        ensures
            Self::inputs_decoding(bytes, count) matches Some((inputs, used)) ==> {
                &&& inputs.len() == count
                &&& used <= bytes.len()
                &&& forall|i: int|
                    0 <= i < inputs.len() ==> TransactionInput::valid(#[trigger] inputs[i])
            },
        decreases count,
    {
        if count > 0 {
            Self::lemma_inputs_decoding_within(bytes, (count - 1) as nat);
            if let Some((_, used)) = Self::inputs_decoding(bytes, (count - 1) as nat) {
                TransactionInput::lemma_decoding_within(bytes.skip(used as int));
            }
        }
    }

    /// What decodes is a valid transaction, read from within the buffer, with
    /// exactly as many inputs as the buffer declares.
    pub proof fn lemma_decoding_within(bytes: Seq<u8>)
        ensures
            Self::decoding(bytes) matches Some((tx, used)) ==> {
                &&& Self::valid(tx)
                &&& used <= bytes.len()
                &&& CompactSize::decoding(bytes.skip(4)) matches Some((count, _))
                &&& tx.inputs.len() == count
            },
    {
        if bytes.len() >= 4 {
            if let Some((count, prefix)) = CompactSize::decoding(bytes.skip(4)) {
                Self::lemma_inputs_decoding_within(bytes.skip(4 + prefix as int), count as nat);
            }
        }
    }

    /// No proper prefix of the encodings of some inputs reads as that many
    /// inputs.
    pub proof fn lemma_inputs_prefix_rejected(inputs: Seq<TransactionInputView>, cut: int)
        requires
            forall|i: int| 0 <= i < inputs.len() ==> TransactionInput::valid(#[trigger] inputs[i]),
            0 <= cut < Self::inputs_encoding(inputs).len(),
        ensures
            Self::inputs_decoding(Self::inputs_encoding(inputs).take(cut), inputs.len()) is None,
        decreases inputs.len(),
    {
        let front = inputs.drop_last();
        let head = Self::inputs_encoding(front);
        let last = TransactionInput::encoding(inputs.last());
        let bytes = Self::inputs_encoding(inputs).take(cut);
        if cut < head.len() {
            Self::lemma_inputs_prefix_rejected(front, cut);
            assert(bytes =~= head.take(cut));
        } else {
            let kept = last.take(cut - head.len());
            Self::lemma_inputs_round_trip(front, kept);
            assert(bytes =~= head + kept);
            TransactionInput::lemma_prefix_rejected(inputs.last(), cut - head.len());
            assert(bytes.skip(head.len() as int) =~= kept);
        }
    }

    /// No proper prefix of an encoding decodes.
    pub proof fn lemma_prefix_rejected(tx: BitcoinTransactionView, cut: int)
        requires
            Self::valid(tx),
            0 <= cut < Self::encoding(tx).len(),
        ensures
            Self::decoding(Self::encoding(tx).take(cut)) is None,
    {
        let version = le_bytes(tx.version as nat, 4);
        let count = CompactSize::encoding(tx.inputs.len() as u64);
        let inputs = Self::inputs_encoding(tx.inputs);
        let lock_time = le_bytes(tx.lock_time as nat, 4);
        let bytes = Self::encoding(tx).take(cut);
        lemma_le_bytes_len(tx.version as nat, 4);
        lemma_le_bytes_len(tx.lock_time as nat, 4);
        if cut >= 4 {
            let after = (count + inputs + lock_time).take(cut - 4);
            assert(bytes =~= version + after);
            assert(bytes.skip(4) =~= after);
            if cut - 4 < count.len() {
                CompactSize::lemma_prefix_rejected(tx.inputs.len() as u64, cut - 4);
                assert(after =~= count.take(cut - 4));
            } else {
                let body = (inputs + lock_time).take(cut - 4 - count.len());
                CompactSize::lemma_round_trip_within(tx.inputs.len() as u64, body);
                assert(after =~= count + body);
                assert(bytes.skip(4 + count.len() as int) =~= body);
                if cut - 4 - count.len() < inputs.len() {
                    Self::lemma_inputs_prefix_rejected(tx.inputs, cut - 4 - count.len());
                    assert(body =~= inputs.take(cut - 4 - count.len()));
                } else {
                    let kept = lock_time.take(cut - 4 - count.len() - inputs.len());
                    Self::lemma_inputs_round_trip(tx.inputs, kept);
                    assert(body =~= inputs + kept);
                }
            }
        }
    }

    /// An encoding that lost its last byte does not decode.
    pub proof fn lemma_truncated(tx: BitcoinTransactionView)
        requires
            Self::valid(tx),
        ensures
            Self::decoding(Self::encoding(tx).drop_last()) is None,
    {
        let encoded = Self::encoding(tx);
        lemma_le_bytes_len(tx.lock_time as nat, 4);
        Self::lemma_prefix_rejected(tx, encoded.len() - 1);
        assert(encoded.drop_last() =~= encoded.take(encoded.len() - 1));
    }
}

} // verus!
