//! The transaction input: a claim on an earlier output, the script that
//! authorises it and a sequence number.

use vstd::prelude::*;
use crate::endian::{
    append_bytes, le_bytes, le_value, lemma_le_bytes_len, lemma_le_value_bound,
    lemma_le_value_of_le_bytes, lemma_pow256_widths, push_le, read_le,
};
use crate::error::{decodes_to, BitcoinError};
use crate::outpoint::{OutPoint, OutPointView};
use crate::script::Script;

verus! {

/// One input of a transaction.
#[derive(Debug, PartialEq, Eq, Clone)]
pub struct TransactionInput {
    pub previous_output: OutPoint,
    pub script_sig: Script,
    pub sequence: u32,
}

/// The mathematical value of a [`TransactionInput`].
pub struct TransactionInputView {
    pub previous_output: OutPointView,
    pub script_sig: Seq<u8>,
    pub sequence: u32,
}

impl View for TransactionInput {
    type V = TransactionInputView;

    open spec fn view(&self) -> TransactionInputView {
        TransactionInputView {
            previous_output: self.previous_output@,
            script_sig: self.script_sig@,
            sequence: self.sequence,
        }
    }
}

impl TransactionInput {
    /// An input is valid where its outpoint and its script are.
    pub open spec fn valid(input: TransactionInputView) -> bool {
        &&& OutPoint::valid(input.previous_output)
        &&& Script::valid(input.script_sig)
    }

    /// The wire form: the outpoint, the script, then the sequence number as
    /// 4 little-endian bytes.
    pub open spec fn encoding(input: TransactionInputView) -> Seq<u8> {
        OutPoint::encoding(input.previous_output) + Script::encoding(input.script_sig) + le_bytes(
            input.sequence as nat,
            4,
        )
    }

    /// What the front of `bytes` reads as: an outpoint, a script after it and
    /// 4 bytes of sequence number after that; `None` where any of the three
    /// is cut short.
    pub open spec fn decoding(bytes: Seq<u8>) -> Option<(TransactionInputView, nat)> {
        match OutPoint::decoding(bytes) {
            None => None,
            Some((previous_output, first)) => match Script::decoding(bytes.skip(first as int)) {
                None => None,
                Some((script_sig, second)) => {
                    let at = first as int + second as int;
                    if bytes.len() < at + 4 {
                        None
                    } else {
                        Some(
                            (
                                TransactionInputView {
                                    previous_output,
                                    script_sig,
                                    sequence: le_value(bytes.subrange(at, at + 4)) as u32,
                                },
                                (at + 4) as nat,
                            ),
                        )
                    }
                },
            },
        }
    }

    pub fn new(previous_output: OutPoint, script_sig: Script, sequence: u32) -> (input: Self)
        ensures
            input == (TransactionInput { previous_output, script_sig, sequence }),
    {
        TransactionInput { previous_output, script_sig, sequence }
    }

    /// Every input is valid.
    pub proof fn lemma_valid(&self)
        ensures
            Self::valid(self@),
    {
        self.previous_output.lemma_valid();
        self.script_sig.lemma_valid();
    }

    /// Encodes the input: its three fields one after the other.
    pub fn to_bytes(&self) -> (out: Vec<u8>)
        ensures
            out@ == Self::encoding(self@),
    {
        let mut out = self.previous_output.to_bytes();
        let script = self.script_sig.to_bytes();
        append_bytes(&mut out, script.as_slice());
        push_le(&mut out, self.sequence as u64, 4);
        out
    }

    /// Decodes an input from the front of `bytes`. An error of a field's own
    /// decoder is handed on as it is.
    pub fn from_bytes(bytes: &[u8]) -> (result: Result<(Self, usize), BitcoinError>)
        ensures
            decodes_to(result, Self::decoding(bytes@)),
    {
        let (previous_output, first) = match OutPoint::from_bytes(bytes) {
            Err(error) => { return Err(error); },
            Ok(decoded) => decoded,
        };
        let (script_sig, second) = match Script::from_bytes(&bytes[first..bytes.len()]) {
            Err(error) => { return Err(error); },
            Ok(decoded) => decoded,
        };
        assert(bytes@.subrange(first as int, bytes@.len() as int) =~= bytes@.skip(first as int));
        let at = first + second;
        if bytes.len() - at < 4 {
            return Err(BitcoinError::InsufficientBytes);
        }
        let sequence = read_le(bytes, at, 4);
        proof {
            lemma_le_value_bound(bytes@.subrange(at as int, at + 4));
            lemma_pow256_widths();
        }
        Ok((TransactionInput::new(previous_output, script_sig, sequence as u32), at + 4))
    }

    /// Decoding the encoding of an input gives the input back and consumes
    /// the whole encoding.
    pub proof fn lemma_round_trip(input: TransactionInputView)
        requires
            Self::valid(input),
        ensures
            Self::decoding(Self::encoding(input)) == Some((input, Self::encoding(input).len())),
    {
        Self::lemma_round_trip_within(input, Seq::empty());
        assert(Self::encoding(input) + Seq::<u8>::empty() =~= Self::encoding(input));
    }

    /// The same with anything after the encoding: decoding reads the input and
    /// stops where its encoding ends.
    pub proof fn lemma_round_trip_within(input: TransactionInputView, rest: Seq<u8>)
        requires
            Self::valid(input),
        ensures
            Self::decoding(Self::encoding(input) + rest) == Some(
                (input, Self::encoding(input).len()),
            ),
    {
        let point = OutPoint::encoding(input.previous_output);
        let script = Script::encoding(input.script_sig);
        let sequence = le_bytes(input.sequence as nat, 4);
        let bytes = Self::encoding(input) + rest;
        lemma_le_bytes_len(input.sequence as nat, 4);
        lemma_pow256_widths();
        lemma_le_value_of_le_bytes(input.sequence as nat, 4);
        OutPoint::lemma_round_trip_within(input.previous_output, script + sequence + rest);
        assert(bytes =~= point + (script + sequence + rest));
        Script::lemma_round_trip_within(input.script_sig, sequence + rest);
        assert(bytes.skip(point.len() as int) =~= script + (sequence + rest));
        let at = point.len() + script.len();
        assert(bytes.subrange(at as int, at + 4 as int) =~= sequence);
    }

    /// What decodes is a valid input, read from within the buffer.
    pub proof fn lemma_decoding_within(bytes: Seq<u8>)
        ensures
            Self::decoding(bytes) matches Some((input, used)) ==> Self::valid(input) && used
                <= bytes.len(),
    {
        OutPoint::lemma_decoding_within(bytes);
        if let Some((_, first)) = OutPoint::decoding(bytes) {
            Script::lemma_decoding_within(bytes.skip(first as int));
        }
    }

    /// No proper prefix of an encoding decodes.
    pub proof fn lemma_prefix_rejected(input: TransactionInputView, cut: int)
        requires
            Self::valid(input),
            0 <= cut < Self::encoding(input).len(),
        ensures
            Self::decoding(Self::encoding(input).take(cut)) is None,
    {
        let point = OutPoint::encoding(input.previous_output);
        let script = Script::encoding(input.script_sig);
        let sequence = le_bytes(input.sequence as nat, 4);
        let bytes = Self::encoding(input).take(cut);
        OutPoint::lemma_encoding_len(input.previous_output);
        lemma_le_bytes_len(input.sequence as nat, 4);
        if cut >= point.len() {
            let after = (script + sequence).take(cut - point.len());
            OutPoint::lemma_round_trip_within(input.previous_output, after);
            assert(bytes =~= point + after);
            assert(bytes.skip(point.len() as int) =~= after);
            if cut - point.len() < script.len() {
                Script::lemma_prefix_rejected(input.script_sig, cut - point.len());
                assert(after =~= script.take(cut - point.len()));
            } else {
                let kept = sequence.take(cut - point.len() - script.len());
                Script::lemma_round_trip_within(input.script_sig, kept);
                assert(after =~= script + kept);
            }
        }
    }

    /// An encoding that lost its last byte does not decode.
    pub proof fn lemma_truncated(input: TransactionInputView)
        requires
            Self::valid(input),
        ensures
            Self::decoding(Self::encoding(input).drop_last()) is None,
    {
        let encoded = Self::encoding(input);
        lemma_le_bytes_len(input.sequence as nat, 4);
        Self::lemma_prefix_rejected(input, encoded.len() - 1);
        assert(encoded.drop_last() =~= encoded.take(encoded.len() - 1));
    }
}

} // verus!
