//! The script: an opaque byte string that announces its own length.

use vstd::prelude::*;
use crate::compact_size::CompactSize;
use crate::endian::append_bytes;
use crate::error::{decodes_to, BitcoinError};

verus! {

/// An uninterpreted byte string, length-prefixed on the wire.
#[derive(Debug, PartialEq, Eq, Clone)]
pub struct Script {
    pub bytes: Vec<u8>,
}

impl View for Script {
    type V = Seq<u8>;

    open spec fn view(&self) -> Seq<u8> {
        self.bytes@
    }
}

impl Script {
    /// A script is valid where its length can be written as a compact size.
    pub open spec fn valid(script: Seq<u8>) -> bool {
        script.len() <= u64::MAX
    }

    /// The wire form: the length as a compact size, then the bytes.
    pub open spec fn encoding(script: Seq<u8>) -> Seq<u8> {
        CompactSize::encoding(script.len() as u64) + script
    }

    /// What the front of `bytes` reads as: a compact size, then as many bytes
    /// as it declares; `None` where either is cut short.
    pub open spec fn decoding(bytes: Seq<u8>) -> Option<(Seq<u8>, nat)> {
        match CompactSize::decoding(bytes) {
            None => None,
            Some((length, prefix)) => {
                if bytes.len() - prefix < length {
                    None
                } else {
                    Some((bytes.subrange(prefix as int, prefix + length), prefix + length as nat))
                }
            },
        }
    }

    pub fn new(bytes: Vec<u8>) -> (script: Self)
        ensures
            script == (Script { bytes }),
    {
        Script { bytes }
    }

    /// Every script is valid.
    pub proof fn lemma_valid(&self)
        ensures
            Self::valid(self@),
    {
        assert(self.bytes@.len() == self.bytes.len());
    }

    /// Encodes the script with its length in front.
    pub fn to_bytes(&self) -> (out: Vec<u8>)
        ensures
            out@ == Self::encoding(self@),
    {
        let mut out = CompactSize::new(self.bytes.len() as u64).to_bytes();
        append_bytes(&mut out, self.bytes.as_slice());
        out
    }

    /// Decodes a script from the front of `bytes`. The declared length is
    /// held against what is left of the buffer before anything is copied.
    pub fn from_bytes(bytes: &[u8]) -> (result: Result<(Self, usize), BitcoinError>)
        ensures
            decodes_to(result, Self::decoding(bytes@)),
    {
        match CompactSize::from_bytes(bytes) {
            Err(error) => Err(error),
            Ok((size, prefix)) => {
                if ((bytes.len() - prefix) as u64) < size.value {
                    return Err(BitcoinError::InsufficientBytes);
                }
                let total = prefix + size.value as usize;
                let mut data: Vec<u8> = Vec::new();
                append_bytes(&mut data, &bytes[prefix..total]);
                Ok((Script::new(data), total))
            },
        }
    }

    /// Decoding the encoding of a script gives the script back and consumes
    /// the whole encoding.
    pub proof fn lemma_round_trip(script: Seq<u8>)
        requires
            Self::valid(script),
        ensures
            Self::decoding(Self::encoding(script)) == Some((script, Self::encoding(script).len())),
    {
        Self::lemma_round_trip_within(script, Seq::empty());
        assert(Self::encoding(script) + Seq::<u8>::empty() =~= Self::encoding(script));
    }

    /// The same with anything after the encoding: decoding reads the script
    /// and stops where its encoding ends.
    pub proof fn lemma_round_trip_within(script: Seq<u8>, rest: Seq<u8>)
        requires
            Self::valid(script),
        ensures
            Self::decoding(Self::encoding(script) + rest) == Some(
                (script, Self::encoding(script).len()),
            ),
    {
        let length = script.len() as u64;
        let prefix = CompactSize::encoding(length);
        let bytes = Self::encoding(script) + rest;
        CompactSize::lemma_round_trip_within(length, script + rest);
        assert(bytes =~= prefix + (script + rest));
        assert(bytes.subrange(prefix.len() as int, prefix.len() + length) =~= script);
    }

    /// What decodes is a valid script, read from within the buffer.
    pub proof fn lemma_decoding_within(bytes: Seq<u8>)
        ensures
            Self::decoding(bytes) matches Some((script, used)) ==> Self::valid(script) && used
                <= bytes.len(),
    {
    }

    /// No proper prefix of an encoding decodes.
    pub proof fn lemma_prefix_rejected(script: Seq<u8>, cut: int)
        requires
            Self::valid(script),
            0 <= cut < Self::encoding(script).len(),
        ensures
            Self::decoding(Self::encoding(script).take(cut)) is None,
    {
        let length = script.len() as u64;
        let prefix = CompactSize::encoding(length);
        let bytes = Self::encoding(script).take(cut);
        if cut < prefix.len() {
            CompactSize::lemma_prefix_rejected(length, cut);
            assert(bytes =~= prefix.take(cut));
        } else {
            let kept = script.take(cut - prefix.len());
            CompactSize::lemma_round_trip_within(length, kept);
            assert(bytes =~= prefix + kept);
        }
    }

    /// An encoding that lost its last byte does not decode.
    pub proof fn lemma_truncated(script: Seq<u8>)
        requires
            Self::valid(script),
        ensures
            Self::decoding(Self::encoding(script).drop_last()) is None,
    {
        let encoded = Self::encoding(script);
        CompactSize::lemma_encoding_shape(script.len() as u64);
        Self::lemma_prefix_rejected(script, encoded.len() - 1);
        assert(encoded.drop_last() =~= encoded.take(encoded.len() - 1));
    }
}

impl std::ops::Deref for Script {
    type Target = Vec<u8>;

    fn deref(&self) -> (bytes: &Vec<u8>)
        ensures
            *bytes == self.bytes,
    {
        &self.bytes
    }
}

} // verus!
