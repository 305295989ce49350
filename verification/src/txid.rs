//! The transaction identifier: 32 opaque bytes, written to the wire as they
//! are and interchanged as 64 lowercase hexadecimal digits.

use vstd::prelude::*;
use crate::endian::append_bytes;
use crate::error::{decodes_to, BitcoinError};
use crate::hex_text::{
    hex_bytes, hex_decode, hex_encode, hex_text, is_hex_text, lemma_hex_round_trip,
};

verus! {

/// A 32-byte transaction identifier.
#[derive(Debug, PartialEq, Eq, Clone)]
pub struct Txid(pub [u8; 32]);

impl View for Txid {
    type V = Seq<u8>;

    open spec fn view(&self) -> Seq<u8> {
        self.0@
    }
}

impl Txid {
    /// An identifier is exactly 32 bytes.
    pub open spec fn valid(id: Seq<u8>) -> bool {
        id.len() == 32
    }

    /// The wire form: the bytes themselves, with no length prefix.
    pub open spec fn encoding(id: Seq<u8>) -> Seq<u8> {
        id
    }

    /// What the front of `bytes` reads as: its first 32 bytes, or `None`
    /// where there are fewer.
    pub open spec fn decoding(bytes: Seq<u8>) -> Option<(Seq<u8>, nat)> {
        if bytes.len() < 32 {
            None
        } else {
            Some((bytes.subrange(0, 32), 32))
        }
    }

    /// The interchange form: the identifier's bytes in lowercase hexadecimal,
    /// in their stored order.
    pub open spec fn hex_encoding(id: Seq<u8>) -> Seq<char> {
        hex_text(id)
    }

    /// The identifier that interchange `text` stands for: `text` must be
    /// hexadecimal and spell exactly 32 bytes.
    pub open spec fn hex_decoding(text: Seq<char>) -> Option<Seq<u8>> {
        if is_hex_text(text) && text.len() == 64 {
            Some(hex_bytes(text))
        } else {
            None
        }
    }

    /// Every identifier is valid.
    pub proof fn lemma_valid(&self)
        ensures
            Self::valid(self@),
    {
    }

    /// Copies the identifier's bytes out.
    pub fn to_bytes(&self) -> (out: Vec<u8>)
        ensures
            out@ == Self::encoding(self@),
    {
        let mut out: Vec<u8> = Vec::new();
        append_bytes(&mut out, self.0.as_slice());
        out
    }

    /// Reads an identifier from the first 32 bytes of `bytes`.
    pub fn from_bytes(bytes: &[u8]) -> (result: Result<(Self, usize), BitcoinError>)
        ensures
            decodes_to(result, Self::decoding(bytes@)),
    {
        if bytes.len() < 32 {
            return Err(BitcoinError::InsufficientBytes);
        }
        Ok((Txid(first_32(bytes)), 32))
    }

    /// Writes the identifier as 64 lowercase hexadecimal digits.
    pub fn to_hex(&self) -> (text: String)
        ensures
            text@ == Self::hex_encoding(self@),
    {
        hex_encode(self.0.as_slice())
    }

    /// Reads an identifier from its interchange form. Text that is not
    /// hexadecimal, or that spells any number of bytes but 32, is rejected.
    pub fn from_hex(text: &str) -> (result: Result<Self, BitcoinError>)
        ensures
            match Self::hex_decoding(text@) {
                Some(id) => result matches Ok(txid) && txid@ == id,
                None => result == Err::<Self, BitcoinError>(BitcoinError::InvalidFormat),
            },
    {
        match hex_decode(text) {
            Err(_) => Err(BitcoinError::InvalidFormat),
            Ok(bytes) => {
                if bytes.len() != 32 {
                    return Err(BitcoinError::InvalidFormat);
                }
                assert(bytes@.subrange(0, 32) =~= bytes@);
                Ok(Txid(first_32(bytes.as_slice())))
            },
        }
    }

    /// Decoding the encoding of an identifier gives the identifier back and
    /// consumes the whole encoding.
    pub proof fn lemma_round_trip(id: Seq<u8>)
        requires
            Self::valid(id),
        ensures
            Self::decoding(Self::encoding(id)) == Some((id, Self::encoding(id).len())),
    {
        Self::lemma_round_trip_within(id, Seq::empty());
        assert(Self::encoding(id) + Seq::<u8>::empty() =~= Self::encoding(id));
    }

    /// The same with anything after the encoding: decoding reads the
    /// identifier and stops where its encoding ends.
    pub proof fn lemma_round_trip_within(id: Seq<u8>, rest: Seq<u8>)
        requires
            Self::valid(id),
        ensures
            Self::decoding(Self::encoding(id) + rest) == Some((id, Self::encoding(id).len())),
    {
        assert((id + rest).subrange(0, 32) =~= id);
    }

    /// What decodes is a valid identifier, read from within the buffer.
    pub proof fn lemma_decoding_within(bytes: Seq<u8>)
        ensures
            Self::decoding(bytes) matches Some((id, used)) ==> Self::valid(id) && used
                <= bytes.len(),
    {
    }

    /// No proper prefix of an encoding decodes.
    pub proof fn lemma_prefix_rejected(id: Seq<u8>, cut: int)
        requires
            Self::valid(id),
            0 <= cut < Self::encoding(id).len(),
        ensures
            Self::decoding(Self::encoding(id).take(cut)) is None,
    {
    }

    /// An encoding that lost its last byte does not decode.
    pub proof fn lemma_truncated(id: Seq<u8>)
        requires
            Self::valid(id),
        ensures
            Self::decoding(Self::encoding(id).drop_last()) is None,
    {
    }

    /// Reading the interchange form of an identifier gives the identifier
    /// back.
    pub proof fn lemma_hex_round_trip(id: Seq<u8>)
        requires
            Self::valid(id),
        ensures
            Self::hex_decoding(Self::hex_encoding(id)) == Some(id),
    {
        lemma_hex_round_trip(id);
    }

    /// Interchange text of any length but 64 characters stands for no
    /// identifier.
    pub proof fn lemma_hex_length(text: Seq<char>)
        requires
            text.len() != 64,
        ensures
            Self::hex_decoding(text) is None,
    {
    }
}

/// Copies the first 32 bytes of `bytes` into an array.
fn first_32(bytes: &[u8]) -> (id: [u8; 32])
    requires
        bytes.len() >= 32,
    ensures
        id@ == bytes@.subrange(0, 32),
{
    let mut id = [0u8; 32];
    let mut i: usize = 0;
    while i < 32
        invariant
            i <= 32 <= bytes.len(),
            forall|j: int| 0 <= j < i ==> id@[j] == bytes@[j],
        decreases 32 - i,
    {
        id[i] = bytes[i];
        i = i + 1;
    }
    assert(id@ =~= bytes@.subrange(0, 32));
    id
}

} // verus!
