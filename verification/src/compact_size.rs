//! The compact-size integer: a one-byte tag that is the value itself when
//! small, and that otherwise selects a 2, 4 or 8 byte little-endian payload.

use vstd::prelude::*;
use crate::endian::{
    le_bytes, le_value, lemma_le_bytes_len, lemma_le_bytes_of_le_value, lemma_le_value_bound,
    lemma_le_value_of_le_bytes, lemma_pow256_widths, push_le, read_le,
};
use crate::error::{decodes_to, BitcoinError};

verus! {

/// An unsigned 64-bit magnitude with a variable-width wire form.
#[derive(Debug, PartialEq, Eq, Clone, Structural)]
pub struct CompactSize {
    pub value: u64,
}

impl View for CompactSize {
    type V = u64;

    open spec fn view(&self) -> u64 {
        self.value
    }
}

impl CompactSize {
    /// The number of payload bytes that follow a tag byte.
    pub open spec fn payload_width(tag: u8) -> nat {
        if tag <= 0xFC {
            0
        } else if tag == 0xFD {
            2
        } else if tag == 0xFE {
            4
        } else {
            8
        }
    }

    /// The wire form of `value`: the narrowest of the four tagged forms that
    /// holds it.
    pub open spec fn encoding(value: u64) -> Seq<u8> {
        if value <= 0xFC {
            seq![value as u8]
        } else if value <= 0xFFFF {
            seq![0xFDu8] + le_bytes(value as nat, 2)
        } else if value <= 0xFFFF_FFFF {
            seq![0xFEu8] + le_bytes(value as nat, 4)
        } else {
            seq![0xFFu8] + le_bytes(value as nat, 8)
        }
    }

    /// What the front of `bytes` reads as: the value and the number of bytes
    /// it occupies, or `None` where the tag or its payload is cut short. A
    /// payload wider than its value needs is read all the same.
    pub open spec fn decoding(bytes: Seq<u8>) -> Option<(u64, nat)> {
        if bytes.len() == 0 {
            None
        } else {
            let width = Self::payload_width(bytes[0]);
            if bytes.len() < 1 + width {
                None
            } else if width == 0 {
                Some((bytes[0] as u64, 1))
            } else {
                Some((le_value(bytes.subrange(1, 1 + width as int)) as u64, 1 + width))
            }
        }
    }

    pub fn new(value: u64) -> (size: Self)
        ensures
            size == (CompactSize { value }),
    {
        CompactSize { value }
    }

    /// Encodes the value in its shortest tagged form.
    pub fn to_bytes(&self) -> (out: Vec<u8>)
        ensures
            out@ == Self::encoding(self@),
    {
        let mut out: Vec<u8> = Vec::new();
        if self.value <= 0xFC {
            out.push(self.value as u8);
        } else if self.value <= 0xFFFF {
            out.push(0xFD);
            push_le(&mut out, self.value, 2);
        } else if self.value <= 0xFFFF_FFFF {
            out.push(0xFE);
            push_le(&mut out, self.value, 4);
        } else {
            out.push(0xFF);
            push_le(&mut out, self.value, 8);
        }
        out
    }

    /// Decodes a value from the front of `bytes` and reports how many bytes
    /// it took.
    pub fn from_bytes(bytes: &[u8]) -> (result: Result<(Self, usize), BitcoinError>)
        ensures
            decodes_to(result, Self::decoding(bytes@)),
    {
        if bytes.len() == 0 {
            return Err(BitcoinError::InsufficientBytes);
        }
        let tag = bytes[0];
        let width: usize = if tag <= 0xFC {
            0
        } else if tag == 0xFD {
            2
        } else if tag == 0xFE {
            4
        } else {
            8
        };
        if bytes.len() - 1 < width {
            return Err(BitcoinError::InsufficientBytes);
        }
        if width == 0 {
            return Ok((CompactSize::new(tag as u64), 1));
        }
        let value = read_le(bytes, 1, width);
        Ok((CompactSize::new(value), 1 + width))
    }

    /// The encoding is 1, 3, 5 or 9 bytes long, by the magnitude of the
    /// value, and starts with the value itself or with the tag of its width.
    pub proof fn lemma_encoding_shape(value: u64)
        ensures
            Self::encoding(value).len() == if value <= 0xFC {
                1nat
            } else if value <= 0xFFFF {
                3nat
            } else if value <= 0xFFFF_FFFF {
                5nat
            } else {
                9nat
            },
            Self::encoding(value)[0] == if value <= 0xFC {
                value as u8
            } else if value <= 0xFFFF {
                0xFDu8
            } else if value <= 0xFFFF_FFFF {
                0xFEu8
            } else {
                0xFFu8
            },
            Self::encoding(value).len() == 1 + Self::payload_width(Self::encoding(value)[0]),
    {
        lemma_le_bytes_len(value as nat, 2);
        lemma_le_bytes_len(value as nat, 4);
        lemma_le_bytes_len(value as nat, 8);
    }

    /// Decoding the encoding of a value gives the value back and consumes
    /// the whole encoding.
    pub proof fn lemma_round_trip(value: u64)
        ensures
            Self::decoding(Self::encoding(value)) == Some((value, Self::encoding(value).len())),
    {
        Self::lemma_round_trip_within(value, Seq::empty());
        assert(Self::encoding(value) + Seq::<u8>::empty() =~= Self::encoding(value));
    }

    /// The same with anything after the encoding: decoding reads the value and
    /// stops where its encoding ends.
    pub proof fn lemma_round_trip_within(value: u64, rest: Seq<u8>)
        ensures
            Self::decoding(Self::encoding(value) + rest) == Some(
                (value, Self::encoding(value).len()),
            ),
    {
        let encoded = Self::encoding(value);
        let bytes = encoded + rest;
        Self::lemma_encoding_shape(value);
        lemma_pow256_widths();
        if value > 0xFC {
            let width = (encoded.len() - 1) as nat;
            lemma_le_bytes_len(value as nat, width);
            lemma_le_value_of_le_bytes(value as nat, width);
            assert(bytes.subrange(1, 1 + width as int) =~= le_bytes(value as nat, width));
        }
    }

    /// No proper prefix of an encoding decodes.
    pub proof fn lemma_prefix_rejected(value: u64, cut: int)
        requires
            0 <= cut < Self::encoding(value).len(),
        ensures
            Self::decoding(Self::encoding(value).take(cut)) is None,
    {
        Self::lemma_encoding_shape(value);
    }

    /// An encoding that lost its last byte does not decode.
    pub proof fn lemma_truncated(value: u64)
        ensures
            Self::decoding(Self::encoding(value).drop_last()) is None,
    {
        let encoded = Self::encoding(value);
        Self::lemma_encoding_shape(value);
        Self::lemma_prefix_rejected(value, encoded.len() - 1);
        assert(encoded.drop_last() =~= encoded.take(encoded.len() - 1));
    }

    /// Decoding reads nothing past the end of the buffer.
    pub proof fn lemma_decoding_within(bytes: Seq<u8>)
        ensures
            Self::decoding(bytes) matches Some((_, used)) ==> 1 <= used <= bytes.len(),
    {
    }

    /// No buffer that decodes to a value spends fewer bytes on it than the
    /// encoding of that value does.
    pub proof fn lemma_encoding_is_shortest(bytes: Seq<u8>, value: u64, used: nat)
        requires
            Self::decoding(bytes) == Some((value, used)),
        ensures
            Self::encoding(value).len() <= used,
    {
        Self::lemma_encoding_shape(value);
        lemma_pow256_widths();
        let width = Self::payload_width(bytes[0]);
        if width > 0 {
            lemma_le_value_bound(bytes.subrange(1, 1 + width as int));
        }
    }

    /// Where a buffer spends on a value exactly as many bytes as the encoding
    /// of that value has, those bytes are that encoding: encoding what was
    /// decoded gives the input back only where the input was in shortest
    /// form.
    pub proof fn lemma_minimal_decoding_is_encoding(bytes: Seq<u8>, value: u64, used: nat)
        requires
            Self::decoding(bytes) == Some((value, used)),
            used == Self::encoding(value).len(),
        ensures
            Self::encoding(value) == bytes.take(used as int),
    {
        Self::lemma_encoding_shape(value);
        lemma_pow256_widths();
        let width = Self::payload_width(bytes[0]);
        if width > 0 {
            let payload = bytes.subrange(1, 1 + width as int);
            lemma_le_value_bound(payload);
            lemma_le_bytes_of_le_value(payload);
        }
        assert(Self::encoding(value) =~= bytes.take(used as int));
    }
}

} // verus!
