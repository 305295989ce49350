//! The outpoint: which output of which earlier transaction an input spends.

use vstd::prelude::*;
use crate::endian::{
    le_bytes, le_value, lemma_le_bytes_len, lemma_le_value_bound, lemma_le_value_of_le_bytes,
    lemma_pow256_widths, push_le, read_le,
};
use crate::error::{decodes_to, BitcoinError};
use crate::txid::Txid;

verus! {

/// A reference to an output of an earlier transaction.
#[derive(Debug, PartialEq, Eq, Clone)]
pub struct OutPoint {
    pub txid: Txid,
    pub vout: u32,
}

/// The mathematical value of an [`OutPoint`].
pub struct OutPointView {
    pub txid: Seq<u8>,
    pub vout: u32,
}

impl View for OutPoint {
    type V = OutPointView;

    open spec fn view(&self) -> OutPointView {
        OutPointView { txid: self.txid@, vout: self.vout }
    }
}

impl OutPoint {
    /// An outpoint is valid where its identifier is.
    pub open spec fn valid(point: OutPointView) -> bool {
        Txid::valid(point.txid)
    }

    /// The wire form: the identifier, then the index as 4 little-endian
    /// bytes.
    pub open spec fn encoding(point: OutPointView) -> Seq<u8> {
        Txid::encoding(point.txid) + le_bytes(point.vout as nat, 4)
    }

    /// What the front of `bytes` reads as: an outpoint from its first 36
    /// bytes, or `None` where there are fewer.
    pub open spec fn decoding(bytes: Seq<u8>) -> Option<(OutPointView, nat)> {
        if bytes.len() < 36 {
            None
        } else {
            Some(
                (
                    OutPointView {
                        txid: bytes.subrange(0, 32),
                        vout: le_value(bytes.subrange(32, 36)) as u32,
                    },
                    36,
                ),
            )
        }
    }

    pub fn new(txid: [u8; 32], vout: u32) -> (point: Self)
        ensures
            point == (OutPoint { txid: Txid(txid), vout }),
    {
        OutPoint { txid: Txid(txid), vout }
    }

    /// Every outpoint is valid.
    pub proof fn lemma_valid(&self)
        ensures
            Self::valid(self@),
    {
    }

    /// Encodes the outpoint in exactly 36 bytes.
    pub fn to_bytes(&self) -> (out: Vec<u8>)
        ensures
            out@ == Self::encoding(self@),
    {
        let mut out = self.txid.to_bytes();
        push_le(&mut out, self.vout as u64, 4);
        out
    }

    /// Decodes an outpoint from the first 36 bytes of `bytes`.
    pub fn from_bytes(bytes: &[u8]) -> (result: Result<(Self, usize), BitcoinError>)
        ensures
            decodes_to(result, Self::decoding(bytes@)),
    {
        if bytes.len() < 36 {
            return Err(BitcoinError::InsufficientBytes);
        }
        match Txid::from_bytes(bytes) {
            Err(error) => Err(error),
            Ok((txid, _)) => {
                let vout = read_le(bytes, 32, 4);
                proof {
                    lemma_le_value_bound(bytes@.subrange(32, 36));
                    lemma_pow256_widths();
                }
                Ok((OutPoint { txid, vout: vout as u32 }, 36))
            },
        }
    }

    /// The encoding is 36 bytes long.
    pub proof fn lemma_encoding_len(point: OutPointView)
        requires
            Self::valid(point),
        ensures
            Self::encoding(point).len() == 36,
    {
        lemma_le_bytes_len(point.vout as nat, 4);
    }

    /// Decoding the encoding of an outpoint gives the outpoint back and
    /// consumes the whole encoding.
    pub proof fn lemma_round_trip(point: OutPointView)
        requires
            Self::valid(point),
        ensures
            Self::decoding(Self::encoding(point)) == Some((point, Self::encoding(point).len())),
    {
        Self::lemma_round_trip_within(point, Seq::empty());
        assert(Self::encoding(point) + Seq::<u8>::empty() =~= Self::encoding(point));
    }

    /// The same with anything after the encoding: decoding reads the
    /// outpoint and stops where its encoding ends.
    pub proof fn lemma_round_trip_within(point: OutPointView, rest: Seq<u8>)
        requires
            Self::valid(point),
        ensures
            Self::decoding(Self::encoding(point) + rest) == Some(
                (point, Self::encoding(point).len()),
            ),
    {
        let bytes = Self::encoding(point) + rest;
        Self::lemma_encoding_len(point);
        lemma_pow256_widths();
        lemma_le_value_of_le_bytes(point.vout as nat, 4);
        assert(bytes.subrange(0, 32) =~= point.txid);
        assert(bytes.subrange(32, 36) =~= le_bytes(point.vout as nat, 4));
    }

    /// What decodes is a valid outpoint, read from within the buffer.
    pub proof fn lemma_decoding_within(bytes: Seq<u8>)
        ensures
            Self::decoding(bytes) matches Some((point, used)) ==> Self::valid(point) && used
                <= bytes.len(),
    {
    }

    /// No proper prefix of an encoding decodes.
    pub proof fn lemma_prefix_rejected(point: OutPointView, cut: int)
        requires
            Self::valid(point),
            0 <= cut < Self::encoding(point).len(),
        ensures
            Self::decoding(Self::encoding(point).take(cut)) is None,
    {
        Self::lemma_encoding_len(point);
    }

    /// An encoding that lost its last byte does not decode.
    pub proof fn lemma_truncated(point: OutPointView)
        requires
            Self::valid(point),
        ensures
            Self::decoding(Self::encoding(point).drop_last()) is None,
    {
        Self::lemma_encoding_len(point);
    }
}

} // verus!
