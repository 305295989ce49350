//! Binary codec for a simplified Bitcoin-style transaction wire format.
//!
//! Six entities are encoded and decoded: the compact-size integer, the
//! transaction identifier, the outpoint, the script, the transaction input
//! and the transaction, each built from the ones before it.
//!
//! Every entity has a mathematical view, an `encoding` of that view as a
//! sequence of bytes and a `decoding` that reads a view back from the front
//! of a byte sequence. The executable `to_bytes` and `from_bytes` of each
//! type are proved against these two functions, and the laws that relate
//! them are proved once and for all as lemmas: decoding an encoding gives the
//! value back, whatever follows it in the buffer, and no proper prefix of an
//! encoding decodes.
//!
//! Two calls leave the crate, both in [`hex_text`]: `hex::encode` and
//! `hex::decode`. Their contracts there are believed, not proved.

pub mod error;
pub mod endian;
pub mod decimal;
pub mod hex_text;
pub mod compact_size;
pub mod txid;
pub mod outpoint;
pub mod script;
pub mod input;
pub mod transaction;

pub use compact_size::CompactSize;
pub use error::BitcoinError;
pub use input::{TransactionInput, TransactionInputView};
pub use outpoint::{OutPoint, OutPointView};
pub use script::Script;
pub use transaction::{BitcoinTransaction, BitcoinTransactionView};
pub use txid::Txid;
