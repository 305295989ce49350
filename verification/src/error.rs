//! The error kinds, and what a decoder's result must be.

use vstd::prelude::*;

verus! {

/// Why a buffer or an interchange string was rejected.
#[derive(Debug, PartialEq, Eq, Clone, Copy, Structural)]
pub enum BitcoinError {
    /// The buffer ends before a field's fixed or declared length is satisfied.
    InsufficientBytes,
    /// The content is not what the field admits: an interchange string that
    /// is not hexadecimal, or one that spells the wrong number of bytes for
    /// a fixed-size field.
    InvalidFormat,
}

/// What a binary decoder owes its caller, given what the format says about
/// the bytes: the value and the count of bytes read where the format reads
/// one, and `InsufficientBytes` where it does not.
pub open spec fn decodes_to<T: View>(
    result: Result<(T, usize), BitcoinError>,
    expected: Option<(T::V, nat)>,
) -> bool {
    match expected {
        Some((value, used)) => result matches Ok((decoded, consumed)) && decoded@ == value
            && consumed == used,
        None => result == Err::<(T, usize), BitcoinError>(BitcoinError::InsufficientBytes),
    }
}

} // verus!
