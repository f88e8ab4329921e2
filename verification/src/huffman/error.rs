//! The ways in which a compressed file can fail to be read back.

use vstd::prelude::*;

verus! {

/// Why a compressed file, or a part of one, was rejected.
#[derive(Debug, Clone, Copy, PartialEq, Eq)]
pub enum HuffmanError {
    /// The header contradicts itself or what follows it: it is cut short, its
    /// padding count is out of range, its entries are out of order, or its
    /// counts do not sum to the number of bytes that the stream holds.
    MalformedHeader,
    /// The packed stream is not the code of any sequence of bytes: a bit has
    /// no branch to follow, or the stream ends in the middle of a code.
    CorruptStream,
}

} // verus!
