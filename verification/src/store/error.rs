//! What can go wrong while a store is read.

use vstd::prelude::*;

verus! {

/// The error of `std::io`, carried through without looking inside.
#[verifier::external_type_specification]
#[verifier::external_body]
pub struct ExIoError(std::io::Error);

/// Why a read was given up. Every error ends the read it occurs in.
#[derive(Debug)]
pub enum Error {
    /// The underlying read failed; the error is handed on as it came.
    Io(std::io::Error),
    /// A block of a chain declares another type tag than the chain's.
    FormatMismatch,
    /// A chain leads back to a block it has already passed.
    CorruptChain,
    /// The data ends before a block is complete.
    TruncatedBlock,
    /// The data ends inside a variable-length integer.
    TruncatedVarInt,
    /// The value of a record does not follow its encoding.
    InvalidRecord,
}

} // verus!
