//! The kinds of values that blocks hold.

use crate::store::cursor::{lemma_advance, Cursor};
use crate::store::error::Error;
use crate::store::varint::{decode_var_int, read_var_int};
use vstd::prelude::*;

verus! {

/// The type tag of the blocks that hold properties.
pub const PROPERTY_BLOCK: u32 = 0x11;

/// The type tag of the blocks that hold categories.
pub const CATEGORY_BLOCK: u32 = 0x21;

/// A kind of value that blocks hold: the tag of its blocks and the encoding
/// of one value.
pub trait Record: Copy {
    /// The type tag of the blocks that hold values of this kind.
    spec fn tag() -> u32;

    /// The type tag of the blocks that hold values of this kind.
    fn block_type() -> (tag: u32)
        ensures
            tag == Self::tag(),
    ;

    /// The value encoded at the front of `bytes` and the number of bytes its
    /// encoding takes, or `None` where `bytes` do not start with a value.
    spec fn decode(bytes: Seq<u8>) -> Option<(Self, nat)>;

    /// An encoding lies within the bytes it was decoded from.
    proof fn lemma_decode_len(bytes: Seq<u8>)
        ensures
            Self::decode(bytes) matches Some(decoded) ==> decoded.1 <= bytes.len(),
    ;

    /// Reads one value at the cursor. Where the bytes there do not start
    /// with a value, the read fails with `InvalidRecord` and leaves nothing
    /// to read.
    fn read_from(cursor: &mut Cursor) -> (r: Result<Self, Error>)
        ensures
            match Self::decode(old(cursor)@.remaining()) {
                Some(decoded) => r == Ok::<Self, Error>(decoded.0) && final(cursor)@ == old(
                    cursor,
                )@.advance(decoded.1),
                None => r == Err::<Self, Error>(Error::InvalidRecord) && final(cursor)@ == old(
                    cursor,
                )@.exhausted(),
            },
    ;
}

/// A property: two integers of variable length.
#[derive(Clone, Copy, Debug, PartialEq, Eq, Structural)]
pub struct Property {
    /// The type of the values that the property takes.
    pub value_type: u64,
    /// The flags of the property.
    pub flags: u64,
}

/// A category: one integer of variable length.
#[derive(Clone, Copy, Debug, PartialEq, Eq, Structural)]
pub struct Category {
    /// The key of the category above this one.
    pub parent: u64,
}

impl Record for Property {
    open spec fn tag() -> u32 {
        PROPERTY_BLOCK
    }

    fn block_type() -> (tag: u32) {
        PROPERTY_BLOCK
    }

    open spec fn decode(bytes: Seq<u8>) -> Option<(Self, nat)> {
        match decode_var_int(bytes) {
            None => None,
            Some(first) => match decode_var_int(bytes.skip(first.1 as int)) {
                None => None,
                Some(second) => Some(
                    (
                        Property { value_type: first.0, flags: second.0 },
                        (first.1 + second.1) as nat,
                    ),
                ),
            },
        }
    }

    proof fn lemma_decode_len(bytes: Seq<u8>) {
    }

    fn read_from(cursor: &mut Cursor) -> (r: Result<Self, Error>) {
        let ghost start = cursor@;
        let value_type: u64 = match read_var_int(cursor) {
            Ok(decoded) => decoded.0,
            Err(_) => {
                return Err(Error::InvalidRecord);
            },
        };
        proof {
            lemma_advance(start, decode_var_int(start.remaining())->Some_0.1 as nat);
        }
        let flags: u64 = match read_var_int(cursor) {
            Ok(decoded) => decoded.0,
            Err(_) => {
                return Err(Error::InvalidRecord);
            },
        };
        Ok(Property { value_type, flags })
    }
}

impl Record for Category {
    open spec fn tag() -> u32 {
        CATEGORY_BLOCK
    }

    fn block_type() -> (tag: u32) {
        CATEGORY_BLOCK
    }

    open spec fn decode(bytes: Seq<u8>) -> Option<(Self, nat)> {
        match decode_var_int(bytes) {
            None => None,
            Some(only) => Some((Category { parent: only.0 }, only.1 as nat)),
        }
    }

    proof fn lemma_decode_len(bytes: Seq<u8>) {
    }

    fn read_from(cursor: &mut Cursor) -> (r: Result<Self, Error>) {
        match read_var_int(cursor) {
            Ok(decoded) => Ok(Category { parent: decoded.0 }),
            Err(_) => Err(Error::InvalidRecord),
        }
    }
}

} // verus!
