//! The preamble of a store: where its chains start.

use crate::store::cursor::{le_u32, lemma_advance, Cursor};
use vstd::prelude::*;

verus! {

/// Number of bytes that the header takes.
pub const HEADER_LEN: usize = 12;

/// The indices of the blocks at which the three chains of a store start.
/// They stand at the start of the store as three numbers of four bytes each,
/// least significant byte first.
#[derive(Clone, Copy, Debug, PartialEq, Eq, Structural)]
pub struct Header {
    /// The first block of the chain of properties.
    pub property_index: u32,
    /// The first block of the chain of categories.
    pub category_index: u32,
    /// The first block of the chain that indexes the kinds of items.
    pub item_kind_index: u32,
}

/// The header at the front of `bytes`, if there are enough of them.
pub open spec fn parse_header(bytes: Seq<u8>) -> Option<Header> {
    if bytes.len() >= HEADER_LEN {
        Some(
            Header {
                property_index: le_u32(bytes),
                category_index: le_u32(bytes.skip(4)),
                item_kind_index: le_u32(bytes.skip(8)),
            },
        )
    } else {
        None
    }
}

impl Header {
    /// Reads the header at the cursor. Where fewer than `HEADER_LEN` bytes
    /// are left the read fails and consumes them.
    pub fn read_from(cursor: &mut Cursor) -> (r: Result<Header, std::io::Error>)
        ensures
            match parse_header(old(cursor)@.remaining()) {
                Some(header) => r == Ok::<Header, std::io::Error>(header) && final(cursor)@
                    == old(cursor)@.advance(HEADER_LEN as nat),
                None => r is Err && final(cursor)@ == old(cursor)@.exhausted(),
            },
    {
        let ghost start = cursor@;
        let property_index: u32 = match cursor.read_u32() {
            Ok(n) => n,
            Err(e) => {
                return Err(e);
            },
        };
        proof {
            lemma_advance(start, 4);
        }
        let category_index: u32 = match cursor.read_u32() {
            Ok(n) => n,
            Err(e) => {
                return Err(e);
            },
        };
        proof {
            lemma_advance(start, 8);
        }
        let item_kind_index: u32 = match cursor.read_u32() {
            Ok(n) => n,
            Err(e) => {
                return Err(e);
            },
        };
        Ok(Header { property_index, category_index, item_kind_index })
    }
}

} // verus!
