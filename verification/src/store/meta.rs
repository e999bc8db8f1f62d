//! The metadata that every block starts with.
//!
//! A block fills one page. It starts with three numbers of four bytes each,
//! least significant byte first: its type tag, the index of the next block of
//! its chain (`CHAIN_END` in the last one) and the number of its records.

use crate::store::cursor::{le_u32, lemma_advance, Cursor, CursorView, PAGE_SIZE};
use vstd::prelude::*;

verus! {

/// Number of bytes that a block's metadata take at its start.
pub const META_LEN: usize = 12;

/// The next-block index that ends a chain.
pub const CHAIN_END: u32 = 0;

/// What a block says of itself in its first bytes.
#[derive(Clone, Copy, Debug, PartialEq, Eq, Structural)]
pub struct Meta {
    /// The type tag that the block declares.
    pub block_type: u32,
    /// The index of the next block in the chain, or `CHAIN_END`.
    pub next_block_index: u32,
    /// The number of records in the block.
    pub record_count: u32,
}

/// The metadata at the front of `bytes`, if there are enough of them.
pub open spec fn parse_meta(bytes: Seq<u8>) -> Option<Meta> {
    if bytes.len() >= META_LEN {
        Some(
            Meta {
                block_type: le_u32(bytes),
                next_block_index: le_u32(bytes.skip(4)),
                record_count: le_u32(bytes.skip(8)),
            },
        )
    } else {
        None
    }
}

/// The byte offset at which the block with the given index starts.
pub open spec fn page_offset(index: u32) -> nat {
    index as nat * PAGE_SIZE as nat
}

/// The data as seen from the start of the block with the given index.
pub open spec fn at_block(data: Seq<u8>, index: u32) -> CursorView {
    CursorView { bytes: data, pos: page_offset(index) }
}

/// The metadata of the block with the given index, if the data hold them.
pub open spec fn meta_at(data: Seq<u8>, index: u32) -> Option<Meta> {
    parse_meta(at_block(data, index).remaining())
}

impl Meta {
    /// Reads the metadata of a block at the cursor. Where fewer than
    /// `META_LEN` bytes are left the read fails and consumes them.
    pub fn read_from(cursor: &mut Cursor) -> (r: Result<Meta, std::io::Error>)
        ensures
            match parse_meta(old(cursor)@.remaining()) {
                Some(meta) => r == Ok::<Meta, std::io::Error>(meta) && final(cursor)@ == old(
                    cursor,
                )@.advance(META_LEN as nat),
                None => r is Err && final(cursor)@ == old(cursor)@.exhausted(),
            },
    {
        let ghost start = cursor@;
        let block_type: u32 = match cursor.read_u32() {
            Ok(n) => n,
            Err(e) => {
                return Err(e);
            },
        };
        proof {
            lemma_advance(start, 4);
        }
        let next_block_index: u32 = match cursor.read_u32() {
            Ok(n) => n,
            Err(e) => {
                return Err(e);
            },
        };
        proof {
            lemma_advance(start, 8);
        }
        let record_count: u32 = match cursor.read_u32() {
            Ok(n) => n,
            Err(e) => {
                return Err(e);
            },
        };
        Ok(Meta { block_type, next_block_index, record_count })
    }
}

} // verus!
