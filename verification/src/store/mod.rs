//! The store and the pieces it is read with.

pub mod block;
pub mod chain;
pub mod cursor;
pub mod error;
pub mod header;
pub mod meta;
pub mod record;
pub mod varint;

pub use block::{Block, CategoryBlock, PropertyBlock};
pub use cursor::Cursor;
pub use error::Error;
pub use header::Header;
pub use meta::Meta;
pub use record::{Category, Property, Record};
pub use varint::read_var_int;

use block::{blocks_of, chain_map, decode_chain, lemma_chain_fault, views};
use chain::{block_index, lemma_walk_shape};
use header::parse_header;
use meta::{at_block, CHAIN_END};
use std::collections::HashMap;
use vstd::prelude::*;

verus! {

/// A store as read: its header and the maps of its two named chains.
#[derive(Debug)]
pub struct Store {
    /// The header that the store was read under.
    pub header: Header,
    /// The properties of the store by their keys.
    pub properties: HashMap<u32, Property>,
    /// The categories of the store by their keys.
    pub categories: HashMap<u32, Category>,
}

/// The mathematical content of a [`Store`].
pub struct StoreContent {
    /// The header that the store was read under.
    pub header: Header,
    /// The properties of the store by their keys.
    pub properties: Map<u32, Property>,
    /// The categories of the store by their keys.
    pub categories: Map<u32, Category>,
}

impl View for Store {
    type V = StoreContent;

    open spec fn view(&self) -> StoreContent {
        StoreContent {
            header: self.header,
            properties: self.properties@,
            categories: self.categories@,
        }
    }
}

impl Clone for Store {
    /// A store with the same header and the same maps.
    fn clone(&self) -> (copy: Self)
        ensures
            copy@ == self@,
    {
        Store {
            header: self.header,
            properties: self.properties.clone(),
            categories: self.categories.clone(),
        }
    }
}

/// The store that `data` hold under the given header. The chain of
/// properties is read first, then the chain of categories, then the chain
/// that indexes the kinds of items; this last one is read as categories are,
/// must be sound, and leaves nothing in the store. The first fault is the
/// result.
pub open spec fn store_of(data: Seq<u8>, header: Header) -> Result<StoreContent, Error> {
    match chain_map::<Property>(data, header.property_index) {
        Err(e) => Err(e),
        Ok(properties) => match chain_map::<Category>(data, header.category_index) {
            Err(e) => Err(e),
            Ok(categories) => match chain_map::<Category>(data, header.item_kind_index) {
                Err(e) => Err(e),
                Ok(_) => Ok(StoreContent { header, properties, categories }),
            },
        },
    }
}

impl Store {
    /// Reads a store: the header at the cursor, then the three chains it
    /// names, each planned before any of its records is read. Where the
    /// header cannot be read the error of the read is handed on as `Io`.
    /// After a store was read the cursor stands at the start of the block
    /// `CHAIN_END`; after a fault, where it stood before.
    pub fn read_from(cursor: &mut Cursor) -> (r: Result<Store, Error>)
        ensures
            match parse_header(old(cursor)@.remaining()) {
                None => r matches Err(Error::Io(_)) && final(cursor)@ == old(cursor)@,
                Some(header) => match store_of(old(cursor)@.bytes, header) {
                    Ok(store) => r matches Ok(read) && read@ == store && final(cursor)@
                        == at_block(old(cursor)@.bytes, CHAIN_END),
                    Err(e) => r matches Err(f) && f == e && final(cursor)@ == old(cursor)@,
                },
            },
    {
        let origin: u64 = cursor.position();
        let header: Header = match Header::read_from(cursor) {
            Ok(header) => header,
            Err(e) => {
                cursor.set_position(origin);
                return Err(Error::Io(e));
            },
        };

        let property_blocks: Vec<PropertyBlock> = match Self::parse_blocks(
            cursor,
            header.property_index,
        ) {
            Ok(blocks) => blocks,
            Err(e) => {
                cursor.set_position(origin);
                return Err(e);
            },
        };
        let properties: PropertyBlock = Block::merge(&property_blocks);

        let category_blocks: Vec<CategoryBlock> = match Self::parse_blocks(
            cursor,
            header.category_index,
        ) {
            Ok(blocks) => blocks,
            Err(e) => {
                cursor.set_position(origin);
                return Err(e);
            },
        };
        let categories: CategoryBlock = Block::merge(&category_blocks);

        let item_kind_index_blocks: Vec<CategoryBlock> = match Self::parse_blocks(
            cursor,
            header.item_kind_index,
        ) {
            Ok(blocks) => blocks,
            Err(e) => {
                cursor.set_position(origin);
                return Err(e);
            },
        };
        let _item_kind_index: CategoryBlock = Block::merge(&item_kind_index_blocks);

        Ok(Store { header, properties: properties.data, categories: categories.data })
    }

    /// Reads the blocks of the chain of `R` that starts at block `start`, in
    /// two passes: the chain is walked and checked first, then each block is
    /// decoded at its own start. After a chain was read the cursor stands at
    /// the start of the block `CHAIN_END`; after a fault, where it stood
    /// before.
    pub fn parse_blocks<R: Record>(cursor: &mut Cursor, start: u32) -> (r: Result<
        Vec<Block<R>>,
        Error,
    >)
        ensures
            match blocks_of::<R>(old(cursor)@.bytes, start) {
                Ok(maps) => r matches Ok(blocks) && views(blocks@) == maps && final(cursor)@
                    == at_block(old(cursor)@.bytes, CHAIN_END),
                Err(e) => r matches Err(f) && f == e && final(cursor)@ == old(cursor)@,
            },
    {
        let origin: u64 = cursor.position();
        let ghost data = cursor@.bytes;
        let metas: Vec<Meta> = match Meta::read_chain(cursor, R::block_type(), start) {
            Ok(metas) => metas,
            Err(e) => {
                return Err(e);
            },
        };

        proof {
            lemma_walk_shape(data, R::tag(), start, Set::empty());
        }
        cursor.seek_page(start);
        let mut blocks: Vec<Block<R>> = Vec::new();
        assert(views(blocks@) =~= Seq::<Map<u32, R>>::empty());
        let mut k: usize = 0;
        while k < metas.len()
            invariant
                k <= metas.len(),
                cursor@ == at_block(data, block_index(start, metas@, k as int)),
                old(cursor)@.bytes == data,
                old(cursor)@.pos == origin,
                decode_chain::<R>(data, start, metas@, k as nat) == Ok::<
                    Seq<Map<u32, R>>,
                    Error,
                >(views(blocks@)),
                blocks_of::<R>(data, start) == decode_chain::<R>(
                    data,
                    start,
                    metas@,
                    metas@.len(),
                ),
                metas@.len() > 0,
                metas@.last().next_block_index == CHAIN_END,
            decreases metas.len() - k,
        {
            let meta: Meta = metas[k];
            let next_index: u32 = meta.next_block_index;
            proof {
                if decode_chain::<R>(data, start, metas@, (k + 1) as nat) is Err {
                    lemma_chain_fault::<R>(data, start, metas@, (k + 1) as nat, metas@.len());
                }
            }
            let block: Block<R> = match Block::from_meta(cursor, meta) {
                Ok(block) => block,
                Err(e) => {
                    cursor.set_position(origin);
                    return Err(e);
                },
            };
            cursor.seek_page(next_index);
            proof {
                assert(views(blocks@.push(block)) =~= views(blocks@).push(block@));
            }
            blocks.push(block);
            k = k + 1;
        }
        Ok(blocks)
    }
}

} // verus!
