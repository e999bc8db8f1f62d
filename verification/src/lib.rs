//! Reader for a page-oriented binary store.
//!
//! A store is a byte image cut into pages of 4096 bytes; the block with
//! index `i` starts at byte `i * 4096`. The image starts with a header that
//! names the first blocks of three chains. Every block starts with its
//! metadata: a type tag, the index of the next block of its chain and the
//! number of its records. The records follow, each a key and a value whose
//! fields are packed as integers of variable length.
//!
//! A chain is read in two passes. The first walks its links and checks every
//! block's tag, so that a chain that is cut off, mistyped or circular is
//! refused before any record is read. The second decodes the blocks in link
//! order, each within its page, and folds their maps into one: of two blocks
//! that hold a key, the later decides.
//!
//! The bytes are read through the `byteorder` crate. What is assumed of it is
//! stated in the `cursor` module; everything else is proved.

pub mod store;
