//! A read position in a byte image.
//!
//! Single bytes and numbers of four bytes are read with the `byteorder`
//! crate. The two functions that call it are believed, not proved: each
//! states what the crate returns for a byte slice.

use byteorder::{LittleEndian, ReadBytesExt};
use vstd::prelude::*;
use vstd::slice::slice_subrange;

verus! {

/// Number of bytes in a page.
pub const PAGE_SIZE: u64 = 4096;

/// The mathematical content of a [`Cursor`]: the bytes and the position in them.
pub struct CursorView {
    /// All the bytes, from the first.
    pub bytes: Seq<u8>,
    /// The number of bytes before the position.
    pub pos: nat,
}

impl CursorView {
    /// The bytes from the position to the end; none if the position is past the end.
    pub open spec fn remaining(self) -> Seq<u8> {
        if self.pos <= self.bytes.len() {
            self.bytes.skip(self.pos as int)
        } else {
            Seq::empty()
        }
    }

    /// The same bytes, `n` positions further.
    pub open spec fn advance(self, n: nat) -> CursorView {
        CursorView { bytes: self.bytes, pos: self.pos + n }
    }

    /// The same bytes with nothing left to read.
    pub open spec fn exhausted(self) -> CursorView {
        self.advance(self.remaining().len())
    }

    /// The same bytes at position `pos`.
    pub open spec fn at(self, pos: nat) -> CursorView {
        CursorView { bytes: self.bytes, pos }
    }

    /// The page that starts at the position: up to `PAGE_SIZE` of the remaining bytes.
    pub open spec fn page(self) -> Seq<u8> {
        if self.remaining().len() <= PAGE_SIZE {
            self.remaining()
        } else {
            self.remaining().take(PAGE_SIZE as int)
        }
    }
}

/// Reading on after `n` of the remaining bytes leaves the rest of them, and
/// the same end.
pub proof fn lemma_advance(view: CursorView, n: nat)
    requires
        n <= view.remaining().len(),
    ensures
        view.advance(n).remaining() == view.remaining().skip(n as int),
        view.advance(n).exhausted() == view.exhausted(),
{
    assert(view.advance(n).remaining() =~= view.remaining().skip(n as int));
}

/// The unsigned number that the first four bytes of `bytes` spell, least significant first.
pub open spec fn le_u32(bytes: Seq<u8>) -> u32
    recommends
        bytes.len() >= 4,
{
    (bytes[0] as int + bytes[1] as int * 0x100 + bytes[2] as int * 0x1_0000 + bytes[3] as int
        * 0x100_0000) as u32
}

/// A read position in borrowed bytes. The position may lie past the end,
/// where every read fails.
pub struct Cursor<'a> {
    data: &'a [u8],
    pos: u64,
}

impl<'a> View for Cursor<'a> {
    type V = CursorView;

    closed spec fn view(&self) -> CursorView {
        CursorView { bytes: self.data@, pos: self.pos as nat }
    }
}

/// `byteorder::ReadBytesExt::read_u8` on a byte slice: the first byte, or the
/// reader's error where the slice is empty.
#[verifier::external_body]
fn slice_read_u8(bytes: &[u8]) -> (r: Result<u8, std::io::Error>)
    ensures
        r is Ok <==> bytes@.len() >= 1,
        r is Ok ==> r->Ok_0 == bytes@[0],
{
    let mut reader: &[u8] = bytes;
    reader.read_u8()
}

/// `byteorder::ReadBytesExt::read_u32` with `LittleEndian` on a byte slice:
/// the number in its first four bytes, least significant first, or the
/// reader's error where the slice is shorter.
#[verifier::external_body]
fn slice_read_u32_le(bytes: &[u8]) -> (r: Result<u32, std::io::Error>)
    ensures
        r is Ok <==> bytes@.len() >= 4,
        r is Ok ==> r->Ok_0 == le_u32(bytes@),
{
    let mut reader: &[u8] = bytes;
    reader.read_u32::<LittleEndian>()
}

impl<'a> Cursor<'a> {
    /// A cursor at the start of `data`.
    pub fn new(data: &'a [u8]) -> (cursor: Self)
        ensures
            cursor@.bytes == data@,
            cursor@.pos == 0,
    {
        Cursor { data, pos: 0 }
    }

    /// The bytes are no more than a slice can hold.
    pub proof fn lemma_len_fits(&self)
        ensures
            self@.bytes.len() <= usize::MAX,
    {
        assert(self.data@.len() == self.data.len());
    }

    /// The position, counted in bytes from the start.
    pub fn position(&self) -> (pos: u64)
        ensures
            pos == self@.pos,
    {
        self.pos
    }

    /// Moves to `pos`, which may lie past the end.
    pub fn set_position(&mut self, pos: u64)
        ensures
            final(self)@ == old(self)@.at(pos as nat),
    {
        self.pos = pos;
    }

    /// Moves to the start of the page with the given index.
    pub fn seek_page(&mut self, index: u32)
        ensures
            final(self)@ == old(self)@.at(index as nat * PAGE_SIZE as nat),
    {
        self.pos = (index as u64) * PAGE_SIZE;
    }

    /// The bytes from the position to the end.
    pub fn rest(&self) -> (rest: &'a [u8])
        ensures
            rest@ == self@.remaining(),
    {
        let len: usize = self.data.len();
        if self.pos <= len as u64 {
            slice_subrange(self.data, self.pos as usize, len)
        } else {
            slice_subrange(self.data, len, len)
        }
    }

    /// A cursor of its own at the start of the page that begins at the position.
    pub fn page(&self) -> (page: Cursor<'a>)
        ensures
            page@.bytes == self@.page(),
            page@.pos == 0,
    {
        let rest: &'a [u8] = self.rest();
        if rest.len() as u64 <= PAGE_SIZE {
            Cursor { data: rest, pos: 0 }
        } else {
            Cursor { data: slice_subrange(rest, 0, PAGE_SIZE as usize), pos: 0 }
        }
    }

    /// Reads one byte. At the end of the data the read fails and the cursor stays.
    pub fn read_u8(&mut self) -> (r: Result<u8, std::io::Error>)
        ensures
            r is Ok <==> old(self)@.remaining().len() >= 1,
            r matches Ok(b) ==> b == old(self)@.remaining()[0] && final(self)@ == old(
                self,
            )@.advance(1),
            r is Err ==> final(self)@ == old(self)@,
    {
        let rest: &[u8] = self.rest();
        let r = slice_read_u8(rest);
        if r.is_ok() {
            assert(self.pos < rest@.len() + self.pos <= self.data@.len() == self.data.len());
            self.pos = self.pos + 1;
        }
        r
    }

    /// Reads four bytes as one number, least significant byte first. Where
    /// fewer than four bytes are left the read fails and consumes them.
    pub fn read_u32(&mut self) -> (r: Result<u32, std::io::Error>)
        ensures
            r is Ok <==> old(self)@.remaining().len() >= 4,
            r matches Ok(n) ==> n == le_u32(old(self)@.remaining()) && final(self)@ == old(
                self,
            )@.advance(4),
            r is Err ==> final(self)@ == old(self)@.exhausted(),
    {
        let rest: &[u8] = self.rest();
        let r = slice_read_u32_le(rest);
        assert(rest@.len() > 0 ==> self.pos + rest@.len() == self.data@.len() == self.data.len());
        if r.is_ok() {
            self.pos = self.pos + 4;
        } else {
            self.pos = self.pos + rest.len() as u64;
        }
        r
    }
}

} // verus!
