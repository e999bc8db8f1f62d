//! The records of a block, and the blocks of a chain folded into one map.
//!
//! Behind its metadata a block holds its records one after the other, each a
//! key of four bytes, least significant first, and a value. A block is
//! decoded within its page: a record that would run past the end of the page
//! is read as cut off.

use crate::store::chain::{block_index, plan_of};
use crate::store::cursor::{le_u32, lemma_advance, Cursor, PAGE_SIZE};
use crate::store::error::Error;
use crate::store::meta::{at_block, Meta, META_LEN};
use crate::store::record::{Category, Property, Record};
use std::collections::HashMap;
use vstd::prelude::*;
use vstd::std_specs::iter::IteratorSpec;

verus! {

/// Number of bytes that the key of a record takes.
pub const KEY_LEN: usize = 4;

/// The records of a block and the number of bytes they take.
pub struct Records<R> {
    /// The keys and values in the order in which they stand in the block.
    pub entries: Seq<(u32, R)>,
    /// The number of bytes from the first record to the end of the last.
    pub len: nat,
}

/// The first `count` records in `bytes`, each a key of `KEY_LEN` bytes, least
/// significant first, and a value behind it. The first record that cannot be
/// read decides the fault: `TruncatedBlock` where the bytes end before its
/// key does, `InvalidRecord` where no value follows the key.
pub open spec fn decode_records<R: Record>(bytes: Seq<u8>, count: nat) -> Result<
    Records<R>,
    Error,
>
    decreases count,
{
    if count == 0 {
        Ok(Records { entries: Seq::empty(), len: 0 })
    } else {
        match decode_records::<R>(bytes, (count - 1) as nat) {
            Err(e) => Err(e),
            Ok(before) => {
                let rest = bytes.skip(before.len as int);
                if rest.len() < KEY_LEN {
                    Err(Error::TruncatedBlock)
                } else {
                    match R::decode(rest.skip(KEY_LEN as int)) {
                        None => Err(Error::InvalidRecord),
                        Some(value) => Ok(
                            Records {
                                entries: before.entries.push((le_u32(rest), value.0)),
                                len: before.len + KEY_LEN as nat + value.1,
                            },
                        ),
                    }
                }
            },
        }
    }
}

/// The map that the entries fill in their order: of two entries with one
/// key the later stays.
pub open spec fn entries_map<R>(entries: Seq<(u32, R)>) -> Map<u32, R>
    decreases entries.len(),
{
    if entries.len() == 0 {
        Map::empty()
    } else {
        entries_map(entries.drop_last()).insert(entries.last().0, entries.last().1)
    }
}

/// What a page holds for the given metadata: the map of its records and the
/// number of bytes up to the end of the last record, or the fault of the
/// first record that cannot be read. A page shorter than the metadata is
/// `TruncatedBlock`.
pub open spec fn decode_block<R: Record>(page: Seq<u8>, meta: Meta) -> Result<
    (Map<u32, R>, nat),
    Error,
> {
    if page.len() < META_LEN {
        Err(Error::TruncatedBlock)
    } else {
        match decode_records::<R>(page.skip(META_LEN as int), meta.record_count as nat) {
            Err(e) => Err(e),
            Ok(records) => Ok((entries_map(records.entries), META_LEN as nat + records.len)),
        }
    }
}

/// As many records are decoded as were asked for, and they lie within the
/// bytes they were decoded from.
pub proof fn lemma_records_len<R: Record>(bytes: Seq<u8>, count: nat)
    ensures
        decode_records::<R>(bytes, count) matches Ok(records) ==> records.len <= bytes.len()
            && records.entries.len() == count,
        decode_records::<R>(bytes, count) matches Err(e) ==> e == Error::TruncatedBlock || e
            == Error::InvalidRecord,
    decreases count,
{
    if count > 0 {
        lemma_records_len::<R>(bytes, (count - 1) as nat);
        if let Ok(before) = decode_records::<R>(bytes, (count - 1) as nat) {
            R::lemma_decode_len(bytes.skip(before.len as int).skip(KEY_LEN as int));
        }
    }
}

/// A block is decoded within its page, and its faults are of two kinds.
pub proof fn lemma_block_within<R: Record>(page: Seq<u8>, meta: Meta)
    ensures
        decode_block::<R>(page, meta) matches Ok(decoded) ==> decoded.1 <= page.len(),
        decode_block::<R>(page, meta) matches Err(e) ==> e == Error::TruncatedBlock || e
            == Error::InvalidRecord,
{
    if page.len() >= META_LEN {
        lemma_records_len::<R>(page.skip(META_LEN as int), meta.record_count as nat);
    }
}

/// Once a record cannot be read, asking for more records meets the same fault.
pub proof fn lemma_records_fault<R: Record>(bytes: Seq<u8>, k: nat, count: nat)
    requires
        k <= count,
        decode_records::<R>(bytes, k) is Err,
    ensures
        decode_records::<R>(bytes, count) == decode_records::<R>(bytes, k),
    decreases count,
{
    if k < count {
        lemma_records_fault::<R>(bytes, k, (count - 1) as nat);
    }
}

/// The decoded contents of one block.
#[derive(Debug)]
pub struct Block<R> {
    /// The values of the block by their keys.
    pub data: HashMap<u32, R>,
}

/// A block of properties.
pub type PropertyBlock = Block<Property>;

/// A block of categories.
pub type CategoryBlock = Block<Category>;

impl<R> View for Block<R> {
    type V = Map<u32, R>;

    open spec fn view(&self) -> Map<u32, R> {
        self.data@
    }
}

impl<R: Record> Block<R> {
    /// Decodes the block at whose start the cursor stands: skips its
    /// metadata and reads `meta.record_count` records, none of them past the
    /// end of the block's page. After a block that was decoded the cursor
    /// stands behind its last record; after a fault, where it stood before.
    pub fn from_meta(cursor: &mut Cursor, meta: Meta) -> (r: Result<Block<R>, Error>)
        ensures
            match decode_block::<R>(old(cursor)@.page(), meta) {
                Ok(decoded) => r matches Ok(block) && block@ == decoded.0 && final(cursor)@
                    == old(cursor)@.advance(decoded.1),
                Err(e) => r matches Err(f) && f == e && final(cursor)@ == old(cursor)@,
            },
            r is Ok ==> final(cursor)@.pos <= old(cursor)@.pos + PAGE_SIZE,
            r matches Err(e) ==> e == Error::TruncatedBlock || e == Error::InvalidRecord,
    {
        proof {
            lemma_block_within::<R>(cursor@.page(), meta);
        }
        let mut page: Cursor = cursor.page();
        let ghost body = page@.bytes.skip(META_LEN as int);
        if page.rest().len() < META_LEN {
            return Err(Error::TruncatedBlock);
        }
        page.set_position(META_LEN as u64);
        assert(page@.remaining() =~= body);
        let mut data: HashMap<u32, R> = HashMap::new();
        let ghost mut records: Records<R> = Records { entries: Seq::empty(), len: 0 };
        let mut k: u32 = 0;
        while k < meta.record_count
            invariant
                k <= meta.record_count,
                page@.bytes == old(cursor)@.page(),
                page@.bytes.len() >= META_LEN,
                body == page@.bytes.skip(META_LEN as int),
                decode_records::<R>(body, k as nat) == Ok::<Records<R>, Error>(records),
                records.len <= body.len(),
                page@.pos == META_LEN + records.len,
                data@ == entries_map(records.entries),
                cursor@ == old(cursor)@,
            decreases meta.record_count - k,
        {
            let ghost rest = body.skip(records.len as int);
            assert(page@.remaining() =~= rest);
            let ghost before = page@;
            proof {
                if decode_records::<R>(body, (k + 1) as nat) is Err {
                    lemma_records_fault::<R>(body, (k + 1) as nat, meta.record_count as nat);
                }
            }
            let key: u32 = match page.read_u32() {
                Ok(key) => key,
                Err(_) => {
                    return Err(Error::TruncatedBlock);
                },
            };
            proof {
                lemma_advance(before, KEY_LEN as nat);
                R::lemma_decode_len(rest.skip(KEY_LEN as int));
            }
            let value: R = match R::read_from(&mut page) {
                Ok(value) => value,
                Err(e) => {
                    return Err(e);
                },
            };
            data.insert(key, value);
            proof {
                let decoded = R::decode(rest.skip(KEY_LEN as int))->Some_0;
                let entries = records.entries.push((key, value));
                assert(entries.drop_last() =~= records.entries);
                records = Records { entries, len: records.len + KEY_LEN as nat + decoded.1 };
            }
            k = k + 1;
        }
        let used: u64 = page.position();
        proof {
            cursor.lemma_len_fits();
            assert(used <= old(cursor)@.page().len() <= old(cursor)@.remaining().len());
        }
        let end: u64 = cursor.position() + used;
        cursor.set_position(end);
        Ok(Block { data })
    }
}

/// The maps of the blocks, in their order.
pub open spec fn views<R>(blocks: Seq<Block<R>>) -> Seq<Map<u32, R>> {
    Seq::new(blocks.len(), |i: int| blocks[i]@)
}

/// The maps folded into one in their order: where several hold a key, the
/// value of the last of them stays.
pub open spec fn fold_maps<R>(maps: Seq<Map<u32, R>>) -> Map<u32, R>
    decreases maps.len(),
{
    if maps.len() == 0 {
        Map::empty()
    } else {
        fold_maps(maps.drop_last()).union_prefer_right(maps.last())
    }
}

/// The folded map holds the keys that the maps hold, and no others.
pub proof fn lemma_fold_keys<R>(maps: Seq<Map<u32, R>>, key: u32)
    ensures
        fold_maps(maps).contains_key(key) <==> exists|i: int|
            0 <= i < maps.len() && (#[trigger] maps[i]).contains_key(key),
    decreases maps.len(),
{
    if maps.len() > 0 {
        let front = maps.drop_last();
        lemma_fold_keys(front, key);
        if fold_maps(maps).contains_key(key) {
            if maps.last().contains_key(key) {
                assert(maps[maps.len() - 1].contains_key(key));
            } else {
                let i = choose|i: int| 0 <= i < front.len() && (#[trigger] front[i]).contains_key(key);
                assert(maps[i].contains_key(key));
            }
        } else {
            assert forall|i: int| 0 <= i < maps.len() implies !(#[trigger] maps[i]).contains_key(
                key,
            ) by {
                if i < front.len() {
                    assert(front[i] == maps[i]);
                }
            }
        }
    }
}

/// Of the maps that hold a key, the last decides its value in the folded
/// map: later blocks of a chain overwrite earlier ones.
pub proof fn lemma_fold_last_wins<R>(maps: Seq<Map<u32, R>>, key: u32, last: int)
    requires
        0 <= last < maps.len(),
        maps[last].contains_key(key),
        forall|i: int| last < i < maps.len() ==> !(#[trigger] maps[i]).contains_key(key),
    ensures
        fold_maps(maps).contains_key(key),
        fold_maps(maps)[key] == maps[last][key],
    decreases maps.len(),
{
    if last < maps.len() - 1 {
        let front = maps.drop_last();
        assert(!maps[maps.len() - 1].contains_key(key));
        assert forall|i: int| last < i < front.len() implies !(#[trigger] front[i]).contains_key(
            key,
        ) by {
            assert(front[i] == maps[i]);
        }
        lemma_fold_last_wins(front, key, last);
    }
}

/// The keys of the first `n` pairs.
pub open spec fn keys_of<R>(pairs: Seq<(&u32, &R)>, n: int) -> Set<u32> {
    Set::new(|key: u32| exists|i: int| 0 <= i < n && *(#[trigger] pairs[i]).0 == key)
}

/// Puts every entry of `src` into `dst`, over what `dst` holds for its key.
fn extend_map<R: Copy>(dst: &mut HashMap<u32, R>, src: &HashMap<u32, R>)
    ensures
        final(dst)@ == old(dst)@.union_prefer_right(src@),
{
    let ghost before = dst@;
    let ghost pairs = src.iter().remaining();
    let ghost mut n: int = 0;
    for pair in it: src.iter()
        invariant
            it.seq() == pairs,
            n == it.index(),
            pairs == src.iter().remaining(),
            dst@ =~= before.union_prefer_right(src@.restrict(keys_of(pairs, n))),
    {
        let (key, value) = pair;
        assert(src@.contains_key(*key) && src@[*key] == *value);
        dst.insert(*key, *value);
        proof {
            assert(keys_of(pairs, n + 1) =~= keys_of(pairs, n).insert(*key));
            n = n + 1;
        }
    }
    assert(src@.restrict(keys_of(pairs, n)) =~= src@) by {
        assert forall|key: u32| src@.contains_key(key) implies keys_of(pairs, n).contains(
            key,
        ) by {
            let pair = (&key, &src@[key]);
            assert(pairs.contains(pair));
            let i = choose|i: int| 0 <= i < pairs.len() && pairs[i] == pair;
            assert(*pairs[i].0 == key);
        }
    }
}

impl<R: Record> Block<R> {
    /// Folds the blocks of a chain into one, in their order: where several
    /// blocks hold a key, the value of the last of them stays.
    pub fn merge(blocks: &Vec<Block<R>>) -> (merged: Block<R>)
        ensures
            merged@ == fold_maps(views(blocks@)),
    {
        let mut data: HashMap<u32, R> = HashMap::new();
        let mut i: usize = 0;
        while i < blocks.len()
            invariant
                i <= blocks.len(),
                data@ == fold_maps(views(blocks@).take(i as int)),
            decreases blocks.len() - i,
        {
            extend_map(&mut data, &blocks[i].data);
            proof {
                let next = views(blocks@).take(i + 1);
                assert(next.drop_last() =~= views(blocks@).take(i as int));
            }
            i = i + 1;
        }
        assert(views(blocks@).take(i as int) =~= views(blocks@));
        Block { data }
    }
}

/// The maps of the first `count` blocks of the chain that starts at `start`
/// and has the metadata `plan`, each block decoded in its own page, or the
/// fault of the first block that cannot be decoded.
pub open spec fn decode_chain<R: Record>(
    data: Seq<u8>,
    start: u32,
    plan: Seq<Meta>,
    count: nat,
) -> Result<Seq<Map<u32, R>>, Error>
    decreases count,
{
    if count == 0 {
        Ok(Seq::empty())
    } else {
        match decode_chain::<R>(data, start, plan, (count - 1) as nat) {
            Err(e) => Err(e),
            Ok(maps) => match decode_block::<R>(
                at_block(data, block_index(start, plan, count - 1)).page(),
                plan[count - 1],
            ) {
                Err(e) => Err(e),
                Ok(decoded) => Ok(maps.push(decoded.0)),
            },
        }
    }
}

/// Once a block cannot be decoded, asking for more blocks meets the same fault.
pub proof fn lemma_chain_fault<R: Record>(
    data: Seq<u8>,
    start: u32,
    plan: Seq<Meta>,
    k: nat,
    count: nat,
)
    requires
        k <= count,
        decode_chain::<R>(data, start, plan, k) is Err,
    ensures
        decode_chain::<R>(data, start, plan, count) == decode_chain::<R>(data, start, plan, k),
    decreases count,
{
    if k < count {
        lemma_chain_fault::<R>(data, start, plan, k, (count - 1) as nat);
    }
}

/// The maps of the blocks of the chain of `R` that starts at `start`, in
/// link order: the chain is planned first, so a fault of the plan comes
/// before any fault of a record.
pub open spec fn blocks_of<R: Record>(data: Seq<u8>, start: u32) -> Result<
    Seq<Map<u32, R>>,
    Error,
> {
    match plan_of(data, R::tag(), start) {
        Err(e) => Err(e),
        Ok(plan) => decode_chain::<R>(data, start, plan, plan.len()),
    }
}

/// The one map of the chain of `R` that starts at `start`.
pub open spec fn chain_map<R: Record>(data: Seq<u8>, start: u32) -> Result<Map<u32, R>, Error> {
    match blocks_of::<R>(data, start) {
        Err(e) => Err(e),
        Ok(maps) => Ok(fold_maps(maps)),
    }
}

/// Where the walk along a chain fails, nothing is decoded: the fault of the
/// walk is the result, and no map is made, not even of the blocks before the
/// fault.
pub proof fn lemma_plan_fault<R: Record>(data: Seq<u8>, start: u32)
    requires
        plan_of(data, R::tag(), start) is Err,
    ensures
        blocks_of::<R>(data, start) is Err,
        blocks_of::<R>(data, start)->Err_0 == plan_of(data, R::tag(), start)->Err_0,
        chain_map::<R>(data, start) is Err,
        chain_map::<R>(data, start)->Err_0 == plan_of(data, R::tag(), start)->Err_0,
{
}

} // verus!
