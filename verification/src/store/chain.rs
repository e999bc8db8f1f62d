//! Chains of blocks: the walk that plans one, and what holds of every walk.
//!
//! A chain is walked before any of its records is read. The walk follows the
//! links from block to block, holds every block to the chain's tag, and stops
//! at the first link that leads back to a block already passed: a chain that
//! is damaged is found out before its blocks are decoded, and the walk ends
//! whatever the data hold.
//!
//! The walk is defined block by block. Further down a chain is described
//! from outside, by the indices that its links lead through, and the result
//! of the walk is derived for the four ways a chain can go: it ends, it comes
//! to a block with another tag, it leaves the data, or it turns back on
//! itself.

use crate::store::cursor::{Cursor, CursorView};
use crate::store::error::Error;
use crate::store::meta::{at_block, meta_at, Meta, CHAIN_END, META_LEN};
use std::collections::HashSet;
use vstd::prelude::*;
use vstd::set_lib::{lemma_set_subset_finite, FiniteFull};

verus! {

/// The number of block indices that are not in `seen`.
pub open spec fn unseen(seen: Set<u32>) -> nat {
    Set::<u32>::full().difference(seen).len()
}

/// The walk along a chain from the block `index`, with `seen` the indices of
/// the blocks passed before it: the metadata of the blocks from `index` to
/// the end of the chain, or the first fault on the way.
pub open spec fn walk(data: Seq<u8>, tag: u32, index: u32, seen: Set<u32>) -> Result<
    Seq<Meta>,
    Error,
>
    decreases unseen(seen),
    via walk_decreases
{
    if seen.contains(index) {
        Err(Error::CorruptChain)
    } else {
        match meta_at(data, index) {
            None => Err(Error::TruncatedBlock),
            Some(meta) => if meta.block_type != tag {
                Err(Error::FormatMismatch)
            } else if meta.next_block_index == CHAIN_END {
                Ok(seq![meta])
            } else {
                after(seq![meta], walk(data, tag, meta.next_block_index, seen.insert(index)))
            },
        }
    }
}

#[via_fn]
proof fn walk_decreases(data: Seq<u8>, tag: u32, index: u32, seen: Set<u32>) {
    if !seen.contains(index) {
        lemma_unseen_decreases(seen, index);
    }
}

/// Passing a block that was not seen before leaves fewer blocks unseen.
pub proof fn lemma_unseen_decreases(seen: Set<u32>, index: u32)
    requires
        !seen.contains(index),
    ensures
        unseen(seen.insert(index)) < unseen(seen),
{
    let all = Set::<u32>::full();
    let rest = all.difference(seen);
    u32::full_properties();
    lemma_set_subset_finite(all, rest);
    assert(all.difference(seen.insert(index)) =~= rest.remove(index));
    assert(rest.contains(index));
}

/// The blocks `done` followed by what the rest of a walk finds.
pub open spec fn after(done: Seq<Meta>, rest: Result<Seq<Meta>, Error>) -> Result<
    Seq<Meta>,
    Error,
> {
    match rest {
        Ok(metas) => Ok(done + metas),
        Err(e) => Err(e),
    }
}

/// The plan of the chain that starts at block `start`: the metadata of its
/// blocks in link order, or the fault that the walk meets first.
pub open spec fn plan_of(data: Seq<u8>, tag: u32, start: u32) -> Result<Seq<Meta>, Error> {
    walk(data, tag, start, Set::empty())
}

/// A walk that succeeds finds at least one block; every block it finds has
/// the tag, the last one ends the chain and no other does.
pub proof fn lemma_walk_shape(data: Seq<u8>, tag: u32, index: u32, seen: Set<u32>)
    ensures
        walk(data, tag, index, seen) matches Ok(metas) ==> {
            &&& metas.len() >= 1
            &&& metas.last().next_block_index == CHAIN_END
            &&& forall|k: int| 0 <= k < metas.len() ==> (#[trigger] metas[k]).block_type == tag
            &&& forall|k: int|
                0 <= k < metas.len() - 1 ==> (#[trigger] metas[k]).next_block_index != CHAIN_END
        },
    decreases unseen(seen),
{
    if !seen.contains(index) {
        if let Some(meta) = meta_at(data, index) {
            if meta.block_type == tag && meta.next_block_index != CHAIN_END {
                lemma_unseen_decreases(seen, index);
                lemma_walk_shape(data, tag, meta.next_block_index, seen.insert(index));
            }
        }
    }
}

/// The index of block `k` of a chain that starts at `start` and whose first
/// `k` blocks have the metadata `plan`.
pub open spec fn block_index(start: u32, plan: Seq<Meta>, k: int) -> u32 {
    if k <= 0 {
        start
    } else {
        plan[k - 1].next_block_index
    }
}

impl Meta {
    /// Walks the chain that starts at block `start` and returns the metadata
    /// of its blocks in link order, without reading any record. The walk
    /// fails with `CorruptChain` where a link leads to a block already
    /// passed, with `TruncatedBlock` where the data end before a block's
    /// metadata do, and with `FormatMismatch` where a block declares another
    /// tag than `expected`. After a walk that succeeds the cursor stands
    /// behind the metadata of the last block; after one that fails, where it
    /// stood before.
    pub fn read_chain(cursor: &mut Cursor, expected: u32, start: u32) -> (r: Result<
        Vec<Meta>,
        Error,
    >)
        ensures
            final(cursor)@.bytes == old(cursor)@.bytes,
            match plan_of(old(cursor)@.bytes, expected, start) {
                Ok(metas) => r matches Ok(plan) && plan@ == metas && final(cursor)@ == at_block(
                    old(cursor)@.bytes,
                    block_index(start, metas, metas.len() - 1),
                ).advance(META_LEN as nat),
                Err(e) => r matches Err(f) && f == e && final(cursor)@ == old(cursor)@,
            },
            r matches Ok(plan) ==> {
                &&& plan@.len() >= 1
                &&& plan@.last().next_block_index == CHAIN_END
                &&& forall|k: int| 0 <= k < plan@.len() ==> (#[trigger] plan@[k]).block_type == expected
                &&& forall|k: int|
                    0 <= k < plan@.len() - 1 ==> (#[trigger] plan@[k]).next_block_index != CHAIN_END
            },
            r matches Err(e) ==> e == Error::CorruptChain || e == Error::TruncatedBlock || e
                == Error::FormatMismatch,
    {
        proof {
            lemma_walk_shape(cursor@.bytes, expected, start, Set::empty());
            lemma_walk_faults(cursor@.bytes, expected, start, Set::empty());
        }
        let origin: u64 = cursor.position();
        let ghost data = cursor@.bytes;
        let mut plan: Vec<Meta> = Vec::new();
        let mut seen: HashSet<u32> = HashSet::new();
        let mut index: u32 = start;
        loop
            invariant
                cursor@.bytes == data,
                old(cursor)@ == (CursorView { bytes: data, pos: origin as nat }),
                plan_of(data, expected, start) matches Ok(metas) ==> {
                    &&& metas.len() >= 1
                    &&& metas.last().next_block_index == CHAIN_END
                    &&& forall|k: int|
                        0 <= k < metas.len() ==> (#[trigger] metas[k]).block_type == expected
                    &&& forall|k: int|
                        0 <= k < metas.len() - 1 ==> (#[trigger] metas[k]).next_block_index
                            != CHAIN_END
                },
                plan_of(data, expected, start) matches Err(e) ==> e == Error::CorruptChain || e
                    == Error::TruncatedBlock || e == Error::FormatMismatch,
                plan_of(data, expected, start) == after(plan@, walk(data, expected, index, seen@)),
                index == block_index(start, plan@, plan@.len() as int),
            decreases unseen(seen@),
        {
            if seen.contains(&index) {
                cursor.set_position(origin);
                return Err(Error::CorruptChain);
            }
            cursor.seek_page(index);
            let meta: Meta = match Meta::read_from(cursor) {
                Ok(meta) => meta,
                Err(_) => {
                    cursor.set_position(origin);
                    return Err(Error::TruncatedBlock);
                },
            };
            if meta.block_type != expected {
                cursor.set_position(origin);
                return Err(Error::FormatMismatch);
            }
            proof {
                lemma_unseen_decreases(seen@, index);
                assert(plan@ + (seq![meta] + Seq::<Meta>::empty()) =~= plan@.push(meta));
                let rest = walk(data, expected, meta.next_block_index, seen@.insert(index));
                if rest is Ok {
                    assert(plan@ + (seq![meta] + rest->Ok_0) =~= plan@.push(meta) + rest->Ok_0);
                }
            }
            plan.push(meta);
            if meta.next_block_index == CHAIN_END {
                return Ok(plan);
            }
            seen.insert(index);
            index = meta.next_block_index;
        }
    }
}

/// The index that `k` links lead to from block `start`. A block whose
/// metadata the data do not hold links to `CHAIN_END`.
pub open spec fn link(data: Seq<u8>, start: u32, k: nat) -> u32
    decreases k,
{
    if k == 0 {
        start
    } else {
        match meta_at(data, link(data, start, (k - 1) as nat)) {
            Some(meta) => meta.next_block_index,
            None => CHAIN_END,
        }
    }
}

/// The block `index` has its metadata within the data, declares the tag and
/// links on to another block.
pub open spec fn links_on(data: Seq<u8>, tag: u32, index: u32) -> bool {
    meta_at(data, index) matches Some(meta) && meta.block_type == tag && meta.next_block_index
        != CHAIN_END
}

/// Each of the first `k` blocks of the chain is sound and links on.
pub open spec fn linked(data: Seq<u8>, tag: u32, start: u32, k: nat) -> bool {
    forall|j: nat| j < k ==> links_on(data, tag, #[trigger] link(data, start, j))
}

/// The block that `k` links lead to is none of the blocks before it.
pub open spec fn fresh(data: Seq<u8>, start: u32, k: nat) -> bool {
    forall|i: nat| i < k ==> #[trigger] link(data, start, i) != link(data, start, k)
}

/// The indices of the first `k` blocks of the chain.
pub open spec fn passed(data: Seq<u8>, start: u32, k: nat) -> Set<u32> {
    Set::new(|index: u32| exists|i: nat| i < k && #[trigger] link(data, start, i) == index)
}

/// The metadata of the first `k` blocks of the chain.
pub open spec fn metas_of(data: Seq<u8>, start: u32, k: nat) -> Seq<Meta> {
    Seq::new(k, |i: int| meta_at(data, link(data, start, i as nat))->Some_0)
}

/// Where the first `k` blocks are sound, link on and differ from each other,
/// the walk is these blocks followed by the walk from the next one.
pub proof fn lemma_walk_prefix(data: Seq<u8>, tag: u32, start: u32, k: nat)
    requires
        linked(data, tag, start, k),
        forall|j: nat| j < k ==> #[trigger] fresh(data, start, j),
    ensures
        plan_of(data, tag, start) == after(
            metas_of(data, start, k),
            walk(data, tag, link(data, start, k), passed(data, start, k)),
        ),
    decreases k,
{
    if k == 0 {
        assert(passed(data, start, 0) =~= Set::<u32>::empty());
        let rest = walk(data, tag, start, Set::empty());
        if rest is Ok {
            assert(metas_of(data, start, 0) + rest->Ok_0 =~= rest->Ok_0);
        }
    } else {
        let j = (k - 1) as nat;
        lemma_walk_prefix(data, tag, start, j);
        let index = link(data, start, j);
        assert(links_on(data, tag, index));
        assert(fresh(data, start, j));
        let meta = meta_at(data, index)->Some_0;
        let seen = passed(data, start, j);
        assert(!seen.contains(index));
        assert(seen.insert(index) =~= passed(data, start, k)) by {
            assert forall|x: u32| passed(data, start, k).contains(x) implies seen.insert(
                index,
            ).contains(x) by {
                let i = choose|i: nat| i < k && #[trigger] link(data, start, i) == x;
                if i < j {
                    assert(link(data, start, i) == x);
                }
            }
            assert(link(data, start, j) == index);
        }
        assert(metas_of(data, start, k) =~= metas_of(data, start, j).push(meta));
        let rest = walk(data, tag, link(data, start, k), passed(data, start, k));
        if rest is Ok {
            assert(metas_of(data, start, j) + (seq![meta] + rest->Ok_0) =~= metas_of(
                data,
                start,
                k,
            ) + rest->Ok_0);
        }
    }
}

/// Links that meet once stay together: the chain goes round.
pub proof fn lemma_links_repeat(data: Seq<u8>, start: u32, i: nat, j: nat, more: nat)
    requires
        link(data, start, i) == link(data, start, j),
    ensures
        link(data, start, i + more) == link(data, start, j + more),
    decreases more,
{
    if more > 0 {
        lemma_links_repeat(data, start, i, j, (more - 1) as nat);
        assert(link(data, start, i + more) == link(data, start, (i + more - 1) as nat + 1));
        assert(link(data, start, j + more) == link(data, start, (j + more - 1) as nat + 1));
    }
}

/// A chain that comes to a block which does not link on has not gone round
/// before: every block up to that one is met for the first time.
pub proof fn lemma_open_chain_is_fresh(data: Seq<u8>, tag: u32, start: u32, k: nat)
    requires
        linked(data, tag, start, k),
        !links_on(data, tag, link(data, start, k)),
    ensures
        forall|j: nat| j <= k ==> #[trigger] fresh(data, start, j),
{
    assert forall|j: nat| j <= k implies #[trigger] fresh(data, start, j) by {
        assert forall|i: nat| i < j implies #[trigger] link(data, start, i) != link(
            data,
            start,
            j,
        ) by {
            if link(data, start, i) == link(data, start, j) {
                let more = (k - j) as nat;
                lemma_links_repeat(data, start, i, j, more);
                assert(links_on(data, tag, link(data, start, i + more)));
            }
        }
    }
}

/// A sound chain of `n` blocks has a plan of `n` entries: entry `k` is the
/// metadata of the block that `k` links lead to, and its next-index is the
/// index of the block after it.
pub proof fn lemma_sound_chain_plan(data: Seq<u8>, tag: u32, start: u32, n: nat)
    requires
        n >= 1,
        linked(data, tag, start, (n - 1) as nat),
        meta_at(data, link(data, start, (n - 1) as nat)) matches Some(meta) && meta.block_type
            == tag && meta.next_block_index == CHAIN_END,
    ensures
        plan_of(data, tag, start) matches Ok(plan) && {
            &&& plan.len() == n
            &&& plan == metas_of(data, start, n)
            &&& forall|k: nat|
                k + 1 < n ==> (#[trigger] plan[k as int]).next_block_index == link(
                    data,
                    start,
                    k + 1,
                )
        },
{
    let last = (n - 1) as nat;
    lemma_open_chain_is_fresh(data, tag, start, last);
    lemma_walk_prefix(data, tag, start, last);
    let meta = meta_at(data, link(data, start, last))->Some_0;
    assert(metas_of(data, start, last) + seq![meta] =~= metas_of(data, start, n));
    assert(fresh(data, start, last));
    assert(!passed(data, start, last).contains(link(data, start, last)));
    let plan = metas_of(data, start, n);
    assert(walk(data, tag, link(data, start, last), passed(data, start, last)) == Ok::<
        Seq<Meta>,
        Error,
    >(seq![meta]));
    assert(plan_of(data, tag, start) == Ok::<Seq<Meta>, Error>(plan));
    assert forall|k: nat| k + 1 < n implies (#[trigger] plan[k as int]).next_block_index == link(
        data,
        start,
        k + 1,
    ) by {
        assert(links_on(data, tag, link(data, start, k)));
        assert(link(data, start, k + 1) == meta_at(
            data,
            link(data, start, k),
        )->Some_0.next_block_index);
    }
}

/// A chain whose first `k` blocks are sound and whose next block declares
/// another tag fails with `FormatMismatch`.
pub proof fn lemma_mismatch_fails(data: Seq<u8>, tag: u32, start: u32, k: nat)
    requires
        linked(data, tag, start, k),
        meta_at(data, link(data, start, k)) matches Some(meta) && meta.block_type != tag,
    ensures
        plan_of(data, tag, start) == Err::<Seq<Meta>, Error>(Error::FormatMismatch),
{
    lemma_open_chain_is_fresh(data, tag, start, k);
    lemma_walk_prefix(data, tag, start, k);
    assert(fresh(data, start, k));
    assert(!passed(data, start, k).contains(link(data, start, k)));
}

/// A chain whose first `k` blocks are sound and whose next block lies where
/// the data end fails with `TruncatedBlock`.
pub proof fn lemma_truncation_fails(data: Seq<u8>, tag: u32, start: u32, k: nat)
    requires
        linked(data, tag, start, k),
        meta_at(data, link(data, start, k)) is None,
    ensures
        plan_of(data, tag, start) == Err::<Seq<Meta>, Error>(Error::TruncatedBlock),
{
    lemma_open_chain_is_fresh(data, tag, start, k);
    lemma_walk_prefix(data, tag, start, k);
    assert(fresh(data, start, k));
    assert(!passed(data, start, k).contains(link(data, start, k)));
}

/// A chain whose first `k` blocks are sound and whose last link leads back
/// to one of them fails with `CorruptChain`.
pub proof fn lemma_cycle_fails(data: Seq<u8>, tag: u32, start: u32, k: nat)
    requires
        linked(data, tag, start, k),
        !fresh(data, start, k),
    ensures
        plan_of(data, tag, start) == Err::<Seq<Meta>, Error>(Error::CorruptChain),
    decreases k,
{
    if forall|j: nat| j < k ==> #[trigger] fresh(data, start, j) {
        lemma_walk_prefix(data, tag, start, k);
        let i = choose|i: nat| i < k && #[trigger] link(data, start, i) == link(data, start, k);
        assert(passed(data, start, k).contains(link(data, start, i)));
    } else {
        let j = choose|j: nat| j < k && !#[trigger] fresh(data, start, j);
        lemma_cycle_fails(data, tag, start, j);
    }
}

/// Every walk ends: with a plan, or with one of three faults.
pub proof fn lemma_walk_faults(data: Seq<u8>, tag: u32, index: u32, seen: Set<u32>)
    ensures
        walk(data, tag, index, seen) matches Err(e) ==> e == Error::CorruptChain || e
            == Error::TruncatedBlock || e == Error::FormatMismatch,
    decreases unseen(seen),
{
    if !seen.contains(index) {
        if let Some(meta) = meta_at(data, index) {
            if meta.block_type == tag && meta.next_block_index != CHAIN_END {
                lemma_unseen_decreases(seen, index);
                lemma_walk_faults(data, tag, meta.next_block_index, seen.insert(index));
            }
        }
    }
}

} // verus!
