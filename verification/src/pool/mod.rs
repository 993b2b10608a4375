//! A heap allocator for shared memory blocks.
//!
//! This module defines the [`Pool`] type, which suballocates blocks from some
//! large underlying contiguous block of memory. It uses the binary buddy
//! algorithm to place allocated blocks and coalesce free ranges.
//!
//! The memory being managed may be writable by an untrusted party, so all
//! metadata lives outside the managed bytes: the free lists of a [`FreeMap`].

pub mod buddy;
pub mod freemap;
pub mod laws;
pub mod slice_utils;
pub mod sparse_bit_set;

use crate::block::{Block, SlicePtr};
use buddy::{disjoint_ranges, free_byte, orders_fit, valid_lists};
use freemap::{
    allocated_block, allocation, initial_list, lists_after_allocation, lists_after_free, FreeMap,
    SMALLEST_SIZE,
};
use laws::{
    lemma_allocation_avoids_blocks_in_use, lemma_allocation_free_bytes, lemma_free_free_bytes,
    lemma_free_keeps_blocks_in_use, lemma_free_undoes_allocate,
};
use slice_utils::{ptr_subslice, ptr_subslice_range};
use vstd::prelude::*;

verus! {

/// A large block of memory from which we can allocate smaller blocks.
pub struct Pool {
    /// The overall block managed by this `Pool`.
    ///
    /// The [`Block`]s returned by [`Pool::allocate`] are subranges of it.
    block: Block,
    /// A map of which portions of `block` are allocated and free.
    ///
    /// Every region of `block` for which we have handed out a [`Block`] is
    /// marked as used in this freemap, until that `Block` is freed.
    freemap: FreeMap,
}

impl Pool {
    /// The free map tracks the whole of the block, which does not wrap
    /// around the address space.
    pub closed spec fn wf(&self) -> bool {
        &&& self.freemap.wf()
        &&& self.freemap.pool_size() == self.block@.len
        &&& self.block@.wf()
    }

    /// What a consistent pool offers its callers: its free lists are
    /// consistent for the length of its block, and the block lies within the
    /// address space. The laws of the allocator apply to its free lists.
    pub proof fn lemma_wf(&self)
        requires
            self.wf(),
        ensures
            valid_lists(self.free_lists(), self.block().len as int),
            self.block().wf(),
    {
        self.freemap.lemma_valid();
    }

    /// The overall block managed by this pool.
    pub closed spec fn block(&self) -> SlicePtr {
        self.block@
    }

    /// The free lists of the pool: for each order from the smallest, the
    /// indices of the free blocks of that order.
    pub closed spec fn free_lists(&self) -> Seq<Set<usize>> {
        self.freemap@
    }

    /// Create a `Pool` managing the given block of memory, all of it free.
    ///
    /// The memory `block` must be at least [`SMALLEST_SIZE`] bytes long.
    pub fn new(block: Block) -> (pool: Pool)
        requires
            block@.len >= SMALLEST_SIZE,
        ensures
            pool.wf(),
            pool.block() == block@,
            orders_fit(pool.free_lists().len() as int, block@.len as int),
            forall|k: int|
                0 <= k < pool.free_lists().len() ==> #[trigger] pool.free_lists()[k] == initial_list(
                    block@.len as nat,
                    k,
                ),
    {
        let freemap = FreeMap::new(block.len());
        Pool { block, freemap }
    }

    /// Allocate a block of at least `size` bytes.
    ///
    /// The block is the range of the pool's block that the free map hands
    /// out; it stays marked as used until it is passed to [`Pool::free`].
    pub fn allocate(&mut self, size: usize) -> (allocated: Option<Block>)
        requires
            old(self).wf(),
        ensures
            final(self).wf(),
            final(self).block() == old(self).block(),
            final(self).free_lists() == lists_after_allocation(old(self).free_lists(), size),
            allocated is None ==> final(self).free_lists() == old(self).free_lists(),
            allocated matches Some(b) ==> size <= b@.len,
            match allocated {
                None => allocation(old(self).free_lists(), size) is None,
                Some(b) => allocation(old(self).free_lists(), size) matches Some((start, end)) && {
                    let len = old(self).block().len as int;
                    // The block is the range `start..end` of the pool's block.
                    &&& 0 <= start < end <= len
                    &&& b@.addr == old(self).block().addr + start
                    &&& b@.len == end - start
                    &&& b@.wf()
                    // It is in use, and freeing it at once restores the free
                    // lists.
                    &&& allocated_block(final(self).free_lists(), len, start, end)
                    &&& lists_after_free(final(self).free_lists(), start, end) == old(self).free_lists()
                    // It shares no byte with a block in use, which stays in use.
                    &&& forall|s: int, e: int|
                        #[trigger] allocated_block(old(self).free_lists(), len, s, e) ==> disjoint_ranges(
                            s,
                            e,
                            start,
                            end,
                        ) && allocated_block(final(self).free_lists(), len, s, e)
                    // The free bytes are those before, less the block.
                    &&& forall|x: int|
                        #[trigger] free_byte(final(self).free_lists(), x) <==> (free_byte(
                            old(self).free_lists(),
                            x,
                        ) && !(start <= x < end))
                },
            },
    {
        let ghost before = self.freemap@;
        proof {
            self.freemap.lemma_valid();
        }
        let range = match self.freemap.allocate(size) {
            Some(range) => range,
            None => {
                return None;
            },
        };
        proof {
            let len = self.block@.len as int;
            lemma_free_undoes_allocate(before, len, size);
            assert forall|s: int, e: int| #[trigger] allocated_block(before, len, s, e) implies disjoint_ranges(
                s,
                e,
                range.start as int,
                range.end as int,
            ) && allocated_block(self.freemap@, len, s, e) by {
                lemma_allocation_avoids_blocks_in_use(before, len, size, s, e);
            }
            assert forall|x: int| #[trigger] free_byte(self.freemap@, x) <==> (free_byte(before, x) && !(
            range.start <= x < range.end)) by {
                lemma_allocation_free_bytes(before, len, size, x);
            }
        }
        // Allocate a subrange of `self.block`.
        let subrange = ptr_subslice(self.block.bytes_mut(), range);
        Some(Block::new(subrange))
    }

    /// Return `subblock`, which [`Pool::allocate`] handed out, to the pool.
    pub fn free(&mut self, subblock: Block)
        requires
            old(self).wf(),
            old(self).block().addr <= subblock@.addr,
            allocated_block(
                old(self).free_lists(),
                old(self).block().len as int,
                subblock@.addr - old(self).block().addr,
                subblock@.end() - old(self).block().addr,
            ),
        ensures
            final(self).wf(),
            final(self).block() == old(self).block(),
            ({
                let len = old(self).block().len as int;
                let start = subblock@.addr - old(self).block().addr;
                let end = subblock@.end() - old(self).block().addr;
                &&& final(self).free_lists() == lists_after_free(old(self).free_lists(), start, end)
                // The free bytes are those before, together with the block's.
                &&& forall|x: int|
                    #[trigger] free_byte(final(self).free_lists(), x) <==> (free_byte(
                        old(self).free_lists(),
                        x,
                    ) || (start <= x < end))
                // Every other block in use stays in use.
                &&& forall|s: int, e: int|
                    #[trigger] allocated_block(old(self).free_lists(), len, s, e) && disjoint_ranges(
                        s,
                        e,
                        start,
                        end,
                    ) ==> allocated_block(final(self).free_lists(), len, s, e)
            }),
    {
        let ghost before = self.freemap@;
        let ghost len = self.block@.len as int;
        let ghost start = subblock@.addr - self.block@.addr;
        let ghost end = subblock@.end() - self.block@.addr;
        proof {
            self.freemap.lemma_valid();
        }
        let range = ptr_subslice_range(self.block.bytes_mut(), subblock.bytes_mut());
        self.freemap.free(range);
        proof {
            assert forall|x: int| #[trigger] free_byte(self.freemap@, x) <==> (free_byte(before, x) || (
            start <= x < end)) by {
                lemma_free_free_bytes(before, len, start, end, x);
            }
            assert forall|s: int, e: int| #[trigger] allocated_block(before, len, s, e) && disjoint_ranges(
                s,
                e,
                start,
                end,
            ) implies allocated_block(self.freemap@, len, s, e) by {
                lemma_free_keeps_blocks_in_use(before, len, start, end, s, e);
            }
        }
    }
}

} // verus!
