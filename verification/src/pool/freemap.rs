//! The definition of the [`FreeMap`] type.

use super::buddy::{
    allocated_lists, block_end, block_start, buddy, coalesce, disjoint_ranges, first_nonempty,
    first_sub_index, free_byte, free_in, lemma_allocated_range, lemma_allocated_valid,
    lemma_block_len, lemma_coalesce_insert, lemma_coalesce_merge, lemma_double_sub_index,
    lemma_first_nonempty, lemma_first_sub_index_self, lemma_pow2_le, lemma_set_max,
    lemma_split_block, list_order, listed_block, listed_blocks_disjoint, lists_coalesced, lists_disjoint,
    lists_within, orders_fit, set_max, unlisted_block, valid_lists,
};
use super::laws::lemma_allocation_fits_request;
use super::sparse_bit_set::SparseBitSet;
use std::ops::Range;
use vstd::arithmetic::power2::*;
use vstd::bits::*;
use vstd::prelude::*;

verus! {

/// The base 2 logarithm of the smallest block size we allocate.
pub const SMALLEST_ORDER: usize = 4;

/// The smallest block size we allocate.
pub const SMALLEST_SIZE: usize = 16;

/// Search for the smallest order, from `r` on, whose blocks hold `size` bytes;
/// the search gives up at order 64, past the largest address space.
pub open spec fn order_search(size: usize, r: nat) -> nat
    decreases 64 - r,
{
    if r >= 64 || size <= pow2(r) {
        r
    } else {
        order_search(size, r + 1)
    }
}

/// The order of the smallest block, no smaller than [`SMALLEST_SIZE`], that
/// holds `size` bytes.
pub open spec fn requested_order(size: usize) -> nat {
    order_search(size, 4)
}

/// What the search for an order gives: the first order from `r` on whose
/// blocks hold `size` bytes, or 64 when none below 64 does.
pub(crate) proof fn lemma_order_search(size: usize, r: nat)
    ensures
        r <= order_search(size, r),
        r <= 64 ==> order_search(size, r) <= 64,
        forall|q: nat| r <= q < order_search(size, r) ==> pow2(q) < size,
        order_search(size, r) < 64 ==> size <= pow2(order_search(size, r)),
    decreases 64 - r,
{
    if r < 64 && size > pow2(r) {
        lemma_order_search(size, r + 1);
    }
}

/// `1 << n` is `2^n` for shift distances below the width of `usize`.
proof fn lemma_one_shl(n: usize)
    requires
        n < usize::BITS,
    ensures
        1usize << n == pow2(n as nat),
        pow2(n as nat) <= usize::MAX,
{
    lemma_usize_pow2_no_overflow(n as nat);
    lemma_usize_shl_is_mul(1, n);
}

/// No order of a block within the address space reaches the width of `usize`.
pub(crate) proof fn lemma_pow2_bits()
    ensures
        pow2(usize::BITS as nat) > usize::MAX,
{
    lemma2_to64();
    lemma2_to64_rest();
}

/// Compute [`requested_order`] of `size`, or `None` when a block of that
/// order would not fit in the address space.
fn order_for_size(size: usize) -> (order: Option<usize>)
    ensures
        match order {
            Some(r) => r == requested_order(size) && r < usize::BITS,
            None => requested_order(size) >= usize::BITS,
        },
{
    let mut order: usize = SMALLEST_ORDER;
    proof {
        lemma_order_search(size, 4);
    }
    while order + 1 < usize::BITS as usize && (1usize << order) < size
        invariant
            4 <= order < usize::BITS,
            order_search(size, order as nat) == requested_order(size),
        decreases usize::BITS - order,
    {
        proof {
            lemma_one_shl(order);
        }
        order += 1;
    }
    proof {
        lemma_one_shl(order);
        lemma_pow2_bits();
        if order + 1 == usize::BITS && pow2(order as nat) < size {
            lemma_pow2_le(0, usize::BITS as nat);
            assert(size <= pow2((order + 1) as nat));
            assert(order_search(size, (order + 1) as nat) == order + 1);
        }
    }
    if (1usize << order) < size {
        None
    } else {
        Some(order)
    }
}

/// Whether `len` is the length of a block: a power of two no smaller than
/// [`SMALLEST_SIZE`].
pub open spec fn is_block_len(len: int) -> bool {
    exists|o: nat| o >= 4 && pow2(o) == len
}

/// The order that holds a block length is the block's order.
pub(crate) proof fn lemma_requested_order_of_block(len: usize)
    requires
        is_block_len(len as int),
    ensures
        pow2(requested_order(len)) == len,
        4 <= requested_order(len) < usize::BITS,
        len > 0,
{
    lemma_pow2_pos(requested_order(len));
    let o = choose|o: nat| o >= 4 && pow2(o) == len;
    lemma_order_search(len, 4);
    lemma_pow2_bits();
    let r = requested_order(len);
    if o < r {
        assert(pow2(o) < len);
    }
    if r < o {
        if r < 64 {
            lemma_pow2_strictly_increases(r, o);
        } else {
            lemma_pow2_le(64, o);
            lemma2_to64_rest();
        }
    }
    if o >= usize::BITS {
        lemma_pow2_le(usize::BITS as nat, o);
    }
}

/// The index, at order `order`, of the block holding byte `offset`.
pub open spec fn index_at(offset: usize, order: nat) -> int {
    offset as int / pow2(order) as int
}

/// The index of the block holding a byte at the next order is half its index
/// at this order.
proof fn lemma_index_at_next(offset: usize, order: nat)
    ensures
        index_at(offset, order + 1) == index_at(offset, order) / 2,
        index_at(offset, order) >= 0,
{
    lemma_pow2_unfold(order + 1);
    lemma_pow2_pos(order);
    vstd::arithmetic::div_mod::lemma_div_denominator(offset as int, pow2(order) as int, 2);
    vstd::arithmetic::div_mod::lemma_div_pos_is_pos(offset as int, pow2(order) as int);
}

/// Flipping the low bit of an index gives its buddy.
proof fn lemma_xor_one(i: usize)
    ensures
        i ^ 1usize == buddy(i),
{
    assert(i % 2 == 0 ==> i ^ 1usize == i + 1) by (bit_vector);
    assert(i % 2 == 1 ==> i ^ 1usize == i - 1) by (bit_vector);
}

/// A block-aligned range of a block's length is that block.
proof fn lemma_block_of_range(start: usize, len: usize, o: nat)
    requires
        pow2(o) == len,
        len > 0,
        start % len == 0,
    ensures
        block_start(o, start as int / len as int) == start,
        block_end(o, start as int / len as int) == start + len,
{
    vstd::arithmetic::div_mod::lemma_fundamental_div_mod(start as int, len as int);
    vstd::arithmetic::mul::lemma_mul_is_commutative(len as int, start as int / len as int);
    lemma_block_len(o, start as int / len as int);
}

/// The initial free list `k` of a pool of `pool` bytes: the pool is carved
/// greedily into blocks from the largest order down, so free list `k` holds
/// one block exactly when the bit of `pool` for its order is set.
pub open spec fn initial_list(pool: nat, k: int) -> Set<usize> {
    let q = pool as int / pow2(list_order(k)) as int;
    if q % 2 == 1 {
        Set::empty().insert((q - 1) as usize)
    } else {
        Set::empty()
    }
}

/// One step of the greedy carving: the part of the pool covered by blocks of
/// order above `o` is the pool rounded down to a multiple of `2^(o + 1)`; a
/// block of order `o` fits after it exactly when bit `o` of `pool` is set.
proof fn lemma_greedy_step(pool: nat, o: nat)
    ensures
        ({
            let p = pow2(o) as int;
            let q = pool as int / p;
            &&& (pool as int / pow2(o + 1) as int) * pow2(o + 1) == (q - q % 2) * p
            &&& q * p <= pool < q * p + p
            &&& q >= 0
            &&& (q - 1) * p + p == q * p
            &&& q % 2 == 1 ==> ((q - 1) * p) / p == q - 1
        }),
{
    let p = pow2(o) as int;
    let q = pool as int / p;
    lemma_pow2_pos(o);
    lemma_pow2_unfold(o + 1);
    vstd::arithmetic::div_mod::lemma_div_denominator(pool as int, p, 2);
    vstd::arithmetic::div_mod::lemma_fundamental_div_mod(pool as int, p);
    vstd::arithmetic::div_mod::lemma_mod_bound(pool as int, p);
    vstd::arithmetic::div_mod::lemma_div_pos_is_pos(pool as int, p);
    vstd::arithmetic::div_mod::lemma_fundamental_div_mod(q, 2);
    vstd::arithmetic::mul::lemma_mul_is_associative(q / 2, 2, p);
    vstd::arithmetic::mul::lemma_mul_is_commutative(p, q);
    vstd::arithmetic::mul::lemma_mul_is_commutative(2, q / 2);
    vstd::arithmetic::mul::lemma_mul_is_distributive_add_other_way(p, q - 1, 1);
    if q % 2 == 1 {
        vstd::arithmetic::div_mod::lemma_div_multiples_vanish(q - 1, p);
        vstd::arithmetic::mul::lemma_mul_is_commutative(p, q - 1);
    }
}

/// The free blocks of a new map are the binary decomposition of the pool's
/// length: free list `k`, of order `o`, holds a block exactly when bit `o` of
/// the length is set, and that block starts where the higher bits end, at the
/// length rounded down to a multiple of `2^(o + 1)`.
pub proof fn lemma_initial_blocks(pool: nat, k: int)
    requires
        k >= 0,
        pool <= usize::MAX,
    ensures
        ({
            let o = list_order(k);
            let higher = (pool as int / pow2(o + 1) as int) * pow2(o + 1);
            &&& !initial_list(pool, k).is_empty() <==> (pool as int / pow2(o) as int) % 2 == 1
            &&& forall|i: usize| #[trigger] initial_list(pool, k).contains(i) ==> listed_block(k, i) == (
                higher,
                higher + pow2(o),
            )
        }),
{
    let o = list_order(k);
    let p = pow2(o) as int;
    let q = pool as int / p;
    lemma_greedy_step(pool, o);
    lemma_pow2_pos(o);
    vstd::arithmetic::div_mod::lemma_div_is_ordered_by_denominator(pool as int, 1, p);
    if q % 2 == 1 {
        assert(initial_list(pool, k).contains((q - 1) as usize));
        lemma_block_len(o, q - 1);
        assert forall|i: usize| #[trigger] initial_list(pool, k).contains(i) implies listed_block(k, i) == (
            (pool as int / pow2(o + 1) as int) * pow2(o + 1),
            (pool as int / pow2(o + 1) as int) * pow2(o + 1) + pow2(o),
        ) by {
            assert(i == q - 1);
        }
    } else {
        assert(initial_list(pool, k) =~= Set::<usize>::empty());
    }
}

/// The range of offsets that allocating `size` bytes from the free lists
/// `lists` hands out, if any: the first block of the requested order inside
/// the free block with the greatest index in the first non-empty free list
/// whose order holds `size` bytes.
pub open spec fn allocation(lists: Seq<Set<usize>>, size: usize) -> Option<(int, int)> {
    let o = first_nonempty(lists, requested_order(size) - 4);
    if o >= lists.len() {
        None
    } else {
        let start = block_start(list_order(o), set_max(lists[o]) as int);
        Some((start, start + pow2(requested_order(size))))
    }
}

/// The free lists after allocating `size` bytes from the free lists `lists`.
pub open spec fn lists_after_allocation(lists: Seq<Set<usize>>, size: usize) -> Seq<Set<usize>> {
    let lo = requested_order(size) - 4;
    let o = first_nonempty(lists, lo);
    if o >= lists.len() {
        lists
    } else {
        allocated_lists(lists, lo, o, set_max(lists[o]))
    }
}

/// Whether the offsets `[start, end)` of a pool of `pool` bytes with free lists
/// `lists` form a block that is in use: a block-aligned range of a block's
/// length, within the pool, that shares no byte with a free block.
pub open spec fn allocated_block(lists: Seq<Set<usize>>, pool: int, start: int, end: int) -> bool {
    &&& 0 <= start <= end <= pool
    &&& is_block_len(end - start)
    &&& start % (end - start) == 0
    &&& forall|k: int, i: usize| #[trigger]
        free_in(lists, k, i) ==> disjoint_ranges(
            block_start(list_order(k), i as int),
            block_end(list_order(k), i as int),
            start,
            end,
        )
}

/// The free lists after returning the block `[start, end)` to the free lists
/// `lists`.
pub open spec fn lists_after_free(lists: Seq<Set<usize>>, start: int, end: int) -> Seq<Set<usize>> {
    let len = end - start;
    coalesce(lists, requested_order(len as usize) - 4, (start / len) as usize)
}

/// Whether `range` is the range of offsets of block `m` of free list `k`.
pub open spec fn listed_range(range: Range<usize>, k: int, m: usize) -> bool {
    &&& range.start == block_start(list_order(k), m as int)
    &&& range.end == block_end(list_order(k), m as int)
}

/// Whether `range` is the range of a free block of `lists`.
pub open spec fn is_free_range(range: Range<usize>, lists: Seq<Set<usize>>) -> bool {
    exists|k: int, m: usize| #[trigger] listed_range(range, k, m) && free_in(lists, k, m)
}

/// Whether `range` is the range of block `key.1` of free list `key.0`, free in
/// `lists`, of a free list before `bound`.
pub open spec fn listed_key(range: Range<usize>, key: (int, usize), lists: Seq<Set<usize>>, bound: int) -> bool {
    &&& listed_range(range, key.0, key.1)
    &&& free_in(lists, key.0, key.1)
    &&& key.0 < bound
}

/// Whether `a` comes before `b` when ranges are ordered by length, and then
/// by start.
pub open spec fn range_before(a: Range<usize>, b: Range<usize>) -> bool {
    ||| a.end - a.start < b.end - b.start
    ||| (a.end - a.start == b.end - b.start && a.start < b.start)
}

/// Whether `range` comes before block `m` of `p` bytes when ranges are ordered
/// by length, and then by start.
pub open spec fn before_block(range: Range<usize>, p: int, m: int) -> bool {
    ||| range.end - range.start < p
    ||| (range.end - range.start == p && range.start < m * p)
}

/// Append to `ranges` the range of each block of free list `k`, of order
/// `order`, whose index `members` lists.
fn push_listed_ranges(ranges: &mut Vec<Range<usize>>, members: &Vec<usize>, order: usize, Ghost(k): Ghost<int>)
    requires
        list_order(k) == order,
        order < usize::BITS,
        forall|t1: int, t2: int| 0 <= t1 < t2 < members@.len() ==> #[trigger] members@[t1] < #[trigger] members@[t2],
        forall|t: int| 0 <= t < members@.len() ==> block_end(order as nat, #[trigger] members@[t] as int) <= usize::MAX,
        forall|t: int| 0 <= t < old(ranges)@.len() ==> (#[trigger] old(ranges)@[t]).end - old(ranges)@[t].start < pow2(order as nat),
        forall|j1: int, j2: int| 0 <= j1 < j2 < old(ranges)@.len() ==> range_before(#[trigger] old(ranges)@[j1], #[trigger] old(ranges)@[j2]),
    ensures
        final(ranges)@.len() == old(ranges)@.len() + members@.len(),
        forall|t: int| 0 <= t < old(ranges)@.len() ==> #[trigger] final(ranges)@[t] == old(ranges)@[t],
        forall|t: int| 0 <= t < members@.len() ==> #[trigger] listed_range(final(ranges)@[old(ranges)@.len() + t], k, members@[t]),
        forall|j1: int, j2: int| 0 <= j1 < j2 < final(ranges)@.len() ==> range_before(#[trigger] final(ranges)@[j1], #[trigger] final(ranges)@[j2]),
{
    let ghost before = ranges@;
    let ghost mem = members@;
    let ghost p = pow2(order as nat) as int;
    proof {
        lemma_pow2_pos(order as nat);
    }
    let mut j: usize = 0;
    while j < members.len()
        invariant
            list_order(k) == order,
            p == pow2(order as nat),
            p > 0,
            order < usize::BITS,
            mem == members@,
            j <= mem.len(),
            forall|t1: int, t2: int| 0 <= t1 < t2 < mem.len() ==> #[trigger] mem[t1] < #[trigger] mem[t2],
            forall|t: int| 0 <= t < mem.len() ==> block_end(order as nat, #[trigger] mem[t] as int) <= usize::MAX,
            ranges@.len() == before.len() + j,
            forall|t: int| 0 <= t < before.len() ==> #[trigger] ranges@[t] == before[t],
            forall|t: int| 0 <= t < j ==> #[trigger] listed_range(ranges@[before.len() + t], k, mem[t]),
            forall|j1: int, j2: int| 0 <= j1 < j2 < ranges@.len() ==> range_before(#[trigger] ranges@[j1], #[trigger] ranges@[j2]),
            j < mem.len() ==> forall|t: int| 0 <= t < ranges@.len() ==> before_block(#[trigger] ranges@[t], p, mem[j as int] as int),
            j == 0 ==> forall|t: int| 0 <= t < before.len() ==> (#[trigger] before[t]).end - before[t].start < p,
        decreases members.len() - j,
    {
        let m = members[j];
        proof {
            assert(block_end(order as nat, mem[j as int] as int) <= usize::MAX);
            lemma_block_len(order as nat, m as int);
            vstd::arithmetic::mul::lemma_mul_inequality(1, p, m as int + 1);
            vstd::arithmetic::mul::lemma_mul_is_commutative(1, m as int + 1);
            vstd::arithmetic::mul::lemma_mul_is_commutative(p, m as int + 1);
            vstd::arithmetic::mul::lemma_mul_is_commutative(p, m as int);
            lemma_usize_shl_is_mul(m, order);
            lemma_usize_shl_is_mul((m + 1) as usize, order);
            if j == 0 {
                assert forall|t: int| 0 <= t < ranges@.len() implies before_block(#[trigger] ranges@[t], p, m as int) by {
                    assert(ranges@[t] == before[t]);
                }
            }
        }
        let ghost prev = ranges@;
        ranges.push((m << order)..((m + 1) << order));
        proof {
            let new_range = ranges@[ranges@.len() - 1];
            assert(listed_range(new_range, k, m));
            assert forall|t: int| 0 <= t < j + 1 implies #[trigger] listed_range(ranges@[before.len() + t], k, mem[t]) by {
                if t < j {
                    assert(ranges@[before.len() + t] == prev[before.len() + t]);
                }
            }
            if j + 1 < mem.len() {
                let next = mem[j + 1];
                assert(m < next);
                vstd::arithmetic::mul::lemma_mul_strict_inequality(m as int, next as int, p);
                assert forall|t: int| 0 <= t < ranges@.len() implies before_block(#[trigger] ranges@[t], p, next as int) by {
                    if t < ranges@.len() - 1 {
                        assert(before_block(ranges@[t], p, m as int));
                    }
                }
            }
        }
        j += 1;
    }
}

/// A map of the free and allocated regions within some [`Block`].
///
/// [`Block`]: crate::Block
pub struct FreeMap {
    /// A freelist for each block order.
    ///
    /// Let the "order" of a block be the base 2 logarithm of its size. The
    /// `i`'th element of this vector is a [`SparseBitSet`] holding the indices
    /// of all free blocks of order `SMALLEST_ORDER + i`, viewing the overall
    /// block as an array of sub-blocks of that order. In other words, `j` is a
    /// member if the memory at offset `j << (SMALLEST_ORDER + i)` within the
    /// overall block is free.
    freelists: Vec<SparseBitSet>,
    /// The length of the block whose regions this map tracks.
    pool_size: Ghost<nat>,
}

impl View for FreeMap {
    type V = Seq<Set<usize>>;

    /// The members of each free list.
    closed spec fn view(&self) -> Seq<Set<usize>> {
        self.freelists@.map_values(|list: SparseBitSet| list@)
    }
}

impl FreeMap {
    /// The length of the block whose regions this map tracks.
    pub closed spec fn pool_size(&self) -> nat {
        self.pool_size@
    }

    /// The free lists are consistent with each other and with the pool size.
    pub closed spec fn wf(&self) -> bool {
        &&& valid_lists(self@, self.pool_size@ as int)
        &&& forall|k: int| 0 <= k < self.freelists.len() ==> #[trigger] self.freelists@[k].wf()
    }

    /// A consistent free map has consistent free lists.
    pub proof fn lemma_valid(&self)
        requires
            self.wf(),
        ensures
            valid_lists(self@, self.pool_size() as int),
    {
    }

    /// The view lists the members of each free list.
    proof fn lemma_view(&self)
        ensures
            self@.len() == self.freelists@.len(),
            forall|k: int| 0 <= k < self@.len() ==> #[trigger] self@[k] == self.freelists@[k]@,
    {
    }

    /// Take the free block with the greatest index from the first non-empty
    /// free list of order `order` or larger, returning its order and index.
    fn take_largest_free(&mut self, min_order: usize) -> (taken: Option<(usize, usize)>)
        requires
            old(self).wf(),
            4 <= min_order < usize::BITS,
        ensures
            final(self).pool_size@ == old(self).pool_size@,
            final(self).freelists.len() == old(self).freelists.len(),
            forall|k: int| 0 <= k < final(self).freelists.len() ==> #[trigger] final(self).freelists@[k].wf(),
            ({
                let o = first_nonempty(old(self)@, min_order - 4);
                if o >= old(self)@.len() {
                    &&& taken is None
                    &&& final(self)@ == old(self)@
                } else {
                    let m = set_max(old(self)@[o]);
                    &&& old(self)@[o].contains(m)
                    &&& taken == Some(((o + 4) as usize, m))
                    &&& final(self)@ == old(self)@.update(o, old(self)@[o].remove(m))
                }
            }),
    {
        let ghost start: int = min_order - 4;
        let mut order = min_order;
        proof {
            self.lemma_view();
            lemma_pow2_bits();
            assert(self@.len() + 4 <= usize::BITS) by {
                if self@.len() + 4 > usize::BITS {
                    lemma_pow2_le(usize::BITS as nat, (self@.len() + 3) as nat);
                }
            }
        }
        loop
            invariant
                self.wf(),
                self@ == old(self)@,
                self.pool_size@ == old(self).pool_size@,
                self.freelists.len() == old(self).freelists.len(),
                self@.len() + 4 <= usize::BITS,
                4 <= order <= usize::BITS,
                start == min_order - 4,
                first_nonempty(old(self)@, start) == first_nonempty(old(self)@, order - 4),
            decreases usize::BITS - order,
        {
            // If `order` is too large for this freemap, then allocation has
            // failed. Since we try successively larger orders when smaller
            // orders are exhausted, this will eventually occur for an
            // unsatisfiable request of any size.
            proof {
                self.lemma_view();
            }
            if order - SMALLEST_ORDER >= self.freelists.len() {
                assert(first_nonempty(old(self)@, order - 4) == old(self)@.len());
                return None;
            }
            let k = order - SMALLEST_ORDER;
            // Prefer the last member, to get stack-like behavior out of the
            // `SparseBitSet`, rather than favoring insertions and deletions at
            // the front.
            match self.freelists[k].largest_member() {
                Some(free) => {
                    proof {
                        lemma_set_max(old(self)@[k as int], free);
                    }
                    // We found an available block. Mark it as in use.
                    let removed = self.freelists[k].remove(free);
                    assert(removed);
                    proof {
                        self.lemma_view();
                        assert(self@ =~= old(self)@.update(k as int, old(self)@[k as int].remove(free)));
                        assert(!old(self)@[k as int].is_empty());
                        assert(first_nonempty(old(self)@, k as int) == k);
                        assert(first_nonempty(old(self)@, start) == k);
                        assert(set_max(old(self)@[k as int]) == free);
                    }
                    return Some((order, free));
                },
                None => {
                    // We have no free blocks in this order, so try the next
                    // larger.
                    order += 1;
                },
            }
        }
    }

    /// Split block `index` of order `order`, which `take_largest_free` just
    /// took from the free lists `before`, until it is of order `requested`:
    /// each split frees the right half. Return the index of the block of
    /// order `requested` at the start of the original block.
    fn split_down(
        &mut self,
        Ghost(before): Ghost<Seq<Set<usize>>>,
        order: usize,
        index: usize,
        requested: usize,
    ) -> (allocated_index: usize)
        requires
            valid_lists(before, old(self).pool_size@ as int),
            4 <= requested <= order,
            0 <= order - 4 < before.len(),
            before[order - 4].contains(index),
            old(self)@ == before.update(order - 4, before[order - 4].remove(index)),
            forall|k: int| 0 <= k < old(self).freelists.len() ==> #[trigger] old(self).freelists@[k].wf(),
        ensures
            final(self).pool_size@ == old(self).pool_size@,
            final(self).freelists.len() == old(self).freelists.len(),
            forall|k: int| 0 <= k < final(self).freelists.len() ==> #[trigger] final(self).freelists@[k].wf(),
            final(self)@ == allocated_lists(before, requested - 4, order - 4, index),
            allocated_index == first_sub_index(order - 4, index, requested - 4),
    {
        let ghost pool = self.pool_size@ as int;
        let ghost o: int = order - 4;
        let ghost m: usize = index;
        let mut order = order;
        let mut allocated_index = index;
        proof {
            assert(free_in(before, o, m));
            lemma_first_sub_index_self(o, m);
            self.lemma_view();
            assert(self@ =~= allocated_lists(before, o, o, m));
        }
        while order > requested
            invariant
                valid_lists(before, pool),
                pool == self.pool_size@,
                self.pool_size@ == old(self).pool_size@,
                0 <= o < before.len(),
                before[o].contains(m),
                4 <= requested <= order <= o + 4,
                allocated_index == first_sub_index(o, m, order - 4),
                self@ == allocated_lists(before, order - 4, o, m),
                self.freelists.len() == old(self).freelists.len(),
                forall|k: int| 0 <= k < self.freelists.len() ==> #[trigger] self.freelists@[k].wf(),
            decreases order,
        {
            order -= 1;
            let ghost k: int = order - 4;
            proof {
                lemma_split_block(before, pool, o, m, k);
                lemma_double_sub_index(o, m, k);
            }
            allocated_index *= 2;
            // `allocated_index` is now the index of the left block in a pair of
            // freshly allocated blocks of this order. We only need one, so add
            // the pair's right block to this order's freelist.
            let right_block_index = allocated_index + 1;
            proof {
                self.lemma_view();
                assert(self@[k] == before[k]);
            }
            let ghost prev = self@;
            let ghost prev_lists = self.freelists@;
            let was_free = self.freelists[order - SMALLEST_ORDER].insert(right_block_index);
            assert(!was_free);
            proof {
                self.lemma_view();
                assert(self.freelists@ == prev_lists.update(k, self.freelists@[k]));
                assert(self@[k] == prev[k].insert(right_block_index));
                assert(right_block_index == (first_sub_index(o, m, k) + 1) as usize);
                let next = allocated_lists(before, k, o, m);
                assert(prev == allocated_lists(before, k + 1, o, m));
                assert forall|j: int| 0 <= j < self@.len() implies #[trigger] self@[j] == next[j] by {
                    if j != k {
                        assert(self@[j] == prev[j]);
                    }
                }
                assert(self@ =~= next);
            }
        }
        allocated_index
    }

    /// Create a map of a pool of `pool_size` bytes, all of them free.
    ///
    /// The pool is carved greedily into blocks, from the largest order that
    /// fits down to the smallest, ignoring any slop smaller than the smallest
    /// block at the end.
    pub fn new(pool_size: usize) -> (map: FreeMap)
        requires
            pool_size >= SMALLEST_SIZE,
        ensures
            map.wf(),
            map.pool_size() == pool_size,
            orders_fit(map@.len() as int, pool_size as int),
            forall|k: int| 0 <= k < map@.len() ==> #[trigger] map@[k] == initial_list(pool_size as nat, k),
            lists_within(map@, pool_size - pool_size % 16),
            forall|x: int| 0 <= x < pool_size - pool_size % 16 ==> #[trigger] free_byte(map@, x),
    {
        let ghost pool = pool_size as nat;
        proof {
            lemma2_to64();
            lemma_pow2_bits();
        }
        // The base 2 logarithm of the pool size.
        let mut largest_order: usize = SMALLEST_ORDER;
        while largest_order + 1 < usize::BITS as usize && (1usize << (largest_order + 1)) <= pool_size
            invariant
                4 <= largest_order < usize::BITS,
                pow2(largest_order as nat) <= pool_size,
            decreases usize::BITS - largest_order,
        {
            proof {
                lemma_one_shl((largest_order + 1) as usize);
            }
            largest_order += 1;
        }
        proof {
            if largest_order + 1 < usize::BITS {
                lemma_one_shl((largest_order + 1) as usize);
            }
        }
        // One free list for each order from the smallest to the largest.
        let n_lists = largest_order - SMALLEST_ORDER + 1;
        let mut freelists: Vec<SparseBitSet> = Vec::with_capacity(n_lists);
        while freelists.len() < n_lists
            invariant
                freelists.len() <= n_lists,
                forall|k: int| 0 <= k < freelists.len() ==> (#[trigger] freelists@[k]).wf() && freelists@[k]@ == Set::<usize>::empty(),
            decreases n_lists - freelists.len(),
        {
            freelists.push(SparseBitSet::default());
        }
        let mut map = FreeMap { freelists, pool_size: Ghost(pool) };
        // Offset of the next byte not covered by some freelist entry.
        let mut next_unlisted: usize = 0;
        let mut order = largest_order + 1;
        proof {
            map.lemma_view();
            vstd::arithmetic::div_mod::lemma_basic_div(pool as int, pow2(order as nat) as int);
            lemma_pow2_pos(order as nat);
            assert forall|k: int| 0 <= k < n_lists implies #[trigger] map@[k] == Set::<usize>::empty() by {
                assert(map.freelists@[k]@ == Set::<usize>::empty());
            }
            assert forall|k: int, i: usize| #[trigger] free_in(map@, k, i) implies false by {
                assert(map@[k] == Set::<usize>::empty());
            }
        }
        // Carve blocks from the largest order to the smallest.
        while order > SMALLEST_ORDER
            invariant
                4 <= order <= largest_order + 1,
                largest_order < usize::BITS,
                n_lists == largest_order - 3,
                map.freelists.len() == n_lists,
                map.pool_size@ == pool,
                pool == pool_size,
                forall|k: int| 0 <= k < map.freelists.len() ==> #[trigger] map.freelists@[k].wf(),
                next_unlisted == (pool as int / pow2(order as nat) as int) * pow2(order as nat),
                forall|k: int| 0 <= k < n_lists && list_order(k) >= order ==> #[trigger] map@[k] == initial_list(pool, k),
                forall|k: int| 0 <= k < n_lists && list_order(k) < order ==> #[trigger] map@[k] == Set::<usize>::empty(),
                lists_within(map@, next_unlisted as int),
                lists_disjoint(map@),
                lists_coalesced(map@),
                forall|x: int| 0 <= x < next_unlisted ==> #[trigger] free_byte(map@, x),
            decreases order,
        {
            order -= 1;
            let ghost k: int = order - 4;
            proof {
                map.lemma_view();
                lemma_greedy_step(pool, order as nat);
                lemma_one_shl(order);
                assert(list_order(k) == order);
            }
            let ghost pre = map@;
            // Can we carve a block of this order out of the remaining space?
            let block_size = 1usize << order;
            if block_size <= pool_size - next_unlisted {
                proof {
                    lemma_usize_shr_is_div(next_unlisted, order);
                }
                map.freelists[order - SMALLEST_ORDER].insert(next_unlisted >> order);
                next_unlisted += block_size;
                proof {
                    map.lemma_view();
                    let q = pool as int / pow2(order as nat) as int;
                    let idx = (q - 1) as usize;
                    assert(map@ =~= pre.update(k, pre[k].insert(idx)));
                    assert(pre[k] == Set::<usize>::empty());
                    lemma_block_len(order as nat, q - 1);
                    assert(block_start(order as nat, q - 1) == next_unlisted - block_size);
                    assert(block_end(order as nat, q - 1) == next_unlisted);
                    assert forall|l: int, j: usize| #[trigger] free_in(map@, l, j) implies (free_in(pre, l, j)
                        || (l == k && j == idx)) by {}
                    assert forall|l1: int, j1: usize, l2: int, j2: usize|
                        #[trigger] free_in(map@, l1, j1) && #[trigger] free_in(map@, l2, j2) && (l1 != l2 || j1
                            != j2) implies listed_blocks_disjoint(l1, j1, l2, j2) by {
                        if l1 == k && j1 == idx {
                            assert(free_in(pre, l2, j2));
                            lemma_block_len(list_order(l2), j2 as int);
                        } else if l2 == k && j2 == idx {
                            assert(free_in(pre, l1, j1));
                            lemma_block_len(list_order(l1), j1 as int);
                        } else {
                            assert(free_in(pre, l1, j1) && free_in(pre, l2, j2));
                        }
                    }
                    assert forall|l: int, j: usize| #[trigger] free_in(map@, l, j) implies !map@[l].contains(
                        buddy(j),
                    ) by {
                        if l != k {
                            assert(free_in(pre, l, j));
                        }
                    }
                    assert forall|x: int| 0 <= x < next_unlisted implies #[trigger] free_byte(map@, x) by {
                        if x < next_unlisted - block_size {
                            assert(free_byte(pre, x));
                            let (l, j) = choose|l: int, j: usize|
                                #[trigger] free_in(pre, l, j) && block_start(list_order(l), j as int) <= x < block_end(
                                    list_order(l),
                                    j as int,
                                );
                            assert(free_in(map@, l, j));
                        } else {
                            assert(free_in(map@, k, idx));
                        }
                    }
                }
            }
            proof {
                map.lemma_view();
            }
        }
        proof {
            map.lemma_view();
            lemma_greedy_step(pool, 4);
            lemma2_to64();
            vstd::arithmetic::div_mod::lemma_fundamental_div_mod(pool as int, 16);
            assert(next_unlisted == pool_size - pool_size % 16);
        }
        // We have reached the end of the pool, ignoring any slop smaller than
        // our smallest block at the end.
        assert(next_unlisted + SMALLEST_SIZE > pool_size);
        map
    }

    /// Allocate a range of at least `size` bytes.
    ///
    /// The block comes from the smallest order that holds `size` bytes and has
    /// a free block, taking the free block with the greatest index there, and
    /// is split down to the requested order, freeing the right halves. The
    /// result is `None` when no such order has a free block.
    #[verifier::rlimit(40)]
    pub fn allocate(&mut self, size: usize) -> (allocated: Option<Range<usize>>)
        requires
            old(self).wf(),
        ensures
            final(self).wf(),
            final(self).pool_size() == old(self).pool_size(),
            final(self)@ == lists_after_allocation(old(self)@, size),
            match allocated {
                None => allocation(old(self)@, size) is None,
                Some(r) => allocation(old(self)@, size) == Some((r.start as int, r.end as int)),
            },
            // A failed request changes nothing; a granted one is at least as
            // long as asked for.
            allocated is None ==> final(self)@ == old(self)@,
            allocated matches Some(r) ==> r.start < r.end && size <= r.end - r.start,
    {
        let ghost pool = self.pool_size@ as int;
        let ghost before = self@;
        proof {
            lemma_order_search(size, 4);
            lemma_pow2_bits();
            assert(self@.len() + 4 <= usize::BITS) by {
                if self@.len() + 4 > usize::BITS {
                    lemma_pow2_le(usize::BITS as nat, (self@.len() + 3) as nat);
                }
            }
        }
        let requested_order = match order_for_size(size) {
            Some(r) => r,
            None => {
                return None;
            },
        };
        let ghost lo: int = requested_order - 4;
        // Starting with the requested order, search through larger and larger
        // orders until we find a free block.
        let (order, free) = match self.take_largest_free(requested_order) {
            Some(taken) => taken,
            None => {
                return None;
            },
        };
        let ghost o: int = order - 4;
        proof {
            lemma_first_nonempty(before, lo);
        }
        // We have marked the `free`'th block of order `order` as now in use.
        // Subdivide it as needed until it's of the requested order.
        let allocated_index = self.split_down(Ghost(before), order, free, requested_order);
        proof {
            lemma_allocation_fits_request(before, size);
            lemma_allocated_valid(before, pool, lo, o, free);
            lemma_allocated_range(before, pool, lo, o, free);
            lemma_usize_shl_is_mul(allocated_index, requested_order);
            lemma_usize_shl_is_mul((allocated_index + 1) as usize, requested_order);
        }
        // Now `allocated_index` refers to a freshly allocated block of the
        // requested order. Return its range.
        Some((allocated_index << requested_order)..((allocated_index + 1) << requested_order))
    }

    /// Return the range `range`, which `allocate` handed out, to the free lists.
    ///
    /// The block is merged with its buddy as long as the buddy is free, and
    /// the fully coalesced block is listed as free.
    pub fn free(&mut self, range: Range<usize>)
        requires
            old(self).wf(),
            allocated_block(old(self)@, old(self).pool_size() as int, range.start as int, range.end as int),
        ensures
            final(self).wf(),
            final(self).pool_size() == old(self).pool_size(),
            final(self)@ == lists_after_free(old(self)@, range.start as int, range.end as int),
    {
        let ghost pool = self.pool_size@ as int;
        let len = range.end - range.start;
        proof {
            lemma_requested_order_of_block(len);
            lemma_pow2_bits();
        }
        let first_order = match order_for_size(len) {
            Some(order) => order,
            None => {
                proof {
                    assert(false);
                }
                return ;
            },
        };
        let ghost k0: int = first_order - 4;
        let ghost i0: usize = (range.start / len) as usize;
        proof {
            self.lemma_view();
            lemma_block_of_range(range.start, len, first_order as nat);
            assert(unlisted_block(self@, k0, i0)) by {
                assert forall|l: int, j: usize| #[trigger] free_in(self@, l, j) implies listed_blocks_disjoint(l, j, k0, i0) by {
                    assert(list_order(k0) == first_order);
                }
            }
            if first_order > self@.len() + 3 {
                lemma_pow2_le((self@.len() + 4) as nat, first_order as nat);
            }
            assert(self@.len() + 4 <= usize::BITS) by {
                if self@.len() + 4 > usize::BITS {
                    lemma_pow2_le(usize::BITS as nat, (self@.len() + 3) as nat);
                }
            }
            lemma_usize_shr_is_div(range.start, first_order);
        }
        // Increase the order of this block as much as possible by coalescing
        // it with its buddies. This entails removing buddies from smaller
        // orders and then inserting the fully coalesced block into its final
        // order.
        //
        // This loop always terminates before `order` runs off the end of
        // `self.freelists`, because the sole block of the largest order never
        // has a buddy to coalesce with.
        let mut order = first_order;
        loop
            invariant_except_break
                unlisted_block(self@, order - 4, index_at(range.start, order as nat) as usize),
                coalesce(self@, order - 4, index_at(range.start, order as nat) as usize)
                    == coalesce(old(self)@, k0, i0),
                block_end(order as nat, index_at(range.start, order as nat)) <= pool,
                4 <= order,
                0 <= order - 4 < self@.len(),
            invariant
                valid_lists(self@, pool),
                pool == self.pool_size@,
                self.pool_size@ == old(self).pool_size@,
                self.freelists.len() == old(self).freelists.len(),
                forall|k: int| 0 <= k < self.freelists.len() ==> #[trigger] self.freelists@[k].wf(),
                self@.len() + 4 <= usize::BITS,
            ensures
                self@ == coalesce(old(self)@, k0, i0),
            decreases self@.len() + 4 - order,
        {
            proof {
                self.lemma_view();
                lemma_usize_shr_is_div(range.start, order);
            }
            let index = range.start >> order;
            let buddy = index ^ 1;
            proof {
                lemma_xor_one(index);
            }
            let ghost k: int = order - 4;
            let ghost pre = self@;
            assert(list_order(k) == order);
            // Can we coalesce this block with its buddy?
            let coalesced = self.freelists[order - SMALLEST_ORDER].remove(buddy);
            proof {
                self.lemma_view();
            }
            if !coalesced {
                // If not, then this is the fully coalesced free block.
                proof {
                    assert(pre[k].remove(buddy) =~= pre[k]);
                    assert(self@[k] == pre[k]);
                    assert(self@ =~= pre);
                }
                self.freelists[order - SMALLEST_ORDER].insert(index);
                proof {
                    self.lemma_view();
                    lemma_coalesce_insert(pre, pool, k, index);
                    assert(self@ =~= pre.update(k, pre[k].insert(index)));
                }
                break ;
            }
            proof {
                assert(self@ =~= pre.update(k, pre[k].remove(buddy)));
                lemma_coalesce_merge(pre, pool, k, index);
                lemma_index_at_next(range.start, order as nat);
            }
            // Even though we've coalesced the block with its buddy, there's no
            // need to adjust `range.start`, because the `>> order` right shift
            // will get the right answer anyway.
            order += 1;
        }
    }

    /// The free lists, one for each order from the smallest up.
    pub fn freelists(&self) -> (lists: &Vec<SparseBitSet>)
        requires
            self.wf(),
        ensures
            lists@.len() == self@.len(),
            forall|k: int| 0 <= k < lists@.len() ==> (#[trigger] lists@[k]).wf() && lists@[k]@ == self@[k],
    {
        proof {
            self.lemma_view();
        }
        &self.freelists
    }

    /// The ranges of all the free blocks, by order from the smallest up and by
    /// offset within an order.
    pub fn free_ranges(&self) -> (ranges: Vec<Range<usize>>)
        requires
            self.wf(),
        ensures
            forall|j: int| 0 <= j < ranges@.len() ==> is_free_range(#[trigger] ranges@[j], self@),
            forall|k: int, m: usize| free_in(self@, k, m) ==> exists|j: int|
                0 <= j < ranges@.len() && #[trigger] listed_range(ranges@[j], k, m),
            forall|j1: int, j2: int| 0 <= j1 < j2 < ranges@.len() ==> range_before(#[trigger] ranges@[j1], #[trigger] ranges@[j2]),
    {
        let ghost pool = self.pool_size@ as int;
        let mut ranges: Vec<Range<usize>> = Vec::new();
        let mut i: usize = 0;
        proof {
            self.lemma_view();
        }
        proof {
            lemma_pow2_bits();
            assert(self@.len() + 4 <= usize::BITS) by {
                if self@.len() + 4 > usize::BITS {
                    lemma_pow2_le(usize::BITS as nat, (self@.len() + 3) as nat);
                }
            }
        }
        let ghost mut keys: Seq<(int, usize)> = Seq::empty();
        while i < self.freelists.len()
            invariant
                self.wf(),
                pool == self.pool_size@,
                i <= self.freelists.len(),
                self@.len() + 4 <= usize::BITS,
                self@.len() == self.freelists@.len(),
                forall|k: int| 0 <= k < self@.len() ==> #[trigger] self@[k] == self.freelists@[k]@,
                keys.len() == ranges@.len(),
                forall|j: int| 0 <= j < keys.len() ==> #[trigger] listed_key(ranges@[j], keys[j], self@, i as int),
                forall|k: int, m: usize| free_in(self@, k, m) && k < i ==> #[trigger] keys.contains((k, m)),
                forall|j1: int, j2: int| 0 <= j1 < j2 < ranges@.len() ==> range_before(#[trigger] ranges@[j1], #[trigger] ranges@[j2]),
                forall|j: int| 0 <= j < ranges@.len() ==> (#[trigger] ranges@[j]).end - ranges@[j].start < pow2(list_order(i as int)),
            decreases self.freelists.len() - i,
        {
            let order = i + SMALLEST_ORDER;
            let ghost k: int = i as int;
            assert(list_order(k) == order);
            let members = self.freelists[i].members();
            let ghost before = ranges@;
            let ghost mem = members@;
            proof {
                assert forall|t: int| 0 <= t < members@.len() implies block_end(order as nat, #[trigger] members@[t] as int) <= usize::MAX by {
                    assert(members@.contains(members@[t]));
                    assert(free_in(self@, k, members@[t]));
                }
            }
            push_listed_ranges(&mut ranges, &members, order, Ghost(k));
            proof {
                let added = mem.map_values(|m: usize| (k, m));
                let new_keys = keys + added;
                assert forall|x: int| 0 <= x < new_keys.len() implies #[trigger] listed_key(ranges@[x], new_keys[x], self@, i + 1) by {
                    if x < keys.len() {
                        assert(listed_key(before[x], keys[x], self@, i as int));
                        assert(ranges@[x] == before[x]);
                    } else {
                        let t = x - keys.len();
                        assert(added.len() == mem.len());
                        assert(0 <= t < mem.len());
                        assert(before.len() == keys.len());
                        assert(listed_range(ranges@[before.len() + t], k, mem[t]));
                        assert(new_keys[x] == (k, mem[t]));
                        assert(mem.contains(mem[t]));
                    }
                }
                assert forall|l: int, m: usize| free_in(self@, l, m) && l < i + 1 implies #[trigger] new_keys.contains((l, m)) by {
                    if l < i {
                        assert(keys.contains((l, m)));
                        let x = keys.index_of((l, m));
                        assert(new_keys[x] == (l, m));
                    } else {
                        assert(mem.contains(m));
                        let t = mem.index_of(m);
                        assert(new_keys[keys.len() + t] == (l, m));
                    }
                }
                assert forall|x: int| 0 <= x < ranges@.len() implies (#[trigger] ranges@[x]).end - ranges@[x].start < pow2(list_order(i + 1)) by {
                    lemma_pow2_unfold(list_order(i + 1));
                    lemma_pow2_pos(order as nat);
                    if x < before.len() {
                        assert(ranges@[x] == before[x]);
                    } else {
                        let t = x - before.len();
                        assert(listed_range(ranges@[before.len() + t], k, mem[t]));
                        lemma_block_len(order as nat, mem[t] as int);
                    }
                }
                keys = new_keys;
            }
            i += 1;
        }
        proof {
            assert forall|j: int| 0 <= j < ranges@.len() implies is_free_range(#[trigger] ranges@[j], self@) by {
                assert(listed_key(ranges@[j], keys[j], self@, i as int));
                assert(listed_range(ranges@[j], keys[j].0, keys[j].1));
            }
            assert forall|k: int, m: usize| free_in(self@, k, m) implies exists|j: int|
                0 <= j < ranges@.len() && #[trigger] listed_range(ranges@[j], k, m) by {
                assert(keys.contains((k, m)));
                let j = keys.index_of((k, m));
                assert(listed_key(ranges@[j], keys[j], self@, i as int));
            }
        }
        ranges
    }
}

} // verus!
