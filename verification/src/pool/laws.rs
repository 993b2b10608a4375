//! Laws of the buddy allocator: what allocating and freeing do to the bytes
//! of the pool, and how the two undo each other.

use super::buddy::{
    allocated_lists, block_end, block_start, buddy, coalesce, disjoint_ranges, first_nonempty,
    first_sub_index, free_byte, free_in, lemma_allocated_range, lemma_allocated_unlisted,
    lemma_block_len, lemma_bounded_set_has_max, lemma_coalesce_allocated, lemma_coalesce_merge,
    lemma_first_nonempty, lemma_first_nonempty_least, lemma_listed_block_injective, lemma_parent, lemma_pow2_le, lemma_split_block, list_order,
    free_ranges_of, listed_block, listed_blocks_disjoint, range_within, set_max, unlisted_block, valid_lists,
};
use super::freemap::{
    allocated_block, allocation, is_block_len, lemma_order_search, lemma_pow2_bits,
    lemma_requested_order_of_block, lists_after_allocation, lists_after_free, requested_order,
    SMALLEST_SIZE,
};
use vstd::arithmetic::power2::*;
use vstd::prelude::*;

verus! {

/// Freeing undoes allocating: the range that allocating `size` bytes hands out
/// is a block in use afterwards, so it may be freed, and freeing it at once
/// gives back the free lists exactly as they were before the allocation.
pub proof fn lemma_free_undoes_allocate(lists: Seq<Set<usize>>, pool: int, size: usize)
    requires
        valid_lists(lists, pool),
        allocation(lists, size) is Some,
    ensures
        ({
            let (start, end) = allocation(lists, size).unwrap();
            let after = lists_after_allocation(lists, size);
            &&& start < end
            &&& allocated_block(after, pool, start, end)
            &&& lists_after_free(after, start, end) == lists
        }),
{
    let r = requested_order(size);
    let lo = r - 4;
    lemma_order_search(size, 4);
    lemma_first_nonempty(lists, lo);
    let o = first_nonempty(lists, lo);
    let x = lists[o].choose();
    assert(lists[o].contains(x)) by {
        assert(!lists[o].is_empty());
        if !lists[o].contains(x) {
            assert(lists[o] =~= Set::<usize>::empty());
        }
    }
    assert forall|y: usize| #[trigger] lists[o].contains(y) implies y <= pool by {
        assert(free_in(lists, o, y));
        lemma_pow2_pos(list_order(o));
        vstd::arithmetic::mul::lemma_mul_inequality(1, pow2(list_order(o)) as int, y + 1);
        vstd::arithmetic::mul::lemma_mul_is_commutative(1, y + 1);
        vstd::arithmetic::mul::lemma_mul_is_commutative(pow2(list_order(o)) as int, y + 1);
    }
    lemma_bounded_set_has_max(lists[o], pool, x);
    let m = set_max(lists[o]);
    let f = first_sub_index(o, m, lo);
    let after = lists_after_allocation(lists, size);
    assert(after == allocated_lists(lists, lo, o, m));
    lemma_allocated_range(lists, pool, lo, o, m);
    assert(list_order(lo) == r);
    let (start, end) = allocation(lists, size).unwrap();
    assert(start == block_start(r, f) && end == start + pow2(r));
    lemma_pow2_pos(r);
    assert(is_block_len(end - start));
    vstd::arithmetic::div_mod::lemma_mod_multiples_basic(f, pow2(r) as int);
    vstd::arithmetic::div_mod::lemma_div_multiples_vanish(f, pow2(r) as int);
    vstd::arithmetic::mul::lemma_mul_is_commutative(f, pow2(r) as int);
    lemma_pow2_bits();
    lemma_requested_order_of_block((end - start) as usize);
    lemma_allocated_unlisted(lists, pool, lo, o, m);
    assert forall|k: int, i: usize| #[trigger] free_in(after, k, i) implies disjoint_ranges(
        block_start(list_order(k), i as int),
        block_end(list_order(k), i as int),
        start,
        end,
    ) by {
        assert(listed_blocks_disjoint(k, i, lo, f as usize));
    }
    lemma_coalesce_allocated(lists, pool, lo, o, m);
    assert(0 <= start <= end <= pool);
    assert(start % (end - start) == 0);
    assert(allocated_block(after, pool, start, end));
    let q = requested_order((end - start) as usize);
    if q < r {
        lemma_pow2_strictly_increases(q, r);
    } else if r < q {
        lemma_pow2_strictly_increases(r, q);
    }
    assert(q == r);
    assert(start / (end - start) == f);
    assert(lists_after_free(after, start, end) == coalesce(after, lo, f as usize));
}

/// Allocating `size` bytes hands out a range of at least `size` bytes, and
/// no fewer than [`SMALLEST_SIZE`], whose every byte was free before: it lies
/// within a free block.
pub proof fn lemma_allocation_was_free(lists: Seq<Set<usize>>, pool: int, size: usize)
    requires
        valid_lists(lists, pool),
        allocation(lists, size) is Some,
    ensures
        ({
            let (start, end) = allocation(lists, size).unwrap();
            &&& end - start >= size
            &&& end - start >= SMALLEST_SIZE
            &&& exists|k: int, i: usize| #[trigger] free_in(lists, k, i) && block_start(list_order(k), i as int) <= start
                && end <= block_end(list_order(k), i as int)
        }),
{
    let r = requested_order(size);
    let lo = r - 4;
    lemma_order_search(size, 4);
    lemma_free_undoes_allocate(lists, pool, size);
    lemma_first_nonempty(lists, lo);
    let o = first_nonempty(lists, lo);
    let x = lists[o].choose();
    assert(lists[o].contains(x)) by {
        if !lists[o].contains(x) {
            assert(lists[o] =~= Set::<usize>::empty());
        }
    }
    assert forall|y: usize| #[trigger] lists[o].contains(y) implies y <= pool by {
        assert(free_in(lists, o, y));
        lemma_pow2_pos(list_order(o));
        vstd::arithmetic::mul::lemma_mul_inequality(1, pow2(list_order(o)) as int, y + 1);
        vstd::arithmetic::mul::lemma_mul_is_commutative(1, y + 1);
        vstd::arithmetic::mul::lemma_mul_is_commutative(pow2(list_order(o)) as int, y + 1);
    }
    lemma_bounded_set_has_max(lists[o], pool, x);
    let m = set_max(lists[o]);
    lemma_allocated_range(lists, pool, lo, o, m);
    assert(free_in(lists, o, m));
    lemma_pow2_bits();
    assert(r < 64) by {
        if r >= 64 {
            lemma_pow2_le(usize::BITS as nat, r);
            lemma_pow2_le((lists.len() + 3) as nat, r);
        }
    }
    lemma_pow2_le(4, r);
    lemma2_to64();
}

/// Freeing a block in use makes its every byte free: afterwards it lies
/// within a free block.
pub proof fn lemma_freed_range_is_free(lists: Seq<Set<usize>>, pool: int, start: int, end: int)
    requires
        valid_lists(lists, pool),
        allocated_block(lists, pool, start, end),
    ensures
        exists|k: int, i: usize| #[trigger] free_in(lists_after_free(lists, start, end), k, i)
            && block_start(list_order(k), i as int) <= start && end <= block_end(list_order(k), i as int),
{
    let len = end - start;
    lemma_pow2_bits();
    lemma_requested_order_of_block(len as usize);
    let r = requested_order(len as usize);
    let i0 = (start / len) as usize;
    lemma_pow2_pos(r);
    vstd::arithmetic::div_mod::lemma_fundamental_div_mod(start, len);
    vstd::arithmetic::div_mod::lemma_div_pos_is_pos(start, len);
    vstd::arithmetic::mul::lemma_mul_is_commutative(len, start / len);
    lemma_block_len(r, start / len);
    assert(start / len <= usize::MAX) by {
        vstd::arithmetic::div_mod::lemma_div_is_ordered_by_denominator(start, 1, len);
    }
    assert(block_start(r, i0 as int) == start && block_end(r, i0 as int) == end);
    assert(r < lists.len() + 4) by {
        if r >= lists.len() + 4 {
            lemma_pow2_le((lists.len() + 4) as nat, r);
        }
    }
    assert(unlisted_block(lists, r - 4, i0)) by {
        assert forall|l: int, j: usize| #[trigger] free_in(lists, l, j) implies listed_blocks_disjoint(l, j, r - 4, i0) by {
            assert(list_order(r - 4) == r);
        }
    }
    lemma_coalesce_contains(lists, pool, r - 4, i0);
    assert(lists_after_free(lists, start, end) == coalesce(lists, r - 4, i0));
}

/// Coalescing a block that lies within the pool and shares no byte with a
/// free block lists a free block that holds it.
proof fn lemma_coalesce_contains(lists: Seq<Set<usize>>, pool: int, k: int, i: usize)
    requires
        valid_lists(lists, pool),
        0 <= k < lists.len(),
        block_end(list_order(k), i as int) <= pool,
        unlisted_block(lists, k, i),
    ensures
        exists|l: int, j: usize| #[trigger] free_in(coalesce(lists, k, i), l, j)
            && block_start(list_order(l), j as int) <= block_start(list_order(k), i as int)
            && block_end(list_order(k), i as int) <= block_end(list_order(l), j as int),
    decreases lists.len() - k,
{
    if lists[k].contains(buddy(i)) {
        lemma_coalesce_merge(lists, pool, k, i);
        let next = lists.update(k, lists[k].remove(buddy(i)));
        lemma_coalesce_contains(next, pool, k + 1, (i / 2) as usize);
        lemma_parent(list_order(k), i as int);
        lemma_block_len(list_order(k), (i - i % 2) as int);
        lemma_block_len(list_order(k), (i - i % 2 + 1) as int);
        lemma_block_len(list_order(k), i as int);
        assert(list_order(k + 1) == list_order(k) + 1);
        assert(coalesce(lists, k, i) == coalesce(next, k + 1, (i / 2) as usize));
        let (l, j) = choose|l: int, j: usize| #[trigger] free_in(coalesce(next, k + 1, (i / 2) as usize), l, j)
            && block_start(list_order(l), j as int) <= block_start(list_order(k + 1), (i / 2) as int)
            && block_end(list_order(k + 1), (i / 2) as int) <= block_end(list_order(l), j as int);
        assert(free_in(coalesce(lists, k, i), l, j));
    } else {
        let after = lists.update(k, lists[k].insert(i));
        assert(coalesce(lists, k, i) == after);
        assert(free_in(coalesce(lists, k, i), k, i));
    }
}

/// Allocating never hands out a byte of a block that is in use, and a block
/// in use stays in use: no block free afterwards shares a byte with it.
pub proof fn lemma_allocation_avoids_blocks_in_use(
    lists: Seq<Set<usize>>,
    pool: int,
    size: usize,
    start: int,
    end: int,
)
    requires
        valid_lists(lists, pool),
        allocated_block(lists, pool, start, end),
        allocation(lists, size) is Some,
    ensures
        ({
            let (new_start, new_end) = allocation(lists, size).unwrap();
            &&& disjoint_ranges(start, end, new_start, new_end)
            &&& allocated_block(lists_after_allocation(lists, size), pool, start, end)
        }),
{
    let r = requested_order(size);
    let lo = r - 4;
    lemma_order_search(size, 4);
    lemma_allocation_was_free(lists, pool, size);
    lemma_free_undoes_allocate(lists, pool, size);
    lemma_first_nonempty(lists, lo);
    let o = first_nonempty(lists, lo);
    let x = lists[o].choose();
    assert(lists[o].contains(x)) by {
        if !lists[o].contains(x) {
            assert(lists[o] =~= Set::<usize>::empty());
        }
    }
    assert forall|y: usize| #[trigger] lists[o].contains(y) implies y <= pool by {
        assert(free_in(lists, o, y));
        lemma_pow2_pos(list_order(o));
        vstd::arithmetic::mul::lemma_mul_inequality(1, pow2(list_order(o)) as int, y + 1);
        vstd::arithmetic::mul::lemma_mul_is_commutative(1, y + 1);
        vstd::arithmetic::mul::lemma_mul_is_commutative(pow2(list_order(o)) as int, y + 1);
    }
    lemma_bounded_set_has_max(lists[o], pool, x);
    let m = set_max(lists[o]);
    assert(free_in(lists, o, m));
    lemma_allocated_range(lists, pool, lo, o, m);
    let (new_start, new_end) = allocation(lists, size).unwrap();
    let after = lists_after_allocation(lists, size);
    assert(after == allocated_lists(lists, lo, o, m));
    assert(disjoint_ranges(
        block_start(list_order(o), m as int),
        block_end(list_order(o), m as int),
        start,
        end,
    ));
    assert forall|k: int, i: usize| #[trigger] free_in(after, k, i) implies disjoint_ranges(
        block_start(list_order(k), i as int),
        block_end(list_order(k), i as int),
        start,
        end,
    ) by {
        if lo <= k < o && i == first_sub_index(o, m, k) + 1 {
            lemma_split_block(lists, pool, o, m, k);
        } else {
            if lo <= k < o {
                lemma_split_block(lists, pool, o, m, k);
            }
            assert(free_in(lists, k, i));
        }
    }
}

/// Freeing a block in use leaves every other block in use as it was: no
/// block free afterwards shares a byte with it.
pub proof fn lemma_free_keeps_blocks_in_use(
    lists: Seq<Set<usize>>,
    pool: int,
    start: int,
    end: int,
    other_start: int,
    other_end: int,
)
    requires
        valid_lists(lists, pool),
        allocated_block(lists, pool, start, end),
        allocated_block(lists, pool, other_start, other_end),
        disjoint_ranges(start, end, other_start, other_end),
    ensures
        allocated_block(lists_after_free(lists, start, end), pool, other_start, other_end),
{
    let len = end - start;
    lemma_pow2_bits();
    lemma_requested_order_of_block(len as usize);
    let r = requested_order(len as usize);
    let i0 = (start / len) as usize;
    lemma_pow2_pos(r);
    vstd::arithmetic::div_mod::lemma_fundamental_div_mod(start, len);
    vstd::arithmetic::div_mod::lemma_div_pos_is_pos(start, len);
    vstd::arithmetic::mul::lemma_mul_is_commutative(len, start / len);
    lemma_block_len(r, start / len);
    assert(start / len <= usize::MAX) by {
        vstd::arithmetic::div_mod::lemma_div_is_ordered_by_denominator(start, 1, len);
    }
    assert(r < lists.len() + 4) by {
        if r >= lists.len() + 4 {
            lemma_pow2_le((lists.len() + 4) as nat, r);
        }
    }
    assert(unlisted_block(lists, r - 4, i0)) by {
        assert forall|l: int, j: usize| #[trigger] free_in(lists, l, j) implies listed_blocks_disjoint(l, j, r - 4, i0) by {
            assert(list_order(r - 4) == r);
        }
    }
    lemma_requested_order_of_block((other_end - other_start) as usize);
    lemma_coalesce_avoids(lists, pool, r - 4, i0, other_start, other_end);
    assert(lists_after_free(lists, start, end) == coalesce(lists, r - 4, i0));
}

/// Coalescing a block that shares no byte with `[s, e)`, in free lists none of
/// whose blocks does either, lists no block that does.
proof fn lemma_coalesce_avoids(lists: Seq<Set<usize>>, pool: int, k: int, i: usize, s: int, e: int)
    requires
        valid_lists(lists, pool),
        0 <= k < lists.len(),
        s < e,
        block_end(list_order(k), i as int) <= pool,
        unlisted_block(lists, k, i),
        disjoint_ranges(block_start(list_order(k), i as int), block_end(list_order(k), i as int), s, e),
        forall|l: int, j: usize| #[trigger] free_in(lists, l, j) ==> disjoint_ranges(
            block_start(list_order(l), j as int),
            block_end(list_order(l), j as int),
            s,
            e,
        ),
    ensures
        forall|l: int, j: usize| #[trigger] free_in(coalesce(lists, k, i), l, j) ==> disjoint_ranges(
            block_start(list_order(l), j as int),
            block_end(list_order(l), j as int),
            s,
            e,
        ),
    decreases lists.len() - k,
{
    if lists[k].contains(buddy(i)) {
        lemma_coalesce_merge(lists, pool, k, i);
        let next = lists.update(k, lists[k].remove(buddy(i)));
        lemma_parent(list_order(k), i as int);
        lemma_block_len(list_order(k), (i - i % 2) as int);
        lemma_block_len(list_order(k), (i - i % 2 + 1) as int);
        lemma_block_len(list_order(k), i as int);
        assert(list_order(k + 1) == list_order(k) + 1);
        assert(free_in(lists, k, buddy(i)));
        assert forall|l: int, j: usize| #[trigger] free_in(next, l, j) implies disjoint_ranges(
            block_start(list_order(l), j as int),
            block_end(list_order(l), j as int),
            s,
            e,
        ) by {
            assert(free_in(lists, l, j));
        }
        let e0 = i - i % 2;
        let b = buddy(i);
        assert((e0 == i && e0 + 1 == b) || (e0 == b && e0 + 1 == i));
        assert(disjoint_ranges(block_start(list_order(k), b as int), block_end(list_order(k), b as int), s, e));
        lemma_coalesce_avoids(next, pool, k + 1, (i / 2) as usize, s, e);
        assert(coalesce(lists, k, i) == coalesce(next, k + 1, (i / 2) as usize));
    } else {
        let after = lists.update(k, lists[k].insert(i));
        assert(coalesce(lists, k, i) == after);
        assert forall|l: int, j: usize| #[trigger] free_in(after, l, j) implies disjoint_ranges(
            block_start(list_order(l), j as int),
            block_end(list_order(l), j as int),
            s,
            e,
        ) by {
            if !(l == k && j == i) {
                assert(free_in(lists, l, j));
            }
        }
    }
}

/// The free bytes after allocating are exactly the free bytes before, less
/// the range handed out.
pub proof fn lemma_allocation_free_bytes(lists: Seq<Set<usize>>, pool: int, size: usize, x: int)
    requires
        valid_lists(lists, pool),
        allocation(lists, size) is Some,
    ensures
        ({
            let (start, end) = allocation(lists, size).unwrap();
            free_byte(lists_after_allocation(lists, size), x) <==> (free_byte(lists, x) && !(start
                <= x < end))
        }),
{
    let r = requested_order(size);
    let lo = r - 4;
    lemma_order_search(size, 4);
    lemma_free_undoes_allocate(lists, pool, size);
    lemma_first_nonempty(lists, lo);
    let o = first_nonempty(lists, lo);
    let y = lists[o].choose();
    assert(lists[o].contains(y)) by {
        if !lists[o].contains(y) {
            assert(lists[o] =~= Set::<usize>::empty());
        }
    }
    assert forall|z: usize| #[trigger] lists[o].contains(z) implies z <= pool by {
        assert(free_in(lists, o, z));
        lemma_pow2_pos(list_order(o));
        vstd::arithmetic::mul::lemma_mul_inequality(1, pow2(list_order(o)) as int, z + 1);
        vstd::arithmetic::mul::lemma_mul_is_commutative(1, z + 1);
        vstd::arithmetic::mul::lemma_mul_is_commutative(pow2(list_order(o)) as int, z + 1);
    }
    lemma_bounded_set_has_max(lists[o], pool, y);
    let m = set_max(lists[o]);
    assert(free_in(lists, o, m));
    lemma_allocated_range(lists, pool, lo, o, m);
    let (start, end) = allocation(lists, size).unwrap();
    let after = lists_after_allocation(lists, size);
    assert(after == allocated_lists(lists, lo, o, m));
    let s = block_start(list_order(o), m as int);
    if free_byte(after, x) {
        let (k, i) = choose|k: int, i: usize|
            #[trigger] free_in(after, k, i) && block_start(list_order(k), i as int) <= x < block_end(
                list_order(k),
                i as int,
            );
        if lo <= k < o && i == first_sub_index(o, m, k) + 1 {
            lemma_split_block(lists, pool, o, m, k);
            lemma_block_len(list_order(o), m as int);
            assert(free_byte(lists, x));
        } else {
            if lo <= k < o {
                lemma_split_block(lists, pool, o, m, k);
            }
            assert(free_in(lists, k, i));
        }
        assert(disjoint_ranges(
            block_start(list_order(k), i as int),
            block_end(list_order(k), i as int),
            start,
            end,
        ));
    }
    if free_byte(lists, x) && !(start <= x < end) {
        let (k, i) = choose|k: int, i: usize|
            #[trigger] free_in(lists, k, i) && block_start(list_order(k), i as int) <= x < block_end(
                list_order(k),
                i as int,
            );
        if k == o && i == m {
            lemma_block_len(list_order(o), m as int);
            let j = lemma_find_right_half(lists, pool, lo, o, m, o, x);
            lemma_split_block(lists, pool, o, m, j);
            assert(free_in(after, j, (first_sub_index(o, m, j) + 1) as usize));
        } else {
            if lo <= k < o {
                lemma_split_block(lists, pool, o, m, k);
            }
            assert(free_in(after, k, i));
        }
    }
}

/// A byte of block `m` of free list `o` past the first block of free list
/// `lo` within it lies within one of the right halves that splitting `m` down
/// to free list `lo` frees: the one of free list `j`, for some `j` below `h`.
proof fn lemma_find_right_half(
    lists: Seq<Set<usize>>,
    pool: int,
    lo: int,
    o: int,
    m: usize,
    h: int,
    x: int,
) -> (j: int)
    requires
        valid_lists(lists, pool),
        0 <= lo < h <= o < lists.len(),
        lists[o].contains(m),
        block_start(list_order(o), m as int) + pow2(list_order(lo)) <= x,
        x < block_start(list_order(o), m as int) + pow2(list_order(h)),
    ensures
        lo <= j < h,
        block_start(list_order(j), first_sub_index(o, m, j) + 1) <= x,
        x < block_end(list_order(j), first_sub_index(o, m, j) + 1),
    decreases h,
{
    let s = block_start(list_order(o), m as int);
    lemma_split_block(lists, pool, o, m, h - 1);
    assert(list_order(h - 1) + 1 == list_order(h));
    if x >= s + pow2(list_order(h - 1)) {
        h - 1
    } else {
        lemma_find_right_half(lists, pool, lo, o, m, h - 1, x)
    }
}

/// The free bytes after freeing a block in use are exactly the free bytes
/// before, together with the bytes of the block.
pub proof fn lemma_free_free_bytes(lists: Seq<Set<usize>>, pool: int, start: int, end: int, x: int)
    requires
        valid_lists(lists, pool),
        allocated_block(lists, pool, start, end),
    ensures
        free_byte(lists_after_free(lists, start, end), x) <==> (free_byte(lists, x) || (start <= x
            < end)),
{
    let len = end - start;
    lemma_pow2_bits();
    lemma_requested_order_of_block(len as usize);
    let r = requested_order(len as usize);
    let i0 = (start / len) as usize;
    lemma_pow2_pos(r);
    vstd::arithmetic::div_mod::lemma_fundamental_div_mod(start, len);
    vstd::arithmetic::div_mod::lemma_div_pos_is_pos(start, len);
    vstd::arithmetic::mul::lemma_mul_is_commutative(len, start / len);
    lemma_block_len(r, start / len);
    assert(start / len <= usize::MAX) by {
        vstd::arithmetic::div_mod::lemma_div_is_ordered_by_denominator(start, 1, len);
    }
    assert(r < lists.len() + 4) by {
        if r >= lists.len() + 4 {
            lemma_pow2_le((lists.len() + 4) as nat, r);
        }
    }
    assert(unlisted_block(lists, r - 4, i0)) by {
        assert forall|l: int, j: usize| #[trigger] free_in(lists, l, j) implies listed_blocks_disjoint(l, j, r - 4, i0) by {
            assert(list_order(r - 4) == r);
        }
    }
    assert(list_order(r - 4) == r);
    lemma_coalesce_free_bytes(lists, pool, r - 4, i0, x);
    assert(lists_after_free(lists, start, end) == coalesce(lists, r - 4, i0));
}

/// The free bytes after coalescing block `i` of free list `k` are the free
/// bytes before, together with the bytes of the block.
proof fn lemma_coalesce_free_bytes(lists: Seq<Set<usize>>, pool: int, k: int, i: usize, x: int)
    requires
        valid_lists(lists, pool),
        0 <= k < lists.len(),
        block_end(list_order(k), i as int) <= pool,
        unlisted_block(lists, k, i),
    ensures
        free_byte(coalesce(lists, k, i), x) <==> (free_byte(lists, x) || (block_start(
            list_order(k),
            i as int,
        ) <= x < block_end(list_order(k), i as int))),
    decreases lists.len() - k,
{
    lemma_block_len(list_order(k), i as int);
    if lists[k].contains(buddy(i)) {
        lemma_coalesce_merge(lists, pool, k, i);
        let next = lists.update(k, lists[k].remove(buddy(i)));
        let b = buddy(i);
        let e0 = i - i % 2;
        lemma_parent(list_order(k), i as int);
        lemma_block_len(list_order(k), e0 as int);
        lemma_block_len(list_order(k), (e0 + 1) as int);
        lemma_block_len(list_order(k), b as int);
        assert(list_order(k + 1) == list_order(k) + 1);
        assert((e0 == i && e0 + 1 == b) || (e0 == b && e0 + 1 == i));
        assert(free_in(lists, k, b));
        lemma_coalesce_free_bytes(next, pool, k + 1, (i / 2) as usize, x);
        assert(coalesce(lists, k, i) == coalesce(next, k + 1, (i / 2) as usize));
        if free_byte(next, x) {
            let (l, j) = choose|l: int, j: usize|
                #[trigger] free_in(next, l, j) && block_start(list_order(l), j as int) <= x < block_end(
                    list_order(l),
                    j as int,
                );
            assert(free_in(lists, l, j));
        }
        if free_byte(lists, x) {
            let (l, j) = choose|l: int, j: usize|
                #[trigger] free_in(lists, l, j) && block_start(list_order(l), j as int) <= x < block_end(
                    list_order(l),
                    j as int,
                );
            if !(l == k && j == b) {
                assert(free_in(next, l, j));
            }
        }
    } else {
        let after = lists.update(k, lists[k].insert(i));
        assert(coalesce(lists, k, i) == after);
        if free_byte(after, x) {
            let (l, j) = choose|l: int, j: usize|
                #[trigger] free_in(after, l, j) && block_start(list_order(l), j as int) <= x < block_end(
                    list_order(l),
                    j as int,
                );
            if !(l == k && j == i) {
                assert(free_in(lists, l, j));
            }
        }
        if free_byte(lists, x) {
            let (l, j) = choose|l: int, j: usize|
                #[trigger] free_in(lists, l, j) && block_start(list_order(l), j as int) <= x < block_end(
                    list_order(l),
                    j as int,
                );
            assert(free_in(after, l, j));
        }
        if block_start(list_order(k), i as int) <= x < block_end(list_order(k), i as int) {
            assert(free_in(after, k, i));
        }
    }
}


/// The free block an allocation takes: block `m` of free list `o`, the one
/// with the greatest index in the first non-empty free list whose order holds
/// the request.
proof fn lemma_taken_block(lists: Seq<Set<usize>>, pool: int, size: usize) -> (taken: (int, usize))
    requires
        valid_lists(lists, pool),
        allocation(lists, size) is Some,
    ensures
        taken.0 == first_nonempty(lists, requested_order(size) - 4),
        taken.1 == set_max(lists[taken.0]),
        4 <= requested_order(size),
        requested_order(size) - 4 <= taken.0 < lists.len(),
        lists[taken.0].contains(taken.1),
        forall|y: usize| #[trigger] lists[taken.0].contains(y) ==> y <= taken.1,
{
    let lo = requested_order(size) - 4;
    lemma_order_search(size, 4);
    lemma_first_nonempty(lists, lo);
    let o = first_nonempty(lists, lo);
    let x = lists[o].choose();
    assert(lists[o].contains(x)) by {
        if !lists[o].contains(x) {
            assert(lists[o] =~= Set::<usize>::empty());
        }
    }
    assert forall|y: usize| #[trigger] lists[o].contains(y) implies y <= pool by {
        assert(free_in(lists, o, y));
        lemma_pow2_pos(list_order(o));
        vstd::arithmetic::mul::lemma_mul_inequality(1, pow2(list_order(o)) as int, y + 1);
        vstd::arithmetic::mul::lemma_mul_is_commutative(1, y + 1);
        vstd::arithmetic::mul::lemma_mul_is_commutative(pow2(list_order(o)) as int, y + 1);
    }
    lemma_bounded_set_has_max(lists[o], pool, x);
    (o, set_max(lists[o]))
}

/// The ranges that splitting the block at `start` of order `big` down to order
/// `small` frees: the second block of each order from `small` below `big`.
pub open spec fn split_halves(start: int, small: nat, big: nat) -> Set<(int, int)> {
    Set::new(|q: (int, int)| exists|j: nat| small <= j < big && q == (start + pow2(j), start + #[trigger] pow2(j + 1)))
}

/// Allocation seen through the byte ranges of the free blocks: it takes the
/// free range with the greatest start among those of the smallest length no
/// smaller than the requested block, hands out its first block of the
/// requested order, and frees the second block of each order in between.
pub proof fn lemma_allocation_ranges(lists: Seq<Set<usize>>, pool: int, size: usize)
    requires
        valid_lists(lists, pool),
        allocation(lists, size) is Some,
    ensures
        ({
            let (start, end) = allocation(lists, size).unwrap();
            let r = requested_order(size);
            exists|big: nat|
                {
                    &&& r <= big
                    &&& end == start + pow2(r)
                    &&& free_ranges_of(lists).contains((start, start + pow2(big)))
                    &&& forall|q: (int, int)| #[trigger] free_ranges_of(lists).contains(q) && q.1 - q.0 >= pow2(r)
                        ==> q.1 - q.0 >= pow2(big)
                    &&& forall|q: (int, int)| #[trigger] free_ranges_of(lists).contains(q) && q.1 - q.0 == pow2(big)
                        ==> q.0 <= start
                    &&& free_ranges_of(lists_after_allocation(lists, size)) == free_ranges_of(lists).remove(
                        (start, start + pow2(big)),
                    ).union(split_halves(start, r, big))
                }
        }),
{
    let (o, m) = lemma_taken_block(lists, pool, size);
    let r = requested_order(size);
    let lo = r - 4;
    let big = list_order(o);
    let (start, end) = allocation(lists, size).unwrap();
    let after = lists_after_allocation(lists, size);
    assert(after == allocated_lists(lists, lo, o, m));
    assert(free_in(lists, o, m));
    lemma_block_len(big, m as int);
    assert(start == block_start(big, m as int));
    let taken = (start, start + pow2(big));
    assert(taken == listed_block(o, m));
    assert(free_ranges_of(lists).contains(taken));
    lemma_pow2_le(r, big);
    assert forall|q: (int, int)| #[trigger] free_ranges_of(lists).contains(q) && q.1 - q.0 >= pow2(r) implies q.1
        - q.0 >= pow2(big) by {
        let (k, i) = choose|k: int, i: usize| #[trigger] free_in(lists, k, i) && q == listed_block(k, i);
        lemma_block_len(list_order(k), i as int);
        if list_order(k) < r {
            lemma_pow2_strictly_increases(list_order(k), r);
        }
        lemma_first_nonempty_least(lists, lo, k);
        lemma_pow2_le(big, list_order(k));
    }
    assert forall|q: (int, int)| #[trigger] free_ranges_of(lists).contains(q) && q.1 - q.0 == pow2(big) implies q.0
        <= start by {
        let (k, i) = choose|k: int, i: usize| #[trigger] free_in(lists, k, i) && q == listed_block(k, i);
        lemma_block_len(list_order(k), i as int);
        if k < o {
            lemma_pow2_strictly_increases(list_order(k), big);
        } else if k > o {
            lemma_pow2_strictly_increases(big, list_order(k));
        }
        assert(i <= m);
        vstd::arithmetic::mul::lemma_mul_inequality(i as int, m as int, pow2(big) as int);
    }
    let expected = free_ranges_of(lists).remove(taken).union(split_halves(start, r, big));
    assert forall|q: (int, int)| #[trigger] free_ranges_of(after).contains(q) implies expected.contains(q) by {
        let (k, i) = choose|k: int, i: usize| #[trigger] free_in(after, k, i) && q == listed_block(k, i);
        if lo <= k < o && i == first_sub_index(o, m, k) + 1 {
            lemma_split_block(lists, pool, o, m, k);
            let j = list_order(k);
            assert(lo <= k);
            assert(split_halves(start, r, big).contains(q)) by {
                assert(r <= j < big && q == (start + pow2(j), start + pow2(j + 1)));
            }
        } else {
            if lo <= k < o {
                lemma_split_block(lists, pool, o, m, k);
            }
            assert(free_in(lists, k, i));
            assert(free_ranges_of(lists).contains(q));
            if q == taken {
                lemma_listed_block_injective(k, i, o, m);
            }
        }
    }
    assert forall|q: (int, int)| #[trigger] expected.contains(q) implies free_ranges_of(after).contains(q) by {
        if split_halves(start, r, big).contains(q) {
            let j = choose|j: nat| r <= j < big && q == (start + pow2(j), start + #[trigger] pow2(j + 1));
            let k = j - 4;
            lemma_split_block(lists, pool, o, m, k);
            assert(list_order(k) == j);
            let f = first_sub_index(o, m, k);
            assert(free_in(after, k, (f + 1) as usize));
            assert(q == listed_block(k, (f + 1) as usize));
        } else {
            let (k, i) = choose|k: int, i: usize| #[trigger] free_in(lists, k, i) && q == listed_block(k, i);
            assert(!(k == o && i == m));
            assert(free_in(after, k, i));
        }
    }
    assert(free_ranges_of(after) =~= expected);
}


/// Freeing seen through the byte ranges of the free blocks: the freed block
/// and its free buddies, merged as far as they go, make one free range `c`
/// holding the freed block; every free range within `c` leaves the free
/// ranges, and `c` joins them.
pub proof fn lemma_free_ranges(lists: Seq<Set<usize>>, pool: int, start: int, end: int)
    requires
        valid_lists(lists, pool),
        allocated_block(lists, pool, start, end),
    ensures
        exists|c: (int, int)|
            {
                &&& #[trigger] range_within((start, end), c)
                &&& free_ranges_of(lists_after_free(lists, start, end)) == free_ranges_of(lists).filter(
                    |q: (int, int)| !range_within(q, c),
                ).insert(c)
            },
{
    let len = end - start;
    lemma_pow2_bits();
    lemma_requested_order_of_block(len as usize);
    let r = requested_order(len as usize);
    let i0 = (start / len) as usize;
    lemma_pow2_pos(r);
    vstd::arithmetic::div_mod::lemma_fundamental_div_mod(start, len);
    vstd::arithmetic::div_mod::lemma_div_pos_is_pos(start, len);
    vstd::arithmetic::mul::lemma_mul_is_commutative(len, start / len);
    lemma_block_len(r, start / len);
    assert(start / len <= usize::MAX) by {
        vstd::arithmetic::div_mod::lemma_div_is_ordered_by_denominator(start, 1, len);
    }
    assert(r < lists.len() + 4) by {
        if r >= lists.len() + 4 {
            lemma_pow2_le((lists.len() + 4) as nat, r);
        }
    }
    assert(list_order(r - 4) == r);
    assert(unlisted_block(lists, r - 4, i0)) by {
        assert forall|l: int, j: usize| #[trigger] free_in(lists, l, j) implies listed_blocks_disjoint(l, j, r - 4, i0) by {}
    }
    lemma_coalesce_ranges(lists, pool, r - 4, i0);
    assert(lists_after_free(lists, start, end) == coalesce(lists, r - 4, i0));
}

/// Coalescing block `i` of free list `k` replaces the free ranges within some
/// range `c` holding the block by `c` itself.
proof fn lemma_coalesce_ranges(lists: Seq<Set<usize>>, pool: int, k: int, i: usize)
    requires
        valid_lists(lists, pool),
        0 <= k < lists.len(),
        block_end(list_order(k), i as int) <= pool,
        unlisted_block(lists, k, i),
    ensures
        exists|c: (int, int)|
            {
                &&& #[trigger] range_within(listed_block(k, i), c)
                &&& free_ranges_of(coalesce(lists, k, i)) == free_ranges_of(lists).filter(
                    |q: (int, int)| !range_within(q, c),
                ).insert(c)
            },
    decreases lists.len() - k,
{
    lemma_block_len(list_order(k), i as int);
    if lists[k].contains(buddy(i)) {
        lemma_coalesce_merge(lists, pool, k, i);
        let next = lists.update(k, lists[k].remove(buddy(i)));
        let b = buddy(i);
        let e0 = i - i % 2;
        lemma_parent(list_order(k), i as int);
        lemma_block_len(list_order(k), e0 as int);
        lemma_block_len(list_order(k), (e0 + 1) as int);
        lemma_block_len(list_order(k), b as int);
        assert(list_order(k + 1) == list_order(k) + 1);
        assert((e0 == i && e0 + 1 == b) || (e0 == b && e0 + 1 == i));
        lemma_coalesce_ranges(next, pool, k + 1, (i / 2) as usize);
        assert(coalesce(lists, k, i) == coalesce(next, k + 1, (i / 2) as usize));
        let c = choose|c: (int, int)|
            {
                &&& #[trigger] range_within(listed_block(k + 1, (i / 2) as usize), c)
                &&& free_ranges_of(coalesce(next, k + 1, (i / 2) as usize)) == free_ranges_of(next).filter(
                    |q: (int, int)| !range_within(q, c),
                ).insert(c)
            };
        let bq = listed_block(k, b);
        assert(range_within(bq, c));
        assert(free_in(lists, k, b));
        assert forall|q: (int, int)| #[trigger] free_ranges_of(next).contains(q) <==> (free_ranges_of(
            lists,
        ).contains(q) && q != bq) by {
            if free_ranges_of(next).contains(q) {
                let (l, j) = choose|l: int, j: usize| #[trigger] free_in(next, l, j) && q == listed_block(l, j);
                assert(free_in(lists, l, j));
                if q == bq {
                    lemma_listed_block_injective(l, j, k, b);
                }
            }
            if free_ranges_of(lists).contains(q) && q != bq {
                let (l, j) = choose|l: int, j: usize| #[trigger] free_in(lists, l, j) && q == listed_block(l, j);
                assert(free_in(next, l, j));
            }
        }
        assert(free_ranges_of(next).filter(|q: (int, int)| !range_within(q, c)) =~= free_ranges_of(
            lists,
        ).filter(|q: (int, int)| !range_within(q, c)));
        assert(range_within(listed_block(k, i), c));
    } else {
        let after = lists.update(k, lists[k].insert(i));
        assert(coalesce(lists, k, i) == after);
        let c = listed_block(k, i);
        assert forall|q: (int, int)| #[trigger] free_ranges_of(lists).contains(q) implies !range_within(q, c) by {
            let (l, j) = choose|l: int, j: usize| #[trigger] free_in(lists, l, j) && q == listed_block(l, j);
            assert(listed_blocks_disjoint(l, j, k, i));
            lemma_block_len(list_order(l), j as int);
        }
        let expected = free_ranges_of(lists).filter(|q: (int, int)| !range_within(q, c)).insert(c);
        assert forall|q: (int, int)| #[trigger] free_ranges_of(after).contains(q) <==> expected.contains(q) by {
            if free_ranges_of(after).contains(q) {
                let (l, j) = choose|l: int, j: usize| #[trigger] free_in(after, l, j) && q == listed_block(l, j);
                if !(l == k && j == i) {
                    assert(free_in(lists, l, j));
                }
            }
            if expected.contains(q) {
                if q == c {
                    assert(free_in(after, k, i));
                } else {
                    let (l, j) = choose|l: int, j: usize| #[trigger] free_in(lists, l, j) && q == listed_block(l, j);
                    assert(free_in(after, l, j));
                }
            }
        }
        assert(free_ranges_of(after) =~= expected);
        assert(range_within(listed_block(k, i), c));
    }
}


/// The requested order is the order of the smallest block that holds the
/// request: it is at least the smallest order, a block of that order holds
/// `size` bytes, and so does no block of a smaller order from the smallest on.
pub proof fn lemma_requested_order_least(size: usize)
    ensures
        4 <= requested_order(size) <= 64,
        size <= pow2(requested_order(size)),
        forall|q: nat| 4 <= q && size <= #[trigger] pow2(q) ==> requested_order(size) <= q,
{
    let r = requested_order(size);
    lemma_order_search(size, 4);
    if r >= 64 {
        lemma_pow2_bits();
        lemma_pow2_le(usize::BITS as nat, r);
    }
    assert forall|q: nat| 4 <= q && size <= #[trigger] pow2(q) implies r <= q by {
        if q < r {
            assert(pow2(q) < size);
        }
    }
}

/// What allocating `size` bytes hands out fits the request tightly: a block,
/// no smaller than the request, and no larger than any block of an order from
/// the smallest on that holds the request.
pub proof fn lemma_allocation_fits_request(lists: Seq<Set<usize>>, size: usize)
    requires
        allocation(lists, size) is Some,
    ensures
        ({
            let (start, end) = allocation(lists, size).unwrap();
            &&& size <= end - start
            &&& SMALLEST_SIZE <= end - start
            &&& is_block_len(end - start)
            &&& start % (end - start) == 0
            &&& forall|q: nat| 4 <= q && size <= #[trigger] pow2(q) ==> end - start <= pow2(q)
        }),
{
    let r = requested_order(size);
    lemma_requested_order_least(size);
    let (start, end) = allocation(lists, size).unwrap();
    assert(end - start == pow2(r));
    lemma_pow2_le(4, r);
    lemma2_to64();
    assert(is_block_len(end - start));
    let o = first_nonempty(lists, r - 4);
    let m = set_max(lists[o]);
    lemma_first_nonempty(lists, r - 4);
    assert(start == m * pow2(list_order(o)));
    let d = (list_order(o) - r) as nat;
    lemma_pow2_adds(r, d);
    assert(pow2(list_order(o)) == pow2(r) * pow2(d));
    vstd::arithmetic::mul::lemma_mul_is_associative(m as int, pow2(d) as int, pow2(r) as int);
    vstd::arithmetic::mul::lemma_mul_is_commutative(pow2(r) as int, pow2(d) as int);
    vstd::arithmetic::div_mod::lemma_mod_multiples_basic(m * pow2(d), pow2(r) as int);
    assert forall|q: nat| 4 <= q && size <= #[trigger] pow2(q) implies end - start <= pow2(q) by {
        lemma_pow2_le(r, q);
    }
}

/// Allocating succeeds exactly when some free block holds the request: it
/// fails only when every free block is smaller than `size` bytes.
pub proof fn lemma_allocation_succeeds_when_room(lists: Seq<Set<usize>>, size: usize)
    ensures
        allocation(lists, size) is Some <==> exists|k: int, i: usize|
            #[trigger] free_in(lists, k, i) && size <= pow2(list_order(k)),
{
    let r = requested_order(size);
    let lo = r - 4;
    lemma_requested_order_least(size);
    lemma_first_nonempty(lists, lo);
    let o = first_nonempty(lists, lo);
    if allocation(lists, size) is Some {
        let i = lists[o].choose();
        assert(lists[o].contains(i)) by {
            if !lists[o].contains(i) {
                assert(lists[o] =~= Set::<usize>::empty());
            }
        }
        lemma_pow2_le(r, list_order(o));
        assert(free_in(lists, o, i) && size <= pow2(list_order(o)));
    }
    if exists|k: int, i: usize| #[trigger] free_in(lists, k, i) && size <= pow2(list_order(k)) {
        let (k, i) = choose|k: int, i: usize| #[trigger] free_in(lists, k, i) && size <= pow2(list_order(k));
        assert(r <= list_order(k));
        assert(!lists[k].is_empty()) by {
            assert(lists[k].contains(i));
        }
        lemma_first_nonempty_least(lists, lo, k);
    }
}

/// A failed allocation leaves the free lists as they were.
pub proof fn lemma_failed_allocation_changes_nothing(lists: Seq<Set<usize>>, size: usize)
    requires
        allocation(lists, size) is None,
    ensures
        lists_after_allocation(lists, size) == lists,
        forall|x: int| #[trigger] free_byte(lists_after_allocation(lists, size), x) <==> free_byte(lists, x),
{
}

} // verus!
