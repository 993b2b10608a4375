//! The mathematical model of a binary buddy allocator's free lists.
//!
//! A block of order `o` and index `i` covers the bytes `[i * 2^o, (i + 1) * 2^o)`.
//! Free list `k` holds the indices of the free blocks of order
//! `SMALLEST_ORDER + k`.

use vstd::arithmetic::div_mod::*;
use vstd::arithmetic::mul::*;
use vstd::arithmetic::power2::*;
use vstd::prelude::*;

verus! {

/// The offset of the first byte of block `index` of order `order`.
pub open spec fn block_start(order: nat, index: int) -> int {
    index * pow2(order)
}

/// The offset one past the last byte of block `index` of order `order`.
pub open spec fn block_end(order: nat, index: int) -> int {
    (index + 1) * pow2(order)
}

/// The order of the blocks in free list `k`.
pub open spec fn list_order(k: int) -> nat {
    (k + 4) as nat
}

/// The index of the other half of the pair that block `i` belongs to.
pub open spec fn buddy(i: usize) -> usize {
    if i % 2 == 0 {
        (i + 1) as usize
    } else {
        (i - 1) as usize
    }
}

/// Whether free list `k` exists and holds `i`.
pub open spec fn free_in(lists: Seq<Set<usize>>, k: int, i: usize) -> bool {
    0 <= k < lists.len() && lists[k].contains(i)
}

/// Whether the ranges `[a0, a1)` and `[b0, b1)` share no element.
pub open spec fn disjoint_ranges(a0: int, a1: int, b0: int, b1: int) -> bool {
    a1 <= b0 || b1 <= a0
}

/// Whether block `i` of free list `k` and block `j` of free list `l` share no byte.
pub open spec fn listed_blocks_disjoint(k: int, i: usize, l: int, j: usize) -> bool {
    disjoint_ranges(
        block_start(list_order(k), i as int),
        block_end(list_order(k), i as int),
        block_start(list_order(l), j as int),
        block_end(list_order(l), j as int),
    )
}

/// Every free block lies within the first `pool` bytes.
pub open spec fn lists_within(lists: Seq<Set<usize>>, pool: int) -> bool {
    forall|k: int, i: usize| #[trigger]
        free_in(lists, k, i) ==> block_end(list_order(k), i as int) <= pool
}

/// No two free blocks share a byte.
pub open spec fn lists_disjoint(lists: Seq<Set<usize>>) -> bool {
    forall|k: int, i: usize, l: int, j: usize|
        #[trigger] free_in(lists, k, i) && #[trigger] free_in(lists, l, j) && (k != l || i != j)
            ==> listed_blocks_disjoint(k, i, l, j)
}

/// No free block has its buddy free as well: free blocks are fully coalesced.
pub open spec fn lists_coalesced(lists: Seq<Set<usize>>) -> bool {
    forall|k: int, i: usize| #[trigger] free_in(lists, k, i) ==> !lists[k].contains(buddy(i))
}

/// Whether byte `x` lies within a free block.
pub open spec fn free_byte(lists: Seq<Set<usize>>, x: int) -> bool {
    exists|k: int, i: usize|
        #[trigger] free_in(lists, k, i) && block_start(list_order(k), i as int) <= x < block_end(
            list_order(k),
            i as int,
        )
}

/// `n` free lists cover exactly the orders of the blocks a pool of `pool`
/// bytes can hold.
pub open spec fn orders_fit(n: int, pool: int) -> bool {
    n >= 1 && pow2((n + 3) as nat) <= pool < pow2((n + 4) as nat)
}

/// The free lists of a pool of `pool` bytes are consistent.
pub open spec fn valid_lists(lists: Seq<Set<usize>>, pool: int) -> bool {
    &&& 16 <= pool <= usize::MAX
    &&& orders_fit(lists.len() as int, pool)
    &&& lists_within(lists, pool)
    &&& lists_disjoint(lists)
    &&& lists_coalesced(lists)
}

/// `pow2` is monotonic.
pub(crate) proof fn lemma_pow2_le(a: nat, b: nat)
    requires
        a <= b,
    ensures
        pow2(a) <= pow2(b),
{
    if a < b {
        lemma_pow2_strictly_increases(a, b);
    }
}

/// A block is `2^order` bytes long.
pub(crate) proof fn lemma_block_len(order: nat, index: int)
    ensures
        block_end(order, index) == block_start(order, index) + pow2(order),
        pow2(order) > 0,
{
    lemma_pow2_pos(order);
    lemma_mul_is_distributive_add_other_way(pow2(order) as int, index, 1);
}

/// The block of order `order + 1` holding block `index` of order `order` is
/// the union of that block and its buddy.
pub(crate) proof fn lemma_parent(order: nat, index: int)
    requires
        index >= 0,
    ensures
        block_start(order + 1, index / 2) == block_start(order, index - index % 2),
        block_end(order + 1, index / 2) == block_end(order, index - index % 2 + 1),
        block_end(order, index - index % 2) == block_start(order, index - index % 2 + 1),
{
    let p = pow2(order) as int;
    lemma_pow2_unfold(order + 1);
    assert(pow2(order + 1) == 2 * p);
    let e = index - index % 2;
    assert(index / 2 * 2 == e);
    lemma_mul_is_associative(index / 2, 2, p);
    lemma_mul_is_distributive_add_other_way(p, index / 2, 1);
    lemma_mul_is_distributive_add_other_way(p, e, 1);
    lemma_mul_is_distributive_add_other_way(p, e, 2);
    lemma_mul_is_associative(index / 2 + 1, 2, p);
}

/// The right half of the left quarter of ... of block `m` of order `o`: the
/// block of order `o - d` just after the first one in `m`.
pub(crate) proof fn lemma_sub_block(o: nat, m: int, d: nat)
    requires
        1 <= d <= o,
    ensures
        block_start((o - d) as nat, m * pow2(d)) == block_start(o, m),
        block_start((o - d) as nat, m * pow2(d) + 1) == block_start(o, m) + pow2((o - d) as nat),
        block_end((o - d) as nat, m * pow2(d) + 1) == block_start(o, m) + pow2((o - d + 1) as nat),
        pow2((o - d + 1) as nat) <= pow2(o),
{
    let k = (o - d) as nat;
    lemma_pow2_adds(d, k);
    assert(pow2(o) == pow2(d) * pow2(k));
    lemma_mul_is_associative(m, pow2(d) as int, pow2(k) as int);
    lemma_mul_is_distributive_add_other_way(pow2(k) as int, m * pow2(d), 1);
    lemma_mul_is_distributive_add_other_way(pow2(k) as int, m * pow2(d), 2);
    lemma_pow2_unfold(k + 1);
    lemma_pow2_le(k + 1, o);
}


/// The index of the first non-empty free list at position `k` or later, or
/// the number of lists when there is none.
pub open spec fn first_nonempty(lists: Seq<Set<usize>>, k: int) -> int
    decreases lists.len() - k,
{
    if k >= lists.len() {
        lists.len() as int
    } else if !lists[k].is_empty() {
        k
    } else {
        first_nonempty(lists, k + 1)
    }
}

/// The greatest element of a non-empty set.
pub open spec fn set_max(s: Set<usize>) -> usize {
    choose|m: usize| s.contains(m) && forall|x: usize| #[trigger] s.contains(x) ==> x <= m
}

/// The index, at the order of free list `k`, of the first block inside block
/// `m` of free list `o`.
pub open spec fn first_sub_index(o: int, m: usize, k: int) -> int {
    m * pow2((o - k) as nat)
}

/// The free lists after taking block `m` from free list `o`, and splitting it
/// down to the order of free list `lo`: each split frees the right half, which
/// is the second block inside `m` at each order from `lo` up to `o`.
pub open spec fn allocated_lists(lists: Seq<Set<usize>>, lo: int, o: int, m: usize) -> Seq<
    Set<usize>,
> {
    Seq::new(
        lists.len(),
        |k: int|
            if k == o {
                lists[k].remove(m)
            } else if lo <= k < o {
                lists[k].insert((first_sub_index(o, m, k) + 1) as usize)
            } else {
                lists[k]
            },
    )
}

/// The free lists after returning block `i` of free list `k`: while its buddy
/// is free, the two are merged into the block of the next order.
pub open spec fn coalesce(lists: Seq<Set<usize>>, k: int, i: usize) -> Seq<Set<usize>>
    decreases lists.len() - k,
{
    if k < 0 || k >= lists.len() {
        lists
    } else if lists[k].contains(buddy(i)) {
        coalesce(lists.update(k, lists[k].remove(buddy(i))), k + 1, i / 2)
    } else {
        lists.update(k, lists[k].insert(i))
    }
}

/// The largest element of a set is the `set_max`.
pub(crate) proof fn lemma_set_max(s: Set<usize>, m: usize)
    requires
        s.contains(m),
        forall|x: usize| #[trigger] s.contains(x) ==> x <= m,
    ensures
        set_max(s) == m,
{
    let c = set_max(s);
    assert(s.contains(c) && forall|x: usize| #[trigger] s.contains(x) ==> x <= c);
}

/// A listed block nested inside another listed block of a higher order is not
/// free, for free blocks do not overlap.
pub(crate) proof fn lemma_inside_not_free(lists: Seq<Set<usize>>, pool: int, o: int, m: usize, k: int, j: usize)
    requires
        valid_lists(lists, pool),
        free_in(lists, o, m),
        0 <= k < o,
        block_start(list_order(o), m as int) <= block_start(list_order(k), j as int),
        block_end(list_order(k), j as int) <= block_end(list_order(o), m as int),
    ensures
        !lists[k].contains(j),
{
    lemma_block_len(list_order(k), j as int);
    if lists[k].contains(j) {
        assert(free_in(lists, k, j));
        assert(listed_blocks_disjoint(k, j, o, m));
    }
}

/// `pow2(d)` is even when `d` is positive, so `m * pow2(d)` is even.
pub(crate) proof fn lemma_even_multiple(m: int, d: nat)
    requires
        d >= 1,
        m >= 0,
    ensures
        (m * pow2(d)) % 2 == 0,
        m * pow2(d) >= 0,
{
    lemma_pow2_unfold(d);
    lemma_pow2_pos(d);
    lemma_mul_is_associative(m, 2, pow2((d - 1) as nat) as int);
    lemma_mul_is_commutative(m, 2);
    lemma_mul_is_associative(2, m, pow2((d - 1) as nat) as int);
    lemma_mul_nonnegative(m, pow2(d) as int);
    lemma_mod_multiples_basic(m * pow2((d - 1) as nat), 2);
    lemma_mul_is_commutative(m * pow2((d - 1) as nat), 2);
}

/// Facts about the blocks that splitting block `m` of free list `o` frees.
pub(crate) proof fn lemma_split_block(lists: Seq<Set<usize>>, pool: int, o: int, m: usize, k: int)
    requires
        valid_lists(lists, pool),
        free_in(lists, o, m),
        0 <= k < o,
    ensures
        ({
            let s = block_start(list_order(o), m as int);
            let f = first_sub_index(o, m, k);
            &&& 0 <= f
            &&& f % 2 == 0
            &&& f + 1 <= usize::MAX
            &&& block_start(list_order(k), f) == s
            &&& block_start(list_order(k), f + 1) == s + pow2(list_order(k))
            &&& block_end(list_order(k), f + 1) == s + pow2((list_order(k) + 1) as nat)
            &&& s + pow2((list_order(k) + 1) as nat) <= block_end(list_order(o), m as int)
            &&& block_end(list_order(o), m as int) <= pool
            &&& !lists[k].contains(f as usize)
            &&& !lists[k].contains((f + 1) as usize)
        }),
{
    let d = (o - k) as nat;
    let s = block_start(list_order(o), m as int);
    let f = first_sub_index(o, m, k);
    lemma_sub_block(list_order(o), m as int, d);
    assert((list_order(o) - d) as nat == list_order(k));
    lemma_even_multiple(m as int, d);
    lemma_block_len(list_order(o), m as int);
    lemma_block_len(list_order(k), f);
    lemma_block_len(list_order(k), f + 1);
    assert(free_in(lists, o, m));
    assert(block_end(list_order(o), m as int) <= pool);
    lemma_pow2_pos(list_order(k));
    lemma_pow2_le(0, list_order(k));
    lemma_mul_nonnegative(f, pow2(list_order(k)) as int);
    assert(f + 1 <= usize::MAX) by {
        lemma_pow2_le(0, list_order(k));
        lemma_mul_inequality(f + 1, (f + 1) * 1, 1);
        lemma_mul_inequality(1, pow2(list_order(k)) as int, f + 1);
        lemma_mul_is_commutative(f + 1, pow2(list_order(k)) as int);
    }
    lemma_inside_not_free(lists, pool, o, m, k, f as usize);
    lemma_inside_not_free(lists, pool, o, m, k, (f + 1) as usize);
}


/// Taking a free block and splitting it keeps the free lists consistent.
pub(crate) proof fn lemma_allocated_valid(lists: Seq<Set<usize>>, pool: int, lo: int, o: int, m: usize)
    requires
        valid_lists(lists, pool),
        0 <= lo <= o < lists.len(),
        lists[o].contains(m),
    ensures
        valid_lists(allocated_lists(lists, lo, o, m), pool),
{
    let a = allocated_lists(lists, lo, o, m);
    let s = block_start(list_order(o), m as int);
    assert(free_in(lists, o, m));
    lemma_block_len(list_order(o), m as int);
    // Every block listed in `a` is either an old one other than `m`, or one
    // of the freed right halves.
    assert forall|k: int, i: usize| #[trigger] free_in(a, k, i) implies (free_in(lists, k, i) && !(k
        == o && i == m)) || (lo <= k < o && i == first_sub_index(o, m, k) + 1) by {
        if lo <= k < o {
            lemma_split_block(lists, pool, o, m, k);
        }
    }
    assert forall|k: int, i: usize| #[trigger] free_in(a, k, i) implies block_end(list_order(k), i as int)
        <= pool by {
        if lo <= k < o && i == first_sub_index(o, m, k) + 1 {
            lemma_split_block(lists, pool, o, m, k);
        } else {
            assert(free_in(lists, k, i));
        }
    }
    assert forall|k: int, i: usize, l: int, j: usize|
        #[trigger] free_in(a, k, i) && #[trigger] free_in(a, l, j) && (k != l || i != j)
            implies listed_blocks_disjoint(k, i, l, j) by {
        let new_i = lo <= k < o && i == first_sub_index(o, m, k) + 1;
        let new_j = lo <= l < o && j == first_sub_index(o, m, l) + 1;
        if new_i && new_j {
            lemma_split_block(lists, pool, o, m, k);
            lemma_split_block(lists, pool, o, m, l);
            if k < l {
                lemma_pow2_le(list_order(k) + 1, list_order(l));
            } else {
                lemma_pow2_le(list_order(l) + 1, list_order(k));
            }
        } else if new_i {
            lemma_split_block(lists, pool, o, m, k);
            assert(free_in(lists, l, j));
            assert(listed_blocks_disjoint(l, j, o, m));
        } else if new_j {
            lemma_split_block(lists, pool, o, m, l);
            assert(free_in(lists, k, i));
            assert(listed_blocks_disjoint(k, i, o, m));
        } else {
            assert(free_in(lists, k, i) && free_in(lists, l, j));
        }
    }
    assert forall|k: int, i: usize| #[trigger] free_in(a, k, i) implies !a[k].contains(buddy(i)) by {
        if lo <= k < o {
            lemma_split_block(lists, pool, o, m, k);
            let f = first_sub_index(o, m, k);
            if i == f + 1 {
                assert(buddy(i) == f);
            } else {
                assert(free_in(lists, k, i));
                if buddy(i) == f + 1 {
                    assert(i == f);
                }
            }
        } else {
            assert(free_in(lists, k, i));
        }
    }
}


/// Doubling the index of the first block inside `m` at one order gives the
/// index of the first block inside `m` at the order below.
pub(crate) proof fn lemma_double_sub_index(o: int, m: usize, k: int)
    requires
        0 <= k < o,
    ensures
        first_sub_index(o, m, k) == first_sub_index(o, m, k + 1) * 2,
{
    let d = (o - k) as nat;
    lemma_pow2_unfold(d);
    assert((o - (k + 1)) as nat == (d - 1) as nat);
    lemma_mul_is_associative(m as int, 2, pow2((d - 1) as nat) as int);
    lemma_mul_is_commutative(m as int, 2);
    lemma_mul_is_associative(2, m as int, pow2((d - 1) as nat) as int);
    lemma_mul_is_commutative(2, m * pow2((d - 1) as nat));
}

/// The block that splitting block `m` of free list `o` down to free list `lo`
/// hands out starts where `m` does, is `2^(lo + 4)` bytes long, and lies
/// within the pool.
pub(crate) proof fn lemma_allocated_range(lists: Seq<Set<usize>>, pool: int, lo: int, o: int, m: usize)
    requires
        valid_lists(lists, pool),
        0 <= lo <= o < lists.len(),
        lists[o].contains(m),
    ensures
        ({
            let f = first_sub_index(o, m, lo);
            &&& 0 <= f
            &&& block_start(list_order(lo), f) == block_start(list_order(o), m as int)
            &&& block_end(list_order(lo), f) == block_start(list_order(o), m as int) + pow2(list_order(lo))
            &&& block_end(list_order(lo), f) <= block_end(list_order(o), m as int)
            &&& block_end(list_order(o), m as int) <= pool
            &&& f + 1 <= block_end(list_order(lo), f)
        }),
{
    let f = first_sub_index(o, m, lo);
    lemma_pow2_pos(list_order(lo));
    lemma_mul_inequality(1, pow2(list_order(lo)) as int, f + 1);
    lemma_mul_is_commutative(1, f + 1);
    lemma_mul_is_commutative(pow2(list_order(lo)) as int, f + 1);
    assert(free_in(lists, o, m));
    lemma_block_len(list_order(lo), f);
    lemma_block_len(list_order(o), m as int);
    if lo < o {
        lemma_split_block(lists, pool, o, m, lo);
        lemma_pow2_unfold(list_order(lo) + 1);
    } else {
        lemma_first_sub_index_self(o, m);
    }
}

/// The first block inside `m` at the order of `m` itself is `m`.
pub(crate) proof fn lemma_first_sub_index_self(o: int, m: usize)
    ensures
        first_sub_index(o, m, o) == m,
{
    assert((o - o) as nat == 0nat);
    lemma2_to64();
    assert(pow2(0nat) == 1);
    lemma_mul_basics(m as int);
}

/// The first non-empty free list from `k` on is at `k` or later, and it is
/// indeed non-empty.
pub(crate) proof fn lemma_first_nonempty(lists: Seq<Set<usize>>, k: int)
    requires
        0 <= k,
    ensures
        k <= first_nonempty(lists, k) <= lists.len() || (k > lists.len() && first_nonempty(lists, k) == lists.len()),
        first_nonempty(lists, k) < lists.len() ==> !lists[first_nonempty(lists, k)].is_empty(),
    decreases lists.len() - k,
{
    if k < lists.len() && lists[k].is_empty() {
        lemma_first_nonempty(lists, k + 1);
    }
}


/// Whether block `i` of free list `k` shares no byte with any free block.
pub open spec fn unlisted_block(lists: Seq<Set<usize>>, k: int, i: usize) -> bool {
    forall|l: int, j: usize| #[trigger]
        free_in(lists, l, j) ==> listed_blocks_disjoint(l, j, k, i)
}

/// Returning block `i` of free list `k` while its buddy is not free keeps the
/// free lists consistent.
pub(crate) proof fn lemma_coalesce_insert(lists: Seq<Set<usize>>, pool: int, k: int, i: usize)
    requires
        valid_lists(lists, pool),
        0 <= k < lists.len(),
        block_end(list_order(k), i as int) <= pool,
        unlisted_block(lists, k, i),
        !lists[k].contains(buddy(i)),
    ensures
        valid_lists(lists.update(k, lists[k].insert(i)), pool),
{
    let next = lists.update(k, lists[k].insert(i));
    lemma_block_len(list_order(k), i as int);
    assert forall|l: int, j: usize| #[trigger] free_in(next, l, j) implies (free_in(lists, l, j)
        || (l == k && j == i)) && block_end(list_order(l), j as int) <= pool by {}
    assert forall|l1: int, j1: usize, l2: int, j2: usize|
        #[trigger] free_in(next, l1, j1) && #[trigger] free_in(next, l2, j2) && (l1 != l2 || j1
            != j2) implies listed_blocks_disjoint(l1, j1, l2, j2) by {
        if l1 == k && j1 == i {
            assert(free_in(lists, l2, j2));
        } else if l2 == k && j2 == i {
            assert(free_in(lists, l1, j1));
        } else {
            assert(free_in(lists, l1, j1) && free_in(lists, l2, j2));
        }
    }
    assert forall|l: int, j: usize| #[trigger] free_in(next, l, j) implies !next[l].contains(
        buddy(j),
    ) by {
        if l == k && j != i {
            assert(free_in(lists, l, j));
            if buddy(j) == i {
                assert(j == buddy(i));
            }
        } else if l != k {
            assert(free_in(lists, l, j));
        }
    }
}

/// Merging block `i` of free list `k` with its free buddy leaves the free
/// lists consistent, and the merged block of the next order is again within
/// the pool and disjoint from every free block. The largest order never
/// merges, as its only block fills more than half of the pool.
pub(crate) proof fn lemma_coalesce_merge(lists: Seq<Set<usize>>, pool: int, k: int, i: usize)
    requires
        valid_lists(lists, pool),
        0 <= k < lists.len(),
        block_end(list_order(k), i as int) <= pool,
        unlisted_block(lists, k, i),
        lists[k].contains(buddy(i)),
    ensures
        k + 1 < lists.len(),
        valid_lists(lists.update(k, lists[k].remove(buddy(i))), pool),
        block_end(list_order(k + 1), (i / 2) as int) <= pool,
        unlisted_block(lists.update(k, lists[k].remove(buddy(i))), k + 1, (i / 2) as usize),
{
    let next = lists.update(k, lists[k].remove(buddy(i)));
    let o = list_order(k);
    let b = buddy(i);
    let e = i - i % 2;
    assert(free_in(lists, k, b));
    lemma_block_len(o, i as int);
    lemma_block_len(o, b as int);
    lemma_parent(o, i as int);
    assert(list_order(k + 1) == o + 1);
    // The merged block is the union of `i` and its buddy.
    assert(block_start(o + 1, (i / 2) as int) == block_start(o, e));
    assert(block_end(o + 1, (i / 2) as int) == block_end(o, e + 1));
    assert((e == i && e + 1 == b) || (e == b && e + 1 == i));
    assert(listed_blocks_disjoint(k, b, k, i));
    if k + 1 >= lists.len() {
        lemma_block_len(o + 1, (i / 2) as int);
        lemma_mul_nonnegative(i as int / 2, pow2(o + 1) as int);
        assert(false);
    }
    assert forall|l: int, j: usize| #[trigger] free_in(next, l, j) implies free_in(lists, l, j) by {}
    assert forall|l1: int, j1: usize, l2: int, j2: usize|
        #[trigger] free_in(next, l1, j1) && #[trigger] free_in(next, l2, j2) && (l1 != l2 || j1
            != j2) implies listed_blocks_disjoint(l1, j1, l2, j2) by {
        assert(free_in(lists, l1, j1) && free_in(lists, l2, j2));
    }
    assert forall|l: int, j: usize| #[trigger] free_in(next, l, j) implies !next[l].contains(
        buddy(j),
    ) by {
        assert(free_in(lists, l, j));
    }
    assert forall|l: int, j: usize| #[trigger] free_in(next, l, j) implies listed_blocks_disjoint(
        l,
        j,
        k + 1,
        (i / 2) as usize,
    ) by {
        assert(free_in(lists, l, j));
        assert(listed_blocks_disjoint(l, j, k, i));
        assert(l != k || j != b);
        assert(listed_blocks_disjoint(l, j, k, b));
        lemma_block_len(list_order(l), j as int);
    }
}


/// A non-empty set of indices no greater than `n` has a greatest element.
pub(crate) proof fn lemma_bounded_set_has_max(s: Set<usize>, n: int, x: usize)
    requires
        s.contains(x),
        forall|y: usize| #[trigger] s.contains(y) ==> y <= n,
    ensures
        s.contains(set_max(s)),
        forall|y: usize| #[trigger] s.contains(y) ==> y <= set_max(s),
    decreases n - x,
{
    if exists|y: usize| #[trigger] s.contains(y) && y > x {
        let y = choose|y: usize| #[trigger] s.contains(y) && y > x;
        lemma_bounded_set_has_max(s, n, y);
    } else {
        lemma_set_max(s, x);
    }
}

/// Returning the block that splitting block `m` of free list `o` down to free
/// list `k` handed out merges it back with every freed right half, and then
/// with nothing more: the free lists are as before the allocation.
pub(crate) proof fn lemma_coalesce_allocated(lists: Seq<Set<usize>>, pool: int, k: int, o: int, m: usize)
    requires
        valid_lists(lists, pool),
        0 <= k <= o < lists.len(),
        lists[o].contains(m),
    ensures
        coalesce(allocated_lists(lists, k, o, m), k, first_sub_index(o, m, k) as usize) == lists,
    decreases o - k,
{
    let a = allocated_lists(lists, k, o, m);
    let f = first_sub_index(o, m, k);
    assert(free_in(lists, o, m));
    if k < o {
        lemma_split_block(lists, pool, o, m, k);
        assert(buddy(f as usize) == (f + 1) as usize);
        assert(a[k].contains(buddy(f as usize)));
        let next = a.update(k, a[k].remove(buddy(f as usize)));
        assert(lists[k].insert((f + 1) as usize).remove((f + 1) as usize) =~= lists[k]);
        assert(next =~= allocated_lists(lists, k + 1, o, m));
        lemma_double_sub_index(o, m, k);
        assert((f as usize) / 2 == first_sub_index(o, m, k + 1));
        lemma_coalesce_allocated(lists, pool, k + 1, o, m);
    } else {
        lemma_first_sub_index_self(o, m);
        assert(!lists[o].contains(buddy(m)));
        assert(!a[o].contains(buddy(m)));
        assert(a[o].insert(m) =~= lists[o]);
        assert(a.update(o, a[o].insert(m)) =~= lists);
    }
}

/// The block that splitting block `m` of free list `o` down to free list `lo`
/// hands out shares no byte with any block that is free afterwards.
pub(crate) proof fn lemma_allocated_unlisted(lists: Seq<Set<usize>>, pool: int, lo: int, o: int, m: usize)
    requires
        valid_lists(lists, pool),
        0 <= lo <= o < lists.len(),
        lists[o].contains(m),
    ensures
        unlisted_block(allocated_lists(lists, lo, o, m), lo, first_sub_index(o, m, lo) as usize),
{
    let a = allocated_lists(lists, lo, o, m);
    let f = first_sub_index(o, m, lo);
    lemma_allocated_range(lists, pool, lo, o, m);
    assert(free_in(lists, o, m));
    assert forall|l: int, j: usize| #[trigger] free_in(a, l, j) implies listed_blocks_disjoint(l, j, lo, f as usize) by {
        if lo <= l < o && j == first_sub_index(o, m, l) + 1 {
            lemma_split_block(lists, pool, o, m, l);
            lemma_pow2_le(list_order(lo), list_order(l));
        } else {
            if lo <= l < o {
                lemma_split_block(lists, pool, o, m, l);
            }
            assert(free_in(lists, l, j) && (l != o || j != m));
            assert(listed_blocks_disjoint(l, j, o, m));
            lemma_block_len(list_order(l), j as int);
        }
    }
}


/// The byte range of block `i` of free list `k`.
pub open spec fn listed_block(k: int, i: usize) -> (int, int) {
    (block_start(list_order(k), i as int), block_end(list_order(k), i as int))
}

/// The byte ranges of the free blocks.
pub open spec fn free_ranges_of(lists: Seq<Set<usize>>) -> Set<(int, int)> {
    Set::new(|r: (int, int)| exists|k: int, i: usize| #[trigger] free_in(lists, k, i) && r == listed_block(k, i))
}

/// Whether range `q` lies within range `c`.
pub open spec fn range_within(q: (int, int), c: (int, int)) -> bool {
    c.0 <= q.0 && q.1 <= c.1
}

/// A block's byte range tells its free list and index.
pub(crate) proof fn lemma_listed_block_injective(k: int, i: usize, l: int, j: usize)
    requires
        k >= 0,
        l >= 0,
        listed_block(k, i) == listed_block(l, j),
    ensures
        k == l,
        i == j,
{
    lemma_block_len(list_order(k), i as int);
    lemma_block_len(list_order(l), j as int);
    if k < l {
        lemma_pow2_strictly_increases(list_order(k), list_order(l));
    } else if l < k {
        lemma_pow2_strictly_increases(list_order(l), list_order(k));
    }
    lemma_mul_is_commutative(i as int, pow2(list_order(k)) as int);
    lemma_mul_is_commutative(j as int, pow2(list_order(k)) as int);
    lemma_mul_equality_converse(pow2(list_order(k)) as int, i as int, j as int);
}

/// The first non-empty free list from `lo` on comes no later than any
/// non-empty free list from `lo` on.
pub(crate) proof fn lemma_first_nonempty_least(lists: Seq<Set<usize>>, lo: int, k: int)
    requires
        0 <= lo <= k < lists.len(),
        !lists[k].is_empty(),
    ensures
        first_nonempty(lists, lo) <= k,
    decreases k - lo,
{
    if lo < k && lists[lo].is_empty() {
        lemma_first_nonempty_least(lists, lo + 1, k);
    }
}

} // verus!
