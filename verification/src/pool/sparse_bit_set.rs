//! Definition of the `SparseBitSet` type.

use std::collections::BTreeMap;
use vstd::prelude::*;
use vstd::std_specs::iter::IteratorSpec;

verus! {

/// The number of bits in one chunk of a [`SparseBitSet`].
pub const BITS_PER_CHUNK: usize = 64;

/// The mask selecting a bit's position within its chunk.
pub const INDEX_MASK: usize = BITS_PER_CHUNK - 1;

/// The first element of the chunk holding `n`.
pub open spec fn chunk_of(n: usize) -> usize {
    (n - n % 64) as usize
}

/// The position of `n` within its chunk.
pub open spec fn bit_of(n: usize) -> u64 {
    (n % 64) as u64
}

/// Whether bit `j` of `word` is set.
pub open spec fn bit_is_set(word: u64, j: u64) -> bool {
    (word >> j) & 1u64 == 1u64
}

/// How a bit of a chunk reacts to setting, clearing and testing bit `j`.
proof fn lemma_word_bits(w: u64, i: u64, j: u64)
    by (bit_vector)
    requires
        i < 64,
        j < 64,
    ensures
        ((1u64 << j) >> i) & 1u64 == 1u64 <==> i == j,
        ((w | (1u64 << j)) >> i) & 1u64 == 1u64 <==> (((w >> i) & 1u64 == 1u64) || i == j),
        ((w & !(1u64 << j)) >> i) & 1u64 == 1u64 <==> (((w >> i) & 1u64 == 1u64) && i != j),
        (w & (1u64 << j) != 0u64) <==> ((w >> j) & 1u64 == 1u64),
        (0u64 >> i) & 1u64 != 1u64,
        (1u64 << j) != 0u64,
{
}

/// The masks that split an element agree with division by the chunk size.
proof fn lemma_split_masks(n: usize)
    by (bit_vector)
    ensures
        n & !63usize == n - n % 64,
        n & 63usize == n % 64,
{
}

/// `BTreeMap::last_key_value` on the chunk tree.
///
/// As std documents, the result is the entry with the greatest key, or `None`
/// when the map is empty.
#[verifier::external_body]
fn last_chunk(chunks: &BTreeMap<usize, u64>) -> (last: Option<(usize, u64)>)
    ensures
        last is None <==> chunks@.dom().is_empty(),
        last matches Some((k, w)) ==> {
            &&& chunks@.contains_key(k)
            &&& chunks@[k] == w
            &&& forall|j: usize| #[trigger] chunks@.contains_key(j) ==> j <= k
        },
{
    match chunks.last_key_value() {
        Some((k, w)) => Some((*k, *w)),
        None => None,
    }
}

/// The highest set bit of a word, as `leading_zeros` reports it, is set, and
/// no bit above it is.
proof fn lemma_top_bit(w: u64, j: u64)
    requires
        w != 0,
        j < 64,
    ensures
        ({
            let top = (63 - vstd::std_specs::bits::u64_leading_zeros(w)) as u64;
            &&& bit_is_set(w, top)
            &&& bit_is_set(w, j) ==> j <= top
        }),
{
    vstd::std_specs::bits::axiom_u64_leading_zeros(w);
    let top = (63 - vstd::std_specs::bits::u64_leading_zeros(w)) as u64;
    assert((w >> top) & 1u64 != 0u64 ==> (w >> top) & 1u64 == 1u64) by (bit_vector);
    if bit_is_set(w, j) && j > top {
        assert((w >> j) & 1u64 == 0u64);
    }
}

/// The keys of a `BTreeMap` with `usize` keys come out of its iterator in
/// strictly increasing order.
proof fn lemma_increasing_keys(keys: Seq<usize>)
    requires
        vstd::std_specs::btree::key_obeys_cmp_spec::<usize>()
            ==> vstd::std_specs::btree::increasing_seq(keys),
    ensures
        forall|i: int, j: int| 0 <= i < j < keys.len() ==> #[trigger] keys[i] < #[trigger] keys[j],
{
    assert(vstd::std_specs::btree::key_obeys_cmp_spec::<usize>());
    assert forall|i: int, j: int| 0 <= i < j < keys.len() implies #[trigger] keys[i]
        < #[trigger] keys[j] by {
        assert(vstd::std_specs::cmp::OrdSpec::cmp_spec(&keys[i], &keys[j]) is Less);
    }
}

/// A set of `usize` values, represented as a sparse list of bitmaps.
#[derive(Debug)]
pub struct SparseBitSet {
    /// A tree of chunks, sorted by initial bit number.
    ///
    /// If the value stored at key `i` has its `j`'th bit set, then `i + j` is a
    /// member of the set. Every key is a multiple of `BITS_PER_CHUNK`, and no
    /// value is zero: a chunk with no members is removed from the tree.
    chunks: BTreeMap<usize, u64>,
}

impl View for SparseBitSet {
    type V = Set<usize>;

    closed spec fn view(&self) -> Set<usize> {
        Set::new(
            |n: usize|
                self.chunks@.contains_key(chunk_of(n)) && bit_is_set(
                    self.chunks@[chunk_of(n)],
                    bit_of(n),
                ),
        )
    }
}

impl Default for SparseBitSet {
    fn default() -> (set: SparseBitSet)
        ensures
            set.wf(),
            set@ == Set::<usize>::empty(),
    {
        let set = SparseBitSet { chunks: BTreeMap::new() };
        assert(set@ =~= Set::<usize>::empty());
        set
    }
}

impl SparseBitSet {
    /// Every key is the start of a chunk, and every stored chunk is non-empty.
    pub closed spec fn wf(&self) -> bool {
        forall|k: usize|
            #![trigger self.chunks@.contains_key(k)]
            self.chunks@.contains_key(k) ==> k % 64 == 0 && self.chunks@[k] != 0u64
    }

    /// Split an element number into a chunk start and the bitmask for `n`
    /// within that chunk.
    fn split_element(n: usize) -> (split: (usize, u64))
        ensures
            split.0 == chunk_of(n),
            split.1 == 1u64 << bit_of(n),
            bit_of(n) < 64,
            split.0 % 64 == 0,
            split.0 + 64 <= usize::MAX + 1,
    {
        proof {
            lemma_split_masks(n);
        }
        // Because INDEX_MASK is one less than the number of bits in a `u64`,
        // (n & INDEX_MASK) is always a valid shift distance.
        let chunk_start = n & !INDEX_MASK;
        let bit: u64 = 1u64 << ((n & INDEX_MASK) as u64);
        (chunk_start, bit)
    }

    /// Add `n` to the set. Return true if `n` was previously a member.
    pub fn insert(&mut self, n: usize) -> (previously: bool)
        requires
            old(self).wf(),
        ensures
            final(self).wf(),
            final(self)@ == old(self)@.insert(n),
            previously == old(self)@.contains(n),
    {
        let (chunk_start, bit) = Self::split_element(n);
        proof {
            lemma_word_bits(0, 0, bit_of(n));
        }
        match self.chunks.get(&chunk_start) {
            None => {
                self.chunks.insert(chunk_start, bit);
                proof {
                    assert forall|m: usize| #[trigger]
                        self@.contains(m) == old(self)@.insert(n).contains(m) by {
                        lemma_word_bits(0, bit_of(m), bit_of(n));
                    }
                    assert(self@ =~= old(self)@.insert(n));
                }
                false
            },
            Some(word) => {
                let word = *word;
                let previously = word & bit != 0;
                self.chunks.insert(chunk_start, word | bit);
                proof {
                    lemma_word_bits(word, bit_of(n), bit_of(n));
                    assert forall|m: usize| #[trigger]
                        self@.contains(m) == old(self)@.insert(n).contains(m) by {
                        lemma_word_bits(word, bit_of(m), bit_of(n));
                    }
                    assert(self@ =~= old(self)@.insert(n));
                }
                previously
            },
        }
    }

    /// Remove `n` from the set. Return true if `n` was previously a member.
    pub fn remove(&mut self, n: usize) -> (previously: bool)
        requires
            old(self).wf(),
        ensures
            final(self).wf(),
            final(self)@ == old(self)@.remove(n),
            previously == old(self)@.contains(n),
    {
        let (chunk_start, bit) = Self::split_element(n);
        match self.chunks.get(&chunk_start) {
            None => {
                assert(self@ =~= old(self)@.remove(n));
                false
            },
            Some(word) => {
                let word = *word;
                let previously = word & bit != 0;
                let new_bits = word & !bit;
                if new_bits != 0 {
                    self.chunks.insert(chunk_start, new_bits);
                } else {
                    self.chunks.remove(&chunk_start);
                }
                proof {
                    lemma_word_bits(word, bit_of(n), bit_of(n));
                    assert forall|m: usize| #[trigger]
                        self@.contains(m) == old(self)@.remove(n).contains(m) by {
                        lemma_word_bits(word, bit_of(m), bit_of(n));
                        lemma_word_bits(new_bits, bit_of(m), bit_of(n));
                    }
                    assert(self@ =~= old(self)@.remove(n));
                }
                previously
            },
        }
    }

    /// Return true if `n` is a member of the set.
    pub fn contains(&self, n: usize) -> (member: bool)
        ensures
            member == self@.contains(n),
    {
        let (chunk_start, bit) = Self::split_element(n);
        match self.chunks.get(&chunk_start) {
            None => false,
            Some(word) => {
                proof {
                    lemma_word_bits(*word, bit_of(n), bit_of(n));
                }
                *word & bit != 0
            },
        }
    }

    /// Return the largest member, or `None` if the set is empty.
    pub fn largest_member(&self) -> (largest: Option<usize>)
        requires
            self.wf(),
        ensures
            largest is None <==> self@.is_empty(),
            largest matches Some(m) ==> self@.contains(m) && forall|x: usize|
                #[trigger] self@.contains(x) ==> x <= m,
    {
        match last_chunk(&self.chunks) {
            None => {
                proof {
                    assert forall|x: usize| !#[trigger] self@.contains(x) by {
                        if self@.contains(x) {
                            assert(self.chunks@.dom().contains(chunk_of(x)));
                        }
                    }
                }
                None
            },
            Some((start_bit, bits)) => {
                proof {
                    vstd::std_specs::bits::axiom_u64_leading_zeros(bits);
                }
                let greatest_set_bit_index = 63 - bits.leading_zeros() as usize;
                let m = start_bit + greatest_set_bit_index;
                proof {
                    let top = greatest_set_bit_index as u64;
                    assert(chunk_of(m) == start_bit && bit_of(m) == top);
                    lemma_top_bit(bits, top);
                    assert(self@.contains(m));
                    assert forall|x: usize| #[trigger] self@.contains(x) implies x <= m by {
                        if chunk_of(x) == start_bit {
                            lemma_top_bit(bits, bit_of(x));
                        }
                    }
                }
                Some(m)
            },
        }
    }

    /// Return the members of the set in increasing order.
    pub fn members(&self) -> (members: Vec<usize>)
        requires
            self.wf(),
        ensures
            forall|i: int, j: int|
                0 <= i < j < members@.len() ==> #[trigger] members@[i] < #[trigger] members@[j],
            forall|x: usize|
                #[trigger] members@.contains(x) <==> self@.contains(x),
    {
        let mut members: Vec<usize> = Vec::new();
        let iter = self.chunks.iter();
        let ghost entries = iter.remaining();
        let ghost keys = entries.map_values(|kv: (&usize, &u64)| *kv.0);
        proof {
            lemma_increasing_keys(keys);
            assert forall|i: int, j: int| 0 <= i < j < entries.len() implies *entries[i].0
                < *entries[j].0 by {
                assert(keys[i] == *entries[i].0 && keys[j] == *entries[j].0);
            }
            assert forall|k: usize| #[trigger] self.chunks@.contains_key(k) implies exists|i: int|
                0 <= i < entries.len() && *entries[i].0 == k by {
                let i = entries.index_of((&k, &self.chunks@[k]));
                assert(entries[i] == (&k, &self.chunks@[k]));
            }
        }
        for entry in it: iter
            invariant
                it.seq() == entries,
                self.wf(),
                forall|i: int|
                    0 <= i < entries.len() ==> #[trigger] self.chunks@.contains_key(*entries[i].0)
                        && self.chunks@[*entries[i].0] == *entries[i].1,
                forall|i: int, j: int|
                    0 <= i < j < entries.len() ==> *(#[trigger] entries[i]).0 < *(
                    #[trigger] entries[j]).0,
                forall|k: usize| #[trigger]
                    self.chunks@.contains_key(k) ==> exists|i: int|
                        0 <= i < entries.len() && *entries[i].0 == k,
                forall|i: int, j: int|
                    0 <= i < j < members@.len() ==> #[trigger] members@[i] < #[trigger] members@[j],
                forall|x: usize|
                    #[trigger] members@.contains(x) <==> (self@.contains(x) && (
                    it.index() < entries.len() ==> chunk_of(x) < *entries[it.index()].0)),
                it.index() < entries.len() ==> forall|i: int|
                    0 <= i < members@.len() ==> #[trigger] members@[i] < *entries[it.index()].0,
        {
            let (start_bit, bits) = entry;
            let start_bit = *start_bit;
            let bits = *bits;
            let ghost idx = it.index();
            assert(entries[idx] == entry);
            assert(self.chunks@.contains_key(start_bit));
            assert(start_bit + 63 <= usize::MAX);
            for i in 0..64u64
                invariant
                    self.chunks@.contains_key(start_bit),
                    self.chunks@[start_bit] == bits,
                    start_bit % 64 == 0,
                    start_bit + 63 <= usize::MAX,
                    forall|i: int, j: int|
                        0 <= i < j < members@.len() ==> #[trigger] members@[i] < #[trigger] members@[j],
                    forall|x: usize|
                        #[trigger] members@.contains(x) <==> (self@.contains(x) && (
                        chunk_of(x) < start_bit || (chunk_of(x) == start_bit && bit_of(x) < i))),
                    forall|j: int| 0 <= j < members@.len() ==> #[trigger] members@[j] < start_bit + i,
            {
                proof {
                    lemma_word_bits(bits, i, i);
                }
                if bits & (1u64 << i) != 0 {
                    let ghost old_members = members@;
                    let v = start_bit + i as usize;
                    members.push(v);
                    proof {
                        assert(chunk_of(v) == start_bit && bit_of(v) == i);
                        assert(self@.contains(v));
                        assert forall|x: usize| #[trigger] members@.contains(x) <==> (old_members.contains(x) || x == v) by {
                            if x == v {
                                assert(members@[old_members.len() as int] == v);
                            }
                            if members@.contains(x) {
                                let k = members@.index_of(x);
                                if k < old_members.len() {
                                    assert(old_members[k] == x);
                                }
                            }
                            if old_members.contains(x) {
                                let k = old_members.index_of(x);
                                assert(members@[k] == x);
                            }
                        }
                    }
                }
                proof {
                    assert forall|x: usize| chunk_of(x) == start_bit && bit_of(x) == i implies
                        (#[trigger] self@.contains(x) <==> bit_is_set(bits, i)) by {}
                }
            }
            proof {
                let next = idx + 1;
                if next < entries.len() {
                    assert(*entries[idx].0 < *entries[next].0);
                    assert(self.chunks@.contains_key(*entries[next].0));
                }
                assert forall|x: usize| #[trigger] self@.contains(x) implies
                    (chunk_of(x) <= start_bit <==> (next < entries.len() ==> chunk_of(x) < *entries[next].0)) by {
                    assert(self.chunks@.contains_key(chunk_of(x)));
                    let w = choose|w: int| 0 <= w < entries.len() && *entries[w].0 == chunk_of(x);
                    if w < idx {
                        assert(*entries[w].0 < *entries[idx].0);
                    } else if w > idx {
                        assert(*entries[idx].0 < *entries[w].0);
                        if w > next {
                            assert(*entries[next].0 < *entries[w].0);
                        }
                    }
                }
            }
        }
        members
    }
}

} // verus!
