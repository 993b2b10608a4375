//! Transports carrying messages and shared memory between client and server.
//!
//! A transport hands out blocks of shared memory, each named by a
//! [`SharedMemoryHandle`], and carries messages that refer to ranges within
//! them.

pub mod local;

use vstd::arithmetic::div_mod::*;
use vstd::arithmetic::mul::*;
use vstd::prelude::*;

verus! {

/// The alignment, in bytes, of every shared memory block a transport hands out.
pub const SHARED_MEMORY_ALIGNMENT: usize = 8;

/// The name of a block of shared memory, agreed on by both sides of a
/// transport.
#[derive(Clone, Copy, Debug, PartialEq, Eq, Hash, Structural)]
pub struct SharedMemoryHandle(pub usize);

/// An error a receiver reports to stop receiving messages.
#[derive(Clone, Copy, Debug, PartialEq, Eq, Structural)]
pub struct ReceiverError;

/// The smallest multiple of `align` no smaller than `size`.
pub open spec fn round_up(size: int, align: int) -> int {
    if size % align == 0 {
        size
    } else {
        size - size % align + align
    }
}

/// Rounding up gives the least multiple of `align` that is no smaller than
/// `size`: a multiple of `align`, no smaller than `size`, and less than
/// `align` past it.
pub proof fn lemma_round_up(size: int, align: int)
    requires
        align > 0,
    ensures
        round_up(size, align) % align == 0,
        size <= round_up(size, align) < size + align,
        forall|m: int| #[trigger] (m % align) == 0 && size <= m ==> round_up(size, align) <= m,
{
    let q = size / align;
    let rem = size % align;
    lemma_fundamental_div_mod(size, align);
    lemma_mod_bound(size, align);
    let r = round_up(size, align);
    if rem == 0 {
        assert(r == align * q);
    } else {
        assert(r == align * q + align);
        lemma_mul_is_distributive_add(align, q, 1);
        assert(r == align * (q + 1));
    }
    assert(r == align * (if rem == 0 { q } else { q + 1 }));
    lemma_mul_is_commutative(align, if rem == 0 { q } else { q + 1 });
    lemma_mod_multiples_basic(if rem == 0 { q } else { q + 1 }, align);
    assert forall|m: int| #[trigger] (m % align) == 0 && size <= m implies r <= m by {
        lemma_fundamental_div_mod(m, align);
        let p = m / align;
        assert(m == align * p);
        if p <= q {
            lemma_mul_inequality(p, q, align);
            lemma_mul_is_commutative(p, align);
            lemma_mul_is_commutative(q, align);
            assert(m <= align * q);
            assert(rem == 0);
        } else {
            lemma_mul_inequality(q + 1, p, align);
            lemma_mul_is_commutative(q + 1, align);
            lemma_mul_is_commutative(p, align);
        }
    }
}

/// The size of a block of shared memory that holds `size` bytes: at least
/// one byte, rounded up to a multiple of [`SHARED_MEMORY_ALIGNMENT`]. `None`
/// when that size does not fit in a `usize`.
pub fn shared_memory_size(size: usize) -> (rounded: Option<usize>)
    ensures
        ({
            let wanted = if size == 0 { 1 } else { size as int };
            let exact = round_up(wanted, SHARED_MEMORY_ALIGNMENT as int);
            match rounded {
                Some(r) => r == exact,
                None => exact > usize::MAX,
            }
        }),
        match rounded {
            Some(r) => r % SHARED_MEMORY_ALIGNMENT == 0 && 1 <= r && size <= r && r < size
                + SHARED_MEMORY_ALIGNMENT + 1,
            None => size > usize::MAX - SHARED_MEMORY_ALIGNMENT,
        },
{
    proof {
        lemma_round_up(if size == 0 { 1 } else { size as int }, SHARED_MEMORY_ALIGNMENT as int);
    }
    let size = if size == 0 { 1 } else { size };
    let slop = size % SHARED_MEMORY_ALIGNMENT;
    if slop == 0 {
        Some(size)
    } else {
        size.checked_add(SHARED_MEMORY_ALIGNMENT - slop)
    }
}

} // verus!
