//! The handle numbering of a transport whose two sides live in the same
//! process.
//!
//! Both sides of a local transport allocate shared memory into tables that
//! they share, so their handles must never collide: the left side numbers its
//! blocks with even handles, and the right side with odd ones.

use super::SharedMemoryHandle;
use vstd::prelude::*;

verus! {

/// The handles one side of a local transport gives to the blocks of shared
/// memory it allocates.
#[derive(Debug)]
pub struct HandleCounter {
    /// The id of the next shared memory segment this side will allocate.
    next_shared_memory_id: usize,
}

impl View for HandleCounter {
    type V = usize;

    /// The id of the next handle.
    closed spec fn view(&self) -> usize {
        self.next_shared_memory_id
    }
}

impl HandleCounter {
    /// The counters of the left and right sides of a new pair: the left side
    /// starts at 0, the right side at 1.
    pub fn new_pair() -> (pair: (HandleCounter, HandleCounter))
        ensures
            pair.0@ == 0,
            pair.1@ == 1,
    {
        (HandleCounter { next_shared_memory_id: 0 }, HandleCounter { next_shared_memory_id: 1 })
    }

    /// The id of the handle the next block will get.
    pub fn next_id(&self) -> (id: usize)
        ensures
            id == self@,
    {
        self.next_shared_memory_id
    }

    /// Return the handle for the next block, and step past it, leaving the
    /// other side's handles in between.
    pub fn next_handle(&mut self) -> (handle: SharedMemoryHandle)
        requires
            old(self)@ + 2 <= usize::MAX,
        ensures
            handle.0 == old(self)@,
            final(self)@ == old(self)@ + 2,
            final(self)@ % 2 == handle.0 % 2,
    {
        let handle = SharedMemoryHandle(self.next_shared_memory_id);
        self.next_shared_memory_id += 2;
        handle
    }
}

/// The id of the handle a side hands out after it has handed out `k` others,
/// when it started at `start`: each call of `next_handle` steps by two.
pub open spec fn handle_number(start: int, k: nat) -> int {
    start + 2 * k
}

/// However many handles each side of a pair has handed out, the `i`-th handle
/// of the left side (which starts at 0) is never the `j`-th handle of the
/// right side (which starts at 1).
pub proof fn lemma_handle_sequences_never_collide(i: nat, j: nat)
    ensures
        handle_number(0, i) != handle_number(1, j),
        handle_number(0, i) % 2 == 0,
        handle_number(1, j) % 2 == 1,
{
}

/// The two sides of a pair never hand out the same handle: a counter keeps
/// the parity it starts with, the left side's 0 and the right side's 1, so
/// every handle of the left side is even and every handle of the right side
/// is odd.
pub proof fn lemma_sides_never_collide(left: SharedMemoryHandle, right: SharedMemoryHandle)
    requires
        left.0 % 2 == 0,
        right.0 % 2 == 1,
    ensures
        left != right,
{
}

} // verus!
