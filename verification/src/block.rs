//! Definition of the [`Block`] type.

use vstd::prelude::*;

verus! {

/// The address and length of a slice of bytes.
///
/// This is what a `*mut [u8]` carries: where the bytes start, and how many
/// there are.
#[derive(Clone, Copy, Debug, PartialEq, Eq, Structural)]
pub struct SlicePtr {
    /// The address of the first byte.
    pub addr: usize,
    /// The number of bytes.
    pub len: usize,
}

impl SlicePtr {
    /// The address one past the last byte, as a mathematical integer.
    pub open spec fn end(self) -> int {
        self.addr + self.len
    }

    /// Whether the slice lies within the address space without wrapping.
    pub open spec fn wf(self) -> bool {
        self.end() <= usize::MAX
    }
}

/// A block of bytes managed by some external allocator.
///
/// A `Block` describes a slice of bytes that its owner may read and write
/// until the block is returned. This crate subdivides large blocks of shared
/// memory into smaller ones for individual buffers using [`Pool`].
///
/// [`Pool`]: crate::Pool
pub struct Block {
    bytes: SlicePtr,
}

impl View for Block {
    type V = SlicePtr;

    closed spec fn view(&self) -> SlicePtr {
        self.bytes
    }
}

impl Block {
    /// A block never wraps around the end of the address space.
    #[verifier::type_invariant]
    spec fn inv(self) -> bool {
        self.bytes.wf()
    }

    /// Create a [`Block`] tracking `bytes`.
    pub fn new(bytes: SlicePtr) -> (block: Block)
        requires
            bytes.wf(),
        ensures
            block@ == bytes,
    {
        Block { bytes }
    }

    /// Return the length in bytes of the slice this `Block` manages.
    pub fn len(&self) -> (len: usize)
        ensures
            len == self@.len,
            self@.wf(),
    {
        proof {
            use_type_invariant(self);
        }
        self.bytes.len
    }

    /// Return the address and length of the memory this `Block` manages.
    pub fn bytes_mut(&self) -> (bytes: SlicePtr)
        ensures
            bytes == self@,
            bytes.wf(),
    {
        proof {
            use_type_invariant(self);
        }
        self.bytes
    }
}

} // verus!
