//! Utilities for working with the address ranges of byte slices.

use crate::block::SlicePtr;
use std::ops::Range;
use vstd::prelude::*;

verus! {

/// Address arithmetic modulo the size of the address space.
pub open spec fn wrapping_offset(addr: usize, offset: usize) -> usize {
    if addr + offset > usize::MAX {
        (addr + offset - usize::MAX - 1) as usize
    } else {
        (addr + offset) as usize
    }
}

/// Return the part of `ptr_slice` that `range` selects.
///
/// The range must be non-empty and lie within `ptr_slice`.
pub fn ptr_subslice(ptr_slice: SlicePtr, range: Range<usize>) -> (sub: SlicePtr)
    requires
        range.start < range.end,
        range.end <= ptr_slice.len,
    ensures
        sub.addr == wrapping_offset(ptr_slice.addr, range.start),
        sub.len == range.end - range.start,
        ptr_slice.wf() ==> sub.addr == ptr_slice.addr + range.start && sub.wf(),
{
    SlicePtr { addr: ptr_slice.addr.wrapping_add(range.start), len: range.end - range.start }
}

/// Return the range of offsets within `outer` that `inner` occupies.
///
/// `inner` must start no earlier than `outer` and end no later than it.
pub fn ptr_subslice_range(outer: SlicePtr, inner: SlicePtr) -> (range: Range<usize>)
    requires
        outer.addr <= inner.addr,
        inner.end() - outer.addr <= outer.len,
    ensures
        range.start == inner.addr - outer.addr,
        range.end == range.start + inner.len,
{
    let start_offset = inner.addr - outer.addr;
    let end_offset = start_offset + inner.len;
    start_offset..end_offset
}

/// Taking the subslice of a range, and then asking where that subslice lies,
/// gives back the range.
pub proof fn lemma_subslice_range_roundtrip(outer: SlicePtr, range: Range<usize>)
    requires
        outer.wf(),
        range.start < range.end,
        range.end <= outer.len,
    ensures
        ({
            let sub = SlicePtr {
                addr: wrapping_offset(outer.addr, range.start),
                len: (range.end - range.start) as usize,
            };
            &&& outer.addr <= sub.addr
            &&& sub.end() - outer.addr <= outer.len
            &&& sub.addr - outer.addr == range.start
            &&& sub.addr - outer.addr + sub.len == range.end
        }),
{
}

} // verus!
