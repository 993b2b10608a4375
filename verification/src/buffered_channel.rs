//! Definition of the `BufferedChannel` type.

use crate::block::Block;
use crate::transport::ReceiverError;
use std::marker::PhantomData;
use std::ops::Range;
use vstd::prelude::*;

verus! {

/// `std::io::Error`, which a [`Receiver`] is told of when receiving fails.
#[verifier::external_type_specification]
#[verifier::external_body]
pub struct ExIoError(std::io::Error);

/// A channel carrying values of type `T` over a transport.
pub struct BufferedChannel<T> {
    /// The shared memory segment holding the ring buffer of messages.
    ///
    /// Its size in bytes is always a multiple of `std::mem::align_of::<T>`.
    ring_buffer: Block,
    /// The range of values that have been serialized into `ring_buffer`, but
    /// not yet sent.
    ///
    /// The start and end of this range are always a multiple of
    /// `std::mem::align_of::<T>()`.
    unsent: Range<usize>,
    /// The offset of the first free byte of the ring buffer. If this is equal
    /// to the buffer's length, then the buffer is full.
    next_free: usize,
    /// Buffered channels accept, hold, and produce values of type `T`, in
    /// their serialized forms.
    _marker: PhantomData<T>,
}

impl<T> BufferedChannel<T> {
    /// The offsets the channel keeps lie within its ring buffer, and the
    /// unsent range is aligned for `T`.
    pub closed spec fn wf(&self) -> bool {
        let align = vstd::layout::align_of::<T>() as int;
        &&& align > 0
        &&& self.ring_buffer@.len as int % align == 0
        &&& self.unsent.start as int % align == 0
        &&& self.unsent.end as int % align == 0
        &&& self.unsent.start <= self.unsent.end <= self.ring_buffer@.len
        &&& self.next_free <= self.ring_buffer@.len
    }
}

/// The receiving end of a channel carrying values of type `T`.
pub trait Receiver<T> {
    /// Receive one value from the channel.
    fn receive_message(&mut self, value: T) -> Result<(), ReceiverError>;

    /// Report an error encountered trying to receive a message.
    ///
    /// After this call returns, this `Receiver` will be dropped.
    fn receive_error(&mut self, error: std::io::Error) {
        let _ = error;
    }
}

} // verus!
