//! Process isolation for wgpu: the verified core.
//!
//! This crate holds the bookkeeping that lets a wgpu client and server share
//! memory safely: the binary buddy allocator that carves large shared blocks
//! into buffers ([`pool`]), the byte-range arithmetic that relates a block to
//! its sub-blocks, and the handle numbering of the local transport.
//!
//! Raw memory, its release callbacks, threads and channels live outside the
//! verified library; here a region of memory is described by its address and
//! length ([`SlicePtr`]).

mod block;
mod buffered_channel;
pub mod pool;
pub mod transport;
pub mod webidl;

pub use block::{Block, SlicePtr};
pub use buffered_channel::{BufferedChannel, Receiver};
pub use pool::Pool;


