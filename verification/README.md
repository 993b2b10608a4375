# wgpu_remote

The verified core of a process-isolation backend for wgpu: the client and the
server share memory, and this crate keeps the books on it.

- `src/pool/`: the binary buddy allocator that carves a large shared block
  into buffers. `sparse_bit_set.rs` holds the sets of free block indices,
  `buddy.rs` the mathematical model of the free lists, `freemap.rs` the
  allocator itself, `laws.rs` what allocating and freeing do to the pool's
  bytes, and `mod.rs` the `Pool` that pairs a block with its free map.
- `src/block.rs`: blocks of memory, described by address and length.
- `src/transport/`: shared memory handles, block sizes, and the handle
  numbering of the in-process transport.
- `src/webidl.rs`: parsing WebIDL definitions with `weedle`.
- `app/`: the unverified parts around the library: blocks that own raw memory
  and release it on drop, a pool shared between threads, the in-process
  transport with its threads and channels, and printing WebIDL.
