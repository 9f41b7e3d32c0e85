# arena_alloc

A bump arena allocator whose chunks are recycled through a thread-safe shared
pool, written in Verus with its behaviour stated in contracts and proved.

A `SharedArena` hands out `LocalArena`s. A local arena allocates downward in
its current chunk by moving a bump pointer; when the chunk is full it takes a
pooled chunk that fits, or makes a new one twice as large. Resetting a local
arena gives its chunks back to the pool, cleaned, for other local arenas.

Memory is described by addresses: an allocation is a range of addresses in a
chunk, and its content lives in the returned `Box`.

A dynamically sized value is built by a `BuilderDST`. A builder may keep a
ghost record of its calls (counts, answers, and the memory each call was
given and left); the contracts of `finish` and of the arenas state, over that
record, which calls are made, how the answers decide the result, and what
the built value holds.

## Layout

- `src/layout.rs`: layouts (size, alignment) and the rounding arithmetic.
- `src/chunk.rs`: a chunk and its abstract state; placement of blocks,
  slices and header-plus-elements values; the laws that placed blocks are
  aligned, lie in the free space and never overlap.
- `src/dst.rs`: building a dynamically sized value with a `BuilderDST`.
- `src/pool.rs`: the pool of chunks and the `SharedArena` that locks it.
- `src/local_arena.rs`: the `LocalArena`, its chain of chunks and the
  accounting reported by `allocation_info`.
- `src/arena.rs`: the `Arena` trait and the allocations built on it.
- `src/checkpoint.rs`: checkpoints that roll a local arena back.
- `src/unrolled_list.rs`: a list stored in arena-allocated nodes.
- `src/rc.rs`: a reference-counted pointer to an arena-allocated value.
- `app/lib.rs`: the allocation error as a `std::error::Error`.
- `tests/`: scenarios run against the compiled library.
