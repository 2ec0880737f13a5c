# offset_allocator

A verified offset allocator: it hands out ranges of one contiguous space of
`u32` units, keeps its free regions in 256 size bins laid out on an 8-bit
floating-point scale (3 bits of mantissa, 5 of exponent), and merges a freed
region with its free neighbours.

Layout of `src/`:

- `small_float.rs`: the float scale, rounding up and down to it, and back.
- `bins_map.rs`: the two-level bitmap of occupied bins and the bin heads.
- `node_index.rs`, `nonmax.rs`: the integer types that number the nodes.
- `node_slab.rs`: a slab of nodes with a stack of free indices.
- `model.rs`: the abstract state of an allocator (regions in address order,
  bin lists, spare nodes), what allocating and freeing do to it, and the laws
  that hold of it.
- `allocator.rs`: the allocator itself, whose contracts are stated over the
  model.
- `ext.rs`: the least allocator size for an object.

The tests under `tests/` run the library on concrete values.
