//! An allocator that hands out ranges of a single contiguous space of `u32`
//! units, organised in size bins that follow a small floating-point scale.
use vstd::prelude::*;

pub mod allocator;
pub mod bins_map;
pub mod ext;
pub mod model;
pub mod node_index;
pub mod node_slab;
pub mod nonmax;
pub mod small_float;

verus! {

} // verus!
