//! Functions beyond the allocator itself.
use vstd::prelude::*;

verus! {

use crate::model::AllocatorModel;
use crate::small_float::{
    SmallFloat,
    small_float_value,
    spec_round_up,
    spec_round_down,
    lemma_round_up,
    lemma_round_down,
    lemma_small_float_value_increases,
};

/// Returns the minimum allocator size needed to hold an object of the given
/// size: the size rounded up to the small-float scale (modulo `2^32`; sizes
/// above `0xF000_0000` round up to `2^32`, which reads as 0).
pub fn min_allocator_size(needed_object_size: u32) -> (r: u32)
    ensures
        r == small_float_value(spec_round_up(needed_object_size)) % 0x1_0000_0000,
        needed_object_size <= 0xF000_0000 ==> r == small_float_value(
            spec_round_up(needed_object_size),
        ) && needed_object_size <= r,
{
    proof {
        lemma_round_up(needed_object_size);
        if needed_object_size <= 0xF000_0000 {
            crate::small_float::lemma_value_239();
            let f = spec_round_up(needed_object_size);
            if f == 240 {
                assert(small_float_value(239) < needed_object_size);
            } else if f < 239 {
                lemma_small_float_value_increases(f, 239);
            }
        }
    }
    SmallFloat::from_u32_round_up(needed_object_size).to_u32()
}

/// The size that `min_allocator_size` computes is the least one that serves:
/// a fresh allocator of `size` units (with a node to spare) can allocate
/// `needed_object_size` units exactly when `size` is at least the needed
/// size rounded up to the float scale.
pub proof fn lemma_min_allocator_size_is_least(needed_object_size: u32, size: u32, max_allocs: nat)
    requires
        2 <= max_allocs,
    ensures
        AllocatorModel::initial(size as nat, max_allocs).allocation(needed_object_size) is Some
            <==> small_float_value(spec_round_up(needed_object_size)) <= size,
{
    let m = AllocatorModel::initial(size as nat, max_allocs);
    let ru = spec_round_up(needed_object_size);
    let rd = spec_round_down(size);
    lemma_round_up(needed_object_size);
    lemma_round_down(size);
    m.lemma_lowest_bin_props(ru);
    assert(m.allocation(needed_object_size) is Some <==> m.lowest_bin_from(ru) is Some) by {
        reveal(AllocatorModel::allocation);
    }
    assert(m.bins[rd as int].len() > 0);
    if ru <= rd {
        if ru < rd {
            lemma_small_float_value_increases(ru, rd);
        }
        assert(m.lowest_bin_from(ru) is Some);
    } else {
        assert(m.lowest_bin_from(ru) is None) by {
            if m.lowest_bin_from(ru) is Some {
                let b = m.lowest_bin_from(ru)->0;
                assert(m.bins[b as int].len() > 0);
            }
        }
        if rd + 1 < ru {
            lemma_small_float_value_increases(rd + 1, ru);
        }
    }
}

} // verus!
