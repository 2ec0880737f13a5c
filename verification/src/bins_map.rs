//! The map from each bin to the head of its list of free nodes, with a
//! two-level bitmap of the bins that are occupied.
use vstd::prelude::*;

verus! {

use crate::node_index::{NodeIndex, NodeIndexOption};
use crate::small_float::SmallFloat;

/// The number of top-level bins: each holds eight leaf bins.
pub const NUM_TOP_BINS: usize = 32;

/// The shift from a bin index to its top-level bin index.
pub const TOP_BINS_INDEX_SHIFT: u32 = 3;

/// The mask from a bin index to its leaf bin index.
pub const LEAF_BINS_INDEX_MASK: u32 = 7;

/// The number of bins (one per small float).
pub const NUM_BINS: usize = 256;

/// Whether bit `i` of `x` is set.
pub open spec fn bit_set(x: u32, i: nat) -> bool {
    i < 32 && (x >> (i as u32)) & 1u32 == 1u32
}

/// Bit `j` of `mask` with the bits below `start` cleared.
proof fn lemma_bits_from(mask: u32, start: u32, j: u32)
    by (bit_vector)
    requires
        start < 32,
        j < 32,
    ensures
        ((mask & !(((1u32 << start) - 1) as u32)) >> j) & 1u32 == (if j >= start {
            (mask >> j) & 1u32
        } else {
            0u32
        }),
{
}

/// A word with no bit set is zero, and conversely.
proof fn lemma_zero_iff_no_bits(x: u32)
    ensures
        x == 0 <==> forall|j: nat| j < 32 ==> !#[trigger] bit_set(x, j),
{
    if x != 0 {
        vstd::std_specs::bits::axiom_u32_trailing_zeros(x);
        let t = x.trailing_zeros();
        assert(bit_set(x, t as nat));
    } else {
        assert forall|j: nat| j < 32 implies !#[trigger] bit_set(x, j) by {
            let k = j as u32;
            assert((0u32 >> k) & 1u32 == 0u32) by (bit_vector);
        }
    }
}

/// A byte, widened, has no bit set from bit 8 on.
proof fn lemma_byte_bits(x: u8, j: nat)
    requires
        8 <= j < 32,
    ensures
        !bit_set(x as u32, j),
{
    let k = j as u32;
    assert(((x as u32) >> k) & 1u32 == 0u32) by (bit_vector)
        requires
            8 <= k < 32,
    ;
}

/// Find the lowest bit that is set to 1, as long as it's at least
/// `start_bit_index`. Return `None` if there is no such bit.
pub fn find_lowest_bit_set_after(bit_mask: u32, start_bit_index: u32) -> (r: Option<u32>)
    requires
        start_bit_index < 32,
    ensures
        match r {
            Some(i) => {
                &&& start_bit_index <= i < 32
                &&& bit_set(bit_mask, i as nat)
                &&& forall|j: nat| start_bit_index <= j < i ==> !#[trigger] bit_set(bit_mask, j)
            },
            None => forall|j: nat| start_bit_index <= j < 32 ==> !#[trigger] bit_set(bit_mask, j),
        },
{
    proof {
        assert(1u32 << start_bit_index >= 1) by (bit_vector)
            requires
                start_bit_index < 32,
        ;
    }
    let mask_before_start_index = (1u32 << start_bit_index) - 1;
    let mask_after_start_index = !mask_before_start_index;
    let bits_after = bit_mask & mask_after_start_index;
    proof {
        assert forall|j: nat| j < 32 implies #[trigger] bit_set(bits_after, j) == (j
            >= start_bit_index && bit_set(bit_mask, j)) by {
            lemma_bits_from(bit_mask, start_bit_index, j as u32);
        }
        lemma_zero_iff_no_bits(bits_after);
    }
    if bits_after == 0 {
        proof {
            assert forall|j: nat| start_bit_index <= j < 32 implies !#[trigger] bit_set(
                bit_mask,
                j,
            ) by {
                assert(!bit_set(bits_after, j));
            }
        }
        None
    } else {
        let i = bits_after.trailing_zeros();
        proof {
            vstd::std_specs::bits::axiom_u32_trailing_zeros(bits_after);
            let y = bits_after >> i;
            assert(y & 1u32 == 1u32);
            assert(bit_set(bits_after, i as nat));
            assert(i >= start_bit_index);
            assert(bit_set(bit_mask, i as nat));
            assert forall|j: nat| start_bit_index <= j < i implies !#[trigger] bit_set(
                bit_mask,
                j,
            ) by {
                let k = j as u32;
                assert((bits_after >> k) & 1u32 == 0u32);
                assert(!bit_set(bits_after, j));
            }
        }
        Some(i)
    }
}

/// The highest bit that is set in a nonzero word (its base 2 logarithm).
fn highest_set_bit(x: u32) -> (r: u32)
    requires
        x != 0,
    ensures
        r < 32,
        bit_set(x, r as nat),
        forall|j: nat| r < j < 32 ==> !#[trigger] bit_set(x, j),
{
    proof {
        vstd::std_specs::bits::axiom_u32_leading_zeros(x);
    }
    let r = 31 - x.leading_zeros();
    proof {
        let lz = x.leading_zeros();
        let y = x >> r;
        assert(y & 1u32 != 0u32 ==> y & 1u32 == 1u32) by (bit_vector);
        assert(bit_set(x, r as nat));
        assert forall|j: nat| r < j < 32 implies !#[trigger] bit_set(x, j) by {
            let k = j as u32;
            assert((x >> k) & 1u32 == 0u32);
        }
    }
    r
}

/// Setting bit `i` of a word.
proof fn lemma_set_bit(x: u32, i: u32)
    requires
        i < 32,
    ensures
        forall|j: nat| #[trigger] bit_set(x | (1u32 << i), j) == (j == i || bit_set(x, j)),
{
    assert forall|j: nat| #[trigger] bit_set(x | (1u32 << i), j) == (j == i || bit_set(x, j)) by {
        if j < 32 {
            let k = j as u32;
            assert(((x | (1u32 << i)) >> k) & 1u32 == (if k == i {
                1u32
            } else {
                (x >> k) & 1u32
            })) by (bit_vector)
                requires
                    i < 32,
                    k < 32,
            ;
        }
    }
}

/// Clearing bit `i` of a word.
proof fn lemma_clear_bit(x: u32, i: u32)
    requires
        i < 32,
    ensures
        forall|j: nat| #[trigger] bit_set(x & !(1u32 << i), j) == (j != i && bit_set(x, j)),
{
    assert forall|j: nat| #[trigger] bit_set(x & !(1u32 << i), j) == (j != i && bit_set(x, j)) by {
        if j < 32 {
            let k = j as u32;
            assert(((x & !(1u32 << i)) >> k) & 1u32 == (if k == i {
                0u32
            } else {
                (x >> k) & 1u32
            })) by (bit_vector)
                requires
                    i < 32,
                    k < 32,
            ;
        }
    }
}

/// Setting bit `i` of a byte.
proof fn lemma_set_bit8(x: u8, i: u32)
    requires
        i < 8,
    ensures
        forall|j: nat| #[trigger] bit_set((x | (1u8 << i)) as u32, j) == (j == i || bit_set(x as u32, j)),
{
    assert forall|j: nat| #[trigger] bit_set((x | (1u8 << i)) as u32, j) == (j == i || bit_set(
        x as u32,
        j,
    )) by {
        if j < 32 {
            let k = j as u32;
            assert((((x | (1u8 << i)) as u32) >> k) & 1u32 == (if k == i {
                1u32
            } else {
                ((x as u32) >> k) & 1u32
            })) by (bit_vector)
                requires
                    i < 8,
                    k < 32,
            ;
        }
    }
}

/// Clearing bit `i` of a byte.
proof fn lemma_clear_bit8(x: u8, i: u32)
    requires
        i < 8,
    ensures
        forall|j: nat| #[trigger] bit_set((x & !(1u8 << i)) as u32, j) == (j != i && bit_set(x as u32, j)),
{
    assert forall|j: nat| #[trigger] bit_set((x & !(1u8 << i)) as u32, j) == (j != i && bit_set(
        x as u32,
        j,
    )) by {
        if j < 32 {
            let k = j as u32;
            assert((((x & !(1u8 << i)) as u32) >> k) & 1u32 == (if k == i {
                0u32
            } else {
                ((x as u32) >> k) & 1u32
            })) by (bit_vector)
                requires
                    i < 8,
                    k < 32,
            ;
        }
    }
}

/// A byte is zero exactly when none of its eight bits is set.
proof fn lemma_byte_zero_iff(x: u8)
    ensures
        x == 0 <==> forall|j: nat| j < 8 ==> !#[trigger] bit_set(x as u32, j),
{
    lemma_zero_iff_no_bits(x as u32);
    assert((x as u32 == 0) == (x == 0)) by (bit_vector);
    if x != 0 {
        let j = choose|j: nat| j < 32 && #[trigger] bit_set(x as u32, j);
        if j >= 8 {
            lemma_byte_bits(x, j);
        }
    }
}

/// A map from each bin to the node at the head of the linked list for that
/// bin, with a bitmap of the bins whose list is not empty.
pub struct BinsMap<NI: NodeIndex> {
    /// Bit `t` is set when top bin `t` holds an occupied leaf bin.
    occupied_bins_top: u32,
    /// Bit `l` of entry `t` is set when bin `8 * t + l` is occupied.
    occupied_bins: [u8; NUM_TOP_BINS],
    /// The head of the list of each of the 256 bins.
    head_nodes: Vec<NodeIndexOption<NI>>,
}

impl<NI: NodeIndex> Default for BinsMap<NI> {
    /// An empty map: no bin is occupied and every head is `None`.
    fn default() -> (r: Self)
        ensures
            r.wf(),
            forall|b: nat| !#[trigger] r.is_occupied(b),
            forall|b: nat| b < NUM_BINS ==> #[trigger] r.head(b) == None::<nat>,
    {
        Self::new()
    }
}

impl<NI: NodeIndex> BinsMap<NI> {
    /// The two levels of the bitmap agree, and there is a head per bin.
    pub closed spec fn wf(self) -> bool {
        &&& self.heads().len() == NUM_BINS
        &&& forall|t: nat|
            t < 32 ==> (#[trigger] bit_set(self.occupied_bins_top, t) <==> self.occupied_bins[t as int]
                != 0)
    }

    /// Whether bin `b` is marked occupied.
    pub closed spec fn is_occupied(self, b: nat) -> bool {
        b < NUM_BINS && bit_set(self.occupied_bins[(b / 8) as int] as u32, b % 8)
    }

    /// The head entries of the 256 bins.
    pub closed spec fn heads(self) -> Seq<NodeIndexOption<NI>> {
        self.head_nodes@
    }

    /// The head of the list of bin `b`.
    pub open spec fn head(self, b: nat) -> Option<nat> {
        self.heads()[b as int]@
    }

    /// The raw head entry of bin `b`.
    pub open spec fn head_entry(self, b: nat) -> NodeIndexOption<NI> {
        self.heads()[b as int]
    }

    /// A well-formed map has a head entry per bin.
    pub proof fn lemma_heads_len(self)
        requires
            self.wf(),
        ensures
            self.heads().len() == NUM_BINS,
    {
    }

    /// An empty map: no bin is occupied and every head is `None`.
    pub fn new() -> (r: Self)
        ensures
            r.wf(),
            forall|b: nat| !#[trigger] r.is_occupied(b),
            forall|b: nat| b < NUM_BINS ==> #[trigger] r.head(b) == None::<nat>,
    {
        let mut head_nodes: Vec<NodeIndexOption<NI>> = Vec::new();
        let mut i: usize = 0;
        while i < NUM_BINS
            invariant
                i <= NUM_BINS,
                head_nodes@.len() == i,
                forall|b: int| 0 <= b < i ==> #[trigger] head_nodes@[b]@ == None::<nat>,
            decreases NUM_BINS - i,
        {
            head_nodes.push(NodeIndexOption::none());
            i += 1;
        }
        let r = BinsMap { occupied_bins_top: 0, occupied_bins: [0u8; NUM_TOP_BINS], head_nodes };
        proof {
            lemma_zero_iff_no_bits(0u32);
            assert forall|b: nat| !#[trigger] r.is_occupied(b) by {
                if b < NUM_BINS {
                    lemma_zero_iff_no_bits(0u32);
                    assert(r.occupied_bins[(b / 8) as int] == 0);
                    assert(!bit_set(0u32, b % 8));
                }
            }
        }
        r
    }

    /// The bin index of `min` split into its top and leaf parts.
    proof fn lemma_split(b: u32)
        requires
            b < 256,
        ensures
            b >> 3u32 == b / 8,
            b & 7u32 == b % 8,
            b >> 3u32 < 32,
    {
        assert(b >> 3u32 == b / 8 && b & 7u32 == b % 8) by (bit_vector);
    }

    /// The lowest occupied bin at or above `min`, if any. A search that has
    /// to go past the last top bin (`min` in it, and none of its bins from
    /// `min` on occupied) is out of range of the bit scan.
    pub fn min_occupied_since(&self, min: SmallFloat) -> (r: Option<SmallFloat>)
        requires
            self.wf(),
            min@ < 248 || exists|k: nat| min@ <= k && #[trigger] self.is_occupied(k),
        ensures
            match r {
                Some(b) => {
                    &&& min@ <= b@ < NUM_BINS
                    &&& self.is_occupied(b@)
                    &&& forall|k: nat| min@ <= k < b@ ==> !#[trigger] self.is_occupied(k)
                },
                None => forall|k: nat| min@ <= k ==> !#[trigger] self.is_occupied(k),
            },
    {
        proof {
            Self::lemma_split(min@ as u32);
        }
        let min_top_bin_index = min.reinterpret_as_u32() >> TOP_BINS_INDEX_SHIFT;
        let min_leaf_bin_index = min.reinterpret_as_u32() & LEAF_BINS_INDEX_MASK;

        let mut top_bin_index = min_top_bin_index;
        let mut leaf_bin_index: Option<u32> = None;

        // If top bin exists, scan its leaf bin. This can fail (no space).
        if (self.occupied_bins_top & (1u32 << top_bin_index)) != 0 {
            leaf_bin_index = find_lowest_bit_set_after(
                self.occupied_bins[top_bin_index as usize] as u32,
                min_leaf_bin_index,
            );
        }
        proof {
            // When the leaf scan failed, no bin of the top bin at or above
            // `min` is occupied.
            if leaf_bin_index is None {
                let t = min_top_bin_index;
                let ob = self.occupied_bins[t as int];
                let y = self.occupied_bins_top;
                assert((y & (1u32 << t)) != 0 <==> (y >> t) & 1u32 == 1u32) by (bit_vector)
                    requires
                        t < 32,
                ;
                if !bit_set(y, t as nat) {
                    lemma_byte_zero_iff(ob);
                }
                assert forall|k: nat| min@ <= k < 8 * t + 8 implies !#[trigger] self.is_occupied(
                    k,
                ) by {
                    assert(k / 8 == t && k % 8 >= min_leaf_bin_index);
                }
            }
        }

        // If we didn't find space in top bin, we search top bin from +1
        let leaf_bin_index = match leaf_bin_index {
            Some(leaf_bin_index) => leaf_bin_index,
            None => {
                proof {
                    if min_top_bin_index == 31 {
                        let k = choose|k: nat| min@ <= k && #[trigger] self.is_occupied(k);
                        assert(!self.is_occupied(k));
                    }
                }
                top_bin_index = match find_lowest_bit_set_after(
                    self.occupied_bins_top,
                    min_top_bin_index + 1,
                ) {
                    Some(t) => t,
                    None => {
                        proof {
                            assert forall|k: nat| min@ <= k implies !#[trigger] self.is_occupied(
                                k,
                            ) by {
                                if k >= 8 * min_top_bin_index + 8 && k < NUM_BINS {
                                    let t = k / 8;
                                    assert(!bit_set(self.occupied_bins_top, t));
                                    lemma_byte_zero_iff(self.occupied_bins[t as int]);
                                }
                            }
                        }
                        return None;
                    },
                };
                // All leaf bins here fit, since the top bin was rounded up:
                // the leaf search starts from bit 0 and cannot fail, since
                // the top bit was set.
                let ob = self.occupied_bins[top_bin_index as usize];
                proof {
                    lemma_byte_zero_iff(ob);
                    vstd::std_specs::bits::axiom_u8_trailing_zeros(ob);
                    let tz = ob.trailing_zeros();
                    assert(tz < 8);
                    assert(bit_set(ob as u32, tz as nat)) by {
                        assert(((ob >> (tz as u8)) & 1u8 == 1u8) ==> (((ob as u32) >> tz) & 1u32
                            == 1u32)) by (bit_vector)
                            requires
                                tz < 8,
                        ;
                    }
                    assert forall|j: nat| j < tz implies !#[trigger] bit_set(ob as u32, j) by {
                        let k = j as u8;
                        assert((ob >> k) & 1u8 == 0u8);
                        let kk = j as u32;
                        assert(((ob >> k) & 1u8 == 0u8) ==> (((ob as u32) >> kk) & 1u32 == 0u32))
                            by (bit_vector)
                            requires
                                k < 8,
                                kk == k,
                        ;
                    }
                    let t = top_bin_index;
                    assert forall|k: nat|
                        8 * min_top_bin_index + 8 <= k < 8 * t implies !#[trigger] self.is_occupied(
                        k,
                    ) by {
                        let tt = k / 8;
                        assert(!bit_set(self.occupied_bins_top, tt));
                        lemma_byte_zero_iff(self.occupied_bins[tt as int]);
                    }
                    assert forall|k: nat| 8 * t <= k < 8 * t + tz implies !#[trigger] self.is_occupied(
                        k,
                    ) by {
                        assert(k / 8 == t);
                    }
                }
                ob.trailing_zeros()
            },
        };
        proof {
            assert(top_bin_index < 32);
            assert(bit_set(self.occupied_bins[top_bin_index as int] as u32, leaf_bin_index as nat));
            if leaf_bin_index >= 8 {
                lemma_byte_bits(self.occupied_bins[top_bin_index as int], leaf_bin_index as nat);
            }
            assert((top_bin_index << 3u32) | leaf_bin_index == 8 * top_bin_index + leaf_bin_index)
                by (bit_vector)
                requires
                    top_bin_index < 32,
                    leaf_bin_index < 8,
            ;
            let b = (8 * top_bin_index + leaf_bin_index) as nat;
            assert(b / 8 == top_bin_index && b % 8 == leaf_bin_index);
        }
        Some(SmallFloat::reinterpret_u32((top_bin_index << TOP_BINS_INDEX_SHIFT) | leaf_bin_index))
    }

    /// The highest occupied bin, if any.
    pub fn max_occupied(&self) -> (r: Option<SmallFloat>)
        requires
            self.wf(),
        ensures
            match r {
                Some(b) => {
                    &&& b@ < NUM_BINS
                    &&& self.is_occupied(b@)
                    &&& forall|k: nat| b@ < k ==> !#[trigger] self.is_occupied(k)
                },
                None => forall|k: nat| !#[trigger] self.is_occupied(k),
            },
    {
        if self.occupied_bins_top == 0 {
            proof {
                lemma_zero_iff_no_bits(0u32);
                assert forall|k: nat| !#[trigger] self.is_occupied(k) by {
                    if k < NUM_BINS {
                        let t = k / 8;
                        assert(!bit_set(self.occupied_bins_top, t));
                        lemma_byte_zero_iff(self.occupied_bins[t as int]);
                    }
                }
            }
            return None;
        }
        let top_bin_index = highest_set_bit(self.occupied_bins_top);
        let ob = self.occupied_bins[top_bin_index as usize];
        proof {
            assert(bit_set(self.occupied_bins_top, top_bin_index as nat));
            lemma_byte_zero_iff(ob);
            assert((ob as u32 == 0) == (ob == 0)) by (bit_vector);
        }
        let leaf_bin_index = highest_set_bit(ob as u32);
        proof {
            if leaf_bin_index >= 8 {
                lemma_byte_bits(ob, leaf_bin_index as nat);
            }
            assert((top_bin_index << 3u32) | leaf_bin_index == 8 * top_bin_index + leaf_bin_index)
                by (bit_vector)
                requires
                    top_bin_index < 32,
                    leaf_bin_index < 8,
            ;
            let b = (8 * top_bin_index + leaf_bin_index) as nat;
            assert(b / 8 == top_bin_index && b % 8 == leaf_bin_index);
            assert forall|k: nat| b < k implies !#[trigger] self.is_occupied(k) by {
                if k < NUM_BINS {
                    let t = k / 8;
                    if t > top_bin_index {
                        assert(!bit_set(self.occupied_bins_top, t));
                        lemma_byte_zero_iff(self.occupied_bins[t as int]);
                    }
                }
            }
        }
        Some(SmallFloat::reinterpret_u32((top_bin_index << TOP_BINS_INDEX_SHIFT) | leaf_bin_index))
    }

    /// Marks bin `bin_index` empty; the heads are unchanged.
    pub fn mark_bin_empty(&mut self, bin_index: SmallFloat)
        requires
            old(self).wf(),
        ensures
            final(self).wf(),
            forall|k: nat| #[trigger] final(self).is_occupied(k) == (k != bin_index@ && old(self).is_occupied(k)),
            final(self).heads() == old(self).heads(),
    {
        proof {
            Self::lemma_split(bin_index@ as u32);
        }
        let top_bin_index = bin_index.reinterpret_as_u32() >> TOP_BINS_INDEX_SHIFT;
        let leaf_bin_index = bin_index.reinterpret_as_u32() & LEAF_BINS_INDEX_MASK;
        let ghost old_ob = self.occupied_bins[top_bin_index as int];

        // Remove a leaf bin mask bit
        let ob = self.occupied_bins[top_bin_index as usize] & !(1u8 << leaf_bin_index);
        self.occupied_bins[top_bin_index as usize] = ob;
        proof {
            lemma_clear_bit8(old_ob, leaf_bin_index);
            lemma_byte_zero_iff(old_ob);
            lemma_byte_zero_iff(ob);
        }

        // All leaf bins empty?
        if self.occupied_bins[top_bin_index as usize] == 0 {
            // Remove a top bin mask bit
            proof {
                lemma_clear_bit(self.occupied_bins_top, top_bin_index);
            }
            self.occupied_bins_top = self.occupied_bins_top & !(1u32 << top_bin_index);
        }
        proof {
            assert forall|k: nat| #[trigger] self.is_occupied(k) == (k != bin_index@ && old(
                self,
            ).is_occupied(k)) by {
                if k < NUM_BINS && k / 8 == top_bin_index {
                    assert(k % 8 == leaf_bin_index ==> k == bin_index@);
                }
            }
        }
    }

    /// Marks bin `bin_index` occupied; the heads are unchanged.
    pub fn mark_bin_occupied(&mut self, bin_index: SmallFloat)
        requires
            old(self).wf(),
        ensures
            final(self).wf(),
            forall|k: nat| #[trigger] final(self).is_occupied(k) == (k == bin_index@ || old(self).is_occupied(k)),
            final(self).heads() == old(self).heads(),
    {
        proof {
            Self::lemma_split(bin_index@ as u32);
        }
        let top_bin_index = bin_index.reinterpret_as_u32() >> TOP_BINS_INDEX_SHIFT;
        let leaf_bin_index = bin_index.reinterpret_as_u32() & LEAF_BINS_INDEX_MASK;
        let ghost old_ob = self.occupied_bins[top_bin_index as int];

        // Set bin mask bits
        let ob = self.occupied_bins[top_bin_index as usize] | (1u8 << leaf_bin_index);
        self.occupied_bins[top_bin_index as usize] = ob;
        proof {
            lemma_set_bit8(old_ob, leaf_bin_index);
            lemma_set_bit(self.occupied_bins_top, top_bin_index);
            lemma_byte_zero_iff(ob);
            assert(bit_set(ob as u32, leaf_bin_index as nat));
        }
        self.occupied_bins_top = self.occupied_bins_top | (1u32 << top_bin_index);
        proof {
            assert forall|k: nat| #[trigger] self.is_occupied(k) == (k == bin_index@ || old(
                self,
            ).is_occupied(k)) by {
                if k < NUM_BINS && k / 8 == top_bin_index {
                    assert(k % 8 == leaf_bin_index ==> k == bin_index@);
                }
            }
        }
    }

    /// The head entry of bin `bin_index`.
    pub fn get_head(&self, bin_index: SmallFloat) -> (r: NodeIndexOption<NI>)
        requires
            self.wf(),
        ensures
            r == self.head_entry(bin_index@),
    {
        self.head_nodes[bin_index.0 as usize]
    }

    /// Sets the head entry of bin `bin_index`; the bitmap is unchanged.
    pub fn set_head(&mut self, bin_index: SmallFloat, head: NodeIndexOption<NI>)
        requires
            old(self).wf(),
        ensures
            final(self).wf(),
            final(self).heads() == old(self).heads().update(bin_index@ as int, head),
            forall|k: nat| #[trigger] final(self).is_occupied(k) == old(self).is_occupied(k),
    {
        self.head_nodes.set(bin_index.0 as usize, head);
    }
}

} // verus!
