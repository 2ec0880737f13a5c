//! The abstract state of an allocator and what each operation does to it.
use vstd::prelude::*;

verus! {

use crate::small_float::{spec_round_down, spec_round_up, small_float_value, lemma_round_down, lemma_round_up, lemma_small_float_value_increases, lemma_round_trip};

/// A contiguous range of the managed space, held by one node.
pub struct Region {
    /// The node that holds the region.
    pub node: nat,
    /// Where the region starts.
    pub offset: nat,
    /// How many units it spans.
    pub size: nat,
    /// Whether it is handed out (otherwise it is free and sits in a bin).
    pub used: bool,
}

/// The state of an allocator.
pub struct AllocatorModel {
    /// The number of units managed.
    pub size: nat,
    /// The number of nodes (and so the bound on the number of regions).
    pub max_allocs: nat,
    /// The free space, as the allocator accounts it.
    pub free_storage: nat,
    /// The regions in address order; they tile `[0, size)`.
    pub regions: Seq<Region>,
    /// For each of the 256 bins, the nodes of its free regions, head first.
    pub bins: Seq<Seq<nat>>,
    /// The stack of nodes that hold no region; the last is taken first.
    pub spare: Seq<nat>,
}

/// The number of bins.
pub open spec fn num_bins() -> nat {
    256
}

/// The bin of a free region of `size` units: its size rounded down to the
/// small-float scale.
pub open spec fn bin_of(size: nat) -> nat {
    spec_round_down(size as u32)
}

/// What a region counts for in a total: all of it, or (for the free total)
/// nothing when it is used.
pub open spec fn region_weight(r: Region, free_only: bool) -> nat {
    if free_only && r.used {
        0
    } else {
        r.size
    }
}

/// The total size of the regions of `s` (of its free regions only, when
/// `free_only`).
pub open spec fn total_size(s: Seq<Region>, free_only: bool) -> nat
    decreases s.len(),
{
    if s.len() == 0 {
        0
    } else {
        total_size(s.drop_last(), free_only) + region_weight(s.last(), free_only)
    }
}

/// Totals add up over concatenation.
pub proof fn lemma_total_concat(a: Seq<Region>, b: Seq<Region>, free_only: bool)
    ensures
        total_size(a + b, free_only) == total_size(a, free_only) + total_size(b, free_only),
    decreases b.len(),
{
    if b.len() == 0 {
        assert(a + b =~= a);
    } else {
        assert((a + b).drop_last() =~= a + b.drop_last());
        lemma_total_concat(a, b.drop_last(), free_only);
    }
}

/// The total of a one-region sequence.
pub proof fn lemma_total_single(r: Region, free_only: bool)
    ensures
        total_size(seq![r], free_only) == region_weight(r, free_only),
{
    let e = seq![r].drop_last();
    assert(e =~= Seq::<Region>::empty());
    assert(total_size(e, free_only) == 0);
    assert(seq![r].last() == r);
}

/// Splitting a sequence around index `i`.
pub proof fn lemma_total_split(s: Seq<Region>, i: int, free_only: bool)
    requires
        0 <= i < s.len(),
    ensures
        total_size(s, free_only) == total_size(s.subrange(0, i), free_only) + region_weight(
            s[i],
            free_only,
        ) + total_size(s.subrange(i + 1, s.len() as int), free_only),
{
    let a = s.subrange(0, i);
    let c = s.subrange(i + 1, s.len() as int);
    assert(s =~= a + seq![s[i]] + c);
    lemma_total_concat(a + seq![s[i]], c, free_only);
    lemma_total_concat(a, seq![s[i]], free_only);
    lemma_total_single(s[i], free_only);
}

/// Replacing region `i` changes the total by the difference of the weights.
pub proof fn lemma_total_update(s: Seq<Region>, i: int, r: Region, free_only: bool)
    requires
        0 <= i < s.len(),
    ensures
        total_size(s.update(i, r), free_only) + region_weight(s[i], free_only) == total_size(
            s,
            free_only,
        ) + region_weight(r, free_only),
{
    let t = s.update(i, r);
    lemma_total_split(s, i, free_only);
    lemma_total_split(t, i, free_only);
    assert(t.subrange(0, i) =~= s.subrange(0, i));
    assert(t.subrange(i + 1, t.len() as int) =~= s.subrange(i + 1, s.len() as int));
}

/// Inserting a region adds its weight.
pub proof fn lemma_total_insert(s: Seq<Region>, i: int, r: Region, free_only: bool)
    requires
        0 <= i <= s.len(),
    ensures
        total_size(s.insert(i, r), free_only) == total_size(s, free_only) + region_weight(
            r,
            free_only,
        ),
{
    let a = s.subrange(0, i);
    let c = s.subrange(i, s.len() as int);
    assert(s.insert(i, r) =~= a + seq![r] + c);
    assert(s =~= a + c);
    lemma_total_concat(a + seq![r], c, free_only);
    lemma_total_concat(a, seq![r], free_only);
    lemma_total_concat(a, c, free_only);
    lemma_total_single(r, free_only);
}

/// The free total never exceeds the whole total, and a used region's size
/// fits beside the free total.
pub proof fn lemma_free_within_total(s: Seq<Region>)
    ensures
        total_size(s, true) <= total_size(s, false),
        forall|i: int|
            0 <= i < s.len() && s[i].used ==> total_size(s, true) + s[i].size <= total_size(
                s,
                false,
            ),
        forall|i: int| 0 <= i < s.len() ==> s[i].size <= total_size(s, false),
        forall|i: int|
            0 <= i < s.len() && !s[i].used ==> s[i].size <= total_size(s, true),
    decreases s.len(),
{
    if s.len() > 0 {
        let t = s.drop_last();
        lemma_free_within_total(t);
        assert forall|i: int| 0 <= i < s.len() && s[i].used implies total_size(s, true)
            + s[i].size <= total_size(s, false) by {
            if i < s.len() - 1 {
                assert(t[i] == s[i]);
            }
        }
        assert forall|i: int| 0 <= i < s.len() implies s[i].size <= total_size(s, false) by {
            if i < s.len() - 1 {
                assert(t[i] == s[i]);
            }
        }
        assert forall|i: int| 0 <= i < s.len() && !s[i].used implies s[i].size <= total_size(
            s,
            true,
        ) by {
            if i < s.len() - 1 {
                assert(t[i] == s[i]);
            }
        }
    }
}

/// Two distinct free regions fit in the free total together.
pub proof fn lemma_free_pair(s: Seq<Region>, j: int, l: int)
    requires
        0 <= j < l < s.len(),
        !s[j].used,
        !s[l].used,
    ensures
        s[j].size + s[l].size <= total_size(s, true),
{
    lemma_total_split(s, l, true);
    let a = s.subrange(0, l);
    lemma_free_within_total(a);
    assert(a[j] == s[j]);
}

/// Splitting a sequence into three parts.
pub proof fn lemma_total_three(s: Seq<Region>, lo: int, hi: int, free_only: bool)
    requires
        0 <= lo <= hi <= s.len(),
    ensures
        total_size(s, free_only) == total_size(s.subrange(0, lo), free_only) + total_size(
            s.subrange(lo, hi),
            free_only,
        ) + total_size(s.subrange(hi, s.len() as int), free_only),
{
    let a = s.subrange(0, lo);
    let m = s.subrange(lo, hi);
    let c = s.subrange(hi, s.len() as int);
    assert(s =~= a + m + c);
    lemma_total_concat(a + m, c, free_only);
    lemma_total_concat(a, m, free_only);
}

/// The total of a nonempty sequence is its first weight plus the rest.
pub proof fn lemma_total_cons(s: Seq<Region>, free_only: bool)
    requires
        s.len() > 0,
    ensures
        total_size(s, free_only) == region_weight(s[0], free_only) + total_size(
            s.subrange(1, s.len() as int),
            free_only,
        ),
{
    lemma_total_split(s, 0, free_only);
    assert(s.subrange(0, 0) =~= Seq::<Region>::empty());
}

/// The total of the regions from `lo` to `hi` (at most three of them).
pub proof fn lemma_total_short(s: Seq<Region>, lo: int, hi: int, free_only: bool)
    requires
        0 <= lo < hi <= s.len(),
        hi <= lo + 3,
    ensures
        total_size(s.subrange(lo, hi), free_only) == region_weight(s[lo], free_only) + (if hi
            > lo + 1 {
            region_weight(s[lo + 1], free_only)
        } else {
            0
        }) + (if hi > lo + 2 {
            region_weight(s[lo + 2], free_only)
        } else {
            0
        }),
{
    let m = s.subrange(lo, hi);
    lemma_total_cons(m, free_only);
    let m1 = m.subrange(1, m.len() as int);
    if m1.len() > 0 {
        lemma_total_cons(m1, free_only);
        let m2 = m1.subrange(1, m1.len() as int);
        if m2.len() > 0 {
            lemma_total_cons(m2, free_only);
            assert(m2.subrange(1, m2.len() as int).len() == 0);
        } else {
            assert(m2 =~= Seq::<Region>::empty());
        }
    } else {
        assert(m1 =~= Seq::<Region>::empty());
    }
}

/// No value occurs twice in `l`.
pub open spec fn seq_distinct(l: Seq<nat>) -> bool {
    forall|j: int, k: int| 0 <= j < l.len() && 0 <= k < l.len() && j != k ==> l[j] != l[k]
}

/// Removing a value from a list without repetitions removes exactly it.
pub proof fn lemma_remove_value(l: Seq<nat>, y: nat)
    requires
        seq_distinct(l),
        l.contains(y),
    ensures
        seq_distinct(l.remove(l.index_of(y))),
        forall|x: nat| #[trigger] l.remove(l.index_of(y)).contains(x) <==> (l.contains(x) && x != y),
{
    let pos = l.index_of(y);
    let r = l.remove(pos);
    assert(l[pos] == y);
    assert forall|x: nat| #[trigger] r.contains(x) <==> (l.contains(x) && x != y) by {
        if r.contains(x) {
            let t = choose|t: int| 0 <= t < r.len() && r[t] == x;
            if t < pos {
                assert(l[t] == x);
            } else {
                assert(l[t + 1] == x);
            }
        }
        if l.contains(x) && x != y {
            let t = choose|t: int| 0 <= t < l.len() && l[t] == x;
            if t < pos {
                assert(r[t] == x);
            } else {
                assert(t != pos);
                assert(r[t - 1] == x);
            }
        }
    }
    assert forall|j: int, k: int| 0 <= j < r.len() && 0 <= k < r.len() && j != k implies r[j]
        != r[k] by {
        let jj = if j < pos {
            j
        } else {
            j + 1
        };
        let kk = if k < pos {
            k
        } else {
            k + 1
        };
        assert(l[jj] != l[kk]);
    }
}

/// A list of distinct values below `m` has at most `m` entries.
pub proof fn lemma_distinct_len(l: Seq<nat>, m: nat)
    requires
        seq_distinct(l),
        forall|j: int| 0 <= j < l.len() ==> #[trigger] l[j] < m,
    ensures
        l.len() <= m,
{
    let li = l.map_values(|x: nat| x as int);
    assert(li.no_duplicates()) by {
        assert forall|j: int, k: int| 0 <= j < li.len() && 0 <= k < li.len() && j != k implies li[j]
            != li[k] by {
            assert(l[j] != l[k]);
        }
    }
    li.unique_seq_to_set();
    vstd::set_lib::lemma_int_range(0, m as int);
    assert(li.to_set().subset_of(vstd::set_lib::set_int_range(0, m as int))) by {
        assert forall|x: int| li.to_set().contains(x) implies vstd::set_lib::set_int_range(
            0,
            m as int,
        ).contains(x) by {
            let j = choose|j: int| 0 <= j < li.len() && li[j] == x;
            assert(l[j] < m);
        }
    }
    vstd::set_lib::lemma_len_subset(li.to_set(), vstd::set_lib::set_int_range(0, m as int));
}

impl AllocatorModel {
    /// The regions tile `[0, size)` in address order.
    #[verifier::opaque]
    pub open spec fn tiled(self) -> bool {
        &&& self.regions.len() >= 1
        &&& self.regions[0].offset == 0
        &&& forall|i: int|
            0 <= i < self.regions.len() - 1 ==> #[trigger] self.regions[i].offset
                + self.regions[i].size == self.regions[i + 1].offset
        &&& self.regions.last().offset + self.regions.last().size == self.size
        &&& forall|i: int|
            0 <= i < self.regions.len() ==> #[trigger] self.regions[i].offset
                + self.regions[i].size <= self.size
        &&& total_size(self.regions, false) == self.size
    }

    /// Every node below `max_allocs` holds exactly one region or sits once in
    /// the spare stack.
    #[verifier::opaque]
    pub open spec fn nodes_partitioned(self) -> bool {
        &&& forall|i: int| 0 <= i < self.regions.len() ==> #[trigger] self.regions[i].node < self.max_allocs
        &&& forall|i: int, j: int|
            0 <= i < self.regions.len() && 0 <= j < self.regions.len() && i != j
                ==> #[trigger] self.regions[i].node != #[trigger] self.regions[j].node
        &&& forall|k: int| 0 <= k < self.spare.len() ==> #[trigger] self.spare[k] < self.max_allocs
        &&& forall|k: int, l: int|
            0 <= k < self.spare.len() && 0 <= l < self.spare.len() && k != l
                ==> #[trigger] self.spare[k] != #[trigger] self.spare[l]
        &&& forall|i: int, k: int|
            0 <= i < self.regions.len() && 0 <= k < self.spare.len()
                ==> #[trigger] self.regions[i].node != #[trigger] self.spare[k]
        &&& self.regions.len() + self.spare.len() == self.max_allocs
    }

    /// The index of the region that node `n` holds.
    pub open spec fn region_index(self, n: nat) -> int {
        choose|i: int| 0 <= i < self.regions.len() && #[trigger] self.regions[i].node == n
    }

    /// Whether node `n` holds a region.
    pub open spec fn holds_region(self, n: nat) -> bool {
        exists|i: int| 0 <= i < self.regions.len() && #[trigger] self.regions[i].node == n
    }

    /// No bin list holds a node twice.
    #[verifier::opaque]
    pub open spec fn bins_distinct(self) -> bool {
        forall|b: int, j: int, k: int|
            0 <= b < num_bins() && 0 <= j < self.bins[b].len() && 0 <= k < self.bins[b].len() && j
                != k ==> #[trigger] self.bins[b][j] != #[trigger] self.bins[b][k]
    }

    /// Every node in a bin list holds a free region of that bin's size class.
    #[verifier::opaque]
    pub open spec fn bins_entries_free(self) -> bool {
        forall|b: int, j: int|
            0 <= b < num_bins() && 0 <= j < self.bins[b].len() ==> {
                let i = self.region_index(#[trigger] self.bins[b][j]);
                &&& self.holds_region(self.bins[b][j])
                &&& !self.regions[i].used
                &&& bin_of(self.regions[i].size) == b
            }
    }

    /// Every free region is in the list of the bin of its size.
    #[verifier::opaque]
    pub open spec fn free_regions_binned(self) -> bool {
        forall|i: int|
            0 <= i < self.regions.len() && !#[trigger] self.regions[i].used ==> self.bins[bin_of(
                self.regions[i].size,
            ) as int].contains(self.regions[i].node)
    }

    /// The bins hold exactly the free regions, each in the bin of its size,
    /// with no node twice.
    pub open spec fn bins_hold_free_regions(self) -> bool {
        &&& self.bins.len() == num_bins()
        &&& self.bins_distinct()
        &&& self.bins_entries_free()
        &&& self.free_regions_binned()
    }

    /// No two neighbouring regions are both free.
    #[verifier::opaque]
    pub open spec fn coalesced(self) -> bool {
        forall|i: int|
            0 <= i < self.regions.len() - 1 ==> #[trigger] self.regions[i].used || self.regions[i
                + 1].used
    }

    /// In a state whose nodes are partitioned, the region of a node is found
    /// at the one index that names it.
    pub proof fn lemma_region_index(self, n: nat, j: int)
        requires
            self.nodes_partitioned(),
            0 <= j < self.regions.len(),
            self.regions[j].node == n,
        ensures
            self.holds_region(n),
            self.region_index(n) == j,
    {
        reveal(AllocatorModel::nodes_partitioned);
        assert(self.holds_region(n));
        let i = self.region_index(n);
        if i != j {
            assert(self.regions[i].node != self.regions[j].node);
        }
    }

    /// The lowest nonempty bin at or above `min` is the one that is nonempty
    /// with all bins between `min` and it empty.
    pub proof fn lemma_lowest_bin_from(self, min: nat, b: nat)
        requires
            min <= b < num_bins(),
            self.bins[b as int].len() > 0,
            forall|k: nat| min <= k < b ==> #[trigger] self.bins[k as int].len() == 0,
        ensures
            self.lowest_bin_from(min) == Some(b),
    {
        let c = choose|c: nat|
            min <= c < num_bins() && #[trigger] self.bins[c as int].len() > 0 && forall|k: nat|
                min <= k < c ==> #[trigger] self.bins[k as int].len() == 0;
        assert(self.bins[b as int].len() > 0);
        if c < b {
            assert(self.bins[c as int].len() == 0);
        }
        if b < c {
            assert(self.bins[b as int].len() == 0);
        }
    }

    /// The highest nonempty bin is the one that is nonempty with all bins
    /// above it empty.
    pub proof fn lemma_highest_bin(self, b: nat)
        requires
            b < num_bins(),
            self.bins[b as int].len() > 0,
            forall|k: nat| b < k < num_bins() ==> #[trigger] self.bins[k as int].len() == 0,
        ensures
            self.highest_bin() == Some(b),
    {
        let c = choose|c: nat|
            c < num_bins() && #[trigger] self.bins[c as int].len() > 0 && forall|k: nat|
                c < k < num_bins() ==> #[trigger] self.bins[k as int].len() == 0;
        assert(self.bins[b as int].len() > 0);
        if c < b {
            assert(self.bins[b as int].len() == 0);
        }
        if b < c {
            assert(self.bins[c as int].len() == 0);
        }
    }

    /// When some bin at or above `min` is nonempty, a lowest one exists.
    proof fn lemma_least_nonempty(self, min: nat, w: nat)
        requires
            min <= w < num_bins(),
            self.bins[w as int].len() > 0,
        ensures
            exists|b: nat|
                min <= b < num_bins() && #[trigger] self.bins[b as int].len() > 0 && forall|k: nat|
                    min <= k < b ==> #[trigger] self.bins[k as int].len() == 0,
        decreases w - min,
    {
        if exists|k: nat| min <= k < w && #[trigger] self.bins[k as int].len() > 0 {
            let k = choose|k: nat| min <= k < w && #[trigger] self.bins[k as int].len() > 0;
            self.lemma_least_nonempty(min, k);
        } else {
            assert(self.bins[w as int].len() > 0);
        }
    }

    /// When some bin is nonempty, a highest one exists.
    proof fn lemma_greatest_nonempty(self, w: nat)
        requires
            w < num_bins(),
            self.bins[w as int].len() > 0,
        ensures
            exists|b: nat|
                b < num_bins() && #[trigger] self.bins[b as int].len() > 0 && forall|k: nat|
                    b < k < num_bins() ==> #[trigger] self.bins[k as int].len() == 0,
        decreases num_bins() - w,
    {
        if exists|k: nat| w < k < num_bins() && #[trigger] self.bins[k as int].len() > 0 {
            let k = choose|k: nat| w < k < num_bins() && #[trigger] self.bins[k as int].len() > 0;
            self.lemma_greatest_nonempty(k);
        } else {
            assert(self.bins[w as int].len() > 0);
        }
    }

    /// What `lowest_bin_from` gives.
    pub proof fn lemma_lowest_bin_props(self, min: nat)
        ensures
            match self.lowest_bin_from(min) {
                Some(b) => {
                    &&& min <= b < num_bins()
                    &&& self.bins[b as int].len() > 0
                    &&& forall|k: nat| min <= k < b ==> #[trigger] self.bins[k as int].len() == 0
                },
                None => forall|k: nat| min <= k < num_bins() ==> #[trigger] self.bins[k as int].len() == 0,
            },
    {
        if exists|b: nat| min <= b < num_bins() && #[trigger] self.bins[b as int].len() > 0 {
            let w = choose|b: nat| min <= b < num_bins() && #[trigger] self.bins[b as int].len() > 0;
            self.lemma_least_nonempty(min, w);
        }
    }

    /// What `highest_bin` gives.
    pub proof fn lemma_highest_bin_props(self)
        ensures
            match self.highest_bin() {
                Some(b) => {
                    &&& b < num_bins()
                    &&& self.bins[b as int].len() > 0
                    &&& forall|k: nat| b < k < num_bins() ==> #[trigger] self.bins[k as int].len() == 0
                },
                None => forall|k: nat| k < num_bins() ==> #[trigger] self.bins[k as int].len() == 0,
            },
    {
        if exists|b: nat| b < num_bins() && #[trigger] self.bins[b as int].len() > 0 {
            let w = choose|b: nat| b < num_bins() && #[trigger] self.bins[b as int].len() > 0;
            self.lemma_greatest_nonempty(w);
        }
    }

    /// The region that an allocation takes is free, of the allocation bin's
    /// size class, and large enough.
    pub proof fn lemma_allocation_fits(self, size: u32)
        requires
            self.wf(),
            self.allocation_bin(size) is Some,
        ensures
            ({
                let b = self.allocation_bin(size)->0;
                let n = self.bins[b as int][0];
                let i = self.region_index(n);
                &&& spec_round_up(size) <= b < num_bins()
                &&& self.bins[b as int].len() > 0
                &&& self.holds_region(n)
                &&& 0 <= i < self.regions.len()
                &&& self.regions[i].node == n
                &&& !self.regions[i].used
                &&& bin_of(self.regions[i].size) == b
                &&& size <= self.regions[i].size
                &&& self.spare.len() > 0
            }),
    {
        reveal(AllocatorModel::tiled);
        reveal(AllocatorModel::bins_distinct);
        reveal(AllocatorModel::bins_entries_free);
        reveal(AllocatorModel::free_regions_binned);
        let min = spec_round_up(size);
        self.lemma_lowest_bin_props(min);
        let b = self.allocation_bin(size)->0;
        let n = self.bins[b as int][0];
        assert(self.holds_region(n));
        let i = self.region_index(n);
        let total = self.regions[i].size;
        assert(total <= u32::MAX) by {
            assert(self.regions[i].offset + self.regions[i].size <= self.size);
        }
        lemma_round_down(total as u32);
        lemma_round_up(size);
        if min < b {
            lemma_small_float_value_increases(min, b);
        }
    }

    /// Bounds on region `i` of a working allocator.
    pub proof fn lemma_region_bounds(self, i: int)
        requires
            self.wf(),
            0 <= i < self.regions.len(),
        ensures
            self.regions[i].offset + self.regions[i].size <= self.size <= u32::MAX,
            !self.regions[i].used ==> self.regions[i].size <= self.free_storage,
            self.regions[i].used ==> self.free_storage + self.regions[i].size <= self.size,
            self.free_storage <= self.size,
    {
        reveal(AllocatorModel::tiled);
        lemma_free_within_total(self.regions);
    }

    /// The top spare node of a working allocator holds no region and sits in
    /// no bin.
    pub proof fn lemma_spare_top(self)
        requires
            self.wf(),
            self.spare.len() > 0,
        ensures
            self.spare.last() < self.max_allocs,
            forall|i: int| 0 <= i < self.regions.len() ==> #[trigger] self.regions[i].node != self.spare.last(),
            forall|b: int, j: int|
                0 <= b < num_bins() && 0 <= j < self.bins[b].len() ==> #[trigger] self.bins[b][j]
                    != self.spare.last(),
    {
        reveal(AllocatorModel::nodes_partitioned);
        reveal(AllocatorModel::bins_distinct);
        reveal(AllocatorModel::bins_entries_free);
        reveal(AllocatorModel::free_regions_binned);
        let t = self.spare.len() - 1;
        assert(self.spare[t] == self.spare.last());
        assert forall|b: int, j: int|
            0 <= b < num_bins() && 0 <= j < self.bins[b].len() implies #[trigger] self.bins[b][j]
                != self.spare.last() by {
            let x = self.bins[b][j];
            assert(self.holds_region(x));
            let i = self.region_index(x);
            assert(self.regions[i].node != self.spare[t]);
        }
    }

    /// When an allocation finds a bin, it gets the head node of that bin and
    /// the offset of its region.
    pub proof fn lemma_allocation_is(self, size: u32, b: nat)
        requires
            self.allocation_bin(size) == Some(b),
        ensures
            self.allocation(size) == Some(
                (
                    self.bins[b as int][0],
                    self.regions[self.region_index(self.bins[b as int][0])].offset,
                ),
            ),
    {
        reveal(AllocatorModel::allocation);
    }

    /// When an allocation finds no bin, it gets nothing and changes nothing.
    pub proof fn lemma_no_allocation(self, size: u32)
        requires
            self.allocation_bin(size) is None,
        ensures
            self.allocation(size) is None,
            self.after_allocate(size) == self,
    {
        reveal(AllocatorModel::allocation);
        reveal(AllocatorModel::after_allocate);
    }

    /// Allocating keeps a working allocator working.
    pub proof fn lemma_after_allocate_wf(self, size: u32)
        requires
            self.wf(),
        ensures
            self.after_allocate(size).wf(),
    {
        if self.allocation_bin(size) is None {
            self.lemma_no_allocation(size);
        } else {
            let b = self.allocation_bin(size)->0;
            self.lemma_allocation_fits(size);
            let n = self.bins[b as int][0];
            let i = self.region_index(n);
            self.lemma_region_bounds(i);
            let r = self.regions[i];
            assert(self.allocation_setting(size, b, i));
            if r.size - size > 0 {
                self.lemma_split_tiled(size, b, i);
                self.lemma_split_partitioned(size, b, i);
                self.lemma_split_bin_source(size, b, i);
                self.lemma_split_bins_distinct(size, b, i);
                self.lemma_split_bins_entries(size, b, i);
                self.lemma_split_binned(size, b, i);
                self.lemma_split_rest(size, b, i);
            } else {
                self.lemma_whole_wf(size, b, i);
            }
        }
    }

    /// The regions after an allocation that splits region `i`.
    pub open spec fn split_regions(self, size: u32, i: int) -> Seq<Region> {
        let r = self.regions[i];
        let used = Region { node: r.node, offset: r.offset, size: size as nat, used: true };
        let rest = Region {
            node: self.spare.last(),
            offset: (r.offset + size) as nat,
            size: (r.size - size) as nat,
            used: false,
        };
        self.regions.update(i, used).insert(i + 1, rest)
    }

    /// The facts that the allocation lemmas start from.
    pub open spec fn allocation_setting(self, size: u32, b: nat, i: int) -> bool {
        &&& self.wf()
        &&& self.allocation_bin(size) == Some(b)
        &&& b < num_bins()
        &&& self.bins[b as int].len() > 0
        &&& i == self.region_index(self.bins[b as int][0])
        &&& 0 <= i < self.regions.len()
        &&& self.regions[i].node == self.bins[b as int][0]
        &&& !self.regions[i].used
        &&& bin_of(self.regions[i].size) == b
        &&& size <= self.regions[i].size
        &&& self.spare.len() > 0
        &&& self.regions[i].offset + self.regions[i].size <= self.size <= u32::MAX
        &&& self.regions[i].size <= self.free_storage
    }

    /// Indexing the regions after a split.
    proof fn lemma_split_index(self, size: u32, i: int)
        requires
            0 <= i < self.regions.len(),
        ensures
            ({
                let s2 = self.split_regions(size, i);
                let r = self.regions[i];
                &&& s2.len() == self.regions.len() + 1
                &&& forall|j: int| 0 <= j < i ==> #[trigger] s2[j] == self.regions[j]
                &&& s2[i] == Region { node: r.node, offset: r.offset, size: size as nat, used: true }
                &&& s2[i + 1] == Region {
                    node: self.spare.last(),
                    offset: (r.offset + size) as nat,
                    size: (r.size - size) as nat,
                    used: false,
                }
                &&& forall|j: int| i + 1 < j < s2.len() ==> #[trigger] s2[j] == self.regions[j - 1]
            }),
    {
        let r = self.regions[i];
        let used = Region { node: r.node, offset: r.offset, size: size as nat, used: true };
        let rest = Region {
            node: self.spare.last(),
            offset: (r.offset + size) as nat,
            size: (r.size - size) as nat,
            used: false,
        };
        let s1 = self.regions.update(i, used);
        s1.insert_ensures(i + 1, rest);
        let s2 = self.split_regions(size, i);
        assert forall|j: int| i + 1 < j < s2.len() implies #[trigger] s2[j] == self.regions[j - 1] by {
            assert(s2[j] == s1[j - 1]);
        }
    }

    #[verifier::spinoff_prover]
    proof fn lemma_split_tiled(self, size: u32, b: nat, i: int)
        requires
            self.allocation_setting(size, b, i),
            self.regions[i].size - size > 0,
        ensures
            self.after_allocate(size).tiled(),
    {
        reveal(AllocatorModel::after_allocate);
        reveal(AllocatorModel::tiled);
        let m2 = self.after_allocate(size);
        let s2 = m2.regions;
        let r = self.regions[i];
        assert(s2 == self.split_regions(size, i));
        self.lemma_split_index(size, i);
        let len = self.regions.len() as int;
        assert forall|j: int| 0 <= j < s2.len() - 1 implies #[trigger] s2[j].offset + s2[j].size
            == s2[j + 1].offset by {
            if j < i - 1 {
                assert(self.regions[j].offset + self.regions[j].size == self.regions[j + 1].offset);
            } else if j == i - 1 {
                assert(self.regions[j].offset + self.regions[j].size == self.regions[j + 1].offset);
            } else if j == i + 1 {
                assert(r.offset + r.size == self.regions[i + 1].offset);
            } else if j > i + 1 {
                assert(self.regions[j - 1].offset + self.regions[j - 1].size == self.regions[j].offset);
            }
        }
        assert forall|j: int| 0 <= j < s2.len() implies #[trigger] s2[j].offset + s2[j].size
            <= m2.size by {
            if j < i {
                assert(self.regions[j].offset + self.regions[j].size <= self.size);
            } else if j > i + 1 {
                assert(self.regions[j - 1].offset + self.regions[j - 1].size <= self.size);
            }
        }
        if i == len - 1 {
            assert(s2.last() == s2[i + 1]);
        } else {
            assert(s2.last() == s2[len]);
            assert(self.regions.last() == self.regions[len - 1]);
        }
        let used = Region { node: r.node, offset: r.offset, size: size as nat, used: true };
        let rest = s2[i + 1];
        crate::model::lemma_total_update(self.regions, i, used, false);
        crate::model::lemma_total_insert(self.regions.update(i, used), i + 1, rest, false);
    }

    #[verifier::spinoff_prover]
    proof fn lemma_split_partitioned(self, size: u32, b: nat, i: int)
        requires
            self.allocation_setting(size, b, i),
            self.regions[i].size - size > 0,
        ensures
            self.after_allocate(size).nodes_partitioned(),
    {
        reveal(AllocatorModel::after_allocate);
        reveal(AllocatorModel::nodes_partitioned);
        let m2 = self.after_allocate(size);
        let s2 = m2.regions;
        assert(s2 == self.split_regions(size, i));
        self.lemma_split_index(size, i);
        let k = self.spare.last();
        let t = self.spare.len() - 1;
        assert(self.spare[t] == k);
        // old index of each new region
        let src = |j: int|
            if j <= i {
                j
            } else {
                j - 1
            };
        assert forall|j: int| 0 <= j < s2.len() && j != i + 1 implies #[trigger] s2[j].node
            == self.regions[src(j)].node by {}
        assert forall|j: int| 0 <= j < s2.len() implies #[trigger] s2[j].node < m2.max_allocs by {
            if j != i + 1 {
                assert(s2[j].node == self.regions[src(j)].node);
            }
        }
        assert forall|j: int, l: int|
            0 <= j < s2.len() && 0 <= l < s2.len() && j != l implies #[trigger] s2[j].node
            != #[trigger] s2[l].node by {
            if j == i + 1 {
                assert(self.regions[src(l)].node != self.spare[t]);
            } else if l == i + 1 {
                assert(self.regions[src(j)].node != self.spare[t]);
            } else {
                assert(self.regions[src(j)].node != self.regions[src(l)].node);
            }
        }
        assert forall|j: int, q: int|
            0 <= j < s2.len() && 0 <= q < m2.spare.len() implies #[trigger] s2[j].node
            != #[trigger] m2.spare[q] by {
            assert(m2.spare[q] == self.spare[q]);
            if j == i + 1 {
                assert(self.spare[q] != self.spare[t]);
            } else {
                assert(self.regions[src(j)].node != self.spare[q]);
            }
        }
        assert forall|q: int, p: int|
            0 <= q < m2.spare.len() && 0 <= p < m2.spare.len() && q != p implies #[trigger] m2.spare[q]
            != #[trigger] m2.spare[p] by {
            assert(self.spare[q] != self.spare[p]);
        }
        assert forall|q: int| 0 <= q < m2.spare.len() implies #[trigger] m2.spare[q] < m2.max_allocs by {
            assert(m2.spare[q] == self.spare[q]);
        }
    }

    /// Where an entry of a bin list after a split comes from.
    proof fn lemma_split_bin_source(self, size: u32, b: nat, i: int)
        requires
            self.allocation_setting(size, b, i),
            self.regions[i].size - size > 0,
        ensures
            ({
                let m2 = self.after_allocate(size);
                let rb = bin_of((self.regions[i].size - size) as nat) as int;
                &&& m2.bins.len() == num_bins()
                &&& 0 <= rb < num_bins()
                &&& m2.bins[rb].len() > 0
                &&& m2.bins[rb][0] == self.spare.last()
                &&& forall|bb: int, j: int|
                    0 <= bb < num_bins() && 0 <= j < m2.bins[bb].len() && !(bb == rb && j == 0) ==> {
                        let t = (if bb == rb {
                            j - 1
                        } else {
                            j
                        }) + (if bb == b {
                            1int
                        } else {
                            0int
                        });
                        &&& 0 <= t < self.bins[bb].len()
                        &&& !(bb == b && t == 0)
                        &&& #[trigger] m2.bins[bb][j] == self.bins[bb][t]
                    }
                &&& forall|bb: int, t: int|
                    0 <= bb < num_bins() && 0 <= t < self.bins[bb].len() && !(bb == b && t == 0) ==> {
                        let j = (if bb == b {
                            t - 1
                        } else {
                            t
                        }) + (if bb == rb {
                            1int
                        } else {
                            0int
                        });
                        &&& 0 <= j < m2.bins[bb].len()
                        &&& m2.bins[bb][j] == #[trigger] self.bins[bb][t]
                    }
            }),
    {
        reveal(AllocatorModel::after_allocate);
        let m2 = self.after_allocate(size);
        let r = self.regions[i];
        let k = self.spare.last();
        let rem = (r.size - size) as nat;
        let rb = bin_of(rem) as int;
        lemma_round_down(rem as u32);
        let bins1 = self.bins.update(b as int, self.bins[b as int].drop_first());
        assert(m2.bins == bins1.update(rb, seq![k] + bins1[rb]));
    }

    #[verifier::spinoff_prover]
    proof fn lemma_split_bins_distinct(self, size: u32, b: nat, i: int)
        requires
            self.allocation_setting(size, b, i),
            self.regions[i].size - size > 0,
        ensures
            self.after_allocate(size).bins_distinct(),
    {
        self.lemma_spare_top();
        self.lemma_split_bin_source(size, b, i);
        reveal(AllocatorModel::bins_distinct);
        let m2 = self.after_allocate(size);
        let rb = bin_of((self.regions[i].size - size) as nat) as int;
        assert forall|bb: int, j: int, l: int|
            0 <= bb < num_bins() && 0 <= j < m2.bins[bb].len() && 0 <= l < m2.bins[bb].len() && j
                != l implies #[trigger] m2.bins[bb][j] != #[trigger] m2.bins[bb][l] by {
            let tj = (if bb == rb {
                j - 1
            } else {
                j
            }) + (if bb == b {
                1int
            } else {
                0int
            });
            let tl = (if bb == rb {
                l - 1
            } else {
                l
            }) + (if bb == b {
                1int
            } else {
                0int
            });
            if bb == rb && j == 0 {
                assert(m2.bins[bb][l] == self.bins[bb][tl]);
            } else if bb == rb && l == 0 {
                assert(m2.bins[bb][j] == self.bins[bb][tj]);
            } else {
                assert(m2.bins[bb][j] == self.bins[bb][tj]);
                assert(m2.bins[bb][l] == self.bins[bb][tl]);
            }
        }
    }

    #[verifier::spinoff_prover]
    proof fn lemma_split_bins_entries(self, size: u32, b: nat, i: int)
        requires
            self.allocation_setting(size, b, i),
            self.regions[i].size - size > 0,
        ensures
            self.after_allocate(size).bins_entries_free(),
    {
        self.lemma_split_partitioned(size, b, i);
        self.lemma_split_bin_source(size, b, i);
        self.lemma_split_index(size, i);
        reveal(AllocatorModel::bins_entries_free);
        reveal(AllocatorModel::bins_distinct);
        let m2 = self.after_allocate(size);
        let s2 = m2.regions;
        assert(s2 == self.split_regions(size, i)) by {
            reveal(AllocatorModel::after_allocate);
        }
        let r = self.regions[i];
        let n = r.node;
        let k = self.spare.last();
        let rb = bin_of((r.size - size) as nat) as int;
        assert forall|bb: int, j: int|
            0 <= bb < num_bins() && 0 <= j < m2.bins[bb].len() implies {
            let io = m2.region_index(#[trigger] m2.bins[bb][j]);
            &&& m2.holds_region(m2.bins[bb][j])
            &&& !m2.regions[io].used
            &&& bin_of(m2.regions[io].size) == bb
        } by {
            if bb == rb && j == 0 {
                m2.lemma_region_index(k, i + 1);
            } else {
                let t = (if bb == rb {
                    j - 1
                } else {
                    j
                }) + (if bb == b {
                    1int
                } else {
                    0int
                });
                let x = self.bins[bb][t];
                assert(m2.bins[bb][j] == x);
                let io = self.region_index(x);
                assert(self.holds_region(x));
                assert(self.regions[io].node == x);
                if io == i {
                    assert(bb == b);
                    assert(self.bins[b as int][0] == n);
                    assert(self.bins[b as int][t] != self.bins[b as int][0]);
                }
                let io2 = if io < i {
                    io
                } else {
                    io + 1
                };
                assert(s2[io2] == self.regions[io]);
                m2.lemma_region_index(x, io2);
            }
        }
    }

    #[verifier::spinoff_prover]
    proof fn lemma_split_binned(self, size: u32, b: nat, i: int)
        requires
            self.allocation_setting(size, b, i),
            self.regions[i].size - size > 0,
        ensures
            self.after_allocate(size).free_regions_binned(),
    {
        self.lemma_split_bin_source(size, b, i);
        self.lemma_split_index(size, i);
        reveal(AllocatorModel::free_regions_binned);
        reveal(AllocatorModel::nodes_partitioned);
        let m2 = self.after_allocate(size);
        let s2 = m2.regions;
        assert(s2 == self.split_regions(size, i)) by {
            reveal(AllocatorModel::after_allocate);
        }
        let r = self.regions[i];
        let n = r.node;
        let k = self.spare.last();
        let rb = bin_of((r.size - size) as nat) as int;
        assert forall|j2: int|
            0 <= j2 < s2.len() && !#[trigger] s2[j2].used implies m2.bins[bin_of(
            s2[j2].size,
        ) as int].contains(s2[j2].node) by {
            if j2 == i + 1 {
                assert(m2.bins[rb][0] == k);
            } else {
                let io = if j2 < i {
                    j2
                } else {
                    j2 - 1
                };
                assert(s2[j2] == self.regions[io]);
                let x = self.regions[io].node;
                self.lemma_region_bounds(io);
                lemma_round_down(self.regions[io].size as u32);
                let bb = bin_of(self.regions[io].size) as int;
                assert(self.bins[bb].contains(x));
                let t = choose|t: int| 0 <= t < self.bins[bb].len() && self.bins[bb][t] == x;
                assert(x != n) by {
                    assert(self.regions[io].node != self.regions[i].node);
                }
                let j = (if bb == b {
                    t - 1
                } else {
                    t
                }) + (if bb == rb {
                    1int
                } else {
                    0int
                });
                assert(m2.bins[bb][j] == self.bins[bb][t]);
            }
        }
    }

    #[verifier::spinoff_prover]
    proof fn lemma_split_rest(self, size: u32, b: nat, i: int)
        requires
            self.allocation_setting(size, b, i),
            self.regions[i].size - size > 0,
        ensures
            self.after_allocate(size).coalesced(),
            self.after_allocate(size).free_storage == total_size(self.after_allocate(size).regions, true),
            self.after_allocate(size).size == self.size,
            self.after_allocate(size).max_allocs == self.max_allocs,
    {
        reveal(AllocatorModel::after_allocate);
        reveal(AllocatorModel::coalesced);
        let m2 = self.after_allocate(size);
        let s2 = m2.regions;
        assert(s2 == self.split_regions(size, i));
        self.lemma_split_index(size, i);
        let r = self.regions[i];
        assert forall|j: int| 0 <= j < s2.len() - 1 implies #[trigger] s2[j].used || s2[j + 1].used by {
            if j == i + 1 {
                assert(self.regions[i].used || self.regions[i + 1].used);
            } else if j > i + 1 {
                assert(self.regions[j - 1].used || self.regions[j].used);
            } else if j < i - 1 {
                assert(self.regions[j].used || self.regions[j + 1].used);
            }
        }
        let used = Region { node: r.node, offset: r.offset, size: size as nat, used: true };
        crate::model::lemma_total_update(self.regions, i, used, true);
        crate::model::lemma_total_insert(self.regions.update(i, used), i + 1, s2[i + 1], true);
    }

    proof fn lemma_whole_wf(self, size: u32, b: nat, i: int)
        requires
            self.allocation_setting(size, b, i),
            self.regions[i].size == size,
        ensures
            self.after_allocate(size).wf(),
    {
        self.lemma_whole_shape(size, b, i);
        self.lemma_whole_tiled(size, b, i);
        self.lemma_whole_partitioned(size, b, i);
        self.lemma_whole_bins(size, b, i);
        self.lemma_whole_binned(size, b, i);
        self.lemma_whole_rest(size, b, i);
    }

    proof fn lemma_whole_shape(self, size: u32, b: nat, i: int)
        requires
            self.allocation_setting(size, b, i),
            self.regions[i].size == size,
        ensures
            ({
                let m2 = self.after_allocate(size);
                let r = self.regions[i];
                &&& m2.regions == self.regions.update(
                    i,
                    Region { node: r.node, offset: r.offset, size: size as nat, used: true },
                )
                &&& m2.bins == self.bins.update(b as int, self.bins[b as int].drop_first())
                &&& m2.spare == self.spare
                &&& m2.size == self.size
                &&& m2.max_allocs == self.max_allocs
                &&& m2.free_storage == self.free_storage - size
                &&& m2.bins.len() == num_bins()
            }),
    {
        reveal(AllocatorModel::after_allocate);
    }

    #[verifier::spinoff_prover]
    proof fn lemma_whole_tiled(self, size: u32, b: nat, i: int)
        requires
            self.allocation_setting(size, b, i),
            self.regions[i].size == size,
        ensures
            self.after_allocate(size).tiled(),
    {
        self.lemma_whole_shape(size, b, i);
        reveal(AllocatorModel::tiled);
        let m2 = self.after_allocate(size);
        let s2 = m2.regions;
        let r = self.regions[i];
        let used = Region { node: r.node, offset: r.offset, size: size as nat, used: true };
        crate::model::lemma_total_update(self.regions, i, used, false);
        assert forall|j: int| 0 <= j < s2.len() - 1 implies #[trigger] s2[j].offset + s2[j].size
            == s2[j + 1].offset by {
            assert(self.regions[j].offset + self.regions[j].size == self.regions[j + 1].offset);
        }
        assert forall|j: int| 0 <= j < s2.len() implies #[trigger] s2[j].offset + s2[j].size
            <= m2.size by {
            assert(self.regions[j].offset + self.regions[j].size <= self.size);
        }
        assert(s2.last().offset + s2.last().size == self.regions.last().offset
            + self.regions.last().size);
    }

    #[verifier::spinoff_prover]
    proof fn lemma_whole_partitioned(self, size: u32, b: nat, i: int)
        requires
            self.allocation_setting(size, b, i),
            self.regions[i].size == size,
        ensures
            self.after_allocate(size).nodes_partitioned(),
    {
        self.lemma_whole_shape(size, b, i);
        reveal(AllocatorModel::nodes_partitioned);
        let m2 = self.after_allocate(size);
        let s2 = m2.regions;
        assert forall|j: int, l: int|
            0 <= j < s2.len() && 0 <= l < s2.len() && j != l implies #[trigger] s2[j].node
            != #[trigger] s2[l].node by {
            assert(self.regions[j].node != self.regions[l].node);
        }
        assert forall|j: int, q: int|
            0 <= j < s2.len() && 0 <= q < m2.spare.len() implies #[trigger] s2[j].node
            != #[trigger] m2.spare[q] by {
            assert(self.regions[j].node != self.spare[q]);
        }
        assert forall|j: int| 0 <= j < s2.len() implies #[trigger] s2[j].node < m2.max_allocs by {
            assert(self.regions[j].node < self.max_allocs);
        }
    }

    #[verifier::spinoff_prover]
    proof fn lemma_whole_bins(self, size: u32, b: nat, i: int)
        requires
            self.allocation_setting(size, b, i),
            self.regions[i].size == size,
        ensures
            self.after_allocate(size).bins_distinct(),
            self.after_allocate(size).bins_entries_free(),
    {
        self.lemma_whole_shape(size, b, i);
        self.lemma_whole_partitioned(size, b, i);
        reveal(AllocatorModel::bins_distinct);
        reveal(AllocatorModel::bins_entries_free);
        let m2 = self.after_allocate(size);
        let s2 = m2.regions;
        let n = self.regions[i].node;
        assert forall|bb: int, j: int, l: int|
            0 <= bb < num_bins() && 0 <= j < m2.bins[bb].len() && 0 <= l < m2.bins[bb].len() && j
                != l implies #[trigger] m2.bins[bb][j] != #[trigger] m2.bins[bb][l] by {
            if bb == b {
                assert(self.bins[bb][j + 1] != self.bins[bb][l + 1]);
            }
        }
        assert forall|bb: int, j: int|
            0 <= bb < num_bins() && 0 <= j < m2.bins[bb].len() implies {
            let io = m2.region_index(#[trigger] m2.bins[bb][j]);
            &&& m2.holds_region(m2.bins[bb][j])
            &&& !m2.regions[io].used
            &&& bin_of(m2.regions[io].size) == bb
        } by {
            let t = if bb == b {
                j + 1
            } else {
                j
            };
            let x = self.bins[bb][t];
            assert(m2.bins[bb][j] == x);
            let io = self.region_index(x);
            assert(self.holds_region(x));
            assert(self.regions[io].node == x);
            if io == i {
                assert(bb == b);
                assert(self.bins[b as int][t] != self.bins[b as int][0]);
            }
            assert(s2[io] == self.regions[io]);
            m2.lemma_region_index(x, io);
        }
    }

    #[verifier::spinoff_prover]
    proof fn lemma_whole_binned(self, size: u32, b: nat, i: int)
        requires
            self.allocation_setting(size, b, i),
            self.regions[i].size == size,
        ensures
            self.after_allocate(size).free_regions_binned(),
    {
        self.lemma_whole_shape(size, b, i);
        reveal(AllocatorModel::free_regions_binned);
        reveal(AllocatorModel::nodes_partitioned);
        let m2 = self.after_allocate(size);
        let s2 = m2.regions;
        let n = self.regions[i].node;
        assert forall|j2: int|
            0 <= j2 < s2.len() && !#[trigger] s2[j2].used implies m2.bins[bin_of(
            s2[j2].size,
        ) as int].contains(s2[j2].node) by {
            assert(s2[j2] == self.regions[j2]);
            let x = self.regions[j2].node;
            self.lemma_region_bounds(j2);
            lemma_round_down(self.regions[j2].size as u32);
            let bb = bin_of(self.regions[j2].size) as int;
            assert(self.bins[bb].contains(x));
            let t = choose|t: int| 0 <= t < self.bins[bb].len() && self.bins[bb][t] == x;
            assert(x != n) by {
                assert(self.regions[j2].node != self.regions[i].node);
            }
            if bb == b {
                assert(t != 0);
                assert(m2.bins[bb][t - 1] == x);
            } else {
                assert(m2.bins[bb][t] == x);
            }
        }
    }

    #[verifier::spinoff_prover]
    proof fn lemma_whole_rest(self, size: u32, b: nat, i: int)
        requires
            self.allocation_setting(size, b, i),
            self.regions[i].size == size,
        ensures
            self.after_allocate(size).coalesced(),
            self.after_allocate(size).free_storage == total_size(self.after_allocate(size).regions, true),
    {
        self.lemma_whole_shape(size, b, i);
        reveal(AllocatorModel::coalesced);
        let m2 = self.after_allocate(size);
        let s2 = m2.regions;
        let r = self.regions[i];
        let used = Region { node: r.node, offset: r.offset, size: size as nat, used: true };
        crate::model::lemma_total_update(self.regions, i, used, true);
        assert forall|j: int| 0 <= j < s2.len() - 1 implies #[trigger] s2[j].used || s2[j + 1].used by {
            assert(self.regions[j].used || self.regions[j + 1].used);
        }
    }

    /// A free region of a working allocator is in the list of its bin.
    pub proof fn lemma_free_region_in_bin(self, j: int)
        requires
            self.wf(),
            0 <= j < self.regions.len(),
            !self.regions[j].used,
        ensures
            bin_of(self.regions[j].size) < 240,
            self.bins[bin_of(self.regions[j].size) as int].contains(self.regions[j].node),
    {
        reveal(AllocatorModel::free_regions_binned);
        self.lemma_region_bounds(j);
        lemma_round_down(self.regions[j].size as u32);
    }

    /// The nodes of the regions of a working allocator are distinct.
    pub proof fn lemma_region_nodes_distinct(self)
        requires
            self.wf(),
        ensures
            forall|j: int, l: int|
                0 <= j < self.regions.len() && 0 <= l < self.regions.len() && j != l
                    ==> #[trigger] self.regions[j].node != #[trigger] self.regions[l].node,
            forall|j: int, q: int|
                0 <= j < self.regions.len() && 0 <= q < self.spare.len() ==> #[trigger] self.regions[j].node
                    != #[trigger] self.spare[q],
            forall|j: int| 0 <= j < self.regions.len() ==> #[trigger] self.regions[j].node < self.max_allocs,
    {
        reveal(AllocatorModel::nodes_partitioned);
    }

    /// Neighbouring regions of a working allocator are contiguous.
    pub proof fn lemma_adjacent(self, j: int)
        requires
            self.wf(),
            0 <= j < self.regions.len() - 1,
        ensures
            self.regions[j].offset + self.regions[j].size == self.regions[j + 1].offset,
    {
        reveal(AllocatorModel::tiled);
    }

    /// The spare nodes of a working allocator are below `max_allocs`.
    pub proof fn lemma_spare_bounds(self)
        requires
            self.wf(),
        ensures
            forall|q: int| 0 <= q < self.spare.len() ==> #[trigger] self.spare[q] < self.max_allocs,
            self.regions.len() + self.spare.len() == self.max_allocs,
    {
        reveal(AllocatorModel::nodes_partitioned);
    }

    /// Freeing keeps a working allocator working.
    pub proof fn lemma_after_free_wf(self, n: nat)
        requires
            self.wf(),
            self.is_allocated(n),
        ensures
            self.after_free(n).wf(),
    {
        self.lemma_free_shape(n);
        self.lemma_free_tiled(n);
        self.lemma_free_partitioned(n);
        self.lemma_free_bins_shape(n);
        self.lemma_free_bins(n);
        self.lemma_free_binned(n);
        self.lemma_free_rest(n);
    }

    /// The position of the first kept region after the merged one, for the
    /// region freed at `i`.
    pub open spec fn free_hi(self, i: int) -> int {
        if i + 1 < self.regions.len() && !self.regions[i + 1].used {
            i + 2
        } else {
            i + 1
        }
    }

    /// The position of the merged region, for the region freed at `i`.
    pub open spec fn free_lo(self, i: int) -> int {
        if i > 0 && !self.regions[i - 1].used {
            i - 1
        } else {
            i
        }
    }

    /// The merged region, for the region of node `n` freed at `i`.
    pub open spec fn merged_region(self, n: nat, i: int) -> Region {
        let lo = self.free_lo(i);
        let hi = self.free_hi(i);
        Region {
            node: n,
            offset: self.regions[lo].offset,
            size: (self.regions[hi - 1].offset + self.regions[hi - 1].size
                - self.regions[lo].offset) as nat,
            used: false,
        }
    }

    /// What freeing the region of node `n` gives, spelled out.
    #[verifier::spinoff_prover]
    pub proof fn lemma_free_shape(self, n: nat)
        requires
            self.wf(),
            self.is_allocated(n),
        ensures
            ({
                let i = self.region_index(n);
                let len = self.regions.len() as int;
                let lo = self.free_lo(i);
                let hi = self.free_hi(i);
                let m2 = self.after_free(n);
                let mr = self.merged_region(n, i);
                &&& 0 <= i < len
                &&& self.regions[i].node == n
                &&& self.regions[i].used
                &&& 0 <= lo <= i < hi <= len
                &&& m2.regions == self.regions.subrange(0, lo) + seq![mr] + self.regions.subrange(
                    hi,
                    len,
                )
                &&& m2.regions.len() == lo + 1 + len - hi
                &&& forall|j: int| 0 <= j < lo ==> #[trigger] m2.regions[j] == self.regions[j]
                &&& m2.regions[lo] == mr
                &&& forall|j: int|
                    lo < j < m2.regions.len() ==> #[trigger] m2.regions[j] == self.regions[j - lo - 1
                        + hi]
                &&& mr.size == self.regions[i].size + (if lo < i {
                    self.regions[i - 1].size
                } else {
                    0
                }) + (if hi > i + 1 {
                    self.regions[i + 1].size
                } else {
                    0
                })
                &&& mr.offset + mr.size <= self.size
                &&& mr.size <= u32::MAX
                &&& m2.size == self.size
                &&& m2.max_allocs == self.max_allocs
                &&& m2.free_storage == self.free_storage + self.regions[i].size
                &&& m2.spare == (if hi > i + 1 {
                    (if lo < i {
                        self.spare.push(self.regions[i - 1].node)
                    } else {
                        self.spare
                    }).push(self.regions[i + 1].node)
                } else {
                    (if lo < i {
                        self.spare.push(self.regions[i - 1].node)
                    } else {
                        self.spare
                    })
                })
            }),
    {
        reveal(AllocatorModel::after_free);
        let i = self.region_index(n);
        assert(self.holds_region(n));
        let len = self.regions.len() as int;
        let lo = self.free_lo(i);
        let hi = self.free_hi(i);
        self.lemma_region_bounds(i);
        if i > 0 {
            self.lemma_adjacent(i - 1);
        }
        if i + 1 < len {
            self.lemma_adjacent(i);
            self.lemma_region_bounds(i + 1);
        }
        let m2 = self.after_free(n);
        let a = self.regions.subrange(0, lo);
        let c = self.regions.subrange(hi, len);
        assert forall|j: int| lo < j < m2.regions.len() implies #[trigger] m2.regions[j]
            == self.regions[j - lo - 1 + hi] by {
            assert(m2.regions[j] == c[j - lo - 1]);
        }
    }

    #[verifier::spinoff_prover]
    proof fn lemma_free_tiled(self, n: nat)
        requires
            self.wf(),
            self.is_allocated(n),
        ensures
            self.after_free(n).tiled(),
    {
        self.lemma_free_shape(n);
        reveal(AllocatorModel::tiled);
        let i = self.region_index(n);
        let len = self.regions.len() as int;
        let lo = self.free_lo(i);
        let hi = self.free_hi(i);
        let m2 = self.after_free(n);
        let s2 = m2.regions;
        let mr = self.merged_region(n, i);
        assert forall|j: int| 0 <= j < s2.len() - 1 implies #[trigger] s2[j].offset + s2[j].size
            == s2[j + 1].offset by {
            if j < lo - 1 {
                assert(self.regions[j].offset + self.regions[j].size == self.regions[j + 1].offset);
            } else if j == lo - 1 {
                assert(self.regions[j].offset + self.regions[j].size == self.regions[j + 1].offset);
            } else if j == lo {
                assert(s2[j + 1] == self.regions[hi]);
                assert(self.regions[hi - 1].offset + self.regions[hi - 1].size
                    == self.regions[hi].offset);
            } else {
                let jj = j - lo - 1 + hi;
                assert(s2[j] == self.regions[jj]);
                assert(s2[j + 1] == self.regions[jj + 1]);
                assert(self.regions[jj].offset + self.regions[jj].size == self.regions[jj
                    + 1].offset);
            }
        }
        assert forall|j: int| 0 <= j < s2.len() implies #[trigger] s2[j].offset + s2[j].size
            <= m2.size by {
            if j < lo {
                assert(self.regions[j].offset + self.regions[j].size <= self.size);
            } else if j > lo {
                let jj = j - lo - 1 + hi;
                assert(self.regions[jj].offset + self.regions[jj].size <= self.size);
            }
        }
        if hi == len {
            assert(s2.last() == mr);
        } else {
            assert(s2.last() == s2[s2.len() - 1]);
            assert(s2[s2.len() - 1] == self.regions[len - 1]);
        }
        if lo == 0 {
            assert(s2[0] == mr);
        } else {
            assert(s2[0] == self.regions[0]);
        }
        lemma_total_three(self.regions, lo, hi, false);
        lemma_total_short(self.regions, lo, hi, false);
        if i > 0 {
            self.lemma_adjacent(i - 1);
        }
        if i + 1 < len {
            self.lemma_adjacent(i);
        }
        lemma_total_concat(self.regions.subrange(0, lo) + seq![mr], self.regions.subrange(hi, len), false);
        lemma_total_concat(self.regions.subrange(0, lo), seq![mr], false);
        lemma_total_single(mr, false);
    }

    #[verifier::spinoff_prover]
    proof fn lemma_free_rest(self, n: nat)
        requires
            self.wf(),
            self.is_allocated(n),
        ensures
            self.after_free(n).coalesced(),
            self.after_free(n).free_storage == total_size(self.after_free(n).regions, true),
    {
        self.lemma_free_shape(n);
        reveal(AllocatorModel::coalesced);
        let i = self.region_index(n);
        let len = self.regions.len() as int;
        let lo = self.free_lo(i);
        let hi = self.free_hi(i);
        let m2 = self.after_free(n);
        let s2 = m2.regions;
        let mr = self.merged_region(n, i);
        assert forall|j: int| 0 <= j < s2.len() - 1 implies #[trigger] s2[j].used || s2[j + 1].used by {
            if j < lo - 1 {
                assert(self.regions[j].used || self.regions[j + 1].used);
            } else if j == lo - 1 {
                assert(self.regions[j].used || self.regions[j + 1].used);
            } else if j == lo {
                assert(s2[j + 1] == self.regions[hi]);
                assert(self.regions[hi - 1].used || self.regions[hi].used);
            } else {
                let jj = j - lo - 1 + hi;
                assert(s2[j] == self.regions[jj]);
                assert(s2[j + 1] == self.regions[jj + 1]);
                assert(self.regions[jj].used || self.regions[jj + 1].used);
            }
        }
        lemma_total_three(self.regions, lo, hi, true);
        lemma_total_short(self.regions, lo, hi, true);
        lemma_total_concat(self.regions.subrange(0, lo) + seq![mr], self.regions.subrange(hi, len), true);
        lemma_total_concat(self.regions.subrange(0, lo), seq![mr], true);
        lemma_total_single(mr, true);
    }

    #[verifier::spinoff_prover]
    proof fn lemma_free_partitioned(self, n: nat)
        requires
            self.wf(),
            self.is_allocated(n),
        ensures
            self.after_free(n).nodes_partitioned(),
    {
        self.lemma_free_shape(n);
        reveal(AllocatorModel::nodes_partitioned);
        let i = self.region_index(n);
        let len = self.regions.len() as int;
        let lo = self.free_lo(i);
        let hi = self.free_hi(i);
        let m2 = self.after_free(n);
        let s2 = m2.regions;
        let ol = self.spare.len() as int;
        // the old index of each new region (the merged one keeps node `n`)
        assert forall|j: int| 0 <= j < s2.len() implies #[trigger] s2[j].node == self.regions[(if j
            < lo {
            j
        } else if j == lo {
            i
        } else {
            j - lo - 1 + hi
        })].node by {}
        // the old region of each new spare node
        assert forall|q: int| ol <= q < m2.spare.len() implies #[trigger] m2.spare[q] == self.regions[(if q
            == ol && lo < i {
            i - 1
        } else {
            i + 1
        })].node by {}
        assert forall|q: int| 0 <= q < ol implies #[trigger] m2.spare[q] == self.spare[q] by {}
        assert forall|j: int| 0 <= j < s2.len() implies #[trigger] s2[j].node < m2.max_allocs by {
            let jj = if j < lo {
                j
            } else if j == lo {
                i
            } else {
                j - lo - 1 + hi
            };
            assert(s2[j].node == self.regions[jj].node);
        }
        assert forall|j: int, l: int|
            0 <= j < s2.len() && 0 <= l < s2.len() && j != l implies #[trigger] s2[j].node
            != #[trigger] s2[l].node by {
            let jj = if j < lo {
                j
            } else if j == lo {
                i
            } else {
                j - lo - 1 + hi
            };
            let ll = if l < lo {
                l
            } else if l == lo {
                i
            } else {
                l - lo - 1 + hi
            };
            assert(s2[j].node == self.regions[jj].node);
            assert(s2[l].node == self.regions[ll].node);
            assert(self.regions[jj].node != self.regions[ll].node);
        }
        assert forall|q: int| 0 <= q < m2.spare.len() implies #[trigger] m2.spare[q] < m2.max_allocs by {
            if q >= ol {
                let jj = if q == ol && lo < i {
                    i - 1
                } else {
                    i + 1
                };
                assert(m2.spare[q] == self.regions[jj].node);
            } else {
                assert(m2.spare[q] == self.spare[q]);
            }
        }
        assert forall|q: int, r: int|
            0 <= q < m2.spare.len() && 0 <= r < m2.spare.len() && q != r implies #[trigger] m2.spare[q]
            != #[trigger] m2.spare[r] by {
            let qq = if q == ol && lo < i {
                i - 1
            } else {
                i + 1
            };
            let rr = if r == ol && lo < i {
                i - 1
            } else {
                i + 1
            };
            if q < ol && r < ol {
                assert(self.spare[q] != self.spare[r]);
            } else if q < ol {
                assert(m2.spare[r] == self.regions[rr].node);
                assert(self.regions[rr].node != self.spare[q]);
            } else if r < ol {
                assert(m2.spare[q] == self.regions[qq].node);
                assert(self.regions[qq].node != self.spare[r]);
            } else {
                assert(m2.spare[q] == self.regions[qq].node);
                assert(m2.spare[r] == self.regions[rr].node);
                assert(self.regions[qq].node != self.regions[rr].node);
            }
        }
        assert forall|j: int, q: int|
            0 <= j < s2.len() && 0 <= q < m2.spare.len() implies #[trigger] s2[j].node
            != #[trigger] m2.spare[q] by {
            let jj = if j < lo {
                j
            } else if j == lo {
                i
            } else {
                j - lo - 1 + hi
            };
            assert(s2[j].node == self.regions[jj].node);
            if q < ol {
                assert(self.regions[jj].node != self.spare[q]);
            } else {
                let qq = if q == ol && lo < i {
                    i - 1
                } else {
                    i + 1
                };
                assert(m2.spare[q] == self.regions[qq].node);
                assert(self.regions[jj].node != self.regions[qq].node);
            }
        }
    }

    /// The bins after freeing the region of node `n`: every list keeps its
    /// nodes but the merged neighbours', has no repetition, and the merged
    /// region's bin starts with `n`.
    #[verifier::spinoff_prover]
    pub proof fn lemma_free_bins_shape(self, n: nat)
        requires
            self.wf(),
            self.is_allocated(n),
        ensures
            ({
                let i = self.region_index(n);
                let lo = self.free_lo(i);
                let hi = self.free_hi(i);
                let m2 = self.after_free(n);
                let b = bin_of(self.merged_region(n, i).size) as int;
                &&& m2.bins.len() == num_bins()
                &&& 0 <= b < num_bins()
                &&& m2.bins[b].len() > 0
                &&& m2.bins[b][0] == n
                &&& forall|bb: int| 0 <= bb < num_bins() ==> seq_distinct(#[trigger] m2.bins[bb])
                &&& forall|bb: int, x: nat|
                    0 <= bb < num_bins() && x != n ==> (#[trigger] m2.bins[bb].contains(x) <==> (
                    self.bins[bb].contains(x) && !(lo < i && x == self.regions[i - 1].node) && !(hi
                        > i + 1 && x == self.regions[i + 1].node)))
                &&& forall|bb: int| 0 <= bb < num_bins() && bb != b ==> !#[trigger] m2.bins[bb].contains(n)
            }),
    {
        self.lemma_free_shape(n);
        reveal(AllocatorModel::after_free);
        reveal(AllocatorModel::bins_distinct);
        reveal(AllocatorModel::bins_entries_free);
        let i = self.region_index(n);
        let len = self.regions.len() as int;
        let lo = self.free_lo(i);
        let hi = self.free_hi(i);
        let m2 = self.after_free(n);
        let mr = self.merged_region(n, i);
        let b = bin_of(mr.size) as int;
        lemma_round_down(mr.size as u32);
        let p = self.regions[i - 1];
        let q = self.regions[i + 1];
        let bins0 = self.bins;
        assert forall|bb: int| 0 <= bb < num_bins() implies seq_distinct(#[trigger] bins0[bb]) by {
            assert forall|j: int, k: int|
                0 <= j < bins0[bb].len() && 0 <= k < bins0[bb].len() && j != k implies bins0[bb][j]
                != bins0[bb][k] by {
                assert(bins0[bb][j] != bins0[bb][k]);
            }
        }
        // n holds a used region, so it is in no bin
        assert forall|bb: int| 0 <= bb < num_bins() implies !#[trigger] bins0[bb].contains(n) by {
            if bins0[bb].contains(n) {
                let t = choose|t: int| 0 <= t < bins0[bb].len() && bins0[bb][t] == n;
                assert(self.holds_region(bins0[bb][t]));
                assert(!self.regions[self.region_index(bins0[bb][t])].used);
            }
        }
        let bins1 = if lo < i {
            Self::remove_from_bin(bins0, bin_of(p.size), p.node)
        } else {
            bins0
        };
        if lo < i {
            self.lemma_free_region_in_bin(i - 1);
            lemma_remove_value(bins0[bin_of(p.size) as int], p.node);
        }
        assert forall|bb: int| 0 <= bb < num_bins() implies seq_distinct(#[trigger] bins1[bb]) && forall|
            x: nat,
        | #[trigger] bins1[bb].contains(x) <==> (bins0[bb].contains(x) && !(lo < i && x == p.node))
            by {
            if lo < i && bb == bin_of(p.size) {
            } else if lo < i {
                assert forall|x: nat| #[trigger] bins1[bb].contains(x) <==> (bins0[bb].contains(x)
                    && !(lo < i && x == p.node)) by {
                    if bins0[bb].contains(x) && x == p.node {
                        let t = choose|t: int| 0 <= t < bins0[bb].len() && bins0[bb][t] == x;
                        assert(self.holds_region(bins0[bb][t]));
                        self.lemma_region_index(p.node, i - 1);
                        assert(bin_of(p.size) == bb);
                    }
                }
            }
        }
        let bins2 = if hi > i + 1 {
            Self::remove_from_bin(bins1, bin_of(q.size), q.node)
        } else {
            bins1
        };
        if hi > i + 1 {
            self.lemma_free_region_in_bin(i + 1);
            self.lemma_region_nodes_distinct();
            assert(bins1[bin_of(q.size) as int].contains(q.node));
            lemma_remove_value(bins1[bin_of(q.size) as int], q.node);
        }
        assert forall|bb: int| 0 <= bb < num_bins() implies seq_distinct(#[trigger] bins2[bb]) && forall|
            x: nat,
        | #[trigger] bins2[bb].contains(x) <==> (bins0[bb].contains(x) && !(lo < i && x == p.node)
            && !(hi > i + 1 && x == q.node)) by {
            if hi > i + 1 && bb == bin_of(q.size) {
            } else if hi > i + 1 {
                assert forall|x: nat| #[trigger] bins2[bb].contains(x) <==> (bins0[bb].contains(x)
                    && !(lo < i && x == p.node) && !(hi > i + 1 && x == q.node)) by {
                    assert(bins1[bb].contains(x) <==> (bins0[bb].contains(x) && !(lo < i && x
                        == p.node)));
                    if bins0[bb].contains(x) && x == q.node {
                        let t = choose|t: int| 0 <= t < bins0[bb].len() && bins0[bb][t] == x;
                        assert(self.holds_region(bins0[bb][t]));
                        self.lemma_region_index(q.node, i + 1);
                        assert(bin_of(q.size) == bb);
                    }
                }
            } else {
                assert forall|x: nat| #[trigger] bins2[bb].contains(x) <==> (bins0[bb].contains(x)
                    && !(lo < i && x == p.node) && !(hi > i + 1 && x == q.node)) by {
                    assert(bins1[bb].contains(x) <==> (bins0[bb].contains(x) && !(lo < i && x
                        == p.node)));
                }
            }
        }
        assert(m2.bins == bins2.update(b, seq![n] + bins2[b]));
        assert forall|bb: int| 0 <= bb < num_bins() implies seq_distinct(#[trigger] m2.bins[bb]) by {
            if bb == b {
                let l = m2.bins[bb];
                assert(!bins2[bb].contains(n));
                assert forall|j: int, k: int| 0 <= j < l.len() && 0 <= k < l.len() && j != k implies l[j]
                    != l[k] by {
                    if j == 0 {
                        assert(bins2[bb][k - 1] == l[k]);
                    } else if k == 0 {
                        assert(bins2[bb][j - 1] == l[j]);
                    } else {
                        assert(bins2[bb][j - 1] != bins2[bb][k - 1]);
                    }
                }
            }
        }
        assert forall|bb: int, x: nat|
            0 <= bb < num_bins() && x != n implies (#[trigger] m2.bins[bb].contains(x) <==> (
            self.bins[bb].contains(x) && !(lo < i && x == self.regions[i - 1].node) && !(hi > i + 1
                && x == self.regions[i + 1].node))) by {
            assert(bins2[bb].contains(x) <==> (bins0[bb].contains(x) && !(lo < i && x == p.node)
                && !(hi > i + 1 && x == q.node)));
            if bb == b {
                let l = m2.bins[bb];
                if l.contains(x) {
                    let t = choose|t: int| 0 <= t < l.len() && l[t] == x;
                    assert(t != 0);
                    assert(bins2[bb][t - 1] == x);
                }
                if bins2[bb].contains(x) {
                    let t = choose|t: int| 0 <= t < bins2[bb].len() && bins2[bb][t] == x;
                    assert(l[t + 1] == x);
                }
            }
        }
        assert forall|bb: int| 0 <= bb < num_bins() && bb != b implies !#[trigger] m2.bins[bb].contains(n) by {
            assert(bins2[bb].contains(n) <==> (bins0[bb].contains(n) && !(lo < i && n == p.node)
                && !(hi > i + 1 && n == q.node)));
        }
    }

    #[verifier::spinoff_prover]
    proof fn lemma_free_bins(self, n: nat)
        requires
            self.wf(),
            self.is_allocated(n),
        ensures
            self.after_free(n).bins_distinct(),
            self.after_free(n).bins_entries_free(),
    {
        self.lemma_free_shape(n);
        self.lemma_free_bins_shape(n);
        self.lemma_free_partitioned(n);
        reveal(AllocatorModel::bins_distinct);
        reveal(AllocatorModel::bins_entries_free);
        let i = self.region_index(n);
        let len = self.regions.len() as int;
        let lo = self.free_lo(i);
        let hi = self.free_hi(i);
        let m2 = self.after_free(n);
        let s2 = m2.regions;
        let mr = self.merged_region(n, i);
        let b = bin_of(mr.size) as int;
        self.lemma_region_nodes_distinct();
        assert forall|bb: int, j: int, k: int|
            0 <= bb < num_bins() && 0 <= j < m2.bins[bb].len() && 0 <= k < m2.bins[bb].len() && j
                != k implies #[trigger] m2.bins[bb][j] != #[trigger] m2.bins[bb][k] by {
            assert(seq_distinct(m2.bins[bb]));
        }
        assert forall|bb: int, j: int|
            0 <= bb < num_bins() && 0 <= j < m2.bins[bb].len() implies {
            let io = m2.region_index(#[trigger] m2.bins[bb][j]);
            &&& m2.holds_region(m2.bins[bb][j])
            &&& !m2.regions[io].used
            &&& bin_of(m2.regions[io].size) == bb
        } by {
            let x = m2.bins[bb][j];
            assert(m2.bins[bb].contains(x));
            if x == n {
                assert(bb == b);
                m2.lemma_region_index(n, lo);
            } else {
                assert(self.bins[bb].contains(x));
                let t = choose|t: int| 0 <= t < self.bins[bb].len() && self.bins[bb][t] == x;
                assert(self.holds_region(self.bins[bb][t]));
                let io = self.region_index(x);
                assert(self.regions[io].node == x);
                assert(!self.regions[io].used);
                assert(bin_of(self.regions[io].size) == bb);
                assert(io != i);
                assert(!(lo < i && io == i - 1));
                assert(!(hi > i + 1 && io == i + 1));
                let io2 = if io < lo {
                    io
                } else {
                    io - hi + lo + 1
                };
                assert(s2[io2] == self.regions[io]);
                m2.lemma_region_index(x, io2);
            }
        }
    }

    #[verifier::spinoff_prover]
    proof fn lemma_free_binned(self, n: nat)
        requires
            self.wf(),
            self.is_allocated(n),
        ensures
            self.after_free(n).free_regions_binned(),
    {
        self.lemma_free_shape(n);
        self.lemma_free_bins_shape(n);
        reveal(AllocatorModel::free_regions_binned);
        let i = self.region_index(n);
        let len = self.regions.len() as int;
        let lo = self.free_lo(i);
        let hi = self.free_hi(i);
        let m2 = self.after_free(n);
        let s2 = m2.regions;
        let mr = self.merged_region(n, i);
        let b = bin_of(mr.size) as int;
        self.lemma_region_nodes_distinct();
        assert forall|j2: int|
            0 <= j2 < s2.len() && !#[trigger] s2[j2].used implies m2.bins[bin_of(
            s2[j2].size,
        ) as int].contains(s2[j2].node) by {
            if j2 == lo {
                assert(m2.bins[b][0] == n);
            } else {
                let io = if j2 < lo {
                    j2
                } else {
                    j2 - lo - 1 + hi
                };
                assert(s2[j2] == self.regions[io]);
                let x = self.regions[io].node;
                self.lemma_free_region_in_bin(io);
                let bb = bin_of(self.regions[io].size) as int;
                assert(x != n);
                if lo < i {
                    assert(x != self.regions[i - 1].node);
                }
                if hi > i + 1 {
                    assert(x != self.regions[i + 1].node);
                }
                assert(m2.bins[bb].contains(x));
            }
        }
    }

    /// Each bin list of a working allocator is shorter than `u32::MAX`.
    pub proof fn lemma_bin_len(self, b: int)
        requires
            self.wf(),
            0 <= b < num_bins(),
        ensures
            self.bins[b].len() <= self.max_allocs,
    {
        reveal(AllocatorModel::bins_distinct);
        reveal(AllocatorModel::bins_entries_free);
        reveal(AllocatorModel::nodes_partitioned);
        let l = self.bins[b];
        assert forall|j: int| 0 <= j < l.len() implies #[trigger] l[j] < self.max_allocs by {
            assert(self.holds_region(l[j]));
            let i = self.region_index(l[j]);
            assert(self.regions[i].node < self.max_allocs);
        }
        assert(seq_distinct(l)) by {
            assert forall|j: int, k: int| 0 <= j < l.len() && 0 <= k < l.len() && j != k implies l[j]
                != l[k] by {
                assert(self.bins[b][j] != self.bins[b][k]);
            }
        }
        lemma_distinct_len(l, self.max_allocs);
    }

    /// The state of a working allocator.
    pub open spec fn wf(self) -> bool {
        &&& self.size <= u32::MAX
        &&& 1 <= self.max_allocs < u32::MAX
        &&& self.tiled()
        &&& self.nodes_partitioned()
        &&& self.bins_hold_free_regions()
        &&& self.coalesced()
        &&& self.free_storage == total_size(self.regions, true)
    }

    /// A fresh allocator over `size` units with `max_allocs` nodes: one free
    /// region held by node 0, the other nodes spare.
    pub open spec fn initial(size: nat, max_allocs: nat) -> AllocatorModel {
        AllocatorModel {
            size,
            max_allocs,
            free_storage: size,
            regions: seq![Region { node: 0, offset: 0, size, used: false }],
            bins: Seq::new(
                num_bins(),
                |b: int|
                    if b == bin_of(size) {
                        seq![0nat]
                    } else {
                        Seq::empty()
                    },
            ),
            spare: Seq::new((max_allocs - 1) as nat, |i: int| (max_allocs - 1 - i) as nat),
        }
    }

    /// The lowest nonempty bin at or above `min`, if any.
    pub open spec fn lowest_bin_from(self, min: nat) -> Option<nat> {
        if exists|b: nat| min <= b < num_bins() && #[trigger] self.bins[b as int].len() > 0 {
            Some(
                choose|b: nat|
                    min <= b < num_bins() && #[trigger] self.bins[b as int].len() > 0 && forall|
                        k: nat,
                    | min <= k < b ==> #[trigger] self.bins[k as int].len() == 0,
            )
        } else {
            None
        }
    }

    /// The highest nonempty bin, if any.
    pub open spec fn highest_bin(self) -> Option<nat> {
        if exists|b: nat| b < num_bins() && #[trigger] self.bins[b as int].len() > 0 {
            Some(
                choose|b: nat|
                    b < num_bins() && #[trigger] self.bins[b as int].len() > 0 && forall|k: nat|
                        b < k < num_bins() ==> #[trigger] self.bins[k as int].len() == 0,
            )
        } else {
            None
        }
    }

    /// The bin that an allocation of `size` units takes its region from:
    /// none when no node is spare, else the lowest nonempty bin at or above
    /// `size` rounded up.
    pub open spec fn allocation_bin(self, size: u32) -> Option<nat> {
        if self.spare.len() == 0 {
            None
        } else {
            self.lowest_bin_from(spec_round_up(size))
        }
    }

    /// The node and offset that an allocation of `size` units gets, if any:
    /// the head of its bin.
    #[verifier::opaque]
    pub open spec fn allocation(self, size: u32) -> Option<(nat, nat)> {
        match self.allocation_bin(size) {
            Some(b) => {
                let n = self.bins[b as int][0];
                Some((n, self.regions[self.region_index(n)].offset))
            },
            None => None,
        }
    }

    /// The state after allocating `size` units: the head region of the bin
    /// becomes a used region of exactly `size` units, and what remains of it
    /// becomes a free region right after it, held by the top spare node and
    /// put at the head of its own bin.
    #[verifier::opaque]
    pub open spec fn after_allocate(self, size: u32) -> AllocatorModel {
        match self.allocation_bin(size) {
            None => self,
            Some(b) => {
                let n = self.bins[b as int][0];
                let i = self.region_index(n);
                let r = self.regions[i];
                let rem = (r.size - size) as nat;
                let bins1 = self.bins.update(b as int, self.bins[b as int].drop_first());
                let used = Region { node: n, offset: r.offset, size: size as nat, used: true };
                if rem > 0 {
                    let k = self.spare.last();
                    let rb = bin_of(rem) as int;
                    AllocatorModel {
                        regions: self.regions.update(i, used).insert(
                            i + 1,
                            Region { node: k, offset: (r.offset + size) as nat, size: rem, used: false },
                        ),
                        bins: bins1.update(rb, seq![k] + bins1[rb]),
                        spare: self.spare.drop_last(),
                        free_storage: (self.free_storage - size) as nat,
                        ..self
                    }
                } else {
                    AllocatorModel {
                        regions: self.regions.update(i, used),
                        bins: bins1,
                        free_storage: (self.free_storage - size) as nat,
                        ..self
                    }
                }
            },
        }
    }

    /// Whether node `n` holds a used region (an allocation that can be freed).
    pub open spec fn is_allocated(self, n: nat) -> bool {
        self.holds_region(n) && self.regions[self.region_index(n)].used
    }

    /// `bins` with node `n` taken out of bin `b`.
    pub open spec fn remove_from_bin(bins: Seq<Seq<nat>>, b: nat, n: nat) -> Seq<Seq<nat>> {
        bins.update(b as int, bins[b as int].remove(bins[b as int].index_of(n)))
    }

    /// The state after freeing the region of node `n`: it merges with a free
    /// neighbour on either side (whose nodes go, first the lower, onto the
    /// spare stack), and the merged region, held by `n`, goes to the head of
    /// its bin.
    #[verifier::opaque]
    pub open spec fn after_free(self, n: nat) -> AllocatorModel {
        let i = self.region_index(n);
        let r = self.regions[i];
        let len = self.regions.len() as int;
        let merge_prev = i > 0 && !self.regions[i - 1].used;
        let merge_next = i + 1 < len && !self.regions[i + 1].used;
        let p = self.regions[i - 1];
        let q = self.regions[i + 1];
        let lo = if merge_prev {
            i - 1
        } else {
            i
        };
        let hi = if merge_next {
            i + 2
        } else {
            i + 1
        };
        let offset = if merge_prev {
            p.offset
        } else {
            r.offset
        };
        let size = r.size + (if merge_prev {
            p.size
        } else {
            0
        }) + (if merge_next {
            q.size
        } else {
            0
        });
        let bins1 = if merge_prev {
            Self::remove_from_bin(self.bins, bin_of(p.size), p.node)
        } else {
            self.bins
        };
        let bins2 = if merge_next {
            Self::remove_from_bin(bins1, bin_of(q.size), q.node)
        } else {
            bins1
        };
        let b = bin_of(size) as int;
        let spare1 = if merge_prev {
            self.spare.push(p.node)
        } else {
            self.spare
        };
        let spare2 = if merge_next {
            spare1.push(q.node)
        } else {
            spare1
        };
        AllocatorModel {
            regions: self.regions.subrange(0, lo) + seq![
                Region { node: n, offset, size, used: false },
            ] + self.regions.subrange(hi, len),
            bins: bins2.update(b, seq![n] + bins2[b]),
            spare: spare2,
            free_storage: self.free_storage + r.size,
            ..self
        }
    }

    /// The largest free region that the allocator reports: the value of the
    /// highest nonempty bin (0 when there is none); a region of at least that
    /// size is free.
    pub open spec fn largest_free_region(self) -> nat {
        match self.highest_bin() {
            Some(b) => small_float_value(b) % 0x1_0000_0000,
            None => 0,
        }
    }
}

/// Laws of the allocator, stated over its model.
impl AllocatorModel {
    /// Freeing the region `i` of node `n` when only the region after it is
    /// free: the two merge into one region held by `n`.
    proof fn lemma_free_merging_next(self, n: nat, i: int)
        requires
            0 <= i,
            i + 1 < self.regions.len(),
            self.region_index(n) == i,
            !(i > 0 && !self.regions[i - 1].used),
            !self.regions[i + 1].used,
        ensures
            ({
                let m2 = self.after_free(n);
                let r = self.regions[i];
                let q = self.regions[i + 1];
                let merged = Region { node: n, offset: r.offset, size: r.size + q.size, used: false };
                let bins2 = Self::remove_from_bin(self.bins, bin_of(q.size), q.node);
                &&& m2.regions == self.regions.subrange(0, i) + seq![merged]
                    + self.regions.subrange(i + 2, self.regions.len() as int)
                &&& m2.bins == bins2.update(
                    bin_of(r.size + q.size) as int,
                    seq![n] + bins2[bin_of(r.size + q.size) as int],
                )
                &&& m2.spare == self.spare.push(q.node)
                &&& m2.free_storage == self.free_storage + r.size
                &&& m2.size == self.size
                &&& m2.max_allocs == self.max_allocs
            }),
    {
        reveal(AllocatorModel::after_free);
    }

    /// The state right after an allocation that split region `i`.
    #[verifier::spinoff_prover]
    proof fn lemma_split_state(self, size: u32, b: nat, i: int)
        requires
            self.allocation_setting(size, b, i),
            self.regions[i].size - size > 0,
        ensures
            ({
                let m1 = self.after_allocate(size);
                let r = self.regions[i];
                let k = self.spare.last();
                let rem = (r.size - size) as nat;
                let rb = bin_of(rem) as int;
                let bins1 = self.bins.update(b as int, self.bins[b as int].drop_first());
                let x = seq![k] + bins1[rb];
                &&& 0 <= rb < num_bins()
                &&& m1.regions == self.split_regions(size, i)
                &&& m1.region_index(r.node) == i
                &&& m1.bins == bins1.update(rb, x)
                &&& m1.spare == self.spare.drop_last()
                &&& m1.free_storage == self.free_storage - size
                &&& m1.size == self.size
                &&& m1.max_allocs == self.max_allocs
                &&& x.index_of(k) == 0
                &&& !(i > 0 && !self.regions[i - 1].used)
            }),
    {
        let n = self.regions[i].node;
        let r = self.regions[i];
        self.lemma_after_allocate_wf(size);
        let m1 = self.after_allocate(size);
        if i > 0 {
            reveal(AllocatorModel::coalesced);
            assert(self.regions[i - 1].used || self.regions[i].used);
        }
        let bins1 = self.bins.update(b as int, self.bins[b as int].drop_first());
        self.lemma_split_index(size, i);
        let k = self.spare.last();
        let rem = (r.size - size) as nat;
        let rb = bin_of(rem) as int;
        lemma_round_down(rem as u32);
        let x = seq![k] + bins1[rb];
        assert(m1.regions == self.split_regions(size, i) && m1.bins == bins1.update(rb, x)
            && m1.spare == self.spare.drop_last() && m1.free_storage == self.free_storage - size
            && m1.size == self.size && m1.max_allocs == self.max_allocs) by {
            reveal(AllocatorModel::after_allocate);
        }
        m1.lemma_region_index(n, i);
        assert(x.index_of(k) == 0) by {
            reveal(AllocatorModel::bins_distinct);
            assert(m1.bins[rb][0] == k);
            assert(x.contains(k));
            let j = x.index_of(k);
            if j != 0 {
                assert(m1.bins[rb][j] != m1.bins[rb][0]);
            }
        }
    }

    /// Undoing an allocation that split region `i`: freeing its node merges
    /// the used part back with the remainder.
    #[verifier::spinoff_prover]
    proof fn lemma_undo_split(self, size: u32, b: nat, i: int)
        requires
            self.allocation_setting(size, b, i),
            self.regions[i].size - size > 0,
        ensures
            self.after_allocate(size).after_free(self.regions[i].node) == self,
    {
        let n = self.regions[i].node;
        let r = self.regions[i];
        let m1 = self.after_allocate(size);
        let len = self.regions.len() as int;
        self.lemma_split_state(size, b, i);
        self.lemma_split_index(size, i);
        let bins1 = self.bins.update(b as int, self.bins[b as int].drop_first());
        let k = self.spare.last();
        let rem = (r.size - size) as nat;
        let rb = bin_of(rem) as int;
        let x = seq![k] + bins1[rb];
        assert(m1.regions[i].size == size);
        let q = m1.regions[i + 1];
        assert(q.node == k && q.size == rem);
        let m2 = m1.after_free(n);
        let bins2 = Self::remove_from_bin(m1.bins, rb as nat, k);
        m1.lemma_free_merging_next(n, i);
        assert(x.remove(0) =~= bins1[rb]);
        assert(bins2 =~= bins1);
        assert(bins1.update(b as int, seq![n] + bins1[b as int]) =~= self.bins) by {
            assert(seq![n] + self.bins[b as int].drop_first() =~= self.bins[b as int]);
        }
        assert(m2.spare =~= self.spare);
        assert(m2.regions =~= self.regions) by {
            let s1 = m1.regions;
            assert forall|j: int| 0 <= j < self.regions.len() implies m2.regions[j]
                == self.regions[j] by {
                if j > i {
                    assert(m2.regions[j] == s1[j + 1]);
                }
            }
        }
    }

    /// Undoing an allocation that took region `i` whole.
    #[verifier::spinoff_prover]
    #[verifier::rlimit(50)]
    proof fn lemma_undo_whole(self, size: u32, b: nat, i: int)
        requires
            self.allocation_setting(size, b, i),
            self.regions[i].size == size,
        ensures
            self.after_allocate(size).after_free(self.regions[i].node) == self,
    {
        let n = self.regions[i].node;
        let r = self.regions[i];
        self.lemma_after_allocate_wf(size);
        let m1 = self.after_allocate(size);
        let len = self.regions.len() as int;
        reveal(AllocatorModel::coalesced);
        if i > 0 {
            assert(self.regions[i - 1].used || self.regions[i].used);
        }
        if i + 1 < len {
            assert(self.regions[i].used || self.regions[i + 1].used);
        }
        let bins1 = self.bins.update(b as int, self.bins[b as int].drop_first());
        assert(m1.regions == self.regions.update(
            i,
            Region { node: n, offset: r.offset, size: size as nat, used: true },
        ) && m1.bins == bins1 && m1.spare == self.spare && m1.free_storage
            == self.free_storage - size && m1.size == self.size && m1.max_allocs
            == self.max_allocs) by {
            reveal(AllocatorModel::after_allocate);
        }
        m1.lemma_region_index(n, i);
        assert(m1.regions[i].size == size);
        assert(!(i > 0 && !m1.regions[i - 1].used));
        assert(!(i + 1 < len && !m1.regions[i + 1].used));
        let m2 = m1.after_free(n);
        let merged = Region { node: n, offset: r.offset, size: r.size, used: false };
        assert(m2.regions == m1.regions.subrange(0, i) + seq![merged] + m1.regions.subrange(
            i + 1,
            len,
        ) && m2.bins == bins1.update(b as int, seq![n] + bins1[b as int]) && m2.spare
            == m1.spare && m2.free_storage == m1.free_storage + size && m2.size == m1.size
            && m2.max_allocs == m1.max_allocs) by {
            reveal(AllocatorModel::after_free);
        }
        assert(bins1.update(b as int, seq![n] + bins1[b as int]) =~= self.bins) by {
            assert(seq![n] + self.bins[b as int].drop_first() =~= self.bins[b as int]);
        }
        assert(m2.regions =~= self.regions);
    }

    /// Freeing an allocation right after making it restores the allocator
    /// exactly: the regions, the bins (in order), the spare nodes and the
    /// free space are all as before.
    pub proof fn lemma_free_undoes_allocate(self, size: u32)
        requires
            self.wf(),
            self.allocation(size) is Some,
        ensures
            self.after_allocate(size).is_allocated(self.allocation(size).unwrap().0),
            self.after_allocate(size).after_free(self.allocation(size).unwrap().0) == self,
    {
        reveal(AllocatorModel::allocation);
        let b = self.allocation_bin(size)->0;
        self.lemma_allocation_fits(size);
        let n = self.bins[b as int][0];
        let i = self.region_index(n);
        self.lemma_region_bounds(i);
        assert(self.allocation_setting(size, b, i));
        self.lemma_allocation_result(size);
        if self.regions[i].size - size > 0 {
            self.lemma_undo_split(size, b, i);
        } else {
            self.lemma_undo_whole(size, b, i);
        }
    }

    /// The regions of a working allocator lie one after another: a region
    /// ends at or before the start of every region after it, so no two
    /// regions (and no two allocations) overlap.
    pub proof fn lemma_regions_disjoint(self, j: int, l: int)
        requires
            self.wf(),
            0 <= j < l < self.regions.len(),
        ensures
            self.regions[j].offset + self.regions[j].size <= self.regions[l].offset,
        decreases l - j,
    {
        reveal(AllocatorModel::tiled);
        if l > j + 1 {
            self.lemma_regions_disjoint(j, l - 1);
        }
        assert(self.regions[l - 1].offset + self.regions[l - 1].size == self.regions[l].offset);
    }

    /// No two neighbouring regions of a working allocator are both free.
    pub proof fn lemma_no_adjacent_free(self, j: int)
        requires
            self.wf(),
            0 <= j < self.regions.len() - 1,
        ensures
            self.regions[j].used || self.regions[j + 1].used,
    {
        reveal(AllocatorModel::coalesced);
    }

    /// The space of a working allocator is accounted for: the regions cover
    /// all of it, the free space counts only free regions, and every node
    /// holds a region or is spare.
    pub proof fn lemma_space_accounted(self)
        requires
            self.wf(),
        ensures
            total_size(self.regions, false) == self.size,
            self.free_storage == total_size(self.regions, true),
            self.free_storage <= self.size,
            self.regions.len() + self.spare.len() == self.max_allocs,
            self.regions[0].offset == 0,
            self.regions.last().offset + self.regions.last().size == self.size,
    {
        reveal(AllocatorModel::tiled);
        reveal(AllocatorModel::nodes_partitioned);
        lemma_free_within_total(self.regions);
    }

    /// A successful allocation of `size` units takes the head of the lowest
    /// nonempty bin at or above `size` rounded up, whose free region holds at
    /// least `size` units; afterwards its node holds a used region of exactly
    /// `size` units at the returned offset, within the managed space, and the
    /// free space has shrunk by `size`.
    pub proof fn lemma_allocation_result(self, size: u32)
        requires
            self.wf(),
            self.allocation(size) is Some,
        ensures
            ({
                let (n, offset) = self.allocation(size)->0;
                let after = self.after_allocate(size);
                let r = self.regions[self.region_index(n)];
                &&& self.holds_region(n)
                &&& !r.used
                &&& r.offset == offset
                &&& size <= r.size
                &&& offset + size <= self.size
                &&& after.holds_region(n)
                &&& after.regions[after.region_index(n)] == Region {
                    node: n,
                    offset,
                    size: size as nat,
                    used: true,
                }
                &&& after.free_storage + size == self.free_storage
                &&& after.wf()
            }),
    {
        reveal(AllocatorModel::allocation);
        let b = self.allocation_bin(size)->0;
        self.lemma_allocation_fits(size);
        let n = self.bins[b as int][0];
        let i = self.region_index(n);
        self.lemma_region_bounds(i);
        let r = self.regions[i];
        assert(self.allocation_setting(size, b, i));
        self.lemma_after_allocate_wf(size);
        let after = self.after_allocate(size);
        if r.size - size > 0 {
            self.lemma_split_index(size, i);
            assert(after.regions == self.split_regions(size, i)) by {
                reveal(AllocatorModel::after_allocate);
            }
        } else {
            assert(after.regions == self.regions.update(
                i,
                Region { node: n, offset: r.offset, size: size as nat, used: true },
            )) by {
                reveal(AllocatorModel::after_allocate);
            }
        }
        after.lemma_region_index(n, i);
        assert(after.free_storage == self.free_storage - size) by {
            reveal(AllocatorModel::after_allocate);
        }
    }

    /// Freeing the allocation of node `n` adds its size to the free space,
    /// and `n` then holds a free region that covers the freed one.
    pub proof fn lemma_free_result(self, n: nat)
        requires
            self.wf(),
            self.is_allocated(n),
        ensures
            ({
                let after = self.after_free(n);
                let r = self.regions[self.region_index(n)];
                let fr = after.regions[after.region_index(n)];
                &&& after.free_storage == self.free_storage + r.size
                &&& after.holds_region(n)
                &&& !fr.used
                &&& fr.offset <= r.offset
                &&& r.offset + r.size <= fr.offset + fr.size
                &&& after.wf()
            }),
    {
        self.lemma_free_shape(n);
        self.lemma_after_free_wf(n);
        let i = self.region_index(n);
        let lo = self.free_lo(i);
        let after = self.after_free(n);
        after.lemma_region_index(n, lo);
        let len = self.regions.len() as int;
        if i > 0 {
            self.lemma_adjacent(i - 1);
        }
        if i + 1 < len {
            self.lemma_adjacent(i);
        }
    }

    /// The largest free region that a working allocator reports is at most
    /// its free space.
    pub proof fn lemma_largest_within_free(self)
        requires
            self.wf(),
        ensures
            self.largest_free_region() <= self.free_storage,
    {
        self.lemma_highest_bin_props();
        if self.highest_bin() is Some {
            let b = self.highest_bin()->0;
            reveal(AllocatorModel::bins_entries_free);
            let x = self.bins[b as int][0];
            assert(self.holds_region(x));
            let i = self.region_index(x);
            self.lemma_region_bounds(i);
            lemma_round_down(self.regions[i].size as u32);
        }
    }

    /// A fresh allocator over `size` units with a budget of `max_allocs`
    /// nodes has exactly that budget: one node holds a single free region
    /// covering the whole space, and every other node is spare, with node 1
    /// on top of the spare stack.
    pub proof fn lemma_initial_budget(size: nat, max_allocs: nat)
        requires
            1 <= max_allocs,
        ensures
            Self::initial(size, max_allocs).size == size,
            Self::initial(size, max_allocs).max_allocs == max_allocs,
            Self::initial(size, max_allocs).spare.len() + 1 == max_allocs,
            forall|i: int|
                0 <= i < max_allocs - 1 ==> #[trigger] Self::initial(size, max_allocs).spare[i] + i + 1
                    == max_allocs,
            Self::initial(size, max_allocs).regions == seq![
                Region { node: 0, offset: 0, size, used: false },
            ],
            Self::initial(size, max_allocs).free_storage == size,
    {
    }

    /// A fresh allocator is in a working state.
    #[verifier::spinoff_prover]
    pub proof fn lemma_initial_wf(size: nat, max_allocs: nat)
        requires
            size <= u32::MAX,
            1 <= max_allocs < u32::MAX,
        ensures
            Self::initial(size, max_allocs).wf(),
    {
        let m = Self::initial(size, max_allocs);
        reveal(AllocatorModel::tiled);
        reveal(AllocatorModel::nodes_partitioned);
        reveal(AllocatorModel::bins_distinct);
        reveal(AllocatorModel::bins_entries_free);
        reveal(AllocatorModel::free_regions_binned);
        reveal(AllocatorModel::coalesced);
        lemma_round_down(size as u32);
        lemma_total_single(m.regions[0], true);
        lemma_total_single(m.regions[0], false);
        m.lemma_region_index(0, 0);
        let bb = bin_of(size) as int;
        assert(m.bins[bb] =~= seq![0nat]);
        assert(m.bins[bb][0] == 0);
        assert(m.bins[bb].contains(0));
        assert(m.bins_entries_free());
        assert(m.bins_distinct());
        assert(m.free_regions_binned());
    }

    /// The state after `j` allocations of `u` units each, one after another.
    pub open spec fn after_allocations(self, u: u32, j: nat) -> AllocatorModel
        decreases j,
    {
        if j == 0 {
            self
        } else {
            self.after_allocations(u, (j - 1) as nat).after_allocate(u)
        }
    }

    /// One more allocation of `u` units in a run from a fresh allocator: it
    /// takes the free rest at offset `j * u`, held by node `j`.
    #[verifier::spinoff_prover]
    #[verifier::rlimit(50)]
    proof fn lemma_unit_step(self, u: u32, j: nat)
        requires
            self.wf(),
            self.regions == unit_regions(self.size, u as nat, j),
            self.spare == spare_after(self.max_allocs, j),
            j + 1 < self.max_allocs,
            j * u + small_float_value(spec_round_up(u)) <= self.size,
            (j + 1) * u < self.size,
        ensures
            self.allocation(u) == Some((j, j * (u as nat))),
            self.after_allocate(u).wf(),
            self.after_allocate(u).regions == unit_regions(self.size, u as nat, j + 1),
            self.after_allocate(u).spare == spare_after(self.max_allocs, j + 1),
            self.after_allocate(u).size == self.size,
            self.after_allocate(u).max_allocs == self.max_allocs,
    {
        let size = self.size;
        let m = self.max_allocs;
        assert(j * u + u == (j + 1) * u) by (nonlinear_arith);
        let t = (size - j * u) as nat;
        let ru = spec_round_up(u);
        lemma_round_up(u);
        lemma_round_down(t as u32);
        let bt = bin_of(t);
        let rs = self.regions;
        assert(rs[j as int] == Region { node: j, offset: j * (u as nat), size: t, used: false });
        self.lemma_region_index(j, j as int);
        assert forall|b: int| 0 <= b < num_bins() && #[trigger] self.bins[b].len() > 0 implies b
            == bt && self.bins[b][0] == j by {
            reveal(AllocatorModel::bins_entries_free);
            let x = self.bins[b][0];
            let i = self.region_index(x);
            assert(!rs[i].used);
        }
        assert(self.bins[bt as int].len() > 0) by {
            reveal(AllocatorModel::free_regions_binned);
            assert(self.bins[bt as int].contains(j));
        }
        if ru > bt {
            if bt + 1 < ru {
                lemma_small_float_value_increases(bt + 1, ru);
            }
        }
        self.lemma_lowest_bin_props(ru);
        assert(self.allocation_bin(u) == Some(bt));
        assert(self.allocation(u) == Some((j, j * (u as nat)))) by {
            reveal(AllocatorModel::allocation);
        }
        self.lemma_region_bounds(j as int);
        assert(self.allocation_setting(u, bt, j as int));
        self.lemma_split_state(u, bt, j as int);
        self.lemma_split_index(u, j as int);
        self.lemma_after_allocate_wf(u);
        let after = self.after_allocate(u);
        assert(self.spare.last() == j + 1);
        assert(after.regions =~= unit_regions(size, u as nat, j + 1));
        assert(after.spare =~= spare_after(m, j + 1));
    }

    /// The state of a run of `j` allocations of `u` units each from a fresh
    /// allocator, while each left a free rest.
    proof fn lemma_unit_state(size: nat, max_allocs: nat, u: u32, j: nat)
        requires
            size <= u32::MAX,
            2 <= max_allocs < u32::MAX,
            j < max_allocs,
            j * u < size || j == 0,
            j > 0 ==> (j - 1) * u + small_float_value(spec_round_up(u)) <= size,
        ensures
            ({
                let mj = Self::initial(size, max_allocs).after_allocations(u, j);
                &&& mj.wf()
                &&& mj.regions == unit_regions(size, u as nat, j)
                &&& mj.spare == spare_after(max_allocs, j)
                &&& mj.size == size
                &&& mj.max_allocs == max_allocs
            }),
        decreases j,
    {
        let m0 = Self::initial(size, max_allocs);
        if j == 0 {
            Self::lemma_initial_wf(size, max_allocs);
            assert(m0.regions =~= unit_regions(size, u as nat, 0));
            assert(m0.spare =~= spare_after(max_allocs, 0));
        } else {
            let p = (j - 1) as nat;
            assert(p * u <= j * u) by (nonlinear_arith)
                requires
                    p < j,
            ;
            if p > 0 {
                assert((p - 1) * u <= p * u) by (nonlinear_arith)
                    requires
                        p > 0,
                ;
            }
            Self::lemma_unit_state(size, max_allocs, u, p);
            let mp = m0.after_allocations(u, p);
            assert(p + 1 == j);
            mp.lemma_unit_step(u, p);
        }
    }

    /// From a fresh allocator over `size` units with a budget of
    /// `max_allocs` nodes, allocations of `u` units each, one after another,
    /// succeed as long as a node is spare and the space lasts: the allocation
    /// after `j` of them (with `j + 1 < max_allocs`, the rest after it still
    /// nonempty, and the rest before it at least `u` rounded up to its bin)
    /// is held by node `j` at offset `j * u`.
    pub proof fn lemma_successive_allocations(size: nat, max_allocs: nat, u: u32, j: nat)
        requires
            size <= u32::MAX,
            2 <= max_allocs < u32::MAX,
            j + 1 < max_allocs,
            (j + 1) * u < size,
            j * u + small_float_value(spec_round_up(u)) <= size,
        ensures
            Self::initial(size, max_allocs).after_allocations(u, j).allocation(u) == Some((j, j * (u as nat))),
    {
        assert(j * u <= (j + 1) * u) by (nonlinear_arith);
        if j > 0 {
            assert((j - 1) * u <= j * u) by (nonlinear_arith)
                requires
                    j > 0,
            ;
        }
        Self::lemma_unit_state(size, max_allocs, u, j);
        Self::initial(size, max_allocs).after_allocations(u, j).lemma_unit_step(u, j);
    }

    /// A fresh allocator has no live allocation.
    pub proof fn lemma_initial_none_live(size: nat, max_allocs: nat)
        ensures
            live_count(Self::initial(size, max_allocs).regions) == 0,
    {
        lemma_live_single(Self::initial(size, max_allocs).regions[0]);
        assert(Self::initial(size, max_allocs).regions =~= seq![
            Self::initial(size, max_allocs).regions[0],
        ]);
    }

    /// A successful allocation adds one live allocation; a failed one
    /// changes nothing.
    #[verifier::spinoff_prover]
    pub proof fn lemma_allocate_counts(self, size: u32)
        requires
            self.wf(),
        ensures
            live_count(self.after_allocate(size).regions) == live_count(self.regions) + (if self.allocation(
                size,
            ) is Some {
                1nat
            } else {
                0nat
            }),
    {
        if self.allocation_bin(size) is None {
            self.lemma_no_allocation(size);
        } else {
            reveal(AllocatorModel::allocation);
            let b = self.allocation_bin(size)->0;
            self.lemma_allocation_fits(size);
            let n = self.bins[b as int][0];
            let i = self.region_index(n);
            let r = self.regions[i];
            let len = self.regions.len() as int;
            let after = self.after_allocate(size);
            lemma_live_split(self.regions, i);
            if r.size - size > 0 {
                self.lemma_split_index(size, i);
                assert(after.regions == self.split_regions(size, i)) by {
                    reveal(AllocatorModel::after_allocate);
                }
                let s2 = after.regions;
                lemma_live_split(s2, i);
                assert(s2.subrange(0, i) =~= self.regions.subrange(0, i));
                let c = self.regions.subrange(i + 1, len);
                assert(s2.subrange(i + 1, s2.len() as int) =~= seq![s2[i + 1]] + c);
                lemma_live_concat(seq![s2[i + 1]], c);
                lemma_live_single(s2[i + 1]);
            } else {
                let used = Region { node: n, offset: r.offset, size: size as nat, used: true };
                assert(after.regions == self.regions.update(i, used)) by {
                    reveal(AllocatorModel::after_allocate);
                }
                let s2 = after.regions;
                lemma_live_split(s2, i);
                assert(s2.subrange(0, i) =~= self.regions.subrange(0, i));
                assert(s2.subrange(i + 1, len) =~= self.regions.subrange(i + 1, len));
            }
        }
    }

    /// Freeing a live allocation removes one live allocation.
    #[verifier::spinoff_prover]
    pub proof fn lemma_free_counts(self, n: nat)
        requires
            self.wf(),
            self.is_allocated(n),
        ensures
            live_count(self.after_free(n).regions) + 1 == live_count(self.regions),
    {
        self.lemma_free_shape(n);
        let i = self.region_index(n);
        let len = self.regions.len() as int;
        let lo = self.free_lo(i);
        let hi = self.free_hi(i);
        let m2 = self.after_free(n);
        let rs = self.regions;
        lemma_live_split(rs, i);
        let left = rs.subrange(0, i);
        let right = rs.subrange(i + 1, len);
        if lo < i {
            lemma_live_split(left, i - 1);
            assert(left.subrange(0, i - 1) =~= rs.subrange(0, lo));
            assert(left.subrange(i, i) =~= Seq::<Region>::empty());
            assert(live_count(Seq::<Region>::empty()) == 0);
        } else {
            assert(left =~= rs.subrange(0, lo));
        }
        if hi > i + 1 {
            lemma_live_split(right, 0);
            assert(right.subrange(0, 0) =~= Seq::<Region>::empty());
            assert(live_count(Seq::<Region>::empty()) == 0);
            assert(right.subrange(1, right.len() as int) =~= rs.subrange(hi, len));
        } else {
            assert(right =~= rs.subrange(hi, len));
        }
        lemma_live_split(m2.regions, lo);
        assert(m2.regions.subrange(0, lo) =~= rs.subrange(0, lo));
        assert(m2.regions.subrange(lo + 1, m2.regions.len() as int) =~= rs.subrange(hi, len));
    }

    /// Once every allocation is freed there is no fragmentation left: a
    /// single free region covers the whole space, all of it is free, and the
    /// largest free region reported is the space rounded down to its bin.
    #[verifier::spinoff_prover]
    pub proof fn lemma_all_free_is_whole(self)
        requires
            self.wf(),
            live_count(self.regions) == 0,
        ensures
            self.regions.len() == 1,
            self.regions[0].offset == 0,
            self.regions[0].size == self.size,
            !self.regions[0].used,
            self.free_storage == self.size,
            self.highest_bin() == Some(bin_of(self.size)),
            self.largest_free_region() == small_float_value(bin_of(self.size)),
    {
        lemma_live_zero(self.regions);
        reveal(AllocatorModel::tiled);
        reveal(AllocatorModel::coalesced);
        if self.regions.len() > 1 {
            assert(self.regions[0].used || self.regions[1].used);
        }
        lemma_total_single(self.regions[0], true);
        lemma_total_single(self.regions[0], false);
        assert(self.regions =~= seq![self.regions[0]]);
        let bb = bin_of(self.size);
        lemma_round_down(self.size as u32);
        assert(self.bins[bb as int].len() > 0) by {
            reveal(AllocatorModel::free_regions_binned);
            assert(self.bins[bb as int].contains(self.regions[0].node));
        }
        assert forall|k: nat| bb < k < num_bins() implies #[trigger] self.bins[k as int].len() == 0 by {
            if self.bins[k as int].len() > 0 {
                reveal(AllocatorModel::bins_entries_free);
                let x = self.bins[k as int][0];
                assert(self.holds_region(x));
                let j = self.region_index(x);
                assert(j == 0);
            }
        }
        self.lemma_highest_bin_props();
        let h = self.highest_bin()->0;
        if h != bb {
            assert(self.bins[bb as int].len() == 0);
        }
        lemma_float_fits(bb);
    }

    /// The highest nonempty bin of a working allocator is below 240.
    proof fn lemma_highest_bin_below_240(self)
        requires
            self.wf(),
            self.highest_bin() is Some,
        ensures
            self.highest_bin()->0 < 240,
    {
        self.lemma_highest_bin_props();
        let b = self.highest_bin()->0;
        reveal(AllocatorModel::bins_entries_free);
        let x = self.bins[b as int][0];
        let i = self.region_index(x);
        self.lemma_region_bounds(i);
        lemma_round_down(self.regions[i].size as u32);
    }

    /// With a node spare, an allocation of `s` units succeeds exactly when
    /// some region is free and `s` is at most the largest free region
    /// reported.
    #[verifier::spinoff_prover]
    pub proof fn lemma_allocation_iff_largest(self, s: u32)
        requires
            self.wf(),
            self.spare.len() > 0,
        ensures
            self.allocation(s) is Some <==> (self.highest_bin() is Some && s
                <= self.largest_free_region()),
    {
        self.lemma_highest_bin_props();
        let ru = spec_round_up(s);
        lemma_round_up(s);
        self.lemma_lowest_bin_props(ru);
        assert(self.allocation(s) is Some <==> self.lowest_bin_from(ru) is Some) by {
            reveal(AllocatorModel::allocation);
        }
        if self.highest_bin() is Some {
            let h = self.highest_bin()->0;
            self.lemma_highest_bin_below_240();
            lemma_float_fits(h);
            lemma_fits_float(s, h);
            if ru <= h {
                assert(self.bins[h as int].len() > 0);
            }
        }
    }

    /// An allocation stays live, with its region unchanged, when another
    /// allocation is made.
    #[verifier::spinoff_prover]
    pub proof fn lemma_allocate_keeps_live(self, size: u32, n: nat)
        requires
            self.wf(),
            self.is_allocated(n),
        ensures
            self.after_allocate(size).is_allocated(n),
            self.after_allocate(size).regions[self.after_allocate(size).region_index(n)]
                == self.regions[self.region_index(n)],
    {
        if self.allocation_bin(size) is None {
            self.lemma_no_allocation(size);
        } else {
            let b = self.allocation_bin(size)->0;
            self.lemma_allocation_fits(size);
            let k = self.bins[b as int][0];
            let i = self.region_index(k);
            let j = self.region_index(n);
            let r = self.regions[i];
            self.lemma_after_allocate_wf(size);
            let after = self.after_allocate(size);
            if r.size - size > 0 {
                self.lemma_split_index(size, i);
                assert(after.regions == self.split_regions(size, i)) by {
                    reveal(AllocatorModel::after_allocate);
                }
                if j < i {
                    after.lemma_region_index(n, j);
                } else {
                    assert(after.regions[j + 1] == self.regions[j]);
                    after.lemma_region_index(n, j + 1);
                }
            } else {
                let used = Region { node: k, offset: r.offset, size: size as nat, used: true };
                assert(after.regions == self.regions.update(i, used)) by {
                    reveal(AllocatorModel::after_allocate);
                }
                after.lemma_region_index(n, j);
            }
        }
    }

    /// An allocation stays live, with its region unchanged, when another
    /// allocation is freed.
    #[verifier::spinoff_prover]
    pub proof fn lemma_free_keeps_live(self, k: nat, n: nat)
        requires
            self.wf(),
            self.is_allocated(k),
            self.is_allocated(n),
            k != n,
        ensures
            self.after_free(k).is_allocated(n),
            self.after_free(k).regions[self.after_free(k).region_index(n)]
                == self.regions[self.region_index(n)],
    {
        self.lemma_free_shape(k);
        self.lemma_after_free_wf(k);
        let i = self.region_index(k);
        let j = self.region_index(n);
        let lo = self.free_lo(i);
        let hi = self.free_hi(i);
        let m2 = self.after_free(k);
        if j < lo {
            m2.lemma_region_index(n, j);
        } else {
            let jj = j - hi + lo + 1;
            assert(m2.regions[jj] == self.regions[j]);
            m2.lemma_region_index(n, jj);
        }
    }

    /// The largest free region that a working allocator reports can be
    /// allocated at once, as long as a node is spare.
    #[verifier::spinoff_prover]
    pub proof fn lemma_largest_allocatable(self)
        requires
            self.wf(),
            self.spare.len() > 0,
            self.largest_free_region() > 0,
        ensures
            self.largest_free_region() <= u32::MAX,
            self.allocation(self.largest_free_region() as u32) is Some,
    {
        self.lemma_highest_bin_props();
        let b = self.highest_bin()->0;
        self.lemma_highest_bin_below_240();
        lemma_float_fits(b);
        let v = small_float_value(b) as u32;
        assert(self.largest_free_region() == v);
        self.lemma_lowest_bin_props(b);
        assert(self.allocation_bin(v) == Some(b));
        assert(self.allocation(v) is Some) by {
            reveal(AllocatorModel::allocation);
        }
    }
}

/// The number of used regions of `s`: the allocations that are live.
pub open spec fn live_count(s: Seq<Region>) -> nat
    decreases s.len(),
{
    if s.len() == 0 {
        0
    } else {
        live_count(s.drop_last()) + (if s.last().used {
            1nat
        } else {
            0nat
        })
    }
}

/// Live counts add up over concatenation.
proof fn lemma_live_concat(a: Seq<Region>, b: Seq<Region>)
    ensures
        live_count(a + b) == live_count(a) + live_count(b),
    decreases b.len(),
{
    if b.len() == 0 {
        assert(a + b =~= a);
    } else {
        assert((a + b).drop_last() =~= a + b.drop_last());
        lemma_live_concat(a, b.drop_last());
    }
}

/// The live count of a one-region sequence.
proof fn lemma_live_single(r: Region)
    ensures
        live_count(seq![r]) == (if r.used {
            1nat
        } else {
            0nat
        }),
{
    let e = seq![r].drop_last();
    assert(e =~= Seq::<Region>::empty());
    assert(live_count(e) == 0);
    assert(seq![r].last() == r);
}

/// The live count of a sequence split around index `i`.
proof fn lemma_live_split(s: Seq<Region>, i: int)
    requires
        0 <= i < s.len(),
    ensures
        live_count(s) == live_count(s.subrange(0, i)) + (if s[i].used {
            1nat
        } else {
            0nat
        }) + live_count(s.subrange(i + 1, s.len() as int)),
{
    let a = s.subrange(0, i);
    let c = s.subrange(i + 1, s.len() as int);
    assert(s =~= a + seq![s[i]] + c);
    lemma_live_concat(a + seq![s[i]], c);
    lemma_live_concat(a, seq![s[i]]);
    lemma_live_single(s[i]);
}

/// A sequence with no used region has a live count of zero, and one with a
/// live count of zero has no used region.
proof fn lemma_live_zero(s: Seq<Region>)
    ensures
        live_count(s) == 0 <==> forall|i: int| 0 <= i < s.len() ==> !(#[trigger] s[i]).used,
    decreases s.len(),
{
    if s.len() > 0 {
        lemma_live_zero(s.drop_last());
        if live_count(s) == 0 {
            assert forall|i: int| 0 <= i < s.len() implies !(#[trigger] s[i]).used by {
                if i < s.len() - 1 {
                    assert(s[i] == s.drop_last()[i]);
                }
            }
        } else {
            if forall|i: int| 0 <= i < s.len() ==> !(#[trigger] s[i]).used {
                assert forall|i: int| 0 <= i < s.drop_last().len() implies !(
                #[trigger] s.drop_last()[i]).used by {
                    assert(s.drop_last()[i] == s[i]);
                }
                assert(!s[s.len() - 1].used);
            }
        }
    }
}

/// The regions after `j` allocations of `u` units each from a fresh
/// allocator over `size` units: `j` used regions of `u` units one after
/// another, held by nodes `0..j`, then the free rest, held by node `j`.
pub open spec fn unit_regions(size: nat, u: nat, j: nat) -> Seq<Region> {
    Seq::new(
        j + 1,
        |k: int|
            if k < j {
                Region { node: k as nat, offset: (k * u) as nat, size: u, used: true }
            } else {
                Region { node: j, offset: j * u, size: (size - j * u) as nat, used: false }
            },
    )
}

/// The spare stack after `j` such allocations with a budget of `max_allocs`
/// nodes: the nodes from `j + 1` on, the lowest on top.
pub open spec fn spare_after(max_allocs: nat, j: nat) -> Seq<nat> {
    Seq::new((max_allocs - 1 - j) as nat, |i: int| (max_allocs - 1 - i) as nat)
}

/// A size fits the float `h` (below 240) exactly when it rounds up to at
/// most `h`.
proof fn lemma_fits_float(s: u32, h: nat)
    requires
        h < 240,
    ensures
        spec_round_up(s) <= h <==> s <= small_float_value(h),
{
    let ru = spec_round_up(s);
    lemma_round_up(s);
    if ru < h {
        lemma_small_float_value_increases(ru, h);
    } else if ru > h {
        if h < (ru - 1) as nat {
            lemma_small_float_value_increases(h, (ru - 1) as nat);
        }
    }
}

/// A float below 240 is a `u32` value, read back unchanged, and rounding it
/// up gives the float again.
proof fn lemma_float_fits(b: nat)
    requires
        b < 240,
    ensures
        small_float_value(b) <= u32::MAX,
        small_float_value(b) % 0x1_0000_0000 == small_float_value(b),
        spec_round_up(small_float_value(b) as u32) == b,
{
    lemma_round_trip(b);
    let x = small_float_value(b);
    vstd::arithmetic::div_mod::lemma_small_mod(x, 0x1_0000_0000);
}

} // verus!
