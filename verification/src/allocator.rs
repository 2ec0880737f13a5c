//! The allocator: a single contiguous space of `size` units, handed out in
//! regions, each held by a node; free regions sit in size bins.
use vstd::prelude::*;

verus! {

use crate::bins_map::BinsMap;
use crate::model::{AllocatorModel, Region, bin_of, num_bins};
use crate::node_index::{NodeIndex, NodeIndexOption};
use crate::small_float::{SmallFloat, small_float_value, lemma_round_down, lemma_round_up};

/// A node: the bookkeeping of one region.
#[derive(Clone, Copy)]
pub struct Node<NI: NodeIndex> {
    /// The offset of the region in the managed space.
    pub data_offset: u32,
    /// The size of the region.
    pub data_size: u32,
    /// The previous node in the same bin.
    pub bin_list_prev: NodeIndexOption<NI>,
    /// The next node in the same bin.
    pub bin_list_next: NodeIndexOption<NI>,
    /// The node of the region just before, in memory.
    pub neighbor_prev: NodeIndexOption<NI>,
    /// The node of the region just after, in memory.
    pub neighbor_next: NodeIndexOption<NI>,
    /// Whether the region is handed out (rather than free in a bin).
    pub used: bool,
}

impl<NI: NodeIndex> Node<NI> {
    /// A node with no region and no links.
    pub fn empty() -> (r: Self)
        ensures
            r.data_offset == 0,
            r.data_size == 0,
            r.bin_list_prev@ == None::<nat>,
            r.bin_list_next@ == None::<nat>,
            r.neighbor_prev@ == None::<nat>,
            r.neighbor_next@ == None::<nat>,
            !r.used,
    {
        Node {
            data_offset: 0,
            data_size: 0,
            bin_list_prev: NodeIndexOption::none(),
            bin_list_next: NodeIndexOption::none(),
            neighbor_prev: NodeIndexOption::none(),
            neighbor_next: NodeIndexOption::none(),
            used: false,
        }
    }
}

impl<NI: NodeIndex> Default for Node<NI> {
    /// A node with no region and no links.
    fn default() -> (r: Self)
        ensures
            r.data_offset == 0,
            r.data_size == 0,
            r.bin_list_prev@ == None::<nat>,
            r.bin_list_next@ == None::<nat>,
            r.neighbor_prev@ == None::<nat>,
            r.neighbor_next@ == None::<nat>,
            !r.used,
    {
        Self::empty()
    }
}

/// The region that node `n` holds, as the model sees it.
pub open spec fn region_of<NI: NodeIndex>(node: Node<NI>, n: nat) -> Region {
    Region { node: n, offset: node.data_offset as nat, size: node.data_size as nat, used: node.used }
}

/// The nodes of the allocator, indexed by node index.
pub struct NodeMap<NI: NodeIndex>(pub Vec<Node<NI>>);

impl<NI: NodeIndex> NodeMap<NI> {
    /// `max_allocs` empty nodes.
    pub fn with_max_allocs(max_allocs: u32) -> (r: Self)
        ensures
            r.0@.len() == max_allocs,
            forall|i: int| 0 <= i < max_allocs ==> !(#[trigger] r.0@[i]).used,
    {
        let mut v: Vec<Node<NI>> = Vec::new();
        let mut i: u32 = 0;
        while i < max_allocs
            invariant
                i <= max_allocs,
                v@.len() == i,
                forall|j: int| 0 <= j < i ==> !(#[trigger] v@[j]).used,
            decreases max_allocs - i,
        {
            v.push(Node::empty());
            i += 1;
        }
        NodeMap(v)
    }

    /// The node with index `index`.
    pub fn get(&self, index: NI) -> (r: Node<NI>)
        requires
            index.index() < self.0@.len(),
        ensures
            r == self.0@[index.index() as int],
    {
        self.0[index.to_usize()]
    }

    /// Replaces the node with index `index`.
    pub fn set(&mut self, index: NI, node: Node<NI>)
        requires
            index.index() < old(self).0@.len(),
        ensures
            final(self).0@ == old(self).0@.update(index.index() as int, node),
    {
        let i = index.to_usize();
        self.0.set(i, node);
    }
}

/// The stack of node indices that hold no region.
pub struct FreeNodeStack<NI: NodeIndex>(pub Vec<NI>);

/// The numbers that a sequence of node indices stands for.
pub open spec fn indices<NI: NodeIndex>(s: Seq<NI>) -> Seq<nat> {
    s.map_values(|x: NI| x.index())
}

impl<NI: NodeIndex> FreeNodeStack<NI> {
    /// The indices `max_allocs - 1` down to 0, so that 0 is taken first.
    pub fn with_max_allocs(max_allocs: u32) -> (r: Self)
        requires
            max_allocs <= NI::num_valid_spec(),
        ensures
            indices(r.0@) =~= Seq::new(max_allocs as nat, |i: int| (max_allocs - 1 - i) as nat),
    {
        let mut v: Vec<NI> = Vec::new();
        let mut i: u32 = max_allocs;
        while i > 0
            invariant
                i <= max_allocs <= NI::num_valid_spec(),
                v@.len() == max_allocs - i,
                forall|j: int| 0 <= j < v@.len() ==> (#[trigger] v@[j]).index() == max_allocs - 1 - j,
            decreases i,
        {
            i -= 1;
            v.push(NI::from_u32(i));
        }
        FreeNodeStack(v)
    }

    /// Whether no index is left.
    pub fn is_exhausted(&self) -> (r: bool)
        ensures
            r == (self.0@.len() == 0),
    {
        self.0.len() == 0
    }

    /// Puts an index on the stack.
    pub fn push(&mut self, node_index: NI)
        ensures
            final(self).0@ == old(self).0@.push(node_index),
    {
        self.0.push(node_index);
    }

    /// Takes the top index; there must be one.
    pub fn pop_required(&mut self) -> (r: NI)
        requires
            old(self).0@.len() > 0,
        ensures
            r == old(self).0@.last(),
            final(self).0@ == old(self).0@.drop_last(),
    {
        match self.0.pop() {
            Some(node_index) => node_index,
            None => {
                proof {
                    assert(false);
                }
                self.0[0]
            },
        }
    }
}

/// The bin lists `lists` agree with the links of `nodes` and with `map`:
/// each list is linked both ways, starts at the head of its bin, holds free
/// nodes of its bin's size class, and holds no node twice.
#[verifier::opaque]
pub open spec fn bins_linked<NI: NodeIndex>(
    nodes: Seq<Node<NI>>,
    map: BinsMap<NI>,
    lists: Seq<Seq<nat>>,
) -> bool {
    &&& map.wf()
    &&& lists.len() == num_bins()
    &&& forall|b: int|
        0 <= b < num_bins() ==> (#[trigger] map.is_occupied(b as nat) <==> lists[b].len() > 0)
    &&& forall|b: int|
        0 <= b < num_bins() ==> #[trigger] map.head(b as nat) == (if lists[b].len() > 0 {
            Some(lists[b][0])
        } else {
            None
        })
    &&& forall|b: int, j: int|
        0 <= b < num_bins() && 0 <= j < lists[b].len() ==> {
            let n = #[trigger] lists[b][j];
            &&& n < nodes.len()
            &&& nodes[n as int].bin_list_prev@ == (if j == 0 {
                None
            } else {
                Some(lists[b][j - 1])
            })
            &&& nodes[n as int].bin_list_next@ == (if j + 1 == lists[b].len() {
                None
            } else {
                Some(lists[b][j + 1])
            })
            &&& bin_of(nodes[n as int].data_size as nat) == b
            &&& !nodes[n as int].used
        }
    &&& forall|b: int, j: int, k: int|
        0 <= b < num_bins() && 0 <= j < lists[b].len() && 0 <= k < lists[b].len() && j != k
            ==> #[trigger] lists[b][j] != #[trigger] lists[b][k]
}

/// The address order `order` agrees with the neighbour links of `nodes`.
#[verifier::opaque]
pub open spec fn regions_linked<NI: NodeIndex>(nodes: Seq<Node<NI>>, order: Seq<nat>) -> bool {
    forall|i: int|
        0 <= i < order.len() ==> {
            let n = #[trigger] order[i];
            &&& n < nodes.len()
            &&& nodes[n as int].neighbor_prev@ == (if i == 0 {
                None
            } else {
                Some(order[i - 1])
            })
            &&& nodes[n as int].neighbor_next@ == (if i + 1 == order.len() {
                None
            } else {
                Some(order[i + 1])
            })
        }
}

/// Two nodes agree on what the bin lists read of them.
pub open spec fn same_bin_fields<NI: NodeIndex>(a: Node<NI>, b: Node<NI>) -> bool {
    &&& a.bin_list_prev@ == b.bin_list_prev@
    &&& a.bin_list_next@ == b.bin_list_next@
    &&& a.data_size == b.data_size
    &&& a.used == b.used
}

/// Two nodes agree on their neighbour links.
pub open spec fn same_neighbor_fields<NI: NodeIndex>(a: Node<NI>, b: Node<NI>) -> bool {
    &&& a.neighbor_prev@ == b.neighbor_prev@
    &&& a.neighbor_next@ == b.neighbor_next@
}

/// Two nodes hold the same region.
pub open spec fn same_region_fields<NI: NodeIndex>(a: Node<NI>, b: Node<NI>) -> bool {
    &&& a.data_offset == b.data_offset
    &&& a.data_size == b.data_size
    &&& a.used == b.used
}

/// The bin lists stay linked when no node changes what they read.
proof fn lemma_bins_linked_frame<NI: NodeIndex>(
    n1: Seq<Node<NI>>,
    n2: Seq<Node<NI>>,
    map: BinsMap<NI>,
    lists: Seq<Seq<nat>>,
)
    requires
        bins_linked(n1, map, lists),
        n1.len() == n2.len(),
        forall|j: int| 0 <= j < n1.len() ==> #[trigger] same_bin_fields(n1[j], n2[j]),
    ensures
        bins_linked(n2, map, lists),
{
    reveal(bins_linked);
    assert forall|b: int, j: int|
        0 <= b < num_bins() && 0 <= j < lists[b].len() implies {
        let n = #[trigger] lists[b][j];
        &&& n < n2.len()
        &&& n2[n as int].bin_list_prev@ == (if j == 0 {
            None
        } else {
            Some(lists[b][j - 1])
        })
        &&& n2[n as int].bin_list_next@ == (if j + 1 == lists[b].len() {
            None
        } else {
            Some(lists[b][j + 1])
        })
        &&& bin_of(n2[n as int].data_size as nat) == b
        &&& !n2[n as int].used
    } by {
        let n = lists[b][j];
        assert(same_bin_fields(n1[n as int], n2[n as int]));
    }
}

/// The address order stays linked when no node of it changes its
/// neighbour links.
proof fn lemma_regions_linked_frame<NI: NodeIndex>(
    n1: Seq<Node<NI>>,
    n2: Seq<Node<NI>>,
    order: Seq<nat>,
)
    requires
        regions_linked(n1, order),
        n1.len() == n2.len(),
        forall|i: int| 0 <= i < order.len() ==> #[trigger] same_neighbor_fields(n1[order[i] as int], n2[order[i] as int]),
    ensures
        regions_linked(n2, order),
{
    reveal(regions_linked);
    assert forall|i: int| 0 <= i < order.len() implies {
        let n = #[trigger] order[i];
        &&& n < n2.len()
        &&& n2[n as int].neighbor_prev@ == (if i == 0 {
            None
        } else {
            Some(order[i - 1])
        })
        &&& n2[n as int].neighbor_next@ == (if i + 1 == order.len() {
            None
        } else {
            Some(order[i + 1])
        })
    } by {
        assert(same_neighbor_fields(n1[order[i] as int], n2[order[i] as int]));
    }
}

/// What the linked bin lists say of bin `b`.
proof fn lemma_bin_facts<NI: NodeIndex>(
    nodes: Seq<Node<NI>>,
    map: BinsMap<NI>,
    lists: Seq<Seq<nat>>,
    b: int,
)
    requires
        bins_linked(nodes, map, lists),
        0 <= b < num_bins(),
    ensures
        map.wf(),
        lists.len() == num_bins(),
        map.is_occupied(b as nat) <==> lists[b].len() > 0,
        map.head(b as nat) == (if lists[b].len() > 0 {
            Some(lists[b][0])
        } else {
            None
        }),
{
    reveal(bins_linked);
}

/// Putting the top spare node at the head of bin `b` (what
/// `insert_node_into_bin` does to the bin lists, the spare stack and the
/// free space) and then taking it out of the bin again (what
/// `remove_node_from_bin` does) is a round trip: the bin lists, the spare
/// stack and the free space are as before, so are the bin heads and the
/// occupancy bits of any bitmap linked to the lists, and the old head of the
/// bin has no previous node again.
pub proof fn lemma_insert_remove_round_trip<NI: NodeIndex>(
    nodes0: Seq<Node<NI>>,
    map0: BinsMap<NI>,
    lists0: Seq<Seq<nat>>,
    stack0: Seq<NI>,
    free0: int,
    lists1: Seq<Seq<nat>>,
    stack1: Seq<NI>,
    free1: int,
    nodes2: Seq<Node<NI>>,
    map2: BinsMap<NI>,
    lists2: Seq<Seq<nat>>,
    stack2: Seq<NI>,
    free2: int,
    b: int,
    size: int,
)
    requires
        bins_linked(nodes0, map0, lists0),
        0 <= b < num_bins(),
        stack0.len() > 0,
        lists1 == lists0.update(b, seq![stack0.last().index()] + lists0[b]),
        stack1 == stack0.drop_last(),
        free1 == free0 + size,
        lists2 == lists1.update(b, lists1[b].remove(0)),
        stack2 == stack1.push(stack0.last()),
        free2 == free1 - size,
        bins_linked(nodes2, map2, lists2),
    ensures
        lists2 == lists0,
        stack2 == stack0,
        free2 == free0,
        forall|c: nat|
            c < num_bins() ==> #[trigger] map2.head(c) == map0.head(c) && map2.is_occupied(c)
                == map0.is_occupied(c),
        lists0[b].len() > 0 ==> nodes2[lists0[b][0] as int].bin_list_prev@ == None::<nat>,
{
    lemma_bin_facts(nodes0, map0, lists0, b);
    let k = stack0.last().index();
    assert((seq![k] + lists0[b]).remove(0) =~= lists0[b]);
    assert(lists2 =~= lists0);
    assert(stack2 =~= stack0);
    assert forall|c: nat| c < num_bins() implies #[trigger] map2.head(c) == map0.head(c)
        && map2.is_occupied(c) == map0.is_occupied(c) by {
        lemma_bin_facts(nodes0, map0, lists0, c as int);
        lemma_bin_facts(nodes2, map2, lists2, c as int);
    }
    if lists0[b].len() > 0 {
        reveal(bins_linked);
        let n = lists2[b][0];
        assert(nodes2[n as int].bin_list_prev@ == None::<nat>);
    }
}

/// What the neighbour links say of the node at position `i`.
proof fn lemma_region_entry<NI: NodeIndex>(nodes: Seq<Node<NI>>, order: Seq<nat>, i: int)
    requires
        regions_linked(nodes, order),
        0 <= i < order.len(),
    ensures
        ({
            let n = order[i];
            &&& n < nodes.len()
            &&& nodes[n as int].neighbor_prev@ == (if i == 0 {
                None
            } else {
                Some(order[i - 1])
            })
            &&& nodes[n as int].neighbor_next@ == (if i + 1 == order.len() {
                None
            } else {
                Some(order[i + 1])
            })
        }),
{
    reveal(regions_linked);
    let n = order[i];
    assert(n == order[i]);
}

/// Inserting node `k` into the address order right after position `i`,
/// with the links around it set, keeps the order linked.
proof fn lemma_split_links<NI: NodeIndex>(
    n1: Seq<Node<NI>>,
    n2: Seq<Node<NI>>,
    order: Seq<nat>,
    i: int,
    k: nat,
)
    requires
        regions_linked(n1, order),
        0 <= i < order.len(),
        k < n1.len(),
        forall|j: int| 0 <= j < order.len() ==> #[trigger] order[j] != k,
        n1.len() == n2.len(),
        n2[order[i] as int].neighbor_prev@ == n1[order[i] as int].neighbor_prev@,
        n2[order[i] as int].neighbor_next@ == Some(k),
        n2[k as int].neighbor_prev@ == Some(order[i]),
        n2[k as int].neighbor_next@ == n1[order[i] as int].neighbor_next@,
        i + 1 < order.len() ==> n2[order[i + 1] as int].neighbor_prev@ == Some(k)
            && n2[order[i + 1] as int].neighbor_next@ == n1[order[i + 1] as int].neighbor_next@,
        forall|j: int|
            0 <= j < order.len() && j != i && j != i + 1 ==> #[trigger] same_neighbor_fields(
                n1[order[j] as int],
                n2[order[j] as int],
            ),
    ensures
        regions_linked(n2, order.insert(i + 1, k)),
{
    reveal(regions_linked);
    let o2 = order.insert(i + 1, k);
    assert forall|j: int| 0 <= j < o2.len() implies {
        let n = #[trigger] o2[j];
        &&& n < n2.len()
        &&& n2[n as int].neighbor_prev@ == (if j == 0 {
            None
        } else {
            Some(o2[j - 1])
        })
        &&& n2[n as int].neighbor_next@ == (if j + 1 == o2.len() {
            None
        } else {
            Some(o2[j + 1])
        })
    } by {
        if j < i {
            assert(same_neighbor_fields(n1[order[j] as int], n2[order[j] as int]));
            assert(order[j] == o2[j]);
        } else if j == i {
        } else if j == i + 1 {
        } else if j == i + 2 {
            assert(o2[j] == order[i + 1]);
        } else {
            assert(o2[j] == order[j - 1]);
            assert(same_neighbor_fields(n1[order[j - 1] as int], n2[order[j - 1] as int]));
        }
    }
}

/// Replacing the nodes at positions `lo..hi` of the address order by node
/// `x`, with the links around it set, keeps the order linked.
proof fn lemma_merge_links<NI: NodeIndex>(
    n1: Seq<Node<NI>>,
    n2: Seq<Node<NI>>,
    order: Seq<nat>,
    lo: int,
    hi: int,
    x: nat,
)
    requires
        regions_linked(n1, order),
        0 <= lo < hi <= order.len(),
        x < n1.len(),
        forall|j: int| 0 <= j < order.len() && (j < lo || j >= hi) ==> #[trigger] order[j] != x,
        forall|j: int, l: int|
            0 <= j < order.len() && 0 <= l < order.len() && j != l ==> #[trigger] order[j]
                != #[trigger] order[l],
        n1.len() == n2.len(),
        n2[x as int].neighbor_prev@ == (if lo == 0 {
            None
        } else {
            Some(order[lo - 1])
        }),
        n2[x as int].neighbor_next@ == (if hi == order.len() {
            None
        } else {
            Some(order[hi])
        }),
        lo > 0 ==> n2[order[lo - 1] as int].neighbor_next@ == Some(x)
            && n2[order[lo - 1] as int].neighbor_prev@ == n1[order[lo - 1] as int].neighbor_prev@,
        hi < order.len() ==> n2[order[hi] as int].neighbor_prev@ == Some(x)
            && n2[order[hi] as int].neighbor_next@ == n1[order[hi] as int].neighbor_next@,
        forall|j: int|
            0 <= j < order.len() && (j < lo - 1 || j > hi) ==> #[trigger] same_neighbor_fields(
                n1[order[j] as int],
                n2[order[j] as int],
            ),
    ensures
        regions_linked(
            n2,
            order.subrange(0, lo) + seq![x] + order.subrange(hi, order.len() as int),
        ),
{
    reveal(regions_linked);
    let o2 = order.subrange(0, lo) + seq![x] + order.subrange(hi, order.len() as int);
    assert(o2.len() == lo + 1 + order.len() - hi);
    assert forall|j: int| 0 <= j < o2.len() implies {
        let n = #[trigger] o2[j];
        &&& n < n2.len()
        &&& n2[n as int].neighbor_prev@ == (if j == 0 {
            None
        } else {
            Some(o2[j - 1])
        })
        &&& n2[n as int].neighbor_next@ == (if j + 1 == o2.len() {
            None
        } else {
            Some(o2[j + 1])
        })
    } by {
        if j < lo - 1 {
            assert(o2[j] == order[j]);
            assert(o2[j + 1] == order[j + 1]);
            assert(same_neighbor_fields(n1[order[j] as int], n2[order[j] as int]));
            if j > 0 {
                assert(o2[j - 1] == order[j - 1]);
            }
        } else if j == lo - 1 {
            assert(o2[j] == order[j]);
            assert(o2[j + 1] == x);
            if j > 0 {
                assert(o2[j - 1] == order[j - 1]);
            }
        } else if j == lo {
            assert(o2[j] == x);
            if lo > 0 {
                assert(o2[j - 1] == order[lo - 1]);
            }
            if hi < order.len() {
                assert(o2[j + 1] == order[hi]);
            }
        } else if j == lo + 1 {
            assert(o2[j] == order[hi]);
            assert(o2[j - 1] == x);
            if hi + 1 < order.len() {
                assert(o2[j + 1] == order[hi + 1]);
            }
        } else {
            let jj = j - lo - 1 + hi;
            assert(o2[j] == order[jj]);
            assert(o2[j - 1] == order[jj - 1]);
            if jj + 1 < order.len() {
                assert(o2[j + 1] == order[jj + 1]);
            }
            assert(same_neighbor_fields(n1[order[jj] as int], n2[order[jj] as int]));
        }
    }
}

/// A used node is in no bin list.
proof fn lemma_used_not_in_bins<NI: NodeIndex>(
    nodes: Seq<Node<NI>>,
    map: BinsMap<NI>,
    lists: Seq<Seq<nat>>,
    x: nat,
)
    requires
        bins_linked(nodes, map, lists),
        x < nodes.len(),
        nodes[x as int].used,
    ensures
        forall|b: int, j: int|
            0 <= b < num_bins() && 0 <= j < lists[b].len() ==> #[trigger] lists[b][j] != x,
{
    reveal(bins_linked);
}

/// Taking entry `pos` out of a list keeps every other value in it.
proof fn lemma_remove_keeps(l: Seq<nat>, pos: int, y: nat)
    requires
        0 <= pos < l.len(),
        l.contains(y),
        l[pos] != y,
    ensures
        l.remove(pos).contains(y),
{
    let t = choose|t: int| 0 <= t < l.len() && l[t] == y;
    if t < pos {
        assert(l.remove(pos)[t] == y);
    } else {
        assert(l.remove(pos)[t - 1] == y);
    }
}

/// What the linked bin lists say of entry `j` of bin `b`.
proof fn lemma_bin_entry<NI: NodeIndex>(
    nodes: Seq<Node<NI>>,
    map: BinsMap<NI>,
    lists: Seq<Seq<nat>>,
    b: int,
    j: int,
)
    requires
        bins_linked(nodes, map, lists),
        0 <= b < num_bins(),
        0 <= j < lists[b].len(),
    ensures
        ({
            let n = lists[b][j];
            &&& n < nodes.len()
            &&& nodes[n as int].bin_list_prev@ == (if j == 0 {
                None
            } else {
                Some(lists[b][j - 1])
            })
            &&& nodes[n as int].bin_list_next@ == (if j + 1 == lists[b].len() {
                None
            } else {
                Some(lists[b][j + 1])
            })
            &&& bin_of(nodes[n as int].data_size as nat) == b
            &&& !nodes[n as int].used
        }),
        forall|k: int| 0 <= k < lists[b].len() && k != j ==> #[trigger] lists[b][k] != lists[b][j],
{
    reveal(bins_linked);
    let n = lists[b][j];
    assert(n == lists[b][j]);
}

/// Taking the head node off the list of bin `b` (clearing the back link of
/// the next node, setting the head to it, and marking the bin empty when no
/// node is left) keeps the lists linked, with the head dropped.
proof fn lemma_pop_bin_head<NI: NodeIndex>(
    nodes0: Seq<Node<NI>>,
    map0: BinsMap<NI>,
    lists0: Seq<Seq<nat>>,
    nodes1: Seq<Node<NI>>,
    map1: BinsMap<NI>,
    b: nat,
)
    requires
        bins_linked(nodes0, map0, lists0),
        b < num_bins(),
        lists0[b as int].len() > 0,
        nodes1.len() == nodes0.len(),
        forall|j: int|
            0 <= j < nodes0.len() && j != lists0[b as int][0] && (lists0[b as int].len() < 2 || j
                != lists0[b as int][1]) ==> #[trigger] nodes1[j] == nodes0[j],
        lists0[b as int].len() > 1 ==> {
            let x = lists0[b as int][1] as int;
            &&& nodes1[x].bin_list_prev@ == None::<nat>
            &&& nodes1[x].bin_list_next == nodes0[x].bin_list_next
            &&& nodes1[x].data_size == nodes0[x].data_size
            &&& nodes1[x].used == nodes0[x].used
        },
        map1.wf(),
        map1.heads() == map0.heads().update(
            b as int,
            nodes0[lists0[b as int][0] as int].bin_list_next,
        ),
        forall|k: nat| #[trigger] map1.is_occupied(k) == (if k == b {
            lists0[b as int].len() > 1
        } else {
            map0.is_occupied(k)
        }),
    ensures
        bins_linked(nodes1, map1, lists0.update(b as int, lists0[b as int].drop_first())),
{
    reveal(bins_linked);
    let n = lists0[b as int][0];
    let lists1 = lists0.update(b as int, lists0[b as int].drop_first());
    map1.lemma_heads_len();
    map0.lemma_heads_len();
    assert(nodes0[n as int].bin_list_next@ == (if 1 == lists0[b as int].len() {
        None
    } else {
        Some(lists0[b as int][1])
    }));
    assert forall|bb: int|
        0 <= bb < num_bins() implies (#[trigger] map1.is_occupied(bb as nat) <==> lists1[bb].len()
        > 0) by {
        assert(map0.is_occupied(bb as nat) <==> lists0[bb].len() > 0);
    }
    assert forall|bb: int|
        0 <= bb < num_bins() implies #[trigger] map1.head(bb as nat) == (if lists1[bb].len() > 0 {
        Some(lists1[bb][0])
    } else {
        None
    }) by {
        assert(map0.head(bb as nat) == (if lists0[bb].len() > 0 {
            Some(lists0[bb][0])
        } else {
            None
        }));
    }
    assert forall|bb: int, j: int|
        0 <= bb < num_bins() && 0 <= j < lists1[bb].len() implies {
        let x = #[trigger] lists1[bb][j];
        &&& x < nodes1.len()
        &&& nodes1[x as int].bin_list_prev@ == (if j == 0 {
            None
        } else {
            Some(lists1[bb][j - 1])
        })
        &&& nodes1[x as int].bin_list_next@ == (if j + 1 == lists1[bb].len() {
            None
        } else {
            Some(lists1[bb][j + 1])
        })
        &&& bin_of(nodes1[x as int].data_size as nat) == bb
        &&& !nodes1[x as int].used
    } by {
        if bb == b {
            let x = lists0[b as int][j + 1];
            assert(x != n);
            if j > 0 {
                assert(x != lists0[b as int][1]);
            }
        } else {
            let x = lists0[bb][j];
            assert(bin_of(nodes0[x as int].data_size as nat) == bb);
            assert(x != n);
            if lists0[b as int].len() > 1 {
                assert(bin_of(nodes0[lists0[b as int][1] as int].data_size as nat) == b);
            }
        }
    }
    assert forall|bb: int, j: int, l: int|
        0 <= bb < num_bins() && 0 <= j < lists1[bb].len() && 0 <= l < lists1[bb].len() && j
            != l implies #[trigger] lists1[bb][j] != #[trigger] lists1[bb][l] by {
        if bb == b {
            assert(lists0[bb][j + 1] != lists0[bb][l + 1]);
        }
    }
}

/// Taking node `lists[b][pos]`, not the head, out of the list of bin `b`
/// (linking its bin neighbours to each other) keeps the lists linked.
#[verifier::rlimit(100)]
#[verifier::spinoff_prover]
proof fn lemma_unlink_middle<NI: NodeIndex>(
    nodes0: Seq<Node<NI>>,
    map: BinsMap<NI>,
    lists0: Seq<Seq<nat>>,
    nodes1: Seq<Node<NI>>,
    b: nat,
    pos: int,
)
    requires
        bins_linked(nodes0, map, lists0),
        b < num_bins(),
        0 < pos < lists0[b as int].len(),
        nodes1.len() == nodes0.len(),
        ({
            let l = lists0[b as int];
            let x = l[pos] as int;
            let p = l[pos - 1] as int;
            &&& nodes1[p] == Node { bin_list_next: nodes0[x].bin_list_next, ..nodes0[p] }
            &&& pos + 1 < l.len() ==> nodes1[l[pos + 1] as int] == Node {
                bin_list_prev: nodes0[x].bin_list_prev,
                ..nodes0[l[pos + 1] as int]
            }
            &&& forall|j: int|
                0 <= j < nodes0.len() && j != p && (pos + 1 >= l.len() || j != l[pos + 1])
                    ==> #[trigger] nodes1[j] == nodes0[j]
        }),
    ensures
        bins_linked(nodes1, map, lists0.update(b as int, lists0[b as int].remove(pos))),
{
    reveal(bins_linked);
    let l = lists0[b as int];
    let x = l[pos];
    let lists1 = lists0.update(b as int, l.remove(pos));
    assert(nodes0[x as int].bin_list_prev@ == Some(l[pos - 1]));
    assert(nodes0[x as int].bin_list_next@ == (if pos + 1 == l.len() {
        None
    } else {
        Some(l[pos + 1])
    }));
    assert forall|bb: int|
        0 <= bb < num_bins() implies (#[trigger] map.is_occupied(bb as nat) <==> lists1[bb].len()
        > 0) by {}
    assert forall|bb: int|
        0 <= bb < num_bins() implies #[trigger] map.head(bb as nat) == (if lists1[bb].len() > 0 {
        Some(lists1[bb][0])
    } else {
        None
    }) by {
        if bb == b {
            assert(lists1[bb][0] == l[0]);
        }
    }
    assert forall|bb: int, j: int|
        0 <= bb < num_bins() && 0 <= j < lists1[bb].len() implies {
        let y = #[trigger] lists1[bb][j];
        &&& y < nodes1.len()
        &&& nodes1[y as int].bin_list_prev@ == (if j == 0 {
            None
        } else {
            Some(lists1[bb][j - 1])
        })
        &&& nodes1[y as int].bin_list_next@ == (if j + 1 == lists1[bb].len() {
            None
        } else {
            Some(lists1[bb][j + 1])
        })
        &&& bin_of(nodes1[y as int].data_size as nat) == bb
        &&& !nodes1[y as int].used
    } by {
        if bb == b {
            if j < pos - 1 {
                assert(l[j] != l[pos - 1]);
                if pos + 1 < l.len() {
                    assert(l[j] != l[pos + 1]);
                }
            } else if j == pos - 1 {
                if pos + 1 < l.len() {
                    assert(l[j] != l[pos + 1]);
                }
            } else if j == pos {
                assert(lists1[bb][j] == l[pos + 1]);
            } else {
                assert(lists1[bb][j] == l[j + 1]);
                assert(l[j + 1] != l[pos - 1]);
                assert(l[j + 1] != l[pos + 1]);
            }
        } else {
            let y = lists0[bb][j];
            assert(bin_of(nodes0[y as int].data_size as nat) == bb);
            assert(bin_of(nodes0[l[pos - 1] as int].data_size as nat) == b);
            if pos + 1 < l.len() {
                assert(bin_of(nodes0[l[pos + 1] as int].data_size as nat) == b);
            }
        }
    }
    assert forall|bb: int, j: int, k: int|
        0 <= bb < num_bins() && 0 <= j < lists1[bb].len() && 0 <= k < lists1[bb].len() && j
            != k implies #[trigger] lists1[bb][j] != #[trigger] lists1[bb][k] by {
        if bb == b {
            let jj = if j < pos {
                j
            } else {
                j + 1
            };
            let kk = if k < pos {
                k
            } else {
                k + 1
            };
            assert(l[jj] != l[kk]);
        }
    }
}

/// The number of nodes that `Allocator::new` gives an allocator whose
/// indices have `num_valid` valid values.
pub open spec fn default_max_allocs(num_valid: nat) -> nat {
    if 128 * 1024 < num_valid - 1 {
        128 * 1024
    } else {
        (num_valid - 2) as nat
    }
}

/// A single allocation.
#[derive(Clone, Copy)]
pub struct Allocation<NI: NodeIndex = u32> {
    /// The location of this allocation within the buffer.
    pub offset: u32,
    /// The node index associated with this allocation.
    metadata: NI,
}

impl<NI: NodeIndex> View for Allocation<NI> {
    /// The node that holds the allocation, and its offset.
    type V = (nat, nat);

    closed spec fn view(&self) -> (nat, nat) {
        (self.metadata.index(), self.offset as nat)
    }
}

impl<NI: NodeIndex> Allocation<NI> {
    /// The location of this allocation within the buffer: the second part of
    /// its view.
    pub fn offset(&self) -> (r: u32)
        ensures
            r == self@.1,
    {
        self.offset
    }

    /// The offset of an allocation is below `2^32`.
    pub proof fn lemma_offset_fits(&self)
        ensures
            self@.1 <= u32::MAX,
    {
    }
}

/// Provides a summary of the state of the allocator, including space
/// remaining.
#[derive(Debug)]
pub struct StorageReport {
    /// The amount of free space left.
    pub total_free_space: u32,
    /// The maximum potential size of a single contiguous allocation.
    pub largest_free_region: u32,
}

/// Provides a detailed accounting of each bin within the allocator.
#[derive(Debug)]
pub struct StorageReportFull {
    /// Each bin within the allocator, indexed by its small float.
    pub free_regions: Vec<StorageReportFullRegion>,
}

/// A detailed accounting of each allocator bin.
#[derive(Clone, Copy, Debug, Default)]
pub struct StorageReportFullRegion {
    /// The size of the bin, in units.
    pub size: u32,
    /// The number of allocations in the bin.
    pub count: u32,
}

/// An allocator that manages a single contiguous chunk of space and hands
/// out portions of it as requested.
pub struct Allocator<NI: NodeIndex = u32> {
    size: u32,
    max_allocs: u32,
    /// How much available space there is across all nodes.
    free_storage: u32,
    bins_map: BinsMap<NI>,
    nodes: NodeMap<NI>,
    free_nodes: FreeNodeStack<NI>,
    /// The nodes of the regions, in address order.
    order: Ghost<Seq<nat>>,
    /// The nodes of each bin's list, head first.
    bins: Ghost<Seq<Seq<nat>>>,
}

impl<NI: NodeIndex> View for Allocator<NI> {
    type V = AllocatorModel;

    closed spec fn view(&self) -> AllocatorModel {
        AllocatorModel {
            size: self.size as nat,
            max_allocs: self.max_allocs as nat,
            free_storage: self.free_storage as nat,
            regions: self.order@.map_values(
                |n: nat| region_of(self.nodes.0@[n as int], n),
            ),
            bins: self.bins@,
            spare: indices(self.free_nodes.0@),
        }
    }
}

impl<NI: NodeIndex> Allocator<NI> {
    /// The allocator is in a working state: its model is well formed and its
    /// nodes, links and bitmaps agree with the model.
    pub closed spec fn wf(&self) -> bool {
        &&& self@.wf()
        &&& self.max_allocs < NI::num_valid_spec() - 1
        &&& self.nodes.0@.len() == self.max_allocs
        &&& bins_linked(self.nodes.0@, self.bins_map, self.bins@)
        &&& regions_linked(self.nodes.0@, self.order@)
        &&& forall|k: int|
            0 <= k < self.free_nodes.0@.len() ==> !self.nodes.0@[(#[trigger] self.free_nodes.0@[k]).index() as int].used
    }

    /// A working allocator has a well-formed model, so the laws of the model
    /// apply to it.
    pub proof fn lemma_model_wf(&self)
        requires
            self.wf(),
        ensures
            self@.wf(),
    {
    }

    /// Creates a new allocator, managing a contiguous block of memory of
    /// `size` units, with a default reasonable number of maximum allocations:
    /// `128 * 1024`, or the largest count that `with_max_allocs` accepts
    /// (`NI::NUM_VALID` minus two) where that is smaller (65,533 with `u16`
    /// indices).
    pub fn new(size: u32) -> (r: Self)
        ensures
            r.wf(),
            r@ == AllocatorModel::initial(size as nat, default_max_allocs(NI::num_valid_spec())),
            NI::num_valid_spec() > 128 * 1024 + 1 ==> r@.max_allocs == 128 * 1024,
            NI::num_valid_spec() <= 128 * 1024 + 1 ==> r@.max_allocs + 2 == NI::num_valid_spec(),
            r@.size == size,
            r@.spare.len() + 1 == r@.max_allocs,
            r@.regions == seq![Region { node: 0, offset: 0, size: size as nat, used: false }],
            r@.free_storage == size,
    {
        proof {
            NI::lemma_index(NI::INVALID, NI::INVALID);
        }
        Allocator::with_max_allocs(size, u32::min(128 * 1024, NI::NUM_VALID - 2))
    }

    /// Creates a new allocator, managing a contiguous block of memory of
    /// `size` units, with the given number of maximum allocations, which must
    /// be at least 1 and less than the index maximum (`NI::NUM_VALID`) minus
    /// one.
    pub fn with_max_allocs(size: u32, max_allocs: u32) -> (r: Self)
        requires
            1 <= max_allocs < NI::num_valid_spec() - 1,
        ensures
            r.wf(),
            r@ == AllocatorModel::initial(size as nat, max_allocs as nat),
            r@.max_allocs == max_allocs,
            r@.size == size,
            r@.spare.len() + 1 == r@.max_allocs,
            r@.regions == seq![Region { node: 0, offset: 0, size: size as nat, used: false }],
            r@.free_storage == size,
    {
        reveal(bins_linked);
        reveal(regions_linked);
        reveal(AllocatorModel::tiled);
        reveal(AllocatorModel::nodes_partitioned);
        reveal(AllocatorModel::bins_distinct);
        reveal(AllocatorModel::bins_entries_free);
        reveal(AllocatorModel::free_regions_binned);
        reveal(AllocatorModel::coalesced);
        proof {
            NI::lemma_index(NI::INVALID, NI::INVALID);
        }
        let ghost empty_bins = Seq::new(num_bins(), |b: int| Seq::<nat>::empty());
        let mut this: Allocator<NI> = Allocator {
            size,
            max_allocs,
            free_storage: 0,
            bins_map: BinsMap::new(),
            nodes: NodeMap::with_max_allocs(max_allocs),
            free_nodes: FreeNodeStack::with_max_allocs(max_allocs),
            order: Ghost(Seq::empty()),
            bins: Ghost(empty_bins),
        };
        let ghost nodes0 = this.nodes.0@;
        let ghost stack0 = this.free_nodes.0@;
        proof {
            assert(indices(stack0)[max_allocs - 1] == 0);
            assert(stack0.last().index() == 0);
            assert forall|b: int|
                0 <= b < num_bins() implies (#[trigger] this.bins_map.is_occupied(b as nat)
                <==> this.bins@[b].len() > 0) by {}
            assert forall|b: int|
                0 <= b < num_bins() implies #[trigger] this.bins_map.head(b as nat) == (if this.bins@[b].len() > 0 {
                Some(this.bins@[b][0])
            } else {
                None
            }) by {}
        }
        let first = this.insert_node_into_bin(size, 0);
        proof {
            lemma_round_down(size);
            this.order@ = seq![0nat];
            let m = this@;
            let init = AllocatorModel::initial(size as nat, max_allocs as nat);
            let nodes = this.nodes.0@;
            assert(first.index() == 0);
            assert(m.regions =~= init.regions);
            let bb = bin_of(size as nat) as int;
            assert forall|b: int| 0 <= b < num_bins() implies m.bins[b] =~= init.bins[b] by {
                if b == bb {
                    assert(m.bins[b] =~= seq![0nat]);
                } else {
                    assert(m.bins[b] == empty_bins[b]);
                }
            }
            assert(m.bins =~= init.bins);
            assert(m.spare =~= init.spare) by {
                assert forall|i: int| 0 <= i < m.spare.len() implies m.spare[i] == init.spare[i] by {
                    assert(indices(stack0)[i] == max_allocs - 1 - i);
                }
            }
            crate::model::lemma_total_single(init.regions[0], true);
            crate::model::lemma_total_single(init.regions[0], false);
            assert(m.regions[0].node == 0);
            assert(m.region_index(0) == 0);
            assert(m.holds_region(0));
            assert(m.bins[bb][0] == 0);
            assert(m.bins[bb].contains(0));
            assert(m.bins_hold_free_regions());
            assert(m.nodes_partitioned());
            assert(regions_linked(nodes, this.order@));
            assert forall|k: int|
                0 <= k < this.free_nodes.0@.len() implies !nodes[(#[trigger] this.free_nodes.0@[k]).index() as int].used by {
                let x = this.free_nodes.0@[k];
                assert(indices(stack0)[k] == x.index());
                assert(x.index() != 0);
                assert(nodes[x.index() as int] == nodes0[x.index() as int]);
            }
        }
        this
    }

    /// Clears out all allocations.
    pub fn reset(&mut self)
        requires
            old(self).wf(),
        ensures
            final(self).wf(),
            final(self)@ == AllocatorModel::initial(old(self)@.size, old(self)@.max_allocs),
            final(self)@.size == old(self)@.size,
            final(self)@.max_allocs == old(self)@.max_allocs,
            final(self)@.spare.len() + 1 == final(self)@.max_allocs,
            final(self)@.regions == seq![
                Region { node: 0, offset: 0, size: old(self)@.size, used: false },
            ],
            final(self)@.free_storage == old(self)@.size,
    {
        proof {
            NI::lemma_index(NI::INVALID, NI::INVALID);
        }
        *self = Self::with_max_allocs(self.size, self.max_allocs);
    }

    /// After an allocation that splits the region it takes, the state is the
    /// model's.
    proof fn lemma_allocate_split_view(
        s0: Self,
        s1: Self,
        s2: Self,
        s3: Self,
        size: u32,
        b: nat,
        i: int,
    )
        requires
            s0.wf(),
            s0@.allocation_bin(size) == Some(b),
            i == s0@.region_index(s0@.bins[b as int][0]),
            0 <= i < s0@.regions.len(),
            s0@.regions[i].node == s0@.bins[b as int][0],
            s0@.spare.len() > 0,
            ({
                let n = s0@.bins[b as int][0];
                let old_nodes = s0.nodes.0@;
                let nodes = s1.nodes.0@;
                &&& nodes.len() == old_nodes.len()
                &&& nodes[n as int] == Node { data_size: size, used: true, ..old_nodes[n as int] }
                &&& forall|j: int|
                    0 <= j < old_nodes.len() && j != n ==> #[trigger] same_region_fields(nodes[j], old_nodes[j])
                &&& s1.bins@ == s0.bins@.update(b as int, s0.bins@[b as int].drop_first())
                &&& s1.free_storage == s0.free_storage - old_nodes[n as int].data_size
            }),
            s1.size == s0.size,
            s1.max_allocs == s0.max_allocs,
            s1.free_nodes == s0.free_nodes,
            s1.order == s0.order,
            ({
                let n = s0@.bins[b as int][0];
                let k = s0.free_nodes.0@.last().index();
                let rem = (s0.nodes.0@[n as int].data_size - size) as nat;
                let rb = bin_of(rem) as int;
                &&& rem > 0
                &&& s2.free_nodes.0@ == s1.free_nodes.0@.drop_last()
                &&& s2.nodes.0@.len() == s1.nodes.0@.len()
                &&& s2.nodes.0@[k as int].data_offset == s1.nodes.0@[n as int].data_offset + size
                &&& s2.nodes.0@[k as int].data_size == rem
                &&& !s2.nodes.0@[k as int].used
                &&& forall|j: int|
                    0 <= j < s1.nodes.0@.len() && j != k ==> #[trigger] same_region_fields(
                        s2.nodes.0@[j],
                        s1.nodes.0@[j],
                    )
                &&& s2.bins@ == s1.bins@.update(rb, seq![k] + s1.bins@[rb])
                &&& s2.free_storage == s1.free_storage + rem
                &&& s3.order@ == s0.order@.insert(i + 1, k)
            }),
            s2.size == s1.size,
            s2.max_allocs == s1.max_allocs,
            s3.nodes.0@.len() == s2.nodes.0@.len(),
            forall|j: int|
                0 <= j < s2.nodes.0@.len() ==> #[trigger] same_region_fields(
                    s3.nodes.0@[j],
                    s2.nodes.0@[j],
                ),
            s3.bins == s2.bins,
            s3.free_nodes == s2.free_nodes,
            s3.free_storage == s2.free_storage,
            s3.size == s2.size,
            s3.max_allocs == s2.max_allocs,
        ensures
            s3@ == s0@.after_allocate(size),
            forall|t: int|
                0 <= t < s3.free_nodes.0@.len() ==> !s3.nodes.0@[(#[trigger] s3.free_nodes.0@[t]).index() as int].used,
    {
        reveal(AllocatorModel::after_allocate);
        let m0 = s0@;
        let exp = m0.after_allocate(size);
        let n = m0.bins[b as int][0];
        let k = s0.free_nodes.0@.last().index();
        let nodes0 = s0.nodes.0@;
        let nodes1 = s1.nodes.0@;
        let nodes2 = s2.nodes.0@;
        let nodes3 = s3.nodes.0@;
        let order0 = s0.order@;
        let order3 = s3.order@;
        reveal(AllocatorModel::nodes_partitioned);
        assert(order0[i] == n);
        assert(m0.regions[i] == region_of(nodes0[n as int], n));
        assert(indices(s0.free_nodes.0@).last() == k);
        assert(m0.spare.last() == k);
        assert(n != k) by {
            assert(m0.regions[i].node != m0.spare[m0.spare.len() - 1]);
        }
        assert forall|j: int|
            0 <= j < nodes0.len() && j != k && j != n implies #[trigger] same_region_fields(
            nodes3[j],
            nodes0[j],
        ) by {
            assert(same_region_fields(nodes1[j], nodes0[j]));
            assert(same_region_fields(nodes2[j], nodes1[j]));
            assert(same_region_fields(nodes3[j], nodes2[j]));
        }
        assert(same_region_fields(nodes3[n as int], nodes2[n as int]));
        assert(same_region_fields(nodes3[k as int], nodes2[k as int]));
        assert(same_region_fields(nodes2[n as int], nodes1[n as int]));
        let m3 = s3@;
        assert(m3.regions =~= exp.regions) by {
            assert forall|j: int| 0 <= j < m3.regions.len() implies m3.regions[j] == exp.regions[j] by {
                if j < i {
                    assert(m0.regions[j].node != m0.spare[m0.spare.len() - 1]);
                    assert(m0.regions[j].node != m0.regions[i].node);
                    assert(same_region_fields(nodes3[order0[j] as int], nodes0[order0[j] as int]));
                } else if j > i + 1 {
                    assert(order3[j] == order0[j - 1]);
                    assert(m0.regions[j - 1].node != m0.spare[m0.spare.len() - 1]);
                    assert(m0.regions[j - 1].node != m0.regions[i].node);
                    assert(same_region_fields(nodes3[order0[j - 1] as int], nodes0[order0[j - 1] as int]));
                }
            }
        }
        assert(m3.spare =~= exp.spare);
        assert(m3.bins =~= exp.bins);
        m0.lemma_allocation_fits(size);
        m0.lemma_region_bounds(i);
        assert(m3.free_storage == exp.free_storage);
        assert(m3.size == exp.size);
        assert(m3.max_allocs == exp.max_allocs);
        assert(m3 == exp);
        assert forall|t: int|
            0 <= t < s3.free_nodes.0@.len() implies !nodes3[(#[trigger] s3.free_nodes.0@[t]).index() as int].used by {
            let x = s3.free_nodes.0@[t].index();
            assert(s0.free_nodes.0@[t] == s3.free_nodes.0@[t]);
            assert(!nodes0[x as int].used);
            assert(m0.spare[t] != m0.spare[m0.spare.len() - 1]);
            assert(m0.regions[i].node != m0.spare[t]);
            assert(same_region_fields(nodes3[x as int], nodes0[x as int]));
        }
    }

    /// After an allocation that takes its whole region, the state is the
    /// model's.
    proof fn lemma_allocate_whole_view(s0: Self, s1: Self, size: u32, b: nat, i: int)
        requires
            s0.wf(),
            s0@.allocation_bin(size) == Some(b),
            i == s0@.region_index(s0@.bins[b as int][0]),
            0 <= i < s0@.regions.len(),
            s0@.regions[i].node == s0@.bins[b as int][0],
            ({
                let n = s0@.bins[b as int][0];
                let old_nodes = s0.nodes.0@;
                let nodes = s1.nodes.0@;
                &&& old_nodes[n as int].data_size == size
                &&& nodes.len() == old_nodes.len()
                &&& nodes[n as int] == Node { data_size: size, used: true, ..old_nodes[n as int] }
                &&& forall|j: int|
                    0 <= j < old_nodes.len() && j != n ==> #[trigger] same_region_fields(nodes[j], old_nodes[j])
                &&& s1.bins@ == s0.bins@.update(b as int, s0.bins@[b as int].drop_first())
                &&& s1.free_storage == s0.free_storage - old_nodes[n as int].data_size
            }),
            s1.size == s0.size,
            s1.max_allocs == s0.max_allocs,
            s1.free_nodes == s0.free_nodes,
            s1.order == s0.order,
        ensures
            s1@ == s0@.after_allocate(size),
            forall|t: int|
                0 <= t < s1.free_nodes.0@.len() ==> !s1.nodes.0@[(#[trigger] s1.free_nodes.0@[t]).index() as int].used,
    {
        reveal(AllocatorModel::after_allocate);
        let m0 = s0@;
        let exp = m0.after_allocate(size);
        let n = m0.bins[b as int][0];
        let nodes0 = s0.nodes.0@;
        let nodes1 = s1.nodes.0@;
        let order0 = s0.order@;
        reveal(AllocatorModel::nodes_partitioned);
        assert(order0[i] == n);
        let m1 = s1@;
        assert(m1.regions =~= exp.regions) by {
            assert forall|j: int| 0 <= j < m1.regions.len() implies m1.regions[j] == exp.regions[j] by {
                if j != i {
                    assert(m0.regions[j].node != m0.regions[i].node);
                    assert(same_region_fields(nodes1[order0[j] as int], nodes0[order0[j] as int]));
                }
            }
        }
        assert(m1 == exp);
        assert forall|t: int|
            0 <= t < s1.free_nodes.0@.len() implies !nodes1[(#[trigger] s1.free_nodes.0@[t]).index() as int].used by {
            let x = s1.free_nodes.0@[t].index();
            assert(!nodes0[x as int].used);
            assert(m0.spare[t] == x);
            assert(m0.regions[i].node != m0.spare[t]);
            assert(same_region_fields(nodes1[x as int], nodes0[x as int]));
        }
    }

    /// Allocates a block of `size` units and returns its allocation; `None`
    /// when no node is spare or no free region is large enough.
    #[verifier::rlimit(100)]
    #[verifier::spinoff_prover]
    pub fn allocate(&mut self, size: u32) -> (r: Option<Allocation<NI>>)
        requires
            old(self).wf(),
        ensures
            final(self).wf(),
            final(self)@ == old(self)@.after_allocate(size),
            match r {
                Some(a) => old(self)@.allocation(size) == Some(a@),
                None => old(self)@.allocation(size) is None,
            },
    {
        let ghost s0 = *self;
        let ghost m0 = self@;
        // Out of allocations?
        if self.free_nodes.is_exhausted() {
            proof {
                m0.lemma_no_allocation(size);
            }
            return None;
        }

        // Round up to bin index to ensure that alloc >= bin
        // Gives us min bin index that fits the size
        let min_bin_index = SmallFloat::from_u32_round_up(size);
        proof {
            lemma_round_up(size);
            lemma_bin_facts(s0.nodes.0@, s0.bins_map, s0.bins@, 0);
        }
        let bin_index = match self.bins_map.min_occupied_since(min_bin_index) {
            Some(b) => b,
            None => {
                proof {
                    m0.lemma_lowest_bin_props(min_bin_index@);
                    if m0.lowest_bin_from(min_bin_index@) is Some {
                        let b = m0.lowest_bin_from(min_bin_index@)->0;
                        lemma_bin_facts(s0.nodes.0@, s0.bins_map, s0.bins@, b as int);
                    }
                    m0.lemma_no_allocation(size);
                }
                return None;
            },
        };
        let ghost b = bin_index@;
        proof {
            assert forall|k: nat| min_bin_index@ <= k < b implies #[trigger] m0.bins[k as int].len()
                == 0 by {
                assert(!s0.bins_map.is_occupied(k));
                lemma_bin_facts(s0.nodes.0@, s0.bins_map, s0.bins@, k as int);
            }
            lemma_bin_facts(s0.nodes.0@, s0.bins_map, s0.bins@, b as int);
            m0.lemma_lowest_bin_from(min_bin_index@, b);
            m0.lemma_allocation_fits(size);
            assert(m0.allocation_bin(size) == Some(b));
        }
        let ghost n = m0.bins[b as int][0];
        let ghost i = m0.region_index(n);
        proof {
            m0.lemma_region_bounds(i);
            m0.lemma_spare_top();
            lemma_region_entry(s0.nodes.0@, s0.order@, i);
            lemma_bin_entry(s0.nodes.0@, s0.bins_map, s0.bins@, b as int, 0);
            assert(m0.regions[i] == region_of(s0.nodes.0@[s0.order@[i] as int], s0.order@[i]));
        }

        // Pop the top node of the bin. Bin top = node.next.
        let (node_index, node_total_size) = self.take_bin_head(bin_index, size);
        let ghost s1 = *self;
        proof {
            assert forall|j: int| 0 <= j < s0.order@.len() implies #[trigger] same_neighbor_fields(
                s0.nodes.0@[s0.order@[j] as int],
                s1.nodes.0@[s0.order@[j] as int],
            ) by {
                let x = s0.order@[j] as int;
                lemma_region_entry(s0.nodes.0@, s0.order@, j);
                if x != n {
                    assert(same_region_fields(s1.nodes.0@[x], s0.nodes.0@[x]));
                }
            }
            lemma_regions_linked_frame(s0.nodes.0@, s1.nodes.0@, s0.order@);
        }

        // Push back remainder N elements to a lower bin
        let remainder_size = node_total_size - size;
        if remainder_size > 0 {
            self.split_off_remainder(node_index, size, remainder_size, Ghost(s0), Ghost(s1), Ghost(b), Ghost(i));
        } else {
            proof {
                Self::lemma_allocate_whole_view(s0, *self, size, b, i);
            }
        }
        proof {
            m0.lemma_after_allocate_wf(size);
            m0.lemma_allocation_is(size, b);
        }
        let offset = self.nodes.get(node_index).data_offset;
        Some(Allocation { offset, metadata: node_index })
    }

    /// Gives what remains of the region of node `node_index`, past its first
    /// `size` units, to a new free node placed right after it.
    #[verifier::rlimit(100)]
    #[verifier::spinoff_prover]
    fn split_off_remainder(
        &mut self,
        node_index: NI,
        size: u32,
        remainder_size: u32,
        Ghost(s0): Ghost<Self>,
        Ghost(s1): Ghost<Self>,
        Ghost(b): Ghost<nat>,
        Ghost(i): Ghost<int>,
    )
        requires
            *old(self) == s1,
            s0.wf(),
            s0@.allocation_bin(size) == Some(b),
            i == s0@.region_index(s0@.bins[b as int][0]),
            0 <= i < s0@.regions.len(),
            s0@.regions[i].node == s0@.bins[b as int][0],
            s0@.regions[i].offset + s0@.regions[i].size <= s0@.size,
            s0@.spare.len() > 0,
            forall|j: int| 0 <= j < s0@.regions.len() ==> #[trigger] s0@.regions[j].node != s0@.spare.last(),
            forall|bb: int, j: int|
                0 <= bb < num_bins() && 0 <= j < s0@.bins[bb].len() ==> #[trigger] s0@.bins[bb][j]
                    != s0@.spare.last(),
            s0@.spare.last() < s0@.max_allocs,
            node_index.index() == s0@.bins[b as int][0],
            ({
                let n = s0@.bins[b as int][0];
                let old_nodes = s0.nodes.0@;
                let nodes = s1.nodes.0@;
                &&& nodes.len() == old_nodes.len()
                &&& nodes[n as int] == Node { data_size: size, used: true, ..old_nodes[n as int] }
                &&& forall|j: int|
                    0 <= j < old_nodes.len() && j != n ==> #[trigger] same_region_fields(nodes[j], old_nodes[j])
                        && same_neighbor_fields(nodes[j], old_nodes[j])
                &&& s1.bins@ == s0.bins@.update(b as int, s0.bins@[b as int].drop_first())
                &&& bins_linked(nodes, s1.bins_map, s1.bins@)
                &&& s1.free_storage == s0.free_storage - old_nodes[n as int].data_size
                &&& remainder_size == old_nodes[n as int].data_size - size
            }),
            remainder_size > 0,
            regions_linked(s1.nodes.0@, s0.order@),
            s1.size == s0.size,
            s1.max_allocs == s0.max_allocs,
            s1.free_nodes == s0.free_nodes,
            s1.order == s0.order,
        ensures
            final(self).wf(),
            final(self)@ == s0@.after_allocate(size),
            final(self).nodes.0@[node_index.index() as int].data_offset == s1.nodes.0@[node_index.index() as int].data_offset,
            final(self).nodes.0@.len() == s1.nodes.0@.len(),
    {
        let ghost n = node_index.index();
        proof {
            s0@.lemma_allocation_fits(size);
            lemma_bin_facts(s0.nodes.0@, s0.bins_map, s0.bins@, 0);
            lemma_region_entry(s0.nodes.0@, s0.order@, i);
            assert(s0@.regions[i] == region_of(s0.nodes.0@[s0.order@[i] as int], s0.order@[i]));
            s0@.lemma_region_bounds(i);
        }
        let data_offset = self.nodes.get(node_index).data_offset;
        let neighbor_next = self.nodes.get(node_index).neighbor_next;
        proof {
            assert(indices(s1.free_nodes.0@).last() == s1.free_nodes.0@.last().index());
            assert(s0@.spare.last() == s1.free_nodes.0@.last().index());
            lemma_bin_facts(s1.nodes.0@, s1.bins_map, s1.bins@, 0);
            let rb = bin_of(remainder_size as nat) as int;
            lemma_round_down(remainder_size);
            assert forall|bb: int, j: int|
                0 <= bb < num_bins() && 0 <= j < s1.bins@[bb].len() implies #[trigger] s1.bins@[bb][j]
                    != s1.free_nodes.0@.last().index() by {
                let l0 = s0.bins@;
                let l1 = s1.bins@;
                assert(l1 == l0.update(b as int, l0[b as int].drop_first()));
                assert(s0@.bins == l0);
                assert(l0.len() == num_bins());
                if bb == b {
                    assert(l1[bb] == l0[bb].drop_first());
                    assert(l1[bb][j] == l0[bb][j + 1]);
                    assert(l0[bb][j + 1] != s0@.spare.last());
                } else {
                    assert(l1[bb] == l0[bb]);
                    assert(l0[bb][j] != s0@.spare.last());
                }
            }
            if s1.bins@[rb].len() > 0 {
                lemma_bin_entry(s1.nodes.0@, s1.bins_map, s1.bins@, rb, 0);
            }
        }

        let new_node_index = self.insert_node_into_bin(remainder_size, data_offset + size);
        proof {
            NI::lemma_index(new_node_index, node_index);
            assert forall|j: int| 0 <= j < s0.order@.len() implies #[trigger] same_neighbor_fields(
                s1.nodes.0@[s0.order@[j] as int],
                self.nodes.0@[s0.order@[j] as int],
            ) by {
                lemma_region_entry(s0.nodes.0@, s0.order@, j);
                assert(s0@.regions[j].node == s0.order@[j]);
                assert(s0@.regions[j].node != s0@.spare.last());
            }
            assert forall|j: int| 0 <= j < s0.order@.len() implies #[trigger] s0.order@[j]
                != new_node_index.index() by {
                assert(s0@.regions[j].node == s0.order@[j]);
                assert(s0@.regions[j].node != s0@.spare.last());
            }
            lemma_regions_linked_frame(s1.nodes.0@, self.nodes.0@, s0.order@);
        }
        // Link nodes next to each other so that we can merge them later if
        // both are free, and update the old next neighbor to point to the
        // new node (in middle)
        let ghost s2 = *self;
        proof {
            reveal(AllocatorModel::nodes_partitioned);
            assert forall|j: int, l: int|
                0 <= j < s0.order@.len() && 0 <= l < s0.order@.len() && j != l implies #[trigger] s0.order@[j]
                    != #[trigger] s0.order@[l] by {
                assert(s0@.regions[j].node == s0.order@[j]);
                assert(s0@.regions[l].node == s0.order@[l]);
            }
        }
        self.link_after(node_index, new_node_index, neighbor_next, Ghost(i));
        proof {
            assert(same_region_fields(self.nodes.0@[n as int], s2.nodes.0@[n as int]));
            assert(n != s1.free_nodes.0@.last().index());
            assert(s2.nodes.0@[n as int].data_offset == s1.nodes.0@[n as int].data_offset);
            Self::lemma_allocate_split_view(s0, s1, s2, *self, size, b, i);
            lemma_bins_linked_frame(s2.nodes.0@, self.nodes.0@, self.bins_map, self.bins@);
        }
        proof {
            s0@.lemma_after_allocate_wf(size);
        }
    }

    /// Takes the head node off the list of bin `bin_index` and turns it into
    /// a used node of `size` units; returns it with its former size.
    fn take_bin_head(&mut self, bin_index: SmallFloat, size: u32) -> (r: (NI, u32))
        requires
            bins_linked(old(self).nodes.0@, old(self).bins_map, old(self).bins@),
            old(self).bins@[bin_index@ as int].len() > 0,
            old(self).free_storage >= old(self).nodes.0@[old(self).bins@[bin_index@ as int][0] as int].data_size,
        ensures
            ({
                let b = bin_index@ as int;
                let n = old(self).bins@[b][0];
                let old_nodes = old(self).nodes.0@;
                let nodes = final(self).nodes.0@;
                &&& r.0.index() == n
                &&& r.1 == old_nodes[n as int].data_size
                &&& nodes.len() == old_nodes.len()
                &&& nodes[n as int] == Node { data_size: size, used: true, ..old_nodes[n as int] }
                &&& forall|j: int|
                    0 <= j < old_nodes.len() && j != n ==> #[trigger] same_region_fields(nodes[j], old_nodes[j])
                        && same_neighbor_fields(nodes[j], old_nodes[j])
                &&& final(self).bins@ == old(self).bins@.update(b, old(self).bins@[b].drop_first())
                &&& bins_linked(nodes, final(self).bins_map, final(self).bins@)
                &&& final(self).free_storage == old(self).free_storage - r.1
            }),
            final(self).size == old(self).size,
            final(self).max_allocs == old(self).max_allocs,
            final(self).free_nodes == old(self).free_nodes,
            final(self).order == old(self).order,
    {
        let ghost b = bin_index@;
        let ghost nodes0 = self.nodes.0@;
        let ghost lists0 = self.bins@;
        let ghost map0 = self.bins_map;
        let ghost n = lists0[b as int][0];
        proof {
            lemma_bin_facts(nodes0, map0, lists0, b as int);
            lemma_bin_entry(nodes0, map0, lists0, b as int, 0);
            if lists0[b as int].len() > 1 {
                lemma_bin_entry(nodes0, map0, lists0, b as int, 1);
            }
            map0.lemma_heads_len();
        }
        let node_index = self.bins_map.get_head(bin_index).unwrap();
        let mut node = self.nodes.get(node_index);
        let node_total_size = node.data_size;
        node.data_size = size;
        node.used = true;
        self.nodes.set(node_index, node);
        self.bins_map.set_head(bin_index, node.bin_list_next);
        if let Some(bin_list_next) = node.bin_list_next.to_option() {
            let mut next_node = self.nodes.get(bin_list_next);
            next_node.bin_list_prev = NodeIndexOption::none();
            self.nodes.set(bin_list_next, next_node);
        }
        self.free_storage -= node_total_size;

        // Bin empty?
        if self.bins_map.get_head(bin_index).is_none() {
            self.bins_map.mark_bin_empty(bin_index);
        }
        proof {
            assert forall|k: nat| #[trigger] self.bins_map.is_occupied(k) == (if k == b {
                lists0[b as int].len() > 1
            } else {
                map0.is_occupied(k)
            }) by {
                if k == b {
                    self.bins_map.lemma_heads_len();
                }
            }
            lemma_pop_bin_head(nodes0, map0, lists0, self.nodes.0@, self.bins_map, b);
            self.bins@ = lists0.update(b as int, lists0[b as int].drop_first());
        }
        (node_index, node_total_size)
    }

    /// Puts node `k` into the address order right after node `n` (at
    /// position `i`), between `n` and its former next neighbour `next`.
    fn link_after(&mut self, n: NI, k: NI, next: NodeIndexOption<NI>, Ghost(i): Ghost<int>)
        requires
            regions_linked(old(self).nodes.0@, old(self).order@),
            0 <= i < old(self).order@.len(),
            old(self).order@[i] == n.index(),
            k.index() < old(self).nodes.0@.len() < NI::num_valid_spec(),
            forall|j: int| 0 <= j < old(self).order@.len() ==> #[trigger] old(self).order@[j] != k.index(),
            forall|j: int, l: int|
                0 <= j < old(self).order@.len() && 0 <= l < old(self).order@.len() && j != l
                    ==> #[trigger] old(self).order@[j] != #[trigger] old(self).order@[l],
            next == old(self).nodes.0@[n.index() as int].neighbor_next,
        ensures
            final(self).order@ == old(self).order@.insert(i + 1, k.index()),
            regions_linked(final(self).nodes.0@, final(self).order@),
            final(self).nodes.0@.len() == old(self).nodes.0@.len(),
            forall|j: int|
                0 <= j < old(self).nodes.0@.len() ==> #[trigger] same_bin_fields(
                    old(self).nodes.0@[j],
                    final(self).nodes.0@[j],
                ),
            forall|j: int|
                0 <= j < old(self).nodes.0@.len() ==> #[trigger] same_region_fields(
                    final(self).nodes.0@[j],
                    old(self).nodes.0@[j],
                ),
            final(self).bins_map == old(self).bins_map,
            final(self).bins == old(self).bins,
            final(self).free_nodes == old(self).free_nodes,
            final(self).free_storage == old(self).free_storage,
            final(self).size == old(self).size,
            final(self).max_allocs == old(self).max_allocs,
    {
        let ghost nodes1 = self.nodes.0@;
        let ghost order = self.order@;
        proof {
            lemma_region_entry(nodes1, order, i);
            if i + 1 < order.len() {
                lemma_region_entry(nodes1, order, i + 1);
            }
            NI::lemma_index(n, k);
        }
        if let Some(neighbor_next) = next.to_option() {
            proof {
                assert(i + 1 < order.len());
                assert(neighbor_next.index() == order[i + 1]);
            }
            let mut next_node = self.nodes.get(neighbor_next);
            next_node.neighbor_prev = NodeIndexOption::some(k);
            self.nodes.set(neighbor_next, next_node);
        }
        proof {
            assert forall|j: int|
                0 <= j < order.len() && j != i && j != i + 1 implies self.nodes.0@[order[j] as int]
                == nodes1[order[j] as int] by {
                lemma_region_entry(nodes1, order, j);
                if i + 1 < order.len() {
                    assert(order[j] != order[i + 1]);
                }
            }
        }
        let mut new_node = self.nodes.get(k);
        new_node.neighbor_prev = NodeIndexOption::some(n);
        new_node.neighbor_next = next;
        self.nodes.set(k, new_node);
        let mut this_node = self.nodes.get(n);
        this_node.neighbor_next = NodeIndexOption::some(k);
        self.nodes.set(n, this_node);
        proof {
            let nodes3 = self.nodes.0@;
            assert forall|j: int|
                0 <= j < order.len() && j != i && j != i + 1 implies #[trigger] same_neighbor_fields(
                nodes1[order[j] as int],
                nodes3[order[j] as int],
            ) by {
                lemma_region_entry(nodes1, order, j);
                if i + 1 < order.len() {
                    assert(order[j] != order[i + 1]);
                }
                assert(order[j] != order[i]);
                assert(nodes3[order[j] as int] == nodes1[order[j] as int]);
            }
            lemma_split_links(nodes1, nodes3, order, i, k.index());
            self.order@ = order.insert(i + 1, k.index());
        }
    }

    /// The size that node `n` records: the size of its region while it holds
    /// one, and what it last recorded otherwise.
    pub closed spec fn stored_size(&self, n: nat) -> nat {
        self.nodes.0@[n as int].data_size as nat
    }

    /// Returns the *used* size of an allocation: the size requested when it
    /// was made (for a handle whose node no longer holds a region, the size
    /// that node still records).
    pub fn allocation_size(&self, allocation: Allocation<NI>) -> (r: u32)
        requires
            self.wf(),
            allocation@.0 < self@.max_allocs,
        ensures
            r == self.stored_size(allocation@.0),
            self@.holds_region(allocation@.0) ==> r == self@.regions[self@.region_index(
                allocation@.0,
            )].size,
    {
        proof {
            if self@.holds_region(allocation@.0) {
                let i = self@.region_index(allocation@.0);
                assert(self@.regions[i] == region_of(self.nodes.0@[self.order@[i] as int], self.order@[i]));
            }
        }
        self.nodes.get(allocation.metadata).data_size
    }

    /// Returns a structure containing the amount of free space remaining, as
    /// well as the largest amount that can be allocated at once (the size
    /// class of the highest nonempty bin). Both are zero when no node is
    /// spare, since no allocation can then be made.
    pub fn storage_report(&self) -> (r: StorageReport)
        requires
            self.wf(),
        ensures
            self@.spare.len() == 0 ==> r.total_free_space == 0 && r.largest_free_region == 0,
            self@.spare.len() > 0 ==> r.total_free_space == self@.free_storage
                && r.largest_free_region == self@.largest_free_region(),
    {
        if self.free_nodes.is_exhausted() {
            // Out of allocations? -> Zero free space
            return StorageReport { total_free_space: 0, largest_free_region: 0 };
        }
        proof {
            lemma_bin_facts(self.nodes.0@, self.bins_map, self.bins@, 0);
        }
        let largest_free_region = match self.bins_map.max_occupied() {
            Some(x) => {
                proof {
                    lemma_bin_facts(self.nodes.0@, self.bins_map, self.bins@, x@ as int);
                    assert forall|k: nat| x@ < k < num_bins() implies #[trigger] self@.bins[k as int].len()
                        == 0 by {
                        lemma_bin_facts(self.nodes.0@, self.bins_map, self.bins@, k as int);
                    }
                    self@.lemma_highest_bin(x@);
                }
                x.to_u32()
            },
            None => {
                proof {
                    self@.lemma_highest_bin_props();
                    if self@.highest_bin() is Some {
                        let b = self@.highest_bin()->0;
                        lemma_bin_facts(self.nodes.0@, self.bins_map, self.bins@, b as int);
                    }
                }
                0
            },
        };
        StorageReport { total_free_space: self.free_storage, largest_free_region }
    }

    /// Returns detailed information about the number of free regions in each
    /// bin, with the size of each bin.
    pub fn storage_report_full(&self) -> (r: StorageReportFull)
        requires
            self.wf(),
        ensures
            r.free_regions@.len() == num_bins(),
            forall|b: int|
                0 <= b < num_bins() ==> {
                    &&& (#[trigger] r.free_regions@[b]).size == small_float_value(b as nat) % 0x1_0000_0000
                    &&& r.free_regions@[b].count == self@.bins[b].len()
                },
    {
        let mut free_regions: Vec<StorageReportFullRegion> = Vec::new();
        let mut i: u32 = 0;
        proof {
            lemma_bin_facts(self.nodes.0@, self.bins_map, self.bins@, 0);
        }
        while i < 256
            invariant
                self.wf(),
                i <= 256,
                free_regions@.len() == i,
                forall|b: int|
                    0 <= b < i ==> {
                        &&& (#[trigger] free_regions@[b]).size == small_float_value(b as nat)
                            % 0x1_0000_0000
                        &&& free_regions@[b].count == self@.bins[b].len()
                    },
            decreases 256 - i,
        {
            let bin = SmallFloat::reinterpret_u32(i);
            let ghost l = self.bins@[i as int];
            proof {
                lemma_bin_facts(self.nodes.0@, self.bins_map, self.bins@, i as int);
                self@.lemma_bin_len(i as int);
                self.bins_map.lemma_heads_len();
            }
            let mut count: u32 = 0;
            let mut maybe_node_index = self.bins_map.get_head(bin);
            while !maybe_node_index.is_none()
                invariant
                    self.wf(),
                    i < 256,
                    l == self.bins@[i as int],
                    l.len() <= self@.max_allocs < u32::MAX,
                    count <= l.len(),
                    maybe_node_index@ == (if count < l.len() {
                        Some(l[count as int])
                    } else {
                        None
                    }),
                decreases l.len() - count,
            {
                proof {
                    lemma_bin_entry(self.nodes.0@, self.bins_map, self.bins@, i as int, count as int);
                }
                let node_index = maybe_node_index.unwrap();
                maybe_node_index = self.nodes.get(node_index).bin_list_next;
                count += 1;
            }
            free_regions.push(StorageReportFullRegion { size: bin.to_u32(), count });
            i += 1;
        }
        StorageReportFull { free_regions }
    }

    /// After freeing the region of node `n`, the state is the model's.
    proof fn lemma_free_view(s0: Self, sf: Self, n: nat)
        requires
            s0.wf(),
            s0@.is_allocated(n),
            ({
                let m0 = s0@;
                let m2 = m0.after_free(n);
                let i = m0.region_index(n);
                let len = m0.regions.len() as int;
                let mp = i > 0 && !m0.regions[i - 1].used;
                let mq = i + 1 < len && !m0.regions[i + 1].used;
                let lo = if mp {
                    i - 1
                } else {
                    i
                };
                let hi = if mq {
                    i + 2
                } else {
                    i + 1
                };
                let nodes0 = s0.nodes.0@;
                let nodes = sf.nodes.0@;
                &&& nodes.len() == nodes0.len()
                &&& forall|j: int|
                    0 <= j < nodes0.len() && j != n ==> #[trigger] same_region_fields(nodes[j], nodes0[j])
                &&& nodes[n as int].data_offset == (if mp {
                    m0.regions[i - 1].offset
                } else {
                    m0.regions[i].offset
                })
                &&& nodes[n as int].data_size == m0.regions[i].size + (if mp {
                    m0.regions[i - 1].size
                } else {
                    0
                }) + (if mq {
                    m0.regions[i + 1].size
                } else {
                    0
                })
                &&& !nodes[n as int].used
                &&& sf.order@ == s0.order@.subrange(0, lo) + seq![n] + s0.order@.subrange(hi, len)
                &&& sf.bins@ == m2.bins
                &&& indices(sf.free_nodes.0@) == m2.spare
                &&& sf.free_storage == m0.free_storage + m0.regions[i].size
                &&& sf.size == s0.size
                &&& sf.max_allocs == s0.max_allocs
            }),
        ensures
            sf@ == s0@.after_free(n),
            forall|t: int|
                0 <= t < sf.free_nodes.0@.len() ==> !sf.nodes.0@[(#[trigger] sf.free_nodes.0@[t]).index() as int].used,
    {
        reveal(AllocatorModel::after_free);
        let m0 = s0@;
        let m2 = m0.after_free(n);
        let i = m0.region_index(n);
        let len = m0.regions.len() as int;
        let mp = i > 0 && !m0.regions[i - 1].used;
        let mq = i + 1 < len && !m0.regions[i + 1].used;
        let lo = if mp {
            i - 1
        } else {
            i
        };
        let hi = if mq {
            i + 2
        } else {
            i + 1
        };
        let mf = sf@;
        let order0 = s0.order@;
        let nodes0 = s0.nodes.0@;
        let nodes = sf.nodes.0@;
        m0.lemma_region_nodes_distinct();
        assert(mf.regions =~= m2.regions) by {
            assert forall|j: int| 0 <= j < mf.regions.len() implies mf.regions[j] == m2.regions[j] by {
                if j < lo {
                    assert(sf.order@[j] == order0[j]);
                    assert(m0.regions[j].node != m0.regions[i].node);
                    assert(same_region_fields(nodes[order0[j] as int], nodes0[order0[j] as int]));
                } else if j > lo {
                    let jj = j - lo - 1 + hi;
                    assert(sf.order@[j] == order0[jj]);
                    assert(m0.regions[jj].node != m0.regions[i].node);
                    assert(same_region_fields(nodes[order0[jj] as int], nodes0[order0[jj] as int]));
                    assert(m2.regions[j] == m0.regions[jj]);
                }
            }
        }
        m0.lemma_spare_bounds();
        assert forall|t: int|
            0 <= t < sf.free_nodes.0@.len() implies !nodes[(#[trigger] sf.free_nodes.0@[t]).index() as int].used by {
            let x = sf.free_nodes.0@[t].index();
            assert(indices(sf.free_nodes.0@)[t] == x);
            assert(indices(sf.free_nodes.0@).len() == sf.free_nodes.0@.len());
            assert(t < m2.spare.len());
            let ol = m0.spare.len() as int;
            if t < ol {
                assert(m0.spare[t] == x);
                assert(indices(s0.free_nodes.0@)[t] == s0.free_nodes.0@[t].index());
                assert(!nodes0[x as int].used);
                assert(m0.regions[i].node != m0.spare[t]);
                assert(same_region_fields(nodes[x as int], nodes0[x as int]));
            } else if mp && t == ol {
                assert(x == m0.regions[i - 1].node);
                assert(m0.regions[i - 1].node != m0.regions[i].node);
                assert(m0.regions[i - 1] == region_of(nodes0[order0[i - 1] as int], order0[i - 1]));
                assert(same_region_fields(nodes[x as int], nodes0[x as int]));
            } else {
                let spare1 = if mp {
                    m0.spare.push(m0.regions[i - 1].node)
                } else {
                    m0.spare
                };
                assert(m2.spare == (if mq {
                    spare1.push(m0.regions[i + 1].node)
                } else {
                    spare1
                }));
                assert(mq);
                assert(t == spare1.len());
                assert(x == m0.regions[i + 1].node);
                assert(m0.regions[i + 1].node != m0.regions[i].node);
                assert(m0.regions[i + 1] == region_of(nodes0[order0[i + 1] as int], order0[i + 1]));
                assert(same_region_fields(nodes[x as int], nodes0[x as int]));
            }
        }
    }

    /// Frees an allocation, returning its region to the free space and
    /// merging it with free neighbouring regions. The allocation must be live:
    /// it may not have been freed already.
    #[verifier::rlimit(100)]
    #[verifier::spinoff_prover]
    pub fn free(&mut self, allocation: Allocation<NI>)
        requires
            old(self).wf(),
            old(self)@.is_allocated(allocation@.0),
        ensures
            final(self).wf(),
            final(self)@ == old(self)@.after_free(allocation@.0),
    {
        let ghost s0 = *self;
        let ghost m0 = self@;
        let ghost nodes0 = self.nodes.0@;
        let ghost order0 = self.order@;
        let ghost lists0 = self.bins@;
        let ghost stack0 = self.free_nodes.0@;
        let node_index = allocation.metadata;
        let ghost n = node_index.index();
        let ghost i = m0.region_index(n);
        let ghost len = order0.len() as int;
        let ghost mp = i > 0 && !m0.regions[i - 1].used;
        let ghost mq = i + 1 < len && !m0.regions[i + 1].used;
        let ghost p = order0[i - 1];
        let ghost q = order0[i + 1];
        let ghost lo = if mp {
            i - 1
        } else {
            i
        };
        let ghost hi = if mq {
            i + 2
        } else {
            i + 1
        };
        proof {
            if lo > 0 {
                lemma_region_entry(nodes0, order0, lo - 1);
            }
            if hi < len {
                lemma_region_entry(nodes0, order0, hi);
            }
            lemma_region_entry(nodes0, order0, i);
            assert(m0.regions[i] == region_of(nodes0[n as int], n));
            m0.lemma_region_bounds(i);
            m0.lemma_region_nodes_distinct();
            lemma_bin_facts(nodes0, s0.bins_map, lists0, 0);
            if i > 0 {
                lemma_region_entry(nodes0, order0, i - 1);
                assert(m0.regions[i - 1] == region_of(nodes0[p as int], p));
                m0.lemma_region_bounds(i - 1);
            }
            if i + 1 < len {
                lemma_region_entry(nodes0, order0, i + 1);
                assert(m0.regions[i + 1] == region_of(nodes0[q as int], q));
                m0.lemma_region_bounds(i + 1);
                m0.lemma_adjacent(i);
            }
            if i > 0 {
                m0.lemma_adjacent(i - 1);
            }
            NI::lemma_index(node_index, node_index);
        }

        // Merge with neighbors...
        let node = self.nodes.get(node_index);
        let mut offset = node.data_offset;
        let mut size = node.data_size;

        if let Some(neighbor_prev) = node.neighbor_prev.to_option() {
            let prev_node = self.nodes.get(neighbor_prev);
            if !prev_node.used {
                // Previous (contiguous) free node: Change offset to previous
                // node offset. Sum sizes
                offset = prev_node.data_offset;
                size += prev_node.data_size;

                // Remove node from the bin linked list and put it in the
                // freelist
                let ghost bp = bin_of(prev_node.data_size as nat);
                let ghost pos = lists0[bp as int].index_of(p);
                proof {
                    m0.lemma_free_region_in_bin(i - 1);
                }
                self.remove_node_from_bin(neighbor_prev, Ghost(bp), Ghost(pos));

                let prev_node = self.nodes.get(neighbor_prev);
                let mut this_node = self.nodes.get(node_index);
                this_node.neighbor_prev = prev_node.neighbor_prev;
                let ghost before = self.nodes.0@;
                self.nodes.set(node_index, this_node);
                proof {
                    assert(same_neighbor_fields(nodes0[n as int], before[n as int]));
                    assert(same_neighbor_fields(nodes0[p as int], before[p as int]));
                    assert forall|j: int| 0 <= j < nodes0.len() implies #[trigger] same_region_fields(
                        self.nodes.0@[j],
                        nodes0[j],
                    ) by {
                        assert(same_region_fields(before[j], nodes0[j]));
                    }
                    assert forall|j: int| 0 <= j < before.len() implies #[trigger] same_bin_fields(
                        before[j],
                        self.nodes.0@[j],
                    ) by {}
                    lemma_bins_linked_frame(before, self.nodes.0@, self.bins_map, self.bins@);
                }
            }
        }
        let ghost nodes1 = self.nodes.0@;
        let ghost lists1 = self.bins@;
        let ghost stack1 = self.free_nodes.0@;
        proof {
            assert(size == nodes0[n as int].data_size + (if mp {
                nodes0[p as int].data_size
            } else {
                0
            }));
            assert(nodes1[n as int].neighbor_next@ == nodes0[n as int].neighbor_next@);
            assert(nodes1[n as int].neighbor_prev@ == (if mp {
                nodes0[p as int].neighbor_prev@
            } else {
                nodes0[n as int].neighbor_prev@
            }));
            assert(same_region_fields(nodes1[n as int], nodes0[n as int]));
            assert(nodes1[n as int].used);
            assert forall|j: int| 0 <= j < nodes0.len() implies #[trigger] same_region_fields(
                nodes1[j],
                nodes0[j],
            ) by {}
            assert forall|j: int| 0 <= j < nodes0.len() && j != n implies #[trigger] same_neighbor_fields(
                nodes0[j],
                nodes1[j],
            ) by {}
            assert(bins_linked(nodes1, self.bins_map, lists1));
            assert(lists1 == (if mp {
                AllocatorModel::remove_from_bin(lists0, bin_of(m0.regions[i - 1].size), p)
            } else {
                lists0
            }));
            assert(indices(stack1) == (if mp {
                m0.spare.push(p)
            } else {
                m0.spare
            }));
            assert(self.free_storage == m0.free_storage - (if mp {
                nodes0[p as int].data_size
            } else {
                0
            }));
            assert(offset == (if mp {
                nodes0[p as int].data_offset
            } else {
                nodes0[n as int].data_offset
            }));
            if i + 1 < len {
                assert(same_region_fields(nodes1[q as int], nodes0[q as int]));
            }
        }

        if let Some(neighbor_next) = self.nodes.get(node_index).neighbor_next.to_option() {
            let next_node = self.nodes.get(neighbor_next);
            if !next_node.used {
                // Next (contiguous) free node: Offset remains the same. Sum
                // sizes.
                proof {
                    assert(next_node == nodes1[q as int]);
                    assert(same_region_fields(nodes1[q as int], nodes0[q as int]));
                    if mp {
                        crate::model::lemma_free_pair(m0.regions, i - 1, i + 1);
                    }
                }
                size += next_node.data_size;

                // Remove node from the bin linked list and put it in the
                // freelist
                let ghost bq = bin_of(next_node.data_size as nat);
                let ghost pos = lists1[bq as int].index_of(q);
                proof {
                    m0.lemma_free_region_in_bin(i + 1);
                    if mp && bq == bin_of(m0.regions[i - 1].size) {
                        let bp = bin_of(m0.regions[i - 1].size) as int;
                        let pp = lists0[bp].index_of(p);
                        lemma_remove_keeps(lists0[bp], pp, q);
                    }
                    assert(lists1[bq as int].contains(q));
                }
                self.remove_node_from_bin(neighbor_next, Ghost(bq), Ghost(pos));

                let next_node = self.nodes.get(neighbor_next);
                let mut this_node = self.nodes.get(node_index);
                this_node.neighbor_next = next_node.neighbor_next;
                let ghost before = self.nodes.0@;
                self.nodes.set(node_index, this_node);
                proof {
                    assert(same_neighbor_fields(nodes1[n as int], before[n as int]));
                    assert(same_neighbor_fields(nodes1[q as int], before[q as int]));
                    assert(same_neighbor_fields(nodes0[q as int], nodes1[q as int]));

                    assert forall|j: int| 0 <= j < nodes0.len() && j != n implies #[trigger] same_neighbor_fields(
                        nodes1[j],
                        self.nodes.0@[j],
                    ) by {
                        assert(same_neighbor_fields(nodes1[j], before[j]));
                    }
                    assert forall|j: int| 0 <= j < nodes0.len() implies #[trigger] same_region_fields(
                        self.nodes.0@[j],
                        nodes1[j],
                    ) by {
                        assert(same_region_fields(before[j], nodes1[j]));
                    }
                    assert forall|j: int| 0 <= j < before.len() implies #[trigger] same_bin_fields(
                        before[j],
                        self.nodes.0@[j],
                    ) by {}
                    lemma_bins_linked_frame(before, self.nodes.0@, self.bins_map, self.bins@);
                }
            }
        }

        let ghost nodes2 = self.nodes.0@;
        let ghost lists2 = self.bins@;
        let ghost stack2 = self.free_nodes.0@;
        proof {
            assert(nodes2[n as int].neighbor_next@ == (if mq {
                nodes0[q as int].neighbor_next@
            } else {
                nodes0[n as int].neighbor_next@
            }));
            assert(nodes2[n as int].neighbor_prev@ == nodes1[n as int].neighbor_prev@);
            assert(nodes2[n as int].neighbor_prev@ == (if lo == 0 {
                None
            } else {
                Some(order0[lo - 1])
            }));
            assert(nodes2[n as int].neighbor_next@ == (if hi == len {
                None
            } else {
                Some(order0[hi])
            }));
            assert forall|j: int| 0 <= j < nodes0.len() implies #[trigger] same_region_fields(
                nodes2[j],
                nodes0[j],
            ) by {
                assert(same_region_fields(nodes1[j], nodes0[j]));
                assert(same_region_fields(nodes2[j], nodes1[j]));
            }
            assert(same_region_fields(nodes2[n as int], nodes0[n as int]));
            assert(nodes2[n as int].used);
            assert forall|j: int| 0 <= j < nodes0.len() && j != n implies #[trigger] same_neighbor_fields(
                nodes0[j],
                nodes2[j],
            ) by {
                assert(same_neighbor_fields(nodes0[j], nodes1[j]));
                assert(same_neighbor_fields(nodes1[j], nodes2[j]));
            }
            assert(bins_linked(nodes2, self.bins_map, lists2));
            assert(lists2 == (if mq {
                AllocatorModel::remove_from_bin(lists1, bin_of(m0.regions[i + 1].size), q)
            } else {
                lists1
            }));
            assert(indices(stack2) == (if mq {
                indices(stack1).push(q)
            } else {
                indices(stack1)
            }));
            assert(size == nodes0[n as int].data_size + (if mp {
                nodes0[p as int].data_size
            } else {
                0
            }) + (if mq {
                nodes0[q as int].data_size
            } else {
                0
            }));
            lemma_used_not_in_bins(nodes2, self.bins_map, lists2, n);
        }

        let this_node = self.nodes.get(node_index);
        let neighbor_next = this_node.neighbor_next;
        let neighbor_prev = this_node.neighbor_prev;

        // Insert the removed node to freelist
        self.free_nodes.push(node_index);

        // Insert the (combined) free node to bin
        let combined_node_index = self.insert_node_into_bin(size, offset);
        let ghost nodes3 = self.nodes.0@;
        proof {
            assert(combined_node_index == node_index);
            assert forall|j: int| 0 <= j < nodes0.len() implies #[trigger] same_bin_fields(
                nodes3[j],
                nodes3[j],
            ) by {}
            assert forall|j: int| 0 <= j < nodes0.len() && j != n implies #[trigger] same_neighbor_fields(
                nodes2[j],
                nodes3[j],
            ) && same_region_fields(nodes3[j], nodes2[j]) by {}
        }

        // Connect neighbors with the new combined node
        if let Some(neighbor_next) = neighbor_next.to_option() {
            let mut combined = self.nodes.get(combined_node_index);
            combined.neighbor_next = NodeIndexOption::some(neighbor_next);
            self.nodes.set(combined_node_index, combined);
            let mut next_node = self.nodes.get(neighbor_next);
            next_node.neighbor_prev = NodeIndexOption::some(combined_node_index);
            self.nodes.set(neighbor_next, next_node);
        }
        if let Some(neighbor_prev) = neighbor_prev.to_option() {
            let mut combined = self.nodes.get(combined_node_index);
            combined.neighbor_prev = NodeIndexOption::some(neighbor_prev);
            self.nodes.set(combined_node_index, combined);
            let mut prev_node = self.nodes.get(neighbor_prev);
            prev_node.neighbor_next = NodeIndexOption::some(combined_node_index);
            self.nodes.set(neighbor_prev, prev_node);
        }
        proof {
            let nodes4 = self.nodes.0@;
            assert forall|j: int| 0 <= j < nodes0.len() implies #[trigger] same_bin_fields(
                nodes3[j],
                nodes4[j],
            ) by {}
            lemma_bins_linked_frame(nodes3, nodes4, self.bins_map, self.bins@);
            assert forall|j: int| 0 <= j < nodes0.len() && j != n implies #[trigger] same_region_fields(
                nodes4[j],
                nodes0[j],
            ) by {
                assert(same_region_fields(nodes2[j], nodes0[j]));
                assert(same_region_fields(nodes3[j], nodes2[j]));
            }
            assert forall|j: int, l: int|
                0 <= j < order0.len() && 0 <= l < order0.len() && j != l implies #[trigger] order0[j]
                    != #[trigger] order0[l] by {
                assert(m0.regions[j].node == order0[j]);
                assert(m0.regions[l].node == order0[l]);
            }
            assert forall|j: int|
                0 <= j < order0.len() && (j < lo || j >= hi) implies #[trigger] order0[j] != n by {
                assert(order0[i] == n);
            }
            assert forall|j: int|
                0 <= j < order0.len() && (j < lo - 1 || j > hi) implies #[trigger] same_neighbor_fields(
                nodes0[order0[j] as int],
                nodes4[order0[j] as int],
            ) by {
                let x = order0[j] as int;
                lemma_region_entry(nodes0, order0, j);
                assert(x != n);
                if lo > 0 {
                    assert(x != order0[lo - 1]);
                }
                if hi < len {
                    assert(x != order0[hi]);
                }
                assert(same_neighbor_fields(nodes0[x], nodes2[x]));
                assert(same_neighbor_fields(nodes2[x], nodes3[x]));
            }
            if lo > 0 {
                let x = order0[lo - 1] as int;
                assert(x != n);
                if hi < len {
                    assert(x != order0[hi]);
                }
                assert(same_neighbor_fields(nodes0[x], nodes2[x]));
                assert(same_neighbor_fields(nodes2[x], nodes3[x]));
            }
            if hi < len {
                let x = order0[hi] as int;
                assert(x != n);
                assert(same_neighbor_fields(nodes0[x], nodes2[x]));
                assert(same_neighbor_fields(nodes2[x], nodes3[x]));
            }
            lemma_merge_links(nodes0, nodes4, order0, lo, hi, n);
            self.order@ = order0.subrange(0, lo) + seq![n] + order0.subrange(hi, len);
            assert(self.bins@ == m0.after_free(n).bins) by {
                reveal(AllocatorModel::after_free);
            }
            assert(indices(self.free_nodes.0@) == m0.after_free(n).spare) by {
                reveal(AllocatorModel::after_free);
                assert(self.free_nodes.0@ == stack2);
            }
            Self::lemma_free_view(s0, *self, n);
            m0.lemma_after_free_wf(n);
        }
    }

    /// Takes node `node_index`, entry `pos` of the list of bin `b`, out of
    /// its bin and puts it on the spare stack.
    fn remove_node_from_bin(&mut self, node_index: NI, Ghost(b): Ghost<nat>, Ghost(pos): Ghost<int>)
        requires
            bins_linked(old(self).nodes.0@, old(self).bins_map, old(self).bins@),
            b < num_bins(),
            0 <= pos < old(self).bins@[b as int].len(),
            old(self).bins@[b as int][pos] == node_index.index(),
            old(self).free_storage >= old(self).nodes.0@[node_index.index() as int].data_size,
        ensures
            final(self).bins@ == old(self).bins@.update(b as int, old(self).bins@[b as int].remove(pos)),
            bins_linked(final(self).nodes.0@, final(self).bins_map, final(self).bins@),
            final(self).free_nodes.0@ == old(self).free_nodes.0@.push(node_index),
            final(self).free_storage == old(self).free_storage - old(self).nodes.0@[node_index.index() as int].data_size,
            final(self).nodes.0@.len() == old(self).nodes.0@.len(),
            forall|j: int|
                0 <= j < old(self).nodes.0@.len() ==> #[trigger] same_neighbor_fields(
                    old(self).nodes.0@[j],
                    final(self).nodes.0@[j],
                ),
            forall|j: int|
                0 <= j < old(self).nodes.0@.len() ==> #[trigger] same_region_fields(
                    final(self).nodes.0@[j],
                    old(self).nodes.0@[j],
                ),
            final(self).size == old(self).size,
            final(self).max_allocs == old(self).max_allocs,
            final(self).order == old(self).order,
    {
        let ghost nodes0 = self.nodes.0@;
        let ghost lists0 = self.bins@;
        let ghost map0 = self.bins_map;
        let ghost l = lists0[b as int];
        proof {
            lemma_bin_facts(nodes0, map0, lists0, b as int);
            lemma_bin_entry(nodes0, map0, lists0, b as int, pos);
            if pos > 0 {
                lemma_bin_entry(nodes0, map0, lists0, b as int, pos - 1);
            }
            if pos + 1 < l.len() {
                lemma_bin_entry(nodes0, map0, lists0, b as int, pos + 1);
            }
            map0.lemma_heads_len();
        }
        // Copy the node to work around borrow check.
        let node = self.nodes.get(node_index);

        match node.bin_list_prev.to_option() {
            Some(bin_list_prev) => {
                // Easy case: We have previous node. Just remove this node from
                // the middle of the list.
                let mut prev_node = self.nodes.get(bin_list_prev);
                prev_node.bin_list_next = node.bin_list_next;
                self.nodes.set(bin_list_prev, prev_node);
                if let Some(bin_list_next) = node.bin_list_next.to_option() {
                    let mut next_node = self.nodes.get(bin_list_next);
                    next_node.bin_list_prev = node.bin_list_prev;
                    self.nodes.set(bin_list_next, next_node);
                }
                proof {
                    assert(l[pos - 1] != l[pos]);
                    lemma_unlink_middle(nodes0, map0, lists0, self.nodes.0@, b, pos);
                }
            },
            None => {
                // Hard case: We are the first node in a bin. Find the bin.

                // Round down to bin index to ensure that bin >= alloc
                let bin_index = SmallFloat::from_u32_round_down(node.data_size);

                self.bins_map.set_head(bin_index, node.bin_list_next);
                if let Some(bin_list_next) = node.bin_list_next.to_option() {
                    let mut next_node = self.nodes.get(bin_list_next);
                    next_node.bin_list_prev = NodeIndexOption::none();
                    self.nodes.set(bin_list_next, next_node);
                }

                // Bin empty?
                if self.bins_map.get_head(bin_index).is_none() {
                    self.bins_map.mark_bin_empty(bin_index);
                }
                proof {
                    assert(pos == 0);
                    assert forall|k: nat| #[trigger] self.bins_map.is_occupied(k) == (if k == b {
                        lists0[b as int].len() > 1
                    } else {
                        map0.is_occupied(k)
                    }) by {
                        if k == b {
                            self.bins_map.lemma_heads_len();
                        }
                    }
                    lemma_pop_bin_head(nodes0, map0, lists0, self.nodes.0@, self.bins_map, b);
                    assert(l.remove(0) =~= l.drop_first());
                }
            },
        }

        // Insert the node to freelist
        self.free_nodes.push(node_index);

        self.free_storage -= node.data_size;
        proof {
            self.bins@ = lists0.update(b as int, l.remove(pos));
        }
    }

    /// Takes the top spare node, gives it a free region of `size` units at
    /// `data_offset` and puts it at the head of its bin.
    fn insert_node_into_bin(&mut self, size: u32, data_offset: u32) -> (r: NI)
        requires
            bins_linked(old(self).nodes.0@, old(self).bins_map, old(self).bins@),
            old(self).nodes.0@.len() < NI::num_valid_spec(),
            old(self).free_nodes.0@.len() > 0,
            old(self).free_nodes.0@.last().index() < old(self).nodes.0@.len(),
            forall|b: int, j: int|
                0 <= b < num_bins() && 0 <= j < old(self).bins@[b].len() ==> #[trigger] old(
                    self,
                ).bins@[b][j] != old(self).free_nodes.0@.last().index(),
            old(self).free_storage + size <= u32::MAX,
        ensures
            r == old(self).free_nodes.0@.last(),
            final(self).free_nodes.0@ == old(self).free_nodes.0@.drop_last(),
            final(self).nodes.0@.len() == old(self).nodes.0@.len(),
            ({
                let k = r.index() as int;
                let b = bin_of(size as nat) as int;
                let old_head = old(self).bins_map.head_entry(b as nat);
                &&& final(self).nodes.0@[k].data_offset == data_offset
                &&& final(self).nodes.0@[k].data_size == size
                &&& final(self).nodes.0@[k].bin_list_prev@ == None::<nat>
                &&& final(self).nodes.0@[k].bin_list_next == old_head
                &&& final(self).nodes.0@[k].neighbor_prev@ == None::<nat>
                &&& final(self).nodes.0@[k].neighbor_next@ == None::<nat>
                &&& !final(self).nodes.0@[k].used
                &&& forall|j: int|
                    0 <= j < old(self).nodes.0@.len() && j != k ==> #[trigger] final(self).nodes.0@[j]
                        == (if old(self).bins@[b].len() > 0 && j == old(self).bins@[b][0] {
                        Node { bin_list_prev: NodeIndexOption(r), ..old(self).nodes.0@[j] }
                    } else {
                        old(self).nodes.0@[j]
                    })
                &&& final(self).bins@ == old(self).bins@.update(b, seq![k as nat] + old(self).bins@[b])
            }),
            bins_linked(final(self).nodes.0@, final(self).bins_map, final(self).bins@),
            final(self).free_storage == old(self).free_storage + size,
            final(self).size == old(self).size,
            final(self).max_allocs == old(self).max_allocs,
            final(self).order == old(self).order,
    {
        reveal(bins_linked);
        // Round down to bin index to ensure that bin >= alloc
        let bin_index = SmallFloat::from_u32_round_down(size);
        let ghost b = bin_index@ as int;
        let ghost old_nodes = self.nodes.0@;
        let ghost lists = self.bins@;
        let ghost old_map = self.bins_map;
        proof {
            self.bins_map.lemma_heads_len();
            assert(self.bins_map.is_occupied(b as nat) <==> lists[b].len() > 0);
            assert(self.bins_map.head(b as nat) == (if lists[b].len() > 0 {
                Some(lists[b][0])
            } else {
                None
            }));
        }

        // Bin was empty before?
        if self.bins_map.get_head(bin_index).is_none() {
            // Set bin mask bits
            self.bins_map.mark_bin_occupied(bin_index);
        }

        // Take a freelist node and insert on top of the bin linked list
        // (next = old top)
        let top_node_index = self.bins_map.get_head(bin_index);
        let node_index = self.free_nodes.pop_required();
        let ghost k = node_index.index() as int;
        proof {
            NI::lemma_index(node_index, node_index);
        }
        self.nodes.set(
            node_index,
            Node {
                data_offset,
                data_size: size,
                bin_list_prev: NodeIndexOption::none(),
                bin_list_next: top_node_index,
                neighbor_prev: NodeIndexOption::none(),
                neighbor_next: NodeIndexOption::none(),
                used: false,
            },
        );
        if let Some(top) = top_node_index.to_option() {
            let mut top_node = self.nodes.get(top);
            top_node.bin_list_prev = NodeIndexOption::some(node_index);
            self.nodes.set(top, top_node);
        }
        self.bins_map.set_head(bin_index, NodeIndexOption::some(node_index));

        self.free_storage += size;
        proof {
            self.bins@ = lists.update(b, seq![k as nat] + lists[b]);
            let new_nodes = self.nodes.0@;
            let new_lists = self.bins@;
            self.bins_map.lemma_heads_len();
            assert forall|bb: int|
                0 <= bb < num_bins() implies (#[trigger] self.bins_map.is_occupied(bb as nat)
                <==> new_lists[bb].len() > 0) by {}
            assert forall|bb: int|
                0 <= bb < num_bins() implies #[trigger] self.bins_map.head(bb as nat) == (if new_lists[bb].len() > 0 {
                Some(new_lists[bb][0])
            } else {
                None
            }) by {
                if bb == b {
                    assert(new_lists[bb][0] == k);
                } else {
                    assert(old_map.head(bb as nat) == (if lists[bb].len() > 0 {
                        Some(lists[bb][0])
                    } else {
                        None
                    }));
                }
            }
            assert forall|bb: int, j: int|
                0 <= bb < num_bins() && 0 <= j < new_lists[bb].len() implies {
                let n = #[trigger] new_lists[bb][j];
                &&& n < new_nodes.len()
                &&& new_nodes[n as int].bin_list_prev@ == (if j == 0 {
                    None
                } else {
                    Some(new_lists[bb][j - 1])
                })
                &&& new_nodes[n as int].bin_list_next@ == (if j + 1 == new_lists[bb].len() {
                    None
                } else {
                    Some(new_lists[bb][j + 1])
                })
                &&& bin_of(new_nodes[n as int].data_size as nat) == bb
                &&& !new_nodes[n as int].used
            } by {
                if bb == b {
                    if j > 0 {
                        assert(new_lists[bb][j] == lists[b][j - 1]);
                        let n = lists[b][j - 1];
                        assert(n != k);
                        if j == 1 {
                            assert(n == lists[b][0]);
                        } else {
                            assert(lists[b][j - 1] != lists[b][0]);
                        }
                    }
                } else {
                    let n = lists[bb][j];
                    assert(n != k);
                    if lists[b].len() > 0 {
                        assert(bin_of(old_nodes[lists[b][0] as int].data_size as nat) == b);
                        assert(n != lists[b][0]);
                    }
                }
            }
            assert forall|bb: int, j: int, l: int|
                0 <= bb < num_bins() && 0 <= j < new_lists[bb].len() && 0 <= l < new_lists[bb].len()
                    && j != l implies #[trigger] new_lists[bb][j] != #[trigger] new_lists[bb][l] by {
                if bb == b {
                    if j > 0 && l > 0 {
                        assert(lists[b][j - 1] != lists[b][l - 1]);
                    }
                }
            }
        }
        node_index
    }
}

} // verus!
