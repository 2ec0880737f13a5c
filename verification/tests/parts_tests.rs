use offset_allocator::allocator::{FreeNodeStack, Node, NodeMap};
use offset_allocator::bins_map::{find_lowest_bit_set_after, BinsMap};
use offset_allocator::node_index::{NodeIndex, NodeIndexNonMax, NodeIndexOption};
use offset_allocator::node_slab::NodeSlab;
use offset_allocator::nonmax::{NonMaxU16, NonMaxU32};
use offset_allocator::small_float::SmallFloat;

#[test]
fn lowest_bit_after() {
    assert_eq!(find_lowest_bit_set_after(0b1010_0000, 0), Some(5));
    assert_eq!(find_lowest_bit_set_after(0b1010_0000, 5), Some(5));
    assert_eq!(find_lowest_bit_set_after(0b1010_0000, 6), Some(7));
    assert_eq!(find_lowest_bit_set_after(0b1010_0000, 8), None);
    assert_eq!(find_lowest_bit_set_after(0, 0), None);
    assert_eq!(find_lowest_bit_set_after(0x8000_0000, 31), Some(31));
}

#[test]
fn bins_map_occupancy() {
    let mut map: BinsMap<u32> = BinsMap::new();
    assert!(map.max_occupied().is_none());
    assert!(map.min_occupied_since(SmallFloat(0)).is_none());
    map.mark_bin_occupied(SmallFloat(63));
    map.mark_bin_occupied(SmallFloat(17));
    assert_eq!(map.min_occupied_since(SmallFloat(0)), Some(SmallFloat(17)));
    assert_eq!(map.min_occupied_since(SmallFloat(17)), Some(SmallFloat(17)));
    assert_eq!(map.min_occupied_since(SmallFloat(18)), Some(SmallFloat(63)));
    assert_eq!(map.min_occupied_since(SmallFloat(64)), None);
    assert_eq!(map.max_occupied(), Some(SmallFloat(63)));
    map.mark_bin_empty(SmallFloat(63));
    assert_eq!(map.max_occupied(), Some(SmallFloat(17)));
    assert_eq!(map.min_occupied_since(SmallFloat(18)), None);
    map.mark_bin_empty(SmallFloat(17));
    assert!(map.max_occupied().is_none());
}

#[test]
fn bins_map_last_top_bin() {
    let mut map: BinsMap<u32> = BinsMap::new();
    map.mark_bin_occupied(SmallFloat(250));
    assert_eq!(map.min_occupied_since(SmallFloat(249)), Some(SmallFloat(250)));
    assert_eq!(map.min_occupied_since(SmallFloat(100)), Some(SmallFloat(250)));
    assert_eq!(map.max_occupied(), Some(SmallFloat(250)));
}

#[test]
fn bins_map_heads() {
    let mut map: BinsMap<u32> = BinsMap::new();
    assert!(map.get_head(SmallFloat(5)).is_none());
    map.set_head(SmallFloat(5), NodeIndexOption::some(42));
    assert_eq!(map.get_head(SmallFloat(5)).to_option(), Some(42));
    assert!(map.get_head(SmallFloat(6)).is_none());
}

#[test]
fn node_index_option() {
    let none: NodeIndexOption<u32> = NodeIndexOption::none();
    assert!(none.is_none());
    assert_eq!(none.to_option(), None);
    let some = NodeIndexOption::some(7u32);
    assert!(!some.is_none());
    assert_eq!(some.to_option(), Some(7));
    assert_eq!(some.unwrap(), 7);
    let small: NodeIndexOption<u16> = NodeIndexOption::none();
    assert_eq!(small.0, u16::MAX);
}

#[test]
fn node_index_conversions() {
    assert_eq!(<u32 as NodeIndex>::from_u32(12), 12u32);
    assert_eq!(<u16 as NodeIndex>::from_u32(12), 12u16);
    assert_eq!(NodeIndex::to_usize(9u16), 9usize);
    assert_eq!(<u32 as NodeIndex>::NUM_VALID, u32::MAX);
    assert_eq!(<u16 as NodeIndex>::NUM_VALID, 65535);
}

#[test]
fn nonmax_conversions() {
    let a = NonMaxU16::try_from(5u16).unwrap();
    assert_eq!(u16::from(a), 5);
    assert!(NonMaxU16::try_from(u16::MAX).is_err());
    assert!(NonMaxU16::try_from(u16::MAX - 1).is_ok());
    let b = NonMaxU32::try_from(70000u32).unwrap();
    assert_eq!(u32::from(b), 70000);
    assert!(NonMaxU32::try_from(u32::MAX).is_err());
    let c = <NonMaxU32 as NodeIndexNonMax>::from_u32(33);
    assert_eq!(c.to_usize(), 33);
    let d = <NonMaxU16 as NodeIndexNonMax>::from_u32(33);
    assert_eq!(d.to_usize(), 33);
}

#[test]
fn node_slab_stack() {
    let mut slab: NodeSlab<u32> = NodeSlab::new(4);
    assert!(!slab.is_full());
    let a = slab.insert(Node::empty());
    let b = slab.insert(Node::empty());
    let c = slab.insert(Node::empty());
    assert_eq!((a, b, c), (0, 1, 2));
    assert!(slab.is_full());
    slab.remove(b);
    assert!(!slab.is_full());
    let mut node = Node::empty();
    node.data_size = 77;
    let again = slab.insert(node);
    assert_eq!(again, 1);
    assert_eq!(slab.get(1).data_size, 77);
}

#[test]
fn node_map_and_stack() {
    let mut nodes: NodeMap<u32> = NodeMap::with_max_allocs(3);
    let mut node = Node::empty();
    node.data_offset = 5;
    nodes.set(2, node);
    assert_eq!(nodes.get(2).data_offset, 5);
    assert_eq!(nodes.get(0).data_offset, 0);
    let mut stack: FreeNodeStack<u32> = FreeNodeStack::with_max_allocs(3);
    assert_eq!(stack.pop_required(), 0);
    assert_eq!(stack.pop_required(), 1);
    stack.push(0);
    assert_eq!(stack.pop_required(), 0);
    assert_eq!(stack.pop_required(), 2);
    assert!(stack.is_exhausted());
}

#[test]
fn defaults() {
    let o: NodeIndexOption<u32> = Default::default();
    assert!(o.is_none());
    assert_eq!(u16::from(NonMaxU16::default()), 0);
    assert_eq!(u32::from(NonMaxU32::default()), 0);
    let n: Node<u16> = Default::default();
    assert_eq!(n.data_size, 0);
    assert!(n.bin_list_next.is_none());
    assert!(!n.used);
    let map: BinsMap<u16> = Default::default();
    assert!(map.max_occupied().is_none());
}
