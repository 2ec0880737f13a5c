use offset_allocator::allocator::{Allocation, Allocator};

const SPACE: u32 = 1024 * 1024 * 256;

#[test]
fn basic_allocate_and_free() {
    let mut allocator: Allocator = Allocator::new(SPACE);
    let a = allocator.allocate(1337).unwrap();
    assert_eq!(a.offset, 0);
    assert_eq!(allocator.allocation_size(a), 1337);
    allocator.free(a);
    let report = allocator.storage_report();
    assert_eq!(report.total_free_space, SPACE);
    assert_eq!(report.largest_free_region, SPACE);
}

fn validate_all(allocator: &mut Allocator) {
    let all = allocator.allocate(SPACE).unwrap();
    assert_eq!(all.offset, 0);
    allocator.free(all);
}

#[test]
fn allocate_in_order() {
    let mut allocator: Allocator = Allocator::new(SPACE);
    let a = allocator.allocate(0).unwrap();
    assert_eq!(a.offset, 0);
    let b = allocator.allocate(1).unwrap();
    assert_eq!(b.offset, 0);
    let c = allocator.allocate(123).unwrap();
    assert_eq!(c.offset, 1);
    let d = allocator.allocate(1234).unwrap();
    assert_eq!(d.offset, 124);
    allocator.free(a);
    allocator.free(b);
    allocator.free(c);
    allocator.free(d);
    validate_all(&mut allocator);
}

#[test]
fn merge_trivial() {
    let mut allocator: Allocator = Allocator::new(SPACE);
    let a = allocator.allocate(1337).unwrap();
    assert_eq!(a.offset, 0);
    allocator.free(a);
    let b = allocator.allocate(1337).unwrap();
    assert_eq!(b.offset, 0);
    allocator.free(b);
    validate_all(&mut allocator);
}

#[test]
fn reuse_trivial() {
    let mut allocator: Allocator = Allocator::new(SPACE);
    let a = allocator.allocate(1024).unwrap();
    assert_eq!(a.offset, 0);
    let b = allocator.allocate(3456).unwrap();
    assert_eq!(b.offset, 1024);
    allocator.free(a);
    let c = allocator.allocate(1024).unwrap();
    assert_eq!(c.offset, 0);
    allocator.free(c);
    allocator.free(b);
    validate_all(&mut allocator);
}

#[test]
fn reuse_complex() {
    let mut allocator: Allocator = Allocator::new(SPACE);
    let a = allocator.allocate(1024).unwrap();
    assert_eq!(a.offset, 0);
    let b = allocator.allocate(3456).unwrap();
    assert_eq!(b.offset, 1024);
    allocator.free(a);
    let c = allocator.allocate(2345).unwrap();
    assert_eq!(c.offset, 1024 + 3456);
    let d = allocator.allocate(456).unwrap();
    assert_eq!(d.offset, 0);
    let e = allocator.allocate(512).unwrap();
    assert_eq!(e.offset, 456);
    let report = allocator.storage_report();
    assert_eq!(report.total_free_space, SPACE - 3456 - 2345 - 456 - 512);
    assert!(report.largest_free_region <= report.total_free_space);
    allocator.free(c);
    allocator.free(d);
    allocator.free(b);
    allocator.free(e);
    validate_all(&mut allocator);
}

#[test]
fn zero_fragmentation() {
    let mut allocator: Allocator = Allocator::new(SPACE);
    let mut allocations: Vec<Allocation> = Vec::new();
    for i in 0..256u32 {
        let a = allocator.allocate(1024 * 1024).unwrap();
        assert_eq!(a.offset, i * 1024 * 1024);
        allocations.push(a);
    }
    let report = allocator.storage_report();
    assert_eq!(report.total_free_space, 0);
    assert_eq!(report.largest_free_region, 0);
    assert!(allocator.allocate(1).is_none());
    for i in [243usize, 5, 123, 95] {
        allocator.free(allocations[i]);
    }
    for (i, a) in allocations.iter().enumerate() {
        if ![243usize, 5, 123, 95].contains(&i) {
            allocator.free(*a);
        }
    }
    validate_all(&mut allocator);
}

#[test]
fn allocation_size_is_requested_size() {
    let mut allocator: Allocator = Allocator::new(1000);
    let a = allocator.allocate(17).unwrap();
    let b = allocator.allocate(100).unwrap();
    assert_eq!(allocator.allocation_size(a), 17);
    assert_eq!(allocator.allocation_size(b), 100);
    assert_eq!(b.offset, 17);
}

#[test]
fn storage_report_after_allocation() {
    let mut allocator: Allocator = Allocator::new(SPACE);
    let _a = allocator.allocate(1337).unwrap();
    let report = allocator.storage_report();
    assert_eq!(report.total_free_space, SPACE - 1337);
    // The remaining region rounds down to 15 * 2^24.
    assert_eq!(report.largest_free_region, 251658240);
}

#[test]
fn too_large_request_fails() {
    let mut allocator: Allocator = Allocator::new(1000);
    assert!(allocator.allocate(5000).is_none());
    // 1000 rounds down to 960, so a request above that is refused too.
    assert!(allocator.allocate(1000).is_none());
    let a = allocator.allocate(960).unwrap();
    assert_eq!(a.offset, 0);
}

#[test]
fn out_of_nodes() {
    let mut allocator: Allocator = Allocator::with_max_allocs(1000, 2);
    let a = allocator.allocate(100).unwrap();
    assert_eq!(a.offset, 0);
    assert!(allocator.allocate(10).is_none());
    let report = allocator.storage_report();
    assert_eq!(report.total_free_space, 0);
    assert_eq!(report.largest_free_region, 0);
    allocator.free(a);
    let report = allocator.storage_report();
    assert_eq!(report.total_free_space, 1000);
    assert_eq!(report.largest_free_region, 960);
}

#[test]
fn single_node_never_allocates() {
    let mut allocator: Allocator = Allocator::with_max_allocs(1000, 1);
    assert!(allocator.allocate(1).is_none());
    assert!(allocator.allocate(0).is_none());
}

#[test]
fn reset_clears_allocations() {
    let mut allocator: Allocator = Allocator::with_max_allocs(4096, 16);
    let _a = allocator.allocate(100).unwrap();
    let _b = allocator.allocate(200).unwrap();
    allocator.reset();
    let report = allocator.storage_report();
    assert_eq!(report.total_free_space, 4096);
    assert_eq!(report.largest_free_region, 4096);
    let c = allocator.allocate(4096).unwrap();
    assert_eq!(c.offset, 0);
}

#[test]
fn u16_indices() {
    let mut allocator: Allocator<u16> = Allocator::with_max_allocs(1 << 20, 1000);
    let a = allocator.allocate(300).unwrap();
    let b = allocator.allocate(300).unwrap();
    assert_eq!(a.offset, 0);
    assert_eq!(b.offset, 300);
    allocator.free(a);
    allocator.free(b);
    let report = allocator.storage_report();
    assert_eq!(report.total_free_space, 1 << 20);
}

#[test]
fn free_merges_with_both_neighbours() {
    let mut allocator: Allocator = Allocator::with_max_allocs(1024, 8);
    let a = allocator.allocate(100).unwrap();
    let b = allocator.allocate(100).unwrap();
    let c = allocator.allocate(100).unwrap();
    let d = allocator.allocate(100).unwrap();
    allocator.free(a);
    allocator.free(c);
    // b sits between two free regions; freeing it merges all three into a
    // region of 300 units at offset 0, in bin 49 (288 units).
    allocator.free(b);
    let e = allocator.allocate(288).unwrap();
    assert_eq!(e.offset, 0);
    allocator.free(e);
    allocator.free(d);
    let report = allocator.storage_report();
    assert_eq!(report.total_free_space, 1024);
    assert_eq!(report.largest_free_region, 1024);
}

#[test]
fn storage_report_full_counts_bins() {
    let mut allocator: Allocator = Allocator::new(1000);
    let full = allocator.storage_report_full();
    assert_eq!(full.free_regions.len(), 256);
    // 1000 units round down to bin 63, of size 960.
    assert_eq!(full.free_regions[63].count, 1);
    assert_eq!(full.free_regions[63].size, 960);
    let total: u32 = full.free_regions.iter().map(|r| r.count).sum();
    assert_eq!(total, 1);
    assert_eq!(full.free_regions[17].size, 18);
    assert_eq!(full.free_regions[240].size, 0);
    assert_eq!(full.free_regions[241].size, 536870912);
    let _a = allocator.allocate(100).unwrap();
    let full = allocator.storage_report_full();
    // The 900 units left round down to bin 62, of size 896.
    assert_eq!(full.free_regions[62].count, 1);
    assert_eq!(full.free_regions[62].size, 896);
    assert_eq!(full.free_regions[63].count, 0);
}

#[test]
fn largest_free_region_is_allocatable() {
    let mut allocator: Allocator = Allocator::with_max_allocs(100_000, 64);
    let _a = allocator.allocate(1234).unwrap();
    let _b = allocator.allocate(777).unwrap();
    let report = allocator.storage_report();
    assert!(report.largest_free_region > 0);
    assert!(report.largest_free_region <= report.total_free_space);
    let big = allocator.allocate(report.largest_free_region).unwrap();
    assert_eq!(allocator.allocation_size(big), report.largest_free_region);
}

#[test]
fn allocations_do_not_overlap() {
    let mut allocator: Allocator = Allocator::with_max_allocs(10_000, 64);
    let sizes = [10u32, 200, 33, 1, 0, 512, 77];
    let mut spans: Vec<(u32, u32)> = Vec::new();
    for s in sizes {
        let a = allocator.allocate(s).unwrap();
        assert!(a.offset + s <= 10_000);
        spans.push((a.offset, s));
    }
    for (i, &(o1, s1)) in spans.iter().enumerate() {
        for &(o2, s2) in spans.iter().skip(i + 1) {
            assert!(o1 + s1 <= o2 || o2 + s2 <= o1);
        }
    }
}

#[test]
fn new_with_u16_indices() {
    let mut allocator: Allocator<u16> = Allocator::new(1024);
    let report = allocator.storage_report();
    assert_eq!(report.total_free_space, 1024);
    assert_eq!(report.largest_free_region, 1024);
    let a = allocator.allocate(1024).unwrap();
    assert_eq!(a.offset(), 0);
}

#[test]
fn freeing_the_middle_merges_everything() {
    let mut a: Allocator = Allocator::new(1024);
    let x = a.allocate(100).unwrap();
    let y = a.allocate(200).unwrap();
    let z = a.allocate(300).unwrap();
    assert_eq!((x.offset(), y.offset(), z.offset()), (0, 100, 300));
    a.free(x);
    a.free(z);
    a.free(y);
    let report = a.storage_report();
    assert_eq!(report.total_free_space, 1024);
    assert_eq!(report.largest_free_region, 1024);
    let all = a.allocate(1024).unwrap();
    assert_eq!(all.offset(), 0);
}

#[test]
fn nothing_above_the_largest_free_region_fits() {
    let mut allocator: Allocator = Allocator::with_max_allocs(100_000, 64);
    let _a = allocator.allocate(1234).unwrap();
    let largest = allocator.storage_report().largest_free_region;
    assert_eq!(largest, 98304);
    assert!(allocator.allocate(largest + 1).is_none());
    assert!(allocator.allocate(largest).is_some());
}

#[test]
fn allocation_size_survives_other_calls() {
    let mut allocator: Allocator = Allocator::with_max_allocs(10_000, 16);
    let a = allocator.allocate(100).unwrap();
    let b = allocator.allocate(37).unwrap();
    let c = allocator.allocate(500).unwrap();
    allocator.free(b);
    let _d = allocator.allocate(20).unwrap();
    assert_eq!(allocator.allocation_size(a), 100);
    assert_eq!(allocator.allocation_size(c), 500);
    assert_eq!(a.offset(), 0);
    assert_eq!(c.offset(), 137);
}

#[test]
fn u16_largest_node_count() {
    // The largest count accepted with u16 indices: the maximum minus two.
    let mut allocator: Allocator<u16> = Allocator::with_max_allocs(1000, 65533);
    let a = allocator.allocate(10).unwrap();
    assert_eq!(a.offset(), 0);
    assert_eq!(allocator.allocation_size(a), 10);
}
