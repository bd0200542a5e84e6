use orderly_allocator::{Allocation, Allocator, NonZeroSize, ReallocateError};

fn free_list(allocator: &Allocator) -> Vec<(u32, u32)> {
    allocator
        .report_free_regions()
        .iter()
        .map(|region| (region.offset(), region.size()))
        .collect()
}

#[test]
fn nonzero_size_holds_its_value() {
    assert!(NonZeroSize::new(0).is_none());
    assert_eq!(NonZeroSize::new(1).unwrap().get(), 1);
    assert_eq!(NonZeroSize::new(77).unwrap().get(), 77);
    assert_eq!(NonZeroSize::new(u32::MAX).unwrap().get(), u32::MAX);
    assert_eq!(NonZeroSize::new(5), NonZeroSize::new(5));
    assert_ne!(NonZeroSize::new(5), NonZeroSize::new(6));
}

#[test]
fn allocation_gives_its_range() {
    let allocation = Allocation { offset: 25, size: NonZeroSize::new(4).unwrap() };
    assert_eq!(allocation.offset(), 25);
    assert_eq!(allocation.size(), 4);
    assert_eq!(allocation.range(), 25..29);
    let buffer: Vec<usize> = (0..100).collect();
    assert_eq!(&buffer[allocation.range()], &[25, 26, 27, 28]);
}

#[test]
fn new_allocator_is_one_free_region() {
    let allocator = Allocator::new(10_000_000);
    assert_eq!(allocator.capacity(), 10_000_000);
    assert_eq!(allocator.total_available(), 10_000_000);
    assert_eq!(allocator.largest_available(), 10_000_000);
    assert!(allocator.is_empty());
    assert_eq!(free_list(&allocator), vec![(0, 10_000_000)]);
}

#[test]
fn smallest_and_largest_capacity() {
    let mut allocator = Allocator::new(1);
    let a = allocator.allocate(1).unwrap();
    assert_eq!((a.offset(), a.size()), (0, 1));
    assert_eq!(allocator.largest_available(), 0);
    assert_eq!(allocator.total_available(), 0);
    assert!(allocator.allocate(1).is_none());
    allocator.free(a);
    assert_eq!(free_list(&allocator), vec![(0, 1)]);

    let mut allocator = Allocator::new(u32::MAX);
    let all = allocator.allocate(u32::MAX).unwrap();
    assert_eq!((all.offset(), all.size()), (0, u32::MAX));
    assert_eq!(allocator.total_available(), 0);
    allocator.free(all);
    assert_eq!(allocator.largest_available(), u32::MAX);
}

#[test]
fn first_allocation_is_at_the_start() {
    let mut allocator = Allocator::new(10_000_000);
    let a = allocator.allocate(1_000).unwrap();
    assert_eq!(a.offset(), 0);
    assert_eq!(a.size(), 1_000);
    assert!(!allocator.is_empty());
    assert_eq!(allocator.total_available(), 10_000_000 - 1_000);
    assert_eq!(allocator.largest_available(), 10_000_000 - 1_000);
    allocator.free(a);
    assert!(allocator.is_empty());
    assert_eq!(allocator.total_available(), 10_000_000);
    assert_eq!(allocator.largest_available(), 10_000_000);
}

#[test]
fn allocations_follow_each_other() {
    let mut allocator = Allocator::new(10_000_000);
    let large = allocator.allocate(5_000_000).unwrap();
    let small = allocator.allocate(3_000).unwrap();
    let medium = allocator.allocate(50_000).unwrap();
    assert_eq!(large.offset(), 0);
    assert_eq!(small.offset(), 5_000_000);
    assert_eq!(medium.offset(), 5_003_000);
    assert_eq!(free_list(&allocator), vec![(5_053_000, 4_947_000)]);
    allocator.free(small);
    assert_eq!(allocator.total_available(), 4_950_000);
    assert_eq!(allocator.largest_available(), 4_947_000);
    assert_eq!(free_list(&allocator), vec![(5_000_000, 3_000), (5_053_000, 4_947_000)]);
    allocator.free(large);
    assert_eq!(allocator.largest_available(), 5_003_000);
    assert_eq!(free_list(&allocator), vec![(5_053_000, 4_947_000), (0, 5_003_000)]);
    allocator.free(medium);
    assert_eq!(free_list(&allocator), vec![(0, 10_000_000)]);
}

#[test]
fn requests_that_cannot_be_met_change_nothing() {
    let mut allocator = Allocator::new(1_000);
    let a = allocator.allocate(600).unwrap();
    let before = free_list(&allocator);
    assert!(allocator.allocate(0).is_none());
    assert!(allocator.alloc_with_align(0, 8).is_none());
    assert!(allocator.alloc_with_align(10, 0).is_none());
    assert!(allocator.alloc_with_align(0, 0).is_none());
    assert!(allocator.allocate(401).is_none());
    assert!(allocator.allocate(u32::MAX).is_none());
    assert!(allocator.alloc_with_align(u32::MAX, 2).is_none());
    assert!(allocator.alloc_with_align(2, u32::MAX).is_none());
    assert!(allocator.alloc_with_align(u32::MAX, u32::MAX).is_none());
    assert_eq!(free_list(&allocator), before);
    assert_eq!(allocator.total_available(), 400);
    // the whole of what is left can still be had
    let b = allocator.allocate(400).unwrap();
    assert_eq!(b.offset(), 600);
    assert!(allocator.allocate(1).is_none());
    allocator.free(a);
    allocator.free(b);
    assert_eq!(free_list(&allocator), vec![(0, 1_000)]);
}

#[test]
fn best_fit_is_the_smallest_region_that_fits() {
    let mut allocator = Allocator::new(1_000);
    let a = allocator.allocate(100).unwrap();
    let _b = allocator.allocate(10).unwrap();
    let c = allocator.allocate(50).unwrap();
    let _d = allocator.allocate(10).unwrap();
    let e = allocator.allocate(50).unwrap();
    let _f = allocator.allocate(10).unwrap();
    allocator.free(a);
    allocator.free(c);
    allocator.free(e);
    // free: 100 at 0, 50 at 110, 50 at 170, 770 at 230
    assert_eq!(free_list(&allocator), vec![(110, 50), (170, 50), (0, 100), (230, 770)]);
    assert_eq!(allocator.allocate(40).unwrap().offset(), 110);
    assert_eq!(allocator.allocate(50).unwrap().offset(), 170);
    assert_eq!(allocator.allocate(60).unwrap().offset(), 0);
    assert_eq!(allocator.allocate(101).unwrap().offset(), 230);
    assert_eq!(free_list(&allocator), vec![(150, 10), (60, 40), (331, 669)]);
}

#[test]
fn aligned_allocation_leaves_padding_free() {
    let mut allocator = Allocator::new(1_000);
    let a = allocator.allocate(3).unwrap();
    let b = allocator.alloc_with_align(10, 8).unwrap();
    assert_eq!(a.offset(), 0);
    assert_eq!(b.offset(), 8);
    assert_eq!(b.size(), 10);
    assert_eq!(free_list(&allocator), vec![(3, 5), (18, 982)]);
    assert_eq!(allocator.total_available(), 987);
    // no power of two
    let c = allocator.alloc_with_align(7, 12).unwrap();
    assert_eq!(c.offset(), 24);
    assert_eq!(free_list(&allocator), vec![(3, 5), (18, 6), (31, 969)]);
    // a region that is aligned already gives no padding
    let d = allocator.alloc_with_align(1, 31).unwrap();
    assert_eq!(d.offset(), 31);
    assert_eq!(free_list(&allocator), vec![(3, 5), (18, 6), (32, 968)]);
}

#[test]
fn aligned_allocation_asks_for_more_than_it_takes() {
    let mut allocator = Allocator::new(64);
    let a = allocator.allocate(8).unwrap();
    let b = allocator.allocate(16).unwrap();
    let _c = allocator.allocate(40).unwrap();
    allocator.free(b);
    // 16 locations at 8 are free and aligned to 8, but 16 + 8 - 1 are asked for
    assert!(allocator.alloc_with_align(16, 8).is_none());
    assert_eq!(allocator.alloc_with_align(9, 8).unwrap().offset(), 8);
    allocator.free(a);
    assert_eq!(free_list(&allocator), vec![(17, 7), (0, 8)]);
}

#[test]
fn reset_frees_everything() {
    let mut allocator = Allocator::new(10_000);
    let _a = allocator.allocate(5_000).unwrap();
    let b = allocator.alloc_with_align(31, 64).unwrap();
    let _c = allocator.allocate(500).unwrap();
    allocator.free(b);
    allocator.reset();
    assert!(allocator.is_empty());
    assert_eq!(allocator.capacity(), 10_000);
    assert_eq!(allocator.total_available(), 10_000);
    assert_eq!(allocator.largest_available(), 10_000);
    assert_eq!(free_list(&allocator), vec![(0, 10_000)]);
    assert_eq!(allocator.allocate(10_000).unwrap().offset(), 0);
}

#[test]
fn growing_by_nothing_changes_nothing() {
    let mut allocator = Allocator::new(1_000);
    let _a = allocator.allocate(100).unwrap();
    assert!(allocator.grow_capacity(0).is_ok());
    assert_eq!(allocator.capacity(), 1_000);
    assert_eq!(allocator.total_available(), 900);
    assert_eq!(free_list(&allocator), vec![(100, 900)]);
    let mut full = Allocator::new(u32::MAX);
    assert!(full.grow_capacity(0).is_ok());
    assert_eq!(full.capacity(), u32::MAX);
}

#[test]
fn growing_adds_to_the_last_free_region() {
    let mut allocator = Allocator::new(1_000);
    let _a = allocator.allocate(100).unwrap();
    allocator.grow_capacity(500).unwrap();
    assert_eq!(allocator.capacity(), 1_500);
    assert_eq!(allocator.total_available(), 1_400);
    assert_eq!(allocator.largest_available(), 1_400);
    assert_eq!(free_list(&allocator), vec![(100, 1_400)]);
}

#[test]
fn growing_a_full_pool_adds_a_region() {
    let mut allocator = Allocator::new(1_000);
    let a = allocator.allocate(400).unwrap();
    let _b = allocator.allocate(600).unwrap();
    allocator.free(a);
    allocator.grow_capacity(24).unwrap();
    assert_eq!(allocator.capacity(), 1_024);
    assert_eq!(allocator.total_available(), 424);
    assert_eq!(allocator.largest_available(), 400);
    assert_eq!(free_list(&allocator), vec![(1_000, 24), (0, 400)]);
}

#[test]
fn growing_too_far_is_an_overflow() {
    let mut allocator = Allocator::new(u32::MAX - 10);
    let _a = allocator.allocate(100).unwrap();
    let error = allocator.grow_capacity(11).unwrap_err();
    assert_eq!(error.current_capacity.get(), u32::MAX - 10);
    assert_eq!(error.additional.get(), 11);
    assert_eq!(allocator.capacity(), u32::MAX - 10);
    assert_eq!(allocator.total_available(), u32::MAX - 110);
    assert_eq!(free_list(&allocator), vec![(100, u32::MAX - 110)]);
    let error = allocator.grow_capacity(u32::MAX).unwrap_err();
    assert_eq!(error.additional.get(), u32::MAX);
    assert!(allocator.grow_capacity(10).is_ok());
    assert_eq!(allocator.capacity(), u32::MAX);
    assert_eq!(allocator.total_available(), u32::MAX - 100);
    assert!(allocator.grow_capacity(1).is_err());
}

#[test]
fn reallocating_to_the_same_size_changes_nothing() {
    let mut allocator = Allocator::new(1_000);
    let a = allocator.allocate(100).unwrap();
    let _b = allocator.allocate(100).unwrap();
    let same = allocator.try_reallocate(a, 100).unwrap();
    assert_eq!(same, a);
    assert_eq!(allocator.total_available(), 800);
    assert_eq!(free_list(&allocator), vec![(200, 800)]);
}

#[test]
fn reallocating_to_nothing_is_invalid() {
    let mut allocator = Allocator::new(1_000);
    let a = allocator.allocate(100).unwrap();
    assert!(matches!(allocator.try_reallocate(a, 0), Err(ReallocateError::Invalid)));
    assert_eq!(allocator.total_available(), 900);
    assert_eq!(free_list(&allocator), vec![(100, 900)]);
}

#[test]
fn growing_into_an_allocation_fails() {
    let mut allocator = Allocator::new(1_000);
    let a = allocator.allocate(100).unwrap();
    let _b = allocator.allocate(100).unwrap();
    match allocator.try_reallocate(a, 130) {
        Err(ReallocateError::InsufficientSpace { required_additional, available }) => {
            assert_eq!(required_additional.get(), 30);
            assert_eq!(available, 0);
        }
        other => panic!("{:?}", other),
    }
    assert_eq!(free_list(&allocator), vec![(200, 800)]);
    assert_eq!(allocator.total_available(), 800);
}

#[test]
fn growing_at_the_end_of_a_full_pool_fails() {
    let mut allocator = Allocator::new(1_000);
    let a = allocator.allocate(1_000).unwrap();
    match allocator.try_reallocate(a, 1_001) {
        Err(ReallocateError::InsufficientSpace { required_additional, available }) => {
            assert_eq!(required_additional.get(), 1);
            assert_eq!(available, 0);
        }
        other => panic!("{:?}", other),
    }
    assert_eq!(allocator.total_available(), 0);
    assert_eq!(free_list(&allocator), vec![]);
}

#[test]
fn growing_past_the_next_region_fails() {
    let mut allocator = Allocator::new(1_000);
    let a = allocator.allocate(100).unwrap();
    let b = allocator.allocate(50).unwrap();
    let _c = allocator.allocate(100).unwrap();
    allocator.free(b);
    match allocator.try_reallocate(a, 151) {
        Err(ReallocateError::InsufficientSpace { required_additional, available }) => {
            assert_eq!(required_additional.get(), 51);
            assert_eq!(available, 50);
        }
        other => panic!("{:?}", other),
    }
    assert_eq!(free_list(&allocator), vec![(100, 50), (250, 750)]);
    assert_eq!(allocator.total_available(), 800);
}

#[test]
fn growing_takes_from_the_next_region() {
    let mut allocator = Allocator::new(1_000);
    let a = allocator.allocate(100).unwrap();
    let b = allocator.allocate(50).unwrap();
    let _c = allocator.allocate(100).unwrap();
    allocator.free(b);
    let grown = allocator.try_reallocate(a, 120).unwrap();
    assert_eq!((grown.offset(), grown.size()), (0, 120));
    assert_eq!(free_list(&allocator), vec![(120, 30), (250, 750)]);
    assert_eq!(allocator.total_available(), 780);
    // all of the region
    let grown = allocator.try_reallocate(grown, 150).unwrap();
    assert_eq!((grown.offset(), grown.size()), (0, 150));
    assert_eq!(free_list(&allocator), vec![(250, 750)]);
    assert_eq!(allocator.total_available(), 750);
}

#[test]
fn shrinking_frees_the_tail() {
    let mut allocator = Allocator::new(1_000);
    let a = allocator.allocate(100).unwrap();
    let b = allocator.allocate(100).unwrap();
    let shrunk = allocator.try_reallocate(a, 60).unwrap();
    assert_eq!((shrunk.offset(), shrunk.size()), (0, 60));
    assert_eq!(free_list(&allocator), vec![(60, 40), (200, 800)]);
    assert_eq!(allocator.total_available(), 840);
    // the tail joins the free region behind it
    let shrunk = allocator.try_reallocate(b, 1).unwrap();
    assert_eq!((shrunk.offset(), shrunk.size()), (100, 1));
    assert_eq!(free_list(&allocator), vec![(60, 40), (101, 899)]);
    assert_eq!(allocator.total_available(), 939);
}

#[test]
fn free_regions_are_reported_by_size() {
    let mut allocator = Allocator::new(1_000);
    let a = allocator.allocate(30).unwrap();
    let _b = allocator.allocate(1).unwrap();
    let c = allocator.allocate(20).unwrap();
    let _d = allocator.allocate(1).unwrap();
    let e = allocator.allocate(20).unwrap();
    let _f = allocator.allocate(1).unwrap();
    allocator.free(e);
    allocator.free(a);
    allocator.free(c);
    let report = allocator.report_free_regions();
    assert_eq!(
        report.iter().map(|r| (r.offset(), r.size())).collect::<Vec<_>>(),
        vec![(31, 20), (52, 20), (0, 30), (73, 927)]
    );
    // reporting takes nothing
    assert_eq!(allocator.total_available(), 997);
    assert_eq!(allocator.report_free_regions(), report);
}
