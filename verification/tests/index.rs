use orderly_allocator::{FreeIndex, FreeRegion};

fn region(location: u32, size: u32) -> FreeRegion {
    FreeRegion { location, size }
}

/// Regions of the sizes 1 to 40, 100 locations apart, inserted out of order.
fn forty_regions() -> FreeIndex {
    let mut index = FreeIndex::new();
    let mut step: u32 = 0;
    while step < 40 {
        let slot = (step * 17) % 40;
        index.insert_free_region(slot * 100, slot + 1);
        step += 1;
    }
    index
}

#[test]
fn new_index_holds_nothing() {
    let index = FreeIndex::new();
    assert_eq!(index.find_free_region(0), None);
    assert_eq!(index.find_free_region(1), None);
    assert_eq!(index.largest_free_region(), None);
    assert_eq!(index.previous_free_region(u32::MAX), None);
    assert_eq!(index.following_free_region(0), None);
    assert_eq!(index.regions_in_order(), vec![]);
}

#[test]
fn insert_is_seen_in_both_orders() {
    let mut index = FreeIndex::new();
    index.insert_free_region(40, 7);
    assert_eq!(index.find_free_region(7), Some(region(40, 7)));
    assert_eq!(index.find_free_region(8), None);
    assert_eq!(index.previous_free_region(41), Some(region(40, 7)));
    assert_eq!(index.previous_free_region(40), None);
    assert_eq!(index.following_free_region(39), Some(region(40, 7)));
    assert_eq!(index.following_free_region(40), None);
    assert_eq!(index.largest_free_region(), Some(region(40, 7)));
    assert_eq!(index.regions_in_order(), vec![region(40, 7)]);
}

#[test]
fn remove_takes_the_region_out_of_both_orders() {
    let mut index = FreeIndex::new();
    index.insert_free_region(40, 7);
    index.insert_free_region(90, 3);
    index.remove_free_region(40, 7);
    assert_eq!(index.find_free_region(4), None);
    assert_eq!(index.find_free_region(1), Some(region(90, 3)));
    assert_eq!(index.previous_free_region(90), None);
    assert_eq!(index.following_free_region(0), Some(region(90, 3)));
    assert_eq!(index.largest_free_region(), Some(region(90, 3)));
    assert_eq!(index.regions_in_order(), vec![region(90, 3)]);
}

#[test]
fn clear_empties_the_index() {
    let mut index = forty_regions();
    index.clear();
    assert_eq!(index.regions_in_order(), vec![]);
    assert_eq!(index.find_free_region(1), None);
    assert_eq!(index.previous_free_region(u32::MAX), None);
    assert_eq!(index.following_free_region(0), None);
    index.insert_free_region(5, 5);
    assert_eq!(index.regions_in_order(), vec![region(5, 5)]);
}

#[test]
fn find_takes_the_smallest_region_that_fits() {
    let index = forty_regions();
    let mut size: u32 = 1;
    while size <= 40 {
        assert_eq!(index.find_free_region(size), Some(region((size - 1) * 100, size)));
        size += 1;
    }
    assert_eq!(index.find_free_region(0), Some(region(0, 1)));
    assert_eq!(index.find_free_region(41), None);
    assert_eq!(index.find_free_region(u32::MAX), None);
}

#[test]
fn find_takes_the_lowest_of_equal_regions() {
    let mut index = FreeIndex::new();
    index.insert_free_region(700, 10);
    index.insert_free_region(300, 10);
    index.insert_free_region(500, 10);
    index.insert_free_region(100, 9);
    index.insert_free_region(0, 11);
    assert_eq!(index.find_free_region(10), Some(region(300, 10)));
    assert_eq!(index.find_free_region(9), Some(region(100, 9)));
    assert_eq!(index.find_free_region(11), Some(region(0, 11)));
    assert_eq!(index.largest_free_region(), Some(region(0, 11)));
    index.remove_free_region(0, 11);
    assert_eq!(index.largest_free_region(), Some(region(700, 10)));
}

#[test]
fn neighbours_are_the_nearest_regions() {
    let index = forty_regions();
    let mut slot: u32 = 0;
    while slot < 40 {
        let at = slot * 100;
        let before = if slot == 0 { None } else { Some(region(at - 100, slot)) };
        let after = if slot == 39 { None } else { Some(region(at + 100, slot + 2)) };
        assert_eq!(index.previous_free_region(at), before);
        assert_eq!(index.following_free_region(at), after);
        assert_eq!(index.previous_free_region(at + 50), Some(region(at, slot + 1)));
        assert_eq!(index.following_free_region(at + 50), after);
        slot += 1;
    }
    assert_eq!(index.previous_free_region(0), None);
    assert_eq!(index.previous_free_region(u32::MAX), Some(region(3900, 40)));
    assert_eq!(index.following_free_region(u32::MAX), None);
    assert_eq!(index.following_free_region(3900), None);
}

#[test]
fn regions_come_out_ordered_by_size_then_location() {
    let mut index = FreeIndex::new();
    index.insert_free_region(700, 10);
    index.insert_free_region(300, 10);
    index.insert_free_region(100, 90);
    index.insert_free_region(0, 11);
    index.insert_free_region(900, 1);
    assert_eq!(
        index.regions_in_order(),
        vec![region(900, 1), region(300, 10), region(700, 10), region(0, 11), region(100, 90)]
    );
    let all = forty_regions().regions_in_order();
    assert_eq!(all.len(), 40);
    let mut i = 0;
    while i < 40 {
        assert_eq!(all[i], region(i as u32 * 100, i as u32 + 1));
        i += 1;
    }
}

#[test]
fn carve_leaves_what_is_not_taken() {
    let mut index = FreeIndex::new();
    index.insert_free_region(100, 50);
    index.carve(region(100, 50), 4, 16);
    assert_eq!(index.regions_in_order(), vec![region(100, 4), region(120, 30)]);

    let mut index = FreeIndex::new();
    index.insert_free_region(100, 50);
    index.carve(region(100, 50), 0, 16);
    assert_eq!(index.regions_in_order(), vec![region(116, 34)]);

    let mut index = FreeIndex::new();
    index.insert_free_region(100, 50);
    index.carve(region(100, 50), 34, 16);
    assert_eq!(index.regions_in_order(), vec![region(100, 34)]);

    let mut index = FreeIndex::new();
    index.insert_free_region(100, 50);
    index.carve(region(100, 50), 0, 50);
    assert_eq!(index.regions_in_order(), vec![]);
}

#[test]
fn release_merges_with_the_regions_it_touches() {
    // nothing to merge with
    let mut index = FreeIndex::new();
    index.insert_free_region(0, 10);
    index.insert_free_region(90, 10);
    index.release(40, 20);
    assert_eq!(
        index.regions_in_order(),
        vec![region(0, 10), region(90, 10), region(40, 20)]
    );
    // the region in front
    index.release(10, 5);
    assert_eq!(
        index.regions_in_order(),
        vec![region(90, 10), region(0, 15), region(40, 20)]
    );
    // the region behind
    index.release(80, 10);
    assert_eq!(
        index.regions_in_order(),
        vec![region(0, 15), region(40, 20), region(80, 20)]
    );
    // both
    index.release(60, 20);
    assert_eq!(index.regions_in_order(), vec![region(0, 15), region(40, 60)]);
    index.release(15, 25);
    assert_eq!(index.regions_in_order(), vec![region(0, 100)]);
}

#[test]
fn release_reaches_the_last_location() {
    let mut index = FreeIndex::new();
    index.release(u32::MAX - 10, 10);
    assert_eq!(index.regions_in_order(), vec![region(u32::MAX - 10, 10)]);
    index.release(0, u32::MAX - 10);
    assert_eq!(index.regions_in_order(), vec![region(0, u32::MAX)]);
    assert_eq!(index.find_free_region(u32::MAX), Some(region(0, u32::MAX)));
}

#[test]
fn regions_are_ordered_by_size_first() {
    let small = region(500, 3);
    let large = region(10, 4);
    let later = region(600, 3);
    assert!(small < large);
    assert!(large > later);
    assert!(small < later);
    assert!(!(small < small));
    assert_eq!(small.partial_cmp(&small), Some(std::cmp::Ordering::Equal));
    assert_eq!(small.partial_cmp(&large), Some(std::cmp::Ordering::Less));
    assert_eq!(later.partial_cmp(&small), Some(std::cmp::Ordering::Greater));
}
