//! The index of the free regions.
//!
//! The regions are held twice: in pairs of size and location, ordered by
//! size first, to find the best fit for a request; and by location, to find
//! the neighbours of a range that is released.
use crate::btree::{
    is_first_key_from, is_first_pair_from, is_last_key_before, location_map_address_of,
    location_map_clear, location_map_entries, location_map_insert, location_map_item,
    location_map_new, location_map_normalize, location_map_previous_item_address,
    location_map_remove, pair_le, size_index_address_of, size_index_clear, size_index_in_order,
    size_index_insert, size_index_item, size_index_last, size_index_new, size_index_normalize,
    size_index_pairs, size_index_remove, LocationMap, SizeIndex,
};
use crate::pool::{
    carve, clear_of, ends_at, is_best_fit, is_largest, region_fits, release, run_end, run_start,
    separated, within,
};
use crate::region::FreeRegion;
use crate::steps::lemma_run_start;
use vstd::prelude::*;

verus! {

/// The free regions of a pool, ordered by size and by location.
pub struct FreeIndex {
    by_size: SizeIndex,
    by_location: LocationMap,
}

/// The location map has a region of `size` locations at `location`.
spec fn has_region(entries: Map<u32, u32>, location: u32, size: u32) -> bool {
    entries.dom().contains(location) && entries[location] == size
}

/// The least pair of the index that is not below `pair`, or `None` if every
/// pair of the index is below it.
fn size_index_first_at_or_after(index: &SizeIndex, pair: (u32, u32)) -> (first: Option<(u32, u32)>)
    ensures
        is_first_pair_from(size_index_pairs(*index), pair, first),
{
    let at = size_index_address_of(index, pair);
    match size_index_normalize(index, at) {
        Some(next) => size_index_item(index, next),
        None => None,
    }
}

/// The entry with the least key that is not below `key`, or `None` if every
/// key of the map is below it.
fn location_map_first_at_or_after(map: &LocationMap, key: u32) -> (first: Option<(u32, u32)>)
    ensures
        first.is_some() ==> location_map_entries(*map).contains_pair(first.unwrap().0, first.unwrap().1),
        is_first_key_from(
            location_map_entries(*map),
            key,
            match first {
                Some(entry) => Some(entry.0),
                None => None,
            },
        ),
{
    let at = location_map_address_of(map, key);
    match location_map_normalize(map, at) {
        Some(next) => location_map_item(map, next),
        None => None,
    }
}

/// The entry with the greatest key below `key`, or `None` if no key of the
/// map is below it.
fn location_map_last_before(map: &LocationMap, key: u32) -> (last: Option<(u32, u32)>)
    ensures
        last.is_some() ==> location_map_entries(*map).contains_pair(last.unwrap().0, last.unwrap().1),
        is_last_key_before(
            location_map_entries(*map),
            key,
            match last {
                Some(entry) => Some(entry.0),
                None => None,
            },
        ),
{
    let at = location_map_address_of(map, key);
    match location_map_previous_item_address(map, at) {
        Some(previous) => location_map_item(map, previous),
        None => None,
    }
}

/// The regions are in `list`, each once, ordered by size and, where the
/// sizes are equal, by location.
pub open spec fn lists(regions: Map<int, int>, list: Seq<FreeRegion>) -> bool {
    &&& forall|i: int|
        0 <= i < list.len() ==> regions.contains_pair(
            (#[trigger] list[i]).location as int,
            list[i].size as int,
        )
    &&& forall|start: int| #[trigger]
        regions.dom().contains(start) ==> exists|i: int|
            0 <= i < list.len() && (#[trigger] list[i]).location == start
    &&& forall|i: int, j: int|
        #![trigger list[i], list[j]]
        0 <= i < j < list.len() ==> list[i].precedes(&list[j])
}

impl FreeIndex {
    /// The regions of the index: each start with the size of the region.
    pub closed spec fn regions(&self) -> Map<int, int> {
        Map::new(
            |start: int|
                0 <= start <= u32::MAX && location_map_entries(self.by_location).dom().contains(
                    start as u32,
                ),
            |start: int| location_map_entries(self.by_location)[start as u32] as int,
        )
    }

    /// Both orders hold the same regions.
    pub closed spec fn wf(&self) -> bool {
        forall|size: u32, location: u32|
            #![trigger size_index_pairs(self.by_size).contains((size, location))]
            #![trigger has_region(location_map_entries(self.by_location), location, size)]
            size_index_pairs(self.by_size).contains((size, location)) <==> has_region(
                location_map_entries(self.by_location),
                location,
                size,
            )
    }

    /// Every start and every size of the index fits in a `u32`.
    pub proof fn lemma_regions_fit(&self)
        ensures
            forall|start: int| #[trigger]
                self.regions().dom().contains(start) ==> 0 <= start <= u32::MAX && 0
                    <= self.regions()[start] <= u32::MAX,
    {
    }

    /// An index without regions.
    pub fn new() -> (index: FreeIndex)
        ensures
            index.wf(),
            index.regions() =~= Map::empty(),
    {
        FreeIndex { by_size: size_index_new(), by_location: location_map_new() }
    }

    /// Takes every region out of the index.
    pub fn clear(&mut self)
        ensures
            final(self).wf(),
            final(self).regions() =~= Map::empty(),
    {
        size_index_clear(&mut self.by_size);
        location_map_clear(&mut self.by_location);
    }

    /// Puts a region into the index.
    ///
    /// No region may start at `location` yet: a second one there would mean
    /// that a range was released twice.
    pub fn insert_free_region(&mut self, location: u32, size: u32)
        requires
            old(self).wf(),
            !old(self).regions().dom().contains(location as int),
        ensures
            final(self).wf(),
            final(self).regions() == old(self).regions().insert(location as int, size as int),
    {
        let _ = size_index_insert(&mut self.by_size, (size, location));
        let _ = location_map_insert(&mut self.by_location, location, size);
        proof {
            let before = location_map_entries(old(self).by_location);
            let after = location_map_entries(self.by_location);
            assert forall|s: u32, l: u32|
                size_index_pairs(self.by_size).contains((s, l)) <==> has_region(after, l, s) by {
                assert(size_index_pairs(old(self).by_size).contains((s, l)) <==> has_region(
                    before,
                    l,
                    s,
                ));
            }
            assert(self.regions() =~= old(self).regions().insert(location as int, size as int));
        }
    }

    /// Takes a region out of the index. The index must hold it.
    pub fn remove_free_region(&mut self, location: u32, size: u32)
        requires
            old(self).wf(),
            old(self).regions().contains_pair(location as int, size as int),
        ensures
            final(self).wf(),
            final(self).regions() == old(self).regions().remove(location as int),
    {
        let _ = location_map_remove(&mut self.by_location, location);
        let _ = size_index_remove(&mut self.by_size, (size, location));
        proof {
            let before = location_map_entries(old(self).by_location);
            let after = location_map_entries(self.by_location);
            assert forall|s: u32, l: u32|
                size_index_pairs(self.by_size).contains((s, l)) <==> has_region(after, l, s) by {
                assert(size_index_pairs(old(self).by_size).contains((s, l)) <==> has_region(
                    before,
                    l,
                    s,
                ));
            }
            assert(self.regions() =~= old(self).regions().remove(location as int));
        }
    }

    /// The best fit for `size` locations: the smallest region with at least
    /// `size` locations, and among the regions of that size the one at the
    /// lowest location. `None` if every region is smaller.
    pub fn find_free_region(&self, size: u32) -> (found: Option<FreeRegion>)
        requires
            self.wf(),
        ensures
            found.is_some() ==> is_best_fit(
                self.regions(),
                found.unwrap().location as int,
                size as int,
            ) && self.regions()[found.unwrap().location as int] == found.unwrap().size,
            found.is_none() ==> forall|start: int| !region_fits(self.regions(), start, size as int),
    {
        let entries = Ghost(location_map_entries(self.by_location));
        match size_index_first_at_or_after(&self.by_size, (size, 0)) {
            Some(pair) => {
                proof {
                    assert(has_region(entries@, pair.1, pair.0));
                    assert forall|other: int| #[trigger]
                        region_fits(self.regions(), other, size as int) implies pair.0
                        < self.regions()[other] || (pair.0 == self.regions()[other] && pair.1
                        <= other) by {
                        let l = other as u32;
                        let s = entries@[l];
                        assert(has_region(entries@, l, s));
                        assert(size_index_pairs(self.by_size).contains((s, l)));
                        assert(pair_le((size, 0u32), (s, l)));
                    }
                }
                Some(FreeRegion { location: pair.1, size: pair.0 })
            },
            None => {
                proof {
                    assert forall|start: int| !region_fits(self.regions(), start, size as int) by {
                        if region_fits(self.regions(), start, size as int) {
                            let l = start as u32;
                            let s = entries@[l];
                            assert(has_region(entries@, l, s));
                            assert(size_index_pairs(self.by_size).contains((s, l)));
                            assert(pair_le((size, 0u32), (s, l)));
                        }
                    }
                }
                None
            },
        }
    }

    /// The largest region, and among the regions of that size the one at the
    /// highest location. `None` if the index holds no region.
    pub fn largest_free_region(&self) -> (found: Option<FreeRegion>)
        requires
            self.wf(),
        ensures
            found.is_some() ==> is_largest(self.regions(), found.unwrap().location as int)
                && self.regions()[found.unwrap().location as int] == found.unwrap().size,
            found.is_none() ==> self.regions() =~= Map::empty(),
    {
        let entries = Ghost(location_map_entries(self.by_location));
        match size_index_last(&self.by_size) {
            Some(pair) => {
                proof {
                    assert(has_region(entries@, pair.1, pair.0));
                    assert forall|other: int| #[trigger]
                        self.regions().dom().contains(other) implies self.regions()[other] < pair.0
                        || (self.regions()[other] == pair.0 && other <= pair.1) by {
                        let l = other as u32;
                        let s = entries@[l];
                        assert(has_region(entries@, l, s));
                        assert(size_index_pairs(self.by_size).contains((s, l)));
                        assert(pair_le((s, l), pair));
                    }
                }
                Some(FreeRegion { location: pair.1, size: pair.0 })
            },
            None => {
                proof {
                    assert forall|start: int| !self.regions().dom().contains(start) by {
                        if self.regions().dom().contains(start) {
                            let l = start as u32;
                            let s = entries@[l];
                            assert(has_region(entries@, l, s));
                            assert(size_index_pairs(self.by_size).contains((s, l)));
                        }
                    }
                }
                None
            },
        }
    }

    /// The last region that starts before `location`.
    pub fn previous_free_region(&self, location: u32) -> (found: Option<FreeRegion>)
        ensures
            found.is_some() ==> self.regions().contains_pair(
                found.unwrap().location as int,
                found.unwrap().size as int,
            ) && found.unwrap().location < location,
            found.is_some() ==> forall|other: int| #[trigger]
                self.regions().dom().contains(other) && other < location ==> other
                    <= found.unwrap().location,
            found.is_none() ==> forall|other: int| #[trigger]
                self.regions().dom().contains(other) ==> location <= other,
    {
        match location_map_last_before(&self.by_location, location) {
            Some(entry) => {
                proof {
                    assert forall|other: int| #[trigger]
                        self.regions().dom().contains(other) && other < location implies other
                        <= entry.0 by {
                        assert(location_map_entries(self.by_location).dom().contains(other as u32));
                    }
                }
                Some(FreeRegion { location: entry.0, size: entry.1 })
            },
            None => {
                proof {
                    assert forall|other: int| #[trigger]
                        self.regions().dom().contains(other) implies location <= other by {
                        assert(location_map_entries(self.by_location).dom().contains(other as u32));
                    }
                }
                None
            },
        }
    }

    /// The first region that starts after `location`.
    pub fn following_free_region(&self, location: u32) -> (found: Option<FreeRegion>)
        ensures
            found.is_some() ==> self.regions().contains_pair(
                found.unwrap().location as int,
                found.unwrap().size as int,
            ) && location < found.unwrap().location,
            found.is_some() ==> forall|other: int| #[trigger]
                self.regions().dom().contains(other) && location < other
                    ==> found.unwrap().location <= other,
            found.is_none() ==> forall|other: int| #[trigger]
                self.regions().dom().contains(other) ==> other <= location,
    {
        if location == u32::MAX {
            return None;
        }
        match location_map_first_at_or_after(&self.by_location, location + 1) {
            Some(entry) => {
                proof {
                    assert forall|other: int| #[trigger]
                        self.regions().dom().contains(other) && location < other implies entry.0
                        <= other by {
                        assert(location_map_entries(self.by_location).dom().contains(other as u32));
                    }
                }
                Some(FreeRegion { location: entry.0, size: entry.1 })
            },
            None => {
                proof {
                    assert forall|other: int| #[trigger]
                        self.regions().dom().contains(other) implies other <= location by {
                        assert(location_map_entries(self.by_location).dom().contains(other as u32));
                    }
                }
                None
            },
        }
    }

    /// Takes `size` locations out of `region`, `pad` locations behind its
    /// start. What is left of the region in front of them and behind them
    /// stays free.
    pub fn carve(&mut self, region: FreeRegion, pad: u32, size: u32)
        requires
            old(self).wf(),
            within(old(self).regions(), u32::MAX as int),
            separated(old(self).regions()),
            old(self).regions().contains_pair(region.location as int, region.size as int),
            0 < size,
            pad + size <= region.size,
        ensures
            final(self).wf(),
            final(self).regions() == carve(
                old(self).regions(),
                region.location as int,
                pad as int,
                size as int,
            ),
    {
        let ghost before = self.regions();
        self.remove_free_region(region.location, region.size);
        if pad > 0 {
            self.insert_free_region(region.location, pad);
        }
        let rest = region.size - pad - size;
        if rest > 0 {
            let tail = region.location + pad + size;
            assert(!self.regions().dom().contains(tail as int)) by {
                if before.dom().contains(tail as int) {
                    assert(region.location + before[region.location as int] < tail);
                }
            }
            self.insert_free_region(tail, rest);
        }
    }

    /// Releases the range of `size` locations at `offset`: it becomes a free
    /// region, in one with the free region that ends where it starts and
    /// with the one that starts where it ends, if there are such.
    ///
    /// No free region may overlap the range.
    pub fn release(&mut self, offset: u32, size: u32)
        requires
            old(self).wf(),
            within(old(self).regions(), u32::MAX as int),
            separated(old(self).regions()),
            clear_of(old(self).regions(), offset as int, offset + size),
            0 < size,
            offset + size <= u32::MAX,
        ensures
            final(self).wf(),
            final(self).regions() == release(old(self).regions(), offset as int, size as int),
    {
        let ghost before = self.regions();
        let ghost end = offset + size;
        proof {
            lemma_run_start(before, u32::MAX as int, offset as int);
            assert(!before.dom().contains(offset as int)) by {
                if before.dom().contains(offset as int) {
                    assert(offset + before[offset as int] <= offset || end <= offset);
                }
            }
        }
        let mut start = offset;
        let mut length = size;
        match self.previous_free_region(offset) {
            Some(previous) => {
                assert(before.dom().contains(previous.location as int));
                assert(previous.location + previous.size <= offset || end <= previous.location);
                if previous.location + previous.size == offset {
                    assert(ends_at(before, previous.location as int, offset as int));
                    self.remove_free_region(previous.location, previous.size);
                    start = previous.location;
                    length = length + previous.size;
                } else {
                    assert forall|other: int| !ends_at(before, other, offset as int) by {
                        if ends_at(before, other, offset as int) {
                            assert(before.dom().contains(other));
                            assert(other < offset);
                            if other < previous.location {
                                assert(other + before[other] < previous.location);
                            }
                        }
                    }
                }
            },
            None => {
                assert forall|other: int| !ends_at(before, other, offset as int) by {
                    if ends_at(before, other, offset as int) {
                        assert(before.dom().contains(other));
                    }
                }
            },
        }
        assert(start == run_start(before, offset as int));
        assert(start + length == end);
        assert(self.regions() =~= before.remove(start as int));
        match self.following_free_region(offset) {
            Some(next) => {
                assert(before.dom().contains(next.location as int));
                assert(next.location + next.size <= offset || end <= next.location);
                if start + length == next.location {
                    self.remove_free_region(next.location, next.size);
                    length = length + next.size;
                } else {
                    assert(!before.dom().contains(end)) by {
                        if before.dom().contains(end) {
                            assert(self.regions().dom().contains(end));
                        }
                    }
                }
            },
            None => {
                assert(!before.dom().contains(end)) by {
                    if before.dom().contains(end) {
                        assert(self.regions().dom().contains(end));
                    }
                }
            },
        }
        assert(start + length == run_end(before, end));
        assert(self.regions() =~= before.remove(start as int).remove(end));
        self.insert_free_region(start, length);
    }

    /// The regions in the order of their sizes; regions of one size are in
    /// the order of their locations.
    pub fn regions_in_order(&self) -> (list: Vec<FreeRegion>)
        requires
            self.wf(),
        ensures
            lists(self.regions(), list@),
    {
        let pairs = size_index_in_order(&self.by_size);
        let ghost entries = location_map_entries(self.by_location);
        let mut list: Vec<FreeRegion> = Vec::new();
        let mut i: usize = 0;
        while i < pairs.len()
            invariant
                i <= pairs.len(),
                list.len() == i,
                forall|k: int|
                    0 <= k < i ==> (#[trigger] list@[k]).location == pairs@[k].1 && list@[k].size
                        == pairs@[k].0,
            decreases pairs.len() - i,
        {
            let pair = pairs[i];
            list.push(FreeRegion { location: pair.1, size: pair.0 });
            i = i + 1;
        }
        proof {
            assert forall|k: int| 0 <= k < list@.len() implies self.regions().contains_pair(
                (#[trigger] list@[k]).location as int,
                list@[k].size as int,
            ) by {
                assert(pairs@.contains(pairs@[k]));
                assert(size_index_pairs(self.by_size).contains((pairs@[k].0, pairs@[k].1)));
                assert(has_region(entries, pairs@[k].1, pairs@[k].0));
            }
            assert forall|start: int| #[trigger] self.regions().dom().contains(start) implies exists|
                k: int,
            |
                0 <= k < list@.len() && (#[trigger] list@[k]).location == start by {
                let l = start as u32;
                let s = entries[l];
                assert(has_region(entries, l, s));
                assert(size_index_pairs(self.by_size).contains((s, l)));
                assert(pairs@.contains((s, l)));
                let k = choose|k: int| 0 <= k < pairs@.len() && pairs@[k] == (s, l);
                assert(list@[k].location == start);
            }
            assert forall|a: int, b: int|
                #![trigger list@[a], list@[b]]
                0 <= a < b < list@.len() implies list@[a].precedes(&list@[b]) by {
                assert(pair_le(pairs@[a], pairs@[b]) && pairs@[a] != pairs@[b]);
            }
        }
        list
    }
}

} // verus!
