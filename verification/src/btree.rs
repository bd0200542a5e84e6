//! The B-trees of `btree_slab` that hold the free regions, and what this
//! library takes for granted about them.
//!
//! Nothing in this module is proved. Each function here makes one call on a
//! `btree_slab` map, and its contract states what that call does.
//!
//! The ordered lookups go through the addresses of the tree, which
//! `btree_slab` offers for building on its maps. An address is the place of
//! an item, or a place between two items where one could be inserted.
//! `address_of` finds the place where a key is or would be, `normalize` and
//! `previous_item_address` move from a place to the nearest item, and `item`
//! reads the item at a place. `range` is not used: in `btree_slab` 0.6.1 a
//! range without an upper bound ends at the first item of the map, and
//! `next_back` steps back from the start of a range.
use btree_slab::generic::map::BTreeExt;
use btree_slab::generic::node::Address;
use vstd::prelude::*;

verus! {

#[verifier::external_type_specification]
#[verifier::external_body]
#[verifier::reject_recursive_types(K)]
#[verifier::reject_recursive_types(V)]
#[verifier::reject_recursive_types(C)]
pub struct ExBTreeMap<K, V, C>(btree_slab::generic::BTreeMap<K, V, C>);

#[verifier::external_type_specification]
#[verifier::external_body]
#[verifier::reject_recursive_types(K)]
#[verifier::reject_recursive_types(V)]
pub struct ExNode<K, V>(btree_slab::generic::Node<K, V>);

#[verifier::external_type_specification]
#[verifier::external_body]
#[verifier::reject_recursive_types(T)]
pub struct ExSlab<T>(slab::Slab<T>);

#[verifier::external_type_specification]
#[verifier::external_body]
pub struct ExAddress(Address);

/// The free regions as pairs of a size and a location, in the order of the
/// pairs.
pub type SizeIndex = btree_slab::BTreeMap<(u32, u32), ()>;

/// The free regions by location: each location with the size of the region
/// that starts there.
pub type LocationMap = btree_slab::BTreeMap<u32, u32>;

/// The pairs that a [`SizeIndex`] holds.
pub uninterp spec fn size_index_pairs(index: SizeIndex) -> Set<(u32, u32)>;

/// `at` is an address of the index as it is now: the place of one of its
/// pairs, or a place where a pair could be inserted.
pub uninterp spec fn size_index_has_address(index: SizeIndex, at: Address) -> bool;

/// The pair at the address, if a pair is there.
pub uninterp spec fn size_index_pair_at(index: SizeIndex, at: Address) -> Option<(u32, u32)>;

/// The first pair at or after the address, if there is one.
pub uninterp spec fn size_index_pair_from(index: SizeIndex, at: Address) -> Option<(u32, u32)>;

/// The keys of a [`LocationMap`], each with its value.
pub uninterp spec fn location_map_entries(map: LocationMap) -> Map<u32, u32>;

/// `at` is an address of the map as it is now: the place of one of its
/// entries, or a place where an entry could be inserted.
pub uninterp spec fn location_map_has_address(map: LocationMap, at: Address) -> bool;

/// The key of the entry at the address, if an entry is there.
pub uninterp spec fn location_map_key_at(map: LocationMap, at: Address) -> Option<u32>;

/// The key of the first entry at or after the address, if there is one.
pub uninterp spec fn location_map_key_from(map: LocationMap, at: Address) -> Option<u32>;

/// The key of the last entry before the address, if there is one.
pub uninterp spec fn location_map_key_before(map: LocationMap, at: Address) -> Option<u32>;

/// The order of pairs, which is the order of Rust's tuples: by the first
/// number, and by the second where the first are equal.
pub open spec fn pair_le(a: (u32, u32), b: (u32, u32)) -> bool {
    a.0 < b.0 || (a.0 == b.0 && a.1 <= b.1)
}

/// `found` is the least of `pairs` that is not below `pair`, or `None` where
/// all of them are below it.
pub open spec fn is_first_pair_from(pairs: Set<(u32, u32)>, pair: (u32, u32), found: Option<(u32, u32)>) -> bool {
    match found {
        Some(first) => pairs.contains(first) && pair_le(pair, first) && forall|other: (u32, u32)|
            pairs.contains(other) && pair_le(pair, other) ==> pair_le(first, other),
        None => forall|other: (u32, u32)| pairs.contains(other) ==> !pair_le(pair, other),
    }
}

/// `found` is the least key of `entries` that is not below `key`, or `None`
/// where all of them are below it.
pub open spec fn is_first_key_from(entries: Map<u32, u32>, key: u32, found: Option<u32>) -> bool {
    match found {
        Some(first) => entries.dom().contains(first) && key <= first && forall|other: u32|
            entries.dom().contains(other) && key <= other ==> first <= other,
        None => forall|other: u32| entries.dom().contains(other) ==> other < key,
    }
}

/// `found` is the greatest key of `entries` below `key`, or `None` where
/// none of them is below it.
pub open spec fn is_last_key_before(entries: Map<u32, u32>, key: u32, found: Option<u32>) -> bool {
    match found {
        Some(last) => entries.dom().contains(last) && last < key && forall|other: u32|
            entries.dom().contains(other) && other < key ==> other <= last,
        None => forall|other: u32| entries.dom().contains(other) ==> key <= other,
    }
}

/// `BTreeMap::new`: a map that holds nothing.
#[verifier::external_body]
pub(crate) fn size_index_new() -> (index: SizeIndex)
    ensures
        size_index_pairs(index) =~= set![],
{
    btree_slab::BTreeMap::new()
}

/// `BTreeMap::clear`: afterwards the map holds nothing.
#[verifier::external_body]
pub(crate) fn size_index_clear(index: &mut SizeIndex)
    ensures
        size_index_pairs(*final(index)) =~= set![],
{
    index.clear()
}

/// `BTreeMap::insert`: afterwards the map holds `pair` and what it held
/// before. The result says whether `pair` is new to the map.
#[verifier::external_body]
pub(crate) fn size_index_insert(index: &mut SizeIndex, pair: (u32, u32)) -> (fresh: bool)
    ensures
        size_index_pairs(*final(index)) == size_index_pairs(*old(index)).insert(pair),
        fresh == !size_index_pairs(*old(index)).contains(pair),
{
    index.insert(pair, ()).is_none()
}

/// `BTreeMap::remove`: afterwards the map holds what it held before, but not
/// `pair`. The result says whether the map held `pair`.
#[verifier::external_body]
pub(crate) fn size_index_remove(index: &mut SizeIndex, pair: (u32, u32)) -> (found: bool)
    ensures
        size_index_pairs(*final(index)) == size_index_pairs(*old(index)).remove(pair),
        found == size_index_pairs(*old(index)).contains(pair),
{
    index.remove(&pair).is_some()
}

/// `BTreeExt::address_of`: the address of `pair` if the map holds it, and
/// else the address at which it would be inserted. Either way the pairs
/// below `pair` are before the address and the others are at or after it.
#[verifier::external_body]
pub(crate) fn size_index_address_of(index: &SizeIndex, pair: (u32, u32)) -> (at: Address)
    ensures
        size_index_has_address(*index, at),
        is_first_pair_from(size_index_pairs(*index), pair, size_index_pair_from(*index, at)),
{
    match index.address_of(&pair) {
        Ok(address) => address,
        Err(address) => address,
    }
}

/// `BTreeExt::normalize`: the address of the first pair at or after `at`, or
/// `None` if no pair is at or after it.
#[verifier::external_body]
pub(crate) fn size_index_normalize(index: &SizeIndex, at: Address) -> (next: Option<Address>)
    requires
        size_index_has_address(*index, at),
    ensures
        next.is_some() == size_index_pair_from(*index, at).is_some(),
        next.is_some() ==> size_index_has_address(*index, next.unwrap()),
        next.is_some() ==> size_index_pair_at(*index, next.unwrap()) == size_index_pair_from(*index, at),
{
    index.normalize(at)
}

/// `BTreeExt::item`: the pair at `at`, where a pair is.
#[verifier::external_body]
pub(crate) fn size_index_item(index: &SizeIndex, at: Address) -> (pair: Option<(u32, u32)>)
    requires
        size_index_has_address(*index, at),
        size_index_pair_at(*index, at).is_some(),
    ensures
        pair == size_index_pair_at(*index, at),
        pair.is_some() ==> size_index_pairs(*index).contains(pair.unwrap()),
{
    index.item(at).map(|item| *item.key())
}

/// `BTreeMap::last_key_value`: the greatest pair of the map, or `None` if the
/// map holds nothing.
#[verifier::external_body]
pub(crate) fn size_index_last(index: &SizeIndex) -> (last: Option<(u32, u32)>)
    ensures
        last.is_some() ==> size_index_pairs(*index).contains(last.unwrap()),
        last.is_some() ==> (forall|other: (u32, u32)|
            size_index_pairs(*index).contains(other) ==> pair_le(other, last.unwrap())),
        last.is_none() ==> size_index_pairs(*index) =~= set![],
{
    index.last_key_value().map(|(pair, _)| *pair)
}

/// `BTreeMap::keys`: every pair of the map once, in ascending order.
#[verifier::external_body]
pub(crate) fn size_index_in_order(index: &SizeIndex) -> (pairs: Vec<(u32, u32)>)
    ensures
        (forall|pair: (u32, u32)| pairs@.contains(pair) <==> size_index_pairs(*index).contains(pair)),
        (forall|i: int, j: int|
            0 <= i < j < pairs@.len() ==> pair_le(pairs@[i], pairs@[j]) && pairs@[i] != pairs@[j]),
{
    index.keys().copied().collect()
}

/// `BTreeMap::new`: a map that holds nothing.
#[verifier::external_body]
pub(crate) fn location_map_new() -> (map: LocationMap)
    ensures
        location_map_entries(map) =~= map![],
{
    btree_slab::BTreeMap::new()
}

/// `BTreeMap::clear`: afterwards the map holds nothing.
#[verifier::external_body]
pub(crate) fn location_map_clear(map: &mut LocationMap)
    ensures
        location_map_entries(*final(map)) =~= map![],
{
    map.clear()
}

/// `BTreeMap::insert`: afterwards `key` has `value` and every other key is as
/// before. The result is the value that `key` had before, if it had one.
#[verifier::external_body]
pub(crate) fn location_map_insert(map: &mut LocationMap, key: u32, value: u32) -> (previous: Option<u32>)
    ensures
        location_map_entries(*final(map)) == location_map_entries(*old(map)).insert(key, value),
        previous.is_some() == location_map_entries(*old(map)).dom().contains(key),
        previous.is_some() ==> previous.unwrap() == location_map_entries(*old(map))[key],
{
    map.insert(key, value)
}

/// `BTreeMap::remove`: afterwards `key` has no value and every other key is
/// as before. The result is the value that `key` had, if it had one.
#[verifier::external_body]
pub(crate) fn location_map_remove(map: &mut LocationMap, key: u32) -> (removed: Option<u32>)
    ensures
        location_map_entries(*final(map)) == location_map_entries(*old(map)).remove(key),
        removed.is_some() == location_map_entries(*old(map)).dom().contains(key),
        removed.is_some() ==> removed.unwrap() == location_map_entries(*old(map))[key],
{
    map.remove(&key)
}

/// `BTreeExt::address_of`: the address of the entry of `key` if the map has
/// one, and else the address at which it would be inserted. Either way the
/// entries with keys below `key` are before the address and the others are
/// at or after it.
#[verifier::external_body]
pub(crate) fn location_map_address_of(map: &LocationMap, key: u32) -> (at: Address)
    ensures
        location_map_has_address(*map, at),
        is_first_key_from(location_map_entries(*map), key, location_map_key_from(*map, at)),
        is_last_key_before(location_map_entries(*map), key, location_map_key_before(*map, at)),
{
    match map.address_of(&key) {
        Ok(address) => address,
        Err(address) => address,
    }
}

/// `BTreeExt::normalize`: the address of the first entry at or after `at`,
/// or `None` if no entry is at or after it.
#[verifier::external_body]
pub(crate) fn location_map_normalize(map: &LocationMap, at: Address) -> (next: Option<Address>)
    requires
        location_map_has_address(*map, at),
    ensures
        next.is_some() == location_map_key_from(*map, at).is_some(),
        next.is_some() ==> location_map_has_address(*map, next.unwrap()),
        next.is_some() ==> location_map_key_at(*map, next.unwrap()) == location_map_key_from(*map, at),
{
    map.normalize(at)
}

/// `BTreeExt::previous_item_address`: the address of the last entry before
/// `at`, or `None` if no entry is before it.
#[verifier::external_body]
pub(crate) fn location_map_previous_item_address(map: &LocationMap, at: Address) -> (previous: Option<Address>)
    requires
        location_map_has_address(*map, at),
    ensures
        previous.is_some() == location_map_key_before(*map, at).is_some(),
        previous.is_some() ==> location_map_has_address(*map, previous.unwrap()),
        previous.is_some() ==> location_map_key_at(*map, previous.unwrap()) == location_map_key_before(*map, at),
{
    map.previous_item_address(at)
}

/// `BTreeExt::item`: the entry at `at`, where an entry is.
#[verifier::external_body]
pub(crate) fn location_map_item(map: &LocationMap, at: Address) -> (entry: Option<(u32, u32)>)
    requires
        location_map_has_address(*map, at),
        location_map_key_at(*map, at).is_some(),
    ensures
        entry.is_some(),
        entry.is_some() ==> location_map_key_at(*map, at) == Some(entry.unwrap().0),
        entry.is_some() ==> location_map_entries(*map).contains_pair(entry.unwrap().0, entry.unwrap().1),
{
    map.item(at).map(|item| (*item.key(), *item.value()))
}

} // verus!
