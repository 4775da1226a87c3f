//! The `ahash` sets and maps the game keeps its state in, with what each
//! operation does to their contents.
use vstd::prelude::*;
use ahash::{AHashMap, AHashSet};

verus! {

/// A set of packed coordinates.
pub type CellSet = AHashSet<i64>;

/// Neighbour counts by packed coordinate.
pub type CountMap = AHashMap<i64, u8>;

/// Pending neighbour-count changes by packed coordinate.
pub type DeltaMap = AHashMap<i64, i8>;

/// One pending change: a packed coordinate and the amount.
pub type Delta = (i64, i8);

#[verifier::external_type_specification]
#[verifier::external_body]
pub struct ExRandomState(ahash::RandomState);

#[verifier::external_type_specification]
#[verifier::external_body]
#[verifier::reject_recursive_types(T)]
#[verifier::reject_recursive_types(S)]
pub struct ExAHashSet<T, S>(ahash::AHashSet<T, S>);

#[verifier::external_type_specification]
#[verifier::external_body]
#[verifier::reject_recursive_types(K)]
#[verifier::reject_recursive_types(V)]
#[verifier::reject_recursive_types(S)]
pub struct ExAHashMap<K, V, S>(ahash::AHashMap<K, V, S>);

/// The packed coordinates held in a set.
pub uninterp spec fn set_view(s: CellSet) -> Set<i64>;

/// The neighbour counts held in a map.
pub uninterp spec fn count_map_view(m: CountMap) -> Map<i64, u8>;

/// The pending count changes held in a map.
pub uninterp spec fn delta_map_view(m: DeltaMap) -> Map<i64, i8>;

/// The count map with no entries.
pub open spec fn no_counts() -> Map<i64, u8> {
    Map::empty()
}

/// The change map with no entries.
pub open spec fn no_deltas() -> Map<i64, i8> {
    Map::empty()
}

/// `AHashSet::new`: a set with nothing in it.
#[verifier::external_body]
pub(crate) fn set_new() -> (r: CellSet)
    ensures
        set_view(r) == Set::<i64>::empty(),
{
    AHashSet::new()
}

/// `HashSet::insert` (reached through `AHashSet`'s `DerefMut`): adds `v`, and
/// returns whether it was absent.
#[verifier::external_body]
pub(crate) fn set_insert(s: &mut CellSet, v: i64) -> (r: bool)
    ensures
        set_view(*final(s)) == set_view(*old(s)).insert(v),
        set_view(*old(s)).finite() ==> set_view(*final(s)).finite(),
        r == !set_view(*old(s)).contains(v),
{
    s.insert(v)
}

/// `HashSet::remove` (through `DerefMut`): takes `v` out, and returns whether
/// it was present.
#[verifier::external_body]
pub(crate) fn set_remove(s: &mut CellSet, v: &i64) -> (r: bool)
    ensures
        set_view(*final(s)) == set_view(*old(s)).remove(*v),
        set_view(*old(s)).finite() ==> set_view(*final(s)).finite(),
        r == set_view(*old(s)).contains(*v),
{
    s.remove(v)
}

/// `HashSet::contains` (through `Deref`).
#[verifier::external_body]
pub(crate) fn set_contains(s: &CellSet, v: &i64) -> (r: bool)
    ensures
        r == set_view(*s).contains(*v),
{
    s.contains(v)
}

/// `HashSet::len` (through `Deref`): the number of elements.
#[verifier::external_body]
pub(crate) fn set_len(s: &CellSet) -> (r: usize)
    ensures
        r == set_view(*s).len(),
{
    s.len()
}

/// `HashSet::clear` (through `DerefMut`): removes every element.
#[verifier::external_body]
pub(crate) fn set_clear(s: &mut CellSet)
    ensures
        set_view(*final(s)) == Set::<i64>::empty(),
{
    s.clear()
}

/// `HashSet::drain` (through `DerefMut`), collected: every element once, in an
/// order the source leaves open; the set is left empty.
#[verifier::external_body]
pub(crate) fn set_drain(s: &mut CellSet) -> (r: Vec<i64>)
    ensures
        r@.no_duplicates(),
        r@.to_set() == set_view(*old(s)),
        set_view(*final(s)) == Set::<i64>::empty(),
{
    s.drain().collect()
}

/// `HashSet::iter` (through `Deref`), copied out: every element once, in an
/// order the source leaves open.
#[verifier::external_body]
pub(crate) fn set_elements(s: &CellSet) -> (r: Vec<i64>)
    ensures
        r@.no_duplicates(),
        r@.to_set() == set_view(*s),
{
    s.iter().copied().collect()
}

/// `AHashMap::new`: a map with no entries.
#[verifier::external_body]
pub(crate) fn counts_new() -> (r: CountMap)
    ensures
        count_map_view(r) == no_counts(),
{
    AHashMap::new()
}

/// `AHashMap::get`, the value copied out.
#[verifier::external_body]
pub(crate) fn counts_get(m: &CountMap, k: &i64) -> (r: Option<u8>)
    ensures
        r == (if count_map_view(*m).contains_key(*k) {
            Some(count_map_view(*m)[*k])
        } else {
            None
        }),
{
    m.get(k).copied()
}

/// `AHashMap::insert`: sets the entry of `k` to `v`.
#[verifier::external_body]
pub(crate) fn counts_insert(m: &mut CountMap, k: i64, v: u8)
    ensures
        count_map_view(*final(m)) == count_map_view(*old(m)).insert(k, v),
{
    m.insert(k, v);
}

/// `AHashMap::remove`: drops the entry of `k`.
#[verifier::external_body]
pub(crate) fn counts_remove(m: &mut CountMap, k: &i64)
    ensures
        count_map_view(*final(m)) == count_map_view(*old(m)).remove(*k),
{
    m.remove(k);
}

/// `HashMap::clear` (through `AHashMap`'s `DerefMut`): drops every entry.
#[verifier::external_body]
pub(crate) fn counts_clear(m: &mut CountMap)
    ensures
        count_map_view(*final(m)) == no_counts(),
{
    m.clear()
}

/// `AHashMap::new` for the pending changes.
#[verifier::external_body]
pub(crate) fn deltas_new() -> (r: DeltaMap)
    ensures
        delta_map_view(r) == no_deltas(),
{
    AHashMap::new()
}

/// `HashMap::reserve` (through `DerefMut`): makes room; the entries stay as
/// they are.
#[verifier::external_body]
pub(crate) fn deltas_reserve(m: &mut DeltaMap, additional: usize)
    ensures
        delta_map_view(*final(m)) == delta_map_view(*old(m)),
{
    m.reserve(additional)
}

/// `AHashMap::get`, the value copied out.
#[verifier::external_body]
pub(crate) fn deltas_get(m: &DeltaMap, k: &i64) -> (r: Option<i8>)
    ensures
        r == (if delta_map_view(*m).contains_key(*k) {
            Some(delta_map_view(*m)[*k])
        } else {
            None
        }),
{
    m.get(k).copied()
}

/// `AHashMap::insert`: sets the entry of `k` to `v`.
#[verifier::external_body]
pub(crate) fn deltas_insert(m: &mut DeltaMap, k: i64, v: i8)
    ensures
        delta_map_view(*final(m)) == delta_map_view(*old(m)).insert(k, v),
{
    m.insert(k, v);
}

/// `HashMap::drain` (through `DerefMut`), collected: every entry once, in an
/// order the source leaves open; the map is left empty.
#[verifier::external_body]
pub(crate) fn deltas_drain(m: &mut DeltaMap) -> (r: Vec<Delta>)
    ensures
        forall|i: int, j: int| 0 <= i < j < r@.len() ==> r@[i].0 != r@[j].0,
        forall|i: int|
            0 <= i < r@.len() ==> delta_map_view(*old(m)).contains_key(#[trigger] r@[i].0)
                && delta_map_view(*old(m))[r@[i].0] == r@[i].1,
        forall|k: i64|
            delta_map_view(*old(m)).contains_key(k) ==> exists|i: int|
                0 <= i < r@.len() && #[trigger] r@[i].0 == k,
        delta_map_view(*final(m)) == no_deltas(),
{
    m.drain().collect()
}

} // verus!
