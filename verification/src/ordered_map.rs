//! The insertion-ordered map behind ordered hashes: `indexmap::IndexMap`.
//!
//! Keys are compared with `PString`'s `==`, which is equality of the encodings, and hashed with its `Hash`, which
//! equal strings give the same bytes.
use crate::entries;
use crate::string::PString;
use crate::value::Value;
use indexmap::IndexMap;
use vstd::prelude::*;

verus! {

/// `indexmap::IndexMap`, opaque.
#[verifier::external_type_specification]
#[verifier::external_body]
#[verifier::reject_recursive_types(K)]
#[verifier::reject_recursive_types(V)]
#[verifier::reject_recursive_types(S)]
pub struct ExIndexMap<K, V, S>(indexmap::IndexMap<K, V, S>);

/// The pairs of a map, in their order.
pub uninterp spec fn map_pairs(map: IndexMap<PString, Value>) -> Seq<(PString, Value)>;

/// The pairs after the one at `i` went and the last one took its place.
pub open spec fn swap_removed(list: Seq<(PString, Value)>, i: int) -> Seq<(PString, Value)> {
    list.update(i, list.last()).drop_last()
}

/// `IndexMap::new`: no pairs.
#[verifier::external_body]
pub(crate) fn new_map() -> (r: IndexMap<PString, Value>)
    ensures
        map_pairs(r) == Seq::<(PString, Value)>::empty(),
{
    IndexMap::new()
}

/// `IndexMap::len`: the number of pairs.
#[verifier::external_body]
pub(crate) fn map_len(map: &IndexMap<PString, Value>) -> (r: usize)
    ensures
        r == map_pairs(*map).len(),
{
    map.len()
}

/// `IndexMap::get_index_of`: the position of a key, or nothing where it is absent.
#[verifier::external_body]
pub(crate) fn map_position(map: &IndexMap<PString, Value>, key: &PString) -> (r: Option<usize>)
    ensures
        r is Some ==> entries::keyed(map_pairs(*map), r->0 as int, key.encoding()),
        r is None ==> forall|i: int| !#[trigger] entries::keyed(map_pairs(*map), i, key.encoding()),
{
    map.get_index_of(key)
}

/// `IndexMap::get_index`: the pair at a position, or nothing beyond the end.
#[verifier::external_body]
pub(crate) fn map_at(map: &IndexMap<PString, Value>, index: usize) -> (r: Option<(&PString, &Value)>)
    ensures
        r is Some <==> (index < map_pairs(*map).len()),
        r is Some ==> (*(r->0).0, *(r->0).1) == map_pairs(*map)[index as int],
{
    map.get_index(index)
}

/// `IndexMap::get_index_mut`: the value at a position, to be changed in place, or nothing beyond the end.  It does not
/// panic.
#[verifier::external_body]
pub(crate) fn map_value(map: &mut IndexMap<PString, Value>, index: usize) -> (r: Option<&mut Value>)
    ensures
        (r is Some <==> index < map_pairs(*old(map)).len()),
        r is None ==> map_pairs(*final(map)) == map_pairs(*old(map)),
        r is Some ==> {
            let pair = map_pairs(*old(map))[index as int];
            &&& *r->0 == pair.1
            &&& map_pairs(*final(map)) == map_pairs(*old(map)).update(index as int, (pair.0, *final(r->0)))
        },
    no_unwind
{
    map.get_index_mut(index).map(|pair| pair.1)
}

/// `IndexMap::insert`: a key that is present stays as it is spelled and where it stands, and its value changes; a new
/// key goes to the end.
#[verifier::external_body]
pub(crate) fn map_insert(map: &mut IndexMap<PString, Value>, key: PString, value: Value)
    ensures
        (forall|i: int| !#[trigger] entries::keyed(map_pairs(*old(map)), i, key.encoding())) ==> map_pairs(*final(map))
            == map_pairs(*old(map)).push((key, value)),
        forall|i: int| #[trigger]
            entries::keyed(map_pairs(*old(map)), i, key.encoding()) && entries::distinct_keys(map_pairs(*old(map)))
                ==> map_pairs(*final(map)) == map_pairs(*old(map)).update(i, (map_pairs(*old(map))[i].0, value)),
{
    map.insert(key, value);
}

/// `IndexMap::swap_remove_index`: the pair at a position goes, and the last one takes its place.
#[verifier::external_body]
pub(crate) fn map_swap_remove(map: &mut IndexMap<PString, Value>, index: usize) -> (r: Option<(PString, Value)>)
    ensures
        index >= map_pairs(*old(map)).len() ==> r is None && map_pairs(*final(map)) == map_pairs(*old(map)),
        index < map_pairs(*old(map)).len() ==> r == Some(map_pairs(*old(map))[index as int]) && map_pairs(*final(map))
            == swap_removed(map_pairs(*old(map)), index as int),
{
    map.swap_remove_index(index)
}

/// `IndexMap::clear`: no pairs.
#[verifier::external_body]
pub(crate) fn map_clear(map: &mut IndexMap<PString, Value>)
    ensures
        map_pairs(*final(map)) == Seq::<(PString, Value)>::empty(),
{
    map.clear()
}

} // verus!
