//! Entries of a hash: key and value pairs whose keys are distinct strings, and the map that they make.
use crate::string::PString;
use crate::value::Value;
use vstd::prelude::*;

verus! {

/// The pair at `i` has the key with the given encoding.
pub open spec fn keyed(list: Seq<(PString, Value)>, i: int, key: Seq<u8>) -> bool {
    0 <= i < list.len() && list[i].0.encoding() == key
}

/// No key occurs twice.
pub open spec fn distinct_keys(list: Seq<(PString, Value)>) -> bool {
    forall|i: int, j: int|
        0 <= i < list.len() && 0 <= j < list.len() && #[trigger] list[i].0.encoding() == #[trigger] list[j].0.encoding()
            ==> i == j
}

/// No key is tainted.
pub open spec fn clean_keys(list: Seq<(PString, Value)>) -> bool {
    forall|i: int| 0 <= i < list.len() ==> !(#[trigger] list[i]).0.taint_bit()
}

/// The map of the pairs: from a key's encoding to the key as it is stored and its value.
pub open spec fn contents(list: Seq<(PString, Value)>) -> Map<Seq<u8>, (PString, Value)> {
    Map::new(
        |key: Seq<u8>| exists|i: int| #[trigger] keyed(list, i, key),
        |key: Seq<u8>| list[choose|i: int| #[trigger] keyed(list, i, key)],
    )
}

/// The map without entries.
pub open spec fn no_entries() -> Map<Seq<u8>, (PString, Value)> {
    Map::empty()
}

/// What the map says of a pair that is in the list.
pub proof fn lemma_contents_at(list: Seq<(PString, Value)>, i: int)
    requires
        distinct_keys(list),
        0 <= i < list.len(),
    ensures
        contents(list).contains_key(list[i].0.encoding()),
        contents(list)[list[i].0.encoding()] == list[i],
{
    let key = list[i].0.encoding();
    assert(keyed(list, i, key));
    let j = choose|j: int| #[trigger] keyed(list, j, key);
    assert(list[j].0.encoding() == list[i].0.encoding());
}

proof fn lemma_entry_in_both(a: Seq<(PString, Value)>, b: Seq<(PString, Value)>, key: Seq<u8>)
    requires
        distinct_keys(a),
        distinct_keys(b),
        forall|p: (PString, Value)| #[trigger] a.contains(p) ==> b.contains(p),
        contents(a).contains_key(key),
    ensures
        contents(b).contains_key(key),
        contents(b)[key] == contents(a)[key],
{
    let i = choose|i: int| #[trigger] keyed(a, i, key);
    lemma_contents_at(a, i);
    assert(a.contains(a[i]));
    let j = choose|j: int| 0 <= j < b.len() && b[j] == a[i];
    lemma_contents_at(b, j);
}

/// Lists of distinct keys with the same pairs make the same map.
pub proof fn lemma_contents_by_members(a: Seq<(PString, Value)>, b: Seq<(PString, Value)>)
    requires
        distinct_keys(a),
        distinct_keys(b),
        forall|p: (PString, Value)| #[trigger] a.contains(p) <==> b.contains(p),
    ensures
        contents(a) == contents(b),
{
    assert forall|p: (PString, Value)| #[trigger] b.contains(p) implies a.contains(p) by {
        assert(a.contains(p) <==> b.contains(p));
    }
    let (m, n) = (contents(a), contents(b));
    assert forall|key: Seq<u8>| m.dom().contains(key) == n.dom().contains(key) by {
        if m.contains_key(key) {
            lemma_entry_in_both(a, b, key);
        }
        if n.contains_key(key) {
            lemma_entry_in_both(b, a, key);
        }
    }
    assert forall|key: Seq<u8>| m.dom().contains(key) implies m[key] == n[key] by {
        lemma_entry_in_both(a, b, key);
    }
    assert(m =~= n);
}

/// One pair more, with a new key, is one entry more in the map.
pub proof fn lemma_contents_push(list: Seq<(PString, Value)>, pair: (PString, Value))
    requires
        distinct_keys(list),
        !contents(list).contains_key(pair.0.encoding()),
    ensures
        distinct_keys(list.push(pair)),
        contents(list.push(pair)) == contents(list).insert(pair.0.encoding(), pair),
{
    let longer = list.push(pair);
    let n = list.len() as int;
    assert forall|i: int, j: int|
        0 <= i < longer.len() && 0 <= j < longer.len() && #[trigger] longer[i].0.encoding()
            == #[trigger] longer[j].0.encoding() implies i == j by {
        if i < n && j < n {
            assert(list[i].0.encoding() == list[j].0.encoding());
        } else if i < n {
            assert(keyed(list, i, pair.0.encoding()));
        } else if j < n {
            assert(keyed(list, j, pair.0.encoding()));
        }
    }
    assert forall|key: Seq<u8>| #[trigger] contents(longer).contains_key(key) implies contents(list).insert(
        pair.0.encoding(),
        pair,
    ).contains_key(key) && contents(longer)[key] == contents(list).insert(pair.0.encoding(), pair)[key] by {
        let i = choose|i: int| #[trigger] keyed(longer, i, key);
        lemma_contents_at(longer, i);
        if i < n {
            lemma_contents_at(list, i);
            assert(longer[i] == list[i]);
        }
    }
    assert forall|key: Seq<u8>| contents(list).insert(pair.0.encoding(), pair).contains_key(key) implies #[trigger] contents(
        longer,
    ).contains_key(key) by {
        if key == pair.0.encoding() {
            lemma_contents_at(longer, n);
        } else {
            let i = choose|i: int| #[trigger] keyed(list, i, key);
            assert(longer[i] == list[i]);
            lemma_contents_at(longer, i);
        }
    }
    assert(contents(longer) =~= contents(list).insert(pair.0.encoding(), pair));
}

/// A pair that takes the place of one with the same key takes its place in the map.
pub proof fn lemma_contents_update(list: Seq<(PString, Value)>, i: int, pair: (PString, Value))
    requires
        distinct_keys(list),
        0 <= i < list.len(),
        pair.0.encoding() == list[i].0.encoding(),
    ensures
        distinct_keys(list.update(i, pair)),
        contents(list.update(i, pair)) == contents(list).insert(pair.0.encoding(), pair),
{
    let changed = list.update(i, pair);
    assert forall|a: int, b: int|
        0 <= a < changed.len() && 0 <= b < changed.len() && #[trigger] changed[a].0.encoding()
            == #[trigger] changed[b].0.encoding() implies a == b by {
        assert(list[a].0.encoding() == changed[a].0.encoding());
        assert(list[b].0.encoding() == changed[b].0.encoding());
    }
    assert forall|key: Seq<u8>| #[trigger] contents(changed).contains_key(key) implies contents(list).insert(
        pair.0.encoding(),
        pair,
    ).contains_key(key) && contents(changed)[key] == contents(list).insert(pair.0.encoding(), pair)[key] by {
        let k = choose|k: int| #[trigger] keyed(changed, k, key);
        lemma_contents_at(changed, k);
        lemma_contents_at(list, k);
        if k != i {
            assert(list[k].0.encoding() != list[i].0.encoding());
        }
    }
    assert forall|key: Seq<u8>| contents(list).insert(pair.0.encoding(), pair).contains_key(key) implies #[trigger] contents(
        changed,
    ).contains_key(key) by {
        if key == pair.0.encoding() {
            lemma_contents_at(changed, i);
        } else {
            let k = choose|k: int| #[trigger] keyed(list, k, key);
            assert(changed[k].0.encoding() == list[k].0.encoding());
            lemma_contents_at(changed, k);
        }
    }
    assert(contents(changed) =~= contents(list).insert(pair.0.encoding(), pair));
}

/// A pair that goes takes its key out of the map.
pub proof fn lemma_contents_remove(list: Seq<(PString, Value)>, i: int)
    requires
        distinct_keys(list),
        0 <= i < list.len(),
    ensures
        distinct_keys(list.remove(i)),
        contents(list.remove(i)) == contents(list).remove(list[i].0.encoding()),
{
    let rest = list.remove(i);
    let gone = list[i].0.encoding();
    assert forall|a: int, b: int|
        0 <= a < rest.len() && 0 <= b < rest.len() && #[trigger] rest[a].0.encoding()
            == #[trigger] rest[b].0.encoding() implies a == b by {
        let p = if a < i { a } else { a + 1 };
        let q = if b < i { b } else { b + 1 };
        assert(list[p].0.encoding() == list[q].0.encoding());
    }
    assert forall|key: Seq<u8>| #[trigger] contents(rest).contains_key(key) implies contents(list).remove(
        gone,
    ).contains_key(key) && contents(rest)[key] == contents(list).remove(gone)[key] by {
        let k = choose|k: int| #[trigger] keyed(rest, k, key);
        let p = if k < i { k } else { k + 1 };
        lemma_contents_at(rest, k);
        lemma_contents_at(list, p);
        assert(list[p].0.encoding() != list[i].0.encoding());
    }
    assert forall|key: Seq<u8>| contents(list).remove(gone).contains_key(key) implies #[trigger] contents(
        rest,
    ).contains_key(key) by {
        let p = choose|p: int| #[trigger] keyed(list, p, key);
        let k = if p < i { p } else { p - 1 };
        assert(rest[k] == list[p]);
        lemma_contents_at(rest, k);
    }
    assert(contents(rest) =~= contents(list).remove(gone));
}

/// The map has as many entries as there are pairs.
pub proof fn lemma_contents_len(list: Seq<(PString, Value)>)
    requires
        distinct_keys(list),
    ensures
        contents(list).dom().finite(),
        contents(list).len() == list.len(),
    decreases list.len(),
{
    if list.len() == 0 {
        assert(contents(list) =~= Map::<Seq<u8>, (PString, Value)>::empty());
    } else {
        let shorter = list.drop_last();
        assert forall|i: int, j: int|
            0 <= i < shorter.len() && 0 <= j < shorter.len() && #[trigger] shorter[i].0.encoding()
                == #[trigger] shorter[j].0.encoding() implies i == j by {
            assert(list[i].0.encoding() == list[j].0.encoding());
        }
        lemma_contents_len(shorter);
        assert(shorter.push(list.last()) =~= list);
        if contents(shorter).contains_key(list.last().0.encoding()) {
            let i = choose|i: int| #[trigger] keyed(shorter, i, list.last().0.encoding());
            assert(list[i].0.encoding() == list[list.len() - 1].0.encoding());
        }
        lemma_contents_push(shorter, list.last());
    }
}

/// Rearranged pairs make the same map.
pub proof fn lemma_contents_rearranged(a: Seq<(PString, Value)>, b: Seq<(PString, Value)>)
    requires
        distinct_keys(a),
        a.to_multiset() == b.to_multiset(),
    ensures
        distinct_keys(b),
        contents(a) == contents(b),
{
    broadcast use vstd::seq_lib::group_to_multiset_ensures;

    assert forall|p: (PString, Value)| #[trigger] a.contains(p) <==> b.contains(p) by {
        assert(a.contains(p) <==> a.to_multiset().count(p) > 0);
        assert(b.contains(p) <==> b.to_multiset().count(p) > 0);
    }
    assert(a.no_duplicates()) by {
        assert forall|i: int, j: int| 0 <= i < a.len() && 0 <= j < a.len() && i != j implies a[i] != a[j] by {
            if a[i] == a[j] {
                assert(a[i].0.encoding() == a[j].0.encoding());
            }
        }
    }
    a.lemma_multiset_has_no_duplicates();
    b.lemma_multiset_has_no_duplicates_conv();
    assert forall|i: int, j: int|
        0 <= i < b.len() && 0 <= j < b.len() && #[trigger] b[i].0.encoding() == #[trigger] b[j].0.encoding() implies i
        == j by {
        assert(b.contains(b[i]) && b.contains(b[j]));
        assert(a.contains(b[i]) && a.contains(b[j]));
        let p = choose|p: int| 0 <= p < a.len() && a[p] == b[i];
        let q = choose|q: int| 0 <= q < a.len() && a[q] == b[j];
        assert(a[p].0.encoding() == a[q].0.encoding());
        assert(b[i] == b[j]);
    }
    lemma_contents_by_members(a, b);
}

/// The list without the pair of the given key.
pub open spec fn without_key(list: Seq<(PString, Value)>, key: Seq<u8>) -> Seq<(PString, Value)>
    decreases list.len(),
{
    if list.len() == 0 {
        list
    } else if list[0].0.encoding() == key {
        list.drop_first()
    } else {
        seq![list[0]] + without_key(list.drop_first(), key)
    }
}

pub proof fn lemma_without_absent(list: Seq<(PString, Value)>, key: Seq<u8>)
    requires
        forall|i: int| !#[trigger] keyed(list, i, key),
    ensures
        without_key(list, key) == list,
    decreases list.len(),
{
    if list.len() > 0 {
        let rest = list.drop_first();
        assert(!keyed(list, 0, key));
        assert forall|i: int| !#[trigger] keyed(rest, i, key) by {
            assert(!keyed(list, i + 1, key));
        }
        lemma_without_absent(rest, key);
        assert(seq![list[0]] + rest =~= list);
    }
}

pub proof fn lemma_without_at(list: Seq<(PString, Value)>, i: int, key: Seq<u8>)
    requires
        distinct_keys(list),
        keyed(list, i, key),
    ensures
        without_key(list, key) == list.remove(i),
    decreases list.len(),
{
    if i == 0 {
        assert(list.remove(0) =~= list.drop_first());
    } else {
        let rest = list.drop_first();
        assert(list[0].0.encoding() != list[i].0.encoding());
        lemma_distinct_skip(list, 1);
        assert(list.skip(1) =~= rest);
        lemma_without_at(rest, i - 1, key);
        assert(seq![list[0]] + rest.remove(i - 1) =~= list.remove(i));
    }
}

pub proof fn lemma_distinct_skip(list: Seq<(PString, Value)>, n: int)
    requires
        distinct_keys(list),
        0 <= n <= list.len(),
    ensures
        distinct_keys(list.skip(n)),
{
    let rest = list.skip(n);
    assert forall|i: int, j: int|
        0 <= i < rest.len() && 0 <= j < rest.len() && #[trigger] rest[i].0.encoding()
            == #[trigger] rest[j].0.encoding() implies i == j by {
        assert(list[i + n].0.encoding() == list[j + n].0.encoding());
    }
}

pub proof fn lemma_clean_skip(list: Seq<(PString, Value)>, n: int)
    requires
        clean_keys(list),
        0 <= n <= list.len(),
    ensures
        clean_keys(list.skip(n)),
{
    assert forall|i: int| 0 <= i < list.skip(n).len() implies !(#[trigger] list.skip(n)[i]).0.taint_bit() by {
        assert(!list[i + n].0.taint_bit());
    }
}

/// A clean key more, or a key less, leaves the keys clean.
pub proof fn lemma_clean_update(list: Seq<(PString, Value)>, i: int, pair: (PString, Value))
    requires
        clean_keys(list),
        0 <= i < list.len(),
        !pair.0.taint_bit(),
    ensures
        clean_keys(list.update(i, pair)),
        clean_keys(list.remove(i)),
{
    let rest = list.remove(i);
    assert forall|k: int| 0 <= k < rest.len() implies !(#[trigger] rest[k]).0.taint_bit() by {
        assert(!list[if k < i { k } else { k + 1 }].0.taint_bit());
    }
}

/// Rearranged pairs have the same keys.
pub proof fn lemma_clean_rearranged(a: Seq<(PString, Value)>, b: Seq<(PString, Value)>)
    requires
        clean_keys(a),
        a.to_multiset() == b.to_multiset(),
    ensures
        clean_keys(b),
{
    broadcast use vstd::seq_lib::group_to_multiset_ensures;

    assert forall|i: int| 0 <= i < b.len() implies !(#[trigger] b[i]).0.taint_bit() by {
        assert(b.contains(b[i]));
        assert(b.to_multiset().count(b[i]) > 0);
        assert(a.contains(b[i]));
    }
}

/// The keys of the pairs.
pub open spec fn keys_of(list: Seq<(PString, Value)>) -> Seq<PString> {
    list.map_values(|p: (PString, Value)| p.0)
}

/// The keys of the pairs, by their encodings.
pub open spec fn encodings(list: Seq<(PString, Value)>) -> Seq<Seq<u8>> {
    list.map_values(|p: (PString, Value)| p.0.encoding())
}

pub proof fn lemma_same_keys(a: Seq<(PString, Value)>, b: Seq<(PString, Value)>)
    requires
        keys_of(a) == keys_of(b),
    ensures
        encodings(a) == encodings(b),
{
    assert(keys_of(a).len() == a.len());
    assert(keys_of(b).len() == b.len());
    assert forall|i: int| 0 <= i < a.len() implies encodings(a)[i] == encodings(b)[i] by {
        assert(keys_of(a)[i] == a[i].0);
        assert(keys_of(b)[i] == b[i].0);
    }
    assert(encodings(a) =~= encodings(b));
}

pub proof fn lemma_encodings_skip(list: Seq<(PString, Value)>, n: int)
    requires
        0 <= n <= list.len(),
    ensures
        encodings(list.skip(n)) == encodings(list).skip(n),
{
    assert(encodings(list.skip(n)) =~= encodings(list).skip(n));
}

/// What holds once the value of the pair at `i` is changed.
pub open spec fn changed_in_place(list: Seq<(PString, Value)>, i: int, value: Value) -> bool {
    let pair = (list[i].0, value);
    let after = list.update(i, pair);
    &&& distinct_keys(after)
    &&& clean_keys(after)
    &&& contents(after) == contents(list).insert(pair.0.encoding(), pair)
    &&& keys_of(after) == keys_of(list)
    &&& encodings(after) == encodings(list)
}

pub proof fn lemma_changed_in_place(list: Seq<(PString, Value)>, i: int, value: Value)
    requires
        distinct_keys(list),
        clean_keys(list),
        0 <= i < list.len(),
    ensures
        changed_in_place(list, i, value),
{
    let pair = (list[i].0, value);
    lemma_contents_update(list, i, pair);
    lemma_clean_update(list, i, pair);
    assert(keys_of(list.update(i, pair)) =~= keys_of(list));
    lemma_same_keys(list.update(i, pair), list);
}

/// The values of the pairs.
pub open spec fn values_of(list: Seq<(PString, Value)>) -> Seq<Value> {
    list.map_values(|p: (PString, Value)| p.1)
}

/// The map without a key, or with it: what a look-up of the key gives.
pub open spec fn value_of_key(map: Map<Seq<u8>, (PString, Value)>, key: Seq<u8>) -> Option<Value> {
    if map.contains_key(key) {
        Some(map[key].1)
    } else {
        None
    }
}

/// The map after a value was stored under a key: a key that is present stays as it is spelled.
pub open spec fn stored(map: Map<Seq<u8>, (PString, Value)>, key: PString, value: Value) -> Map<
    Seq<u8>,
    (PString, Value),
> {
    if map.contains_key(key.encoding()) {
        map.insert(key.encoding(), (map[key.encoding()].0, value))
    } else {
        map.insert(key.encoding(), (key, value))
    }
}

/// Keys and values stand in the order of the pairs.
pub proof fn law_keys_and_values_are_those_of_the_pairs(list: Seq<(PString, Value)>, i: int)
    requires
        0 <= i < list.len(),
    ensures
        keys_of(list).len() == list.len() && values_of(list).len() == list.len() && encodings(list).len() == list.len(),
        keys_of(list)[i] == list[i].0,
        values_of(list)[i] == list[i].1,
        encodings(list)[i] == list[i].0.encoding(),
{
}

/// A list without a key is the list without its pair: every other pair stays, in the same order.
pub proof fn law_without_a_key_one_pair_is_gone(list: Seq<(PString, Value)>, key: Seq<u8>, i: int)
    requires
        distinct_keys(list),
    ensures
        keyed(list, i, key) ==> without_key(list, key) == list.remove(i),
        (forall|k: int| 0 <= k < list.len() ==> (#[trigger] list[k]).0.encoding() != key) ==> without_key(list, key) == list,
    decreases list.len(),
{
    if forall|k: int| 0 <= k < list.len() ==> (#[trigger] list[k]).0.encoding() != key {
        lemma_without_absent(list, key);
    }
    if keyed(list, i, key) {
        if list[0].0.encoding() == key {
            assert(i == 0);
            assert(list.remove(0) =~= list.drop_first());
        } else {
            let rest = list.drop_first();
            lemma_distinct_skip(list, 1);
            assert(list.skip(1) =~= rest);
            assert(keyed(rest, i - 1, key));
            law_without_a_key_one_pair_is_gone(rest, key, i - 1);
            assert(list.remove(i) =~= seq![list[0]] + rest.remove(i - 1));
        }
    }
}

} // verus!
