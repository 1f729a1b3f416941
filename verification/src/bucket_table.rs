//! The bucket table behind the default hash engine: `hashbrown::HashTable` with its own `RandomState`.
//!
//! Keys are compared with `PString`'s `==`, which is equality of the encodings, and hashed with its `Hash`, which
//! equal strings give the same bytes.
use crate::string::PString;
use crate::value::Value;
use hashbrown::HashTable;
use std::collections::hash_map::RandomState;
use std::hash::BuildHasher;
use vstd::prelude::*;

verus! {

/// A `hashbrown::HashTable` of pairs, hashed by their keys with the table's own hasher.
#[verifier::external_body]
pub struct BucketTable {
    table: HashTable<(PString, Value)>,
    hasher: RandomState,
}

/// The buckets of a table, in the order of their indices; an empty bucket is `None`.
pub uninterp spec fn buckets(table: BucketTable) -> Seq<Option<(PString, Value)>>;

/// The pairs in the buckets from `i` on.
pub open spec fn pairs_from(b: Seq<Option<(PString, Value)>>, i: int) -> Seq<(PString, Value)>
    decreases b.len() - i,
{
    if 0 <= i < b.len() {
        match b[i] {
            Some(pair) => seq![pair] + pairs_from(b, i + 1),
            None => pairs_from(b, i + 1),
        }
    } else {
        seq![]
    }
}

/// The pairs of a table, in bucket order.
pub open spec fn pairs(b: Seq<Option<(PString, Value)>>) -> Seq<(PString, Value)> {
    pairs_from(b, 0)
}

/// The bucket at `i` holds the key with the given encoding.
pub open spec fn holds_key(b: Seq<Option<(PString, Value)>>, i: int, key: Seq<u8>) -> bool {
    0 <= i < b.len() && b[i] is Some && (b[i]->0).0.encoding() == key
}

/// `HashTable::new`: every bucket is empty.
#[verifier::external_body]
pub(crate) fn new_table() -> (r: BucketTable)
    ensures
        forall|i: int| 0 <= i < buckets(r).len() ==> #[trigger] buckets(r)[i] is None,
{
    BucketTable { table: HashTable::new(), hasher: RandomState::new() }
}

/// `HashTable::len`: the number of pairs.
#[verifier::external_body]
pub(crate) fn table_len(table: &BucketTable) -> (r: usize)
    ensures
        r == pairs(buckets(*table)).len(),
{
    table.table.len()
}

/// `HashTable::num_buckets`: the number of buckets.
#[verifier::external_body]
pub(crate) fn bucket_count(table: &BucketTable) -> (r: usize)
    ensures
        r == buckets(*table).len(),
{
    table.table.num_buckets()
}

/// `HashTable::get_bucket`: the pair in a bucket, or nothing where the bucket is empty or there is none.
#[verifier::external_body]
pub(crate) fn bucket_at(table: &BucketTable, index: usize) -> (r: Option<&(PString, Value)>)
    ensures
        r is Some <==> (index < buckets(*table).len() && buckets(*table)[index as int] is Some),
        r is Some ==> *r->0 == buckets(*table)[index as int]->0,
{
    table.table.get_bucket(index)
}

/// `HashTable::find_bucket_index`: a bucket whose pair has the given key, or nothing where there is none.  Every pair
/// was inserted under the hash of its key, and equal keys have equal hashes, so the search misses none.
#[verifier::external_body]
pub(crate) fn find_key(table: &BucketTable, key: &PString) -> (r: Option<usize>)
    ensures
        r is Some ==> holds_key(buckets(*table), r->0 as int, key.encoding()),
        r is None ==> forall|i: int| !#[trigger] holds_key(buckets(*table), i, key.encoding()),
{
    let hash = table.hasher.hash_one(key);
    table.table.find_bucket_index(hash, |pair| pair.0 == *key)
}

/// `HashTable::get_bucket_mut`: the value in a bucket, to be changed in place.  It does not panic.
#[verifier::external_body]
pub(crate) fn bucket_value(table: &mut BucketTable, index: usize) -> (r: Option<&mut Value>)
    ensures
        r is Some <==> index < buckets(*old(table)).len() && buckets(*old(table))[index as int] is Some,
        r is None ==> buckets(*final(table)) == buckets(*old(table)),
        r is Some ==> {
            let pair = buckets(*old(table))[index as int]->0;
            &&& *r->0 == pair.1
            &&& buckets(*final(table)) == buckets(*old(table)).update(index as int, Some((pair.0, *final(r->0))))
        },
    no_unwind
{
    table.table.get_bucket_mut(index).map(|pair| &mut pair.1)
}

/// `HashTable::insert_unique`: one pair more.  Which buckets the pairs stand in afterwards is left open: the table may
/// have grown.
#[verifier::external_body]
pub(crate) fn insert_pair(table: &mut BucketTable, key: PString, value: Value)
    ensures
        pairs(buckets(*final(table))).to_multiset() == pairs(buckets(*old(table))).to_multiset().insert((key, value)),
{
    let BucketTable { table, hasher } = table;
    let hash = hasher.hash_one(&key);
    table.insert_unique(hash, (key, value), |pair| hasher.hash_one(&pair.0));
}

/// `HashTable::get_bucket_entry` and `OccupiedEntry::remove`: the bucket is emptied, and no other pair moves.
#[verifier::external_body]
pub(crate) fn remove_bucket(table: &mut BucketTable, index: usize) -> (r: Option<(PString, Value)>)
    ensures
        index < buckets(*old(table)).len() ==> r == buckets(*old(table))[index as int] && buckets(*final(table))
            == buckets(*old(table)).update(index as int, None),
        index >= buckets(*old(table)).len() ==> r is None && buckets(*final(table)) == buckets(*old(table)),
{
    match table.table.get_bucket_entry(index) {
        Ok(entry) => Some(entry.remove().0),
        Err(_) => None,
    }
}

/// `HashTable::clear`: every bucket is empty.
#[verifier::external_body]
pub(crate) fn clear_table(table: &mut BucketTable)
    ensures
        forall|i: int| 0 <= i < buckets(*final(table)).len() ==> #[trigger] buckets(*final(table))[i] is None,
{
    table.table.clear()
}

/// A pair is listed exactly where a bucket holds it.
pub proof fn lemma_pairs_members(b: Seq<Option<(PString, Value)>>, i: int, p: (PString, Value))
    requires
        0 <= i <= b.len(),
    ensures
        pairs_from(b, i).contains(p) <==> exists|k: int| i <= k < b.len() && #[trigger] b[k] == Some(p),
    decreases b.len() - i,
{
    if i < b.len() {
        lemma_pairs_members(b, i + 1, p);
        let rest = pairs_from(b, i + 1);
        let list = pairs_from(b, i);
        if b[i] is Some {
            assert(list[0] == b[i]->0);
            if list.contains(p) {
                let k = choose|k: int| 0 <= k < list.len() && list[k] == p;
                if k == 0 {
                    assert(b[i] == Some(p));
                } else {
                    assert(rest[k - 1] == p);
                    assert(rest.contains(p));
                }
            }
            if rest.contains(p) {
                let k = choose|k: int| 0 <= k < rest.len() && rest[k] == p;
                assert(list[k + 1] == p);
            }
        }
        if exists|k: int| i <= k < b.len() && #[trigger] b[k] == Some(p) {
            let k = choose|k: int| i <= k < b.len() && #[trigger] b[k] == Some(p);
            if k > i {
                assert(rest.contains(p));
                if b[i] is None {
                    assert(list == rest);
                }
            } else {
                assert(list[0] == p);
            }
        }
    }
}

/// Where nothing is held from `i` on, nothing is listed.
pub proof fn lemma_pairs_none(b: Seq<Option<(PString, Value)>>, i: int)
    requires
        0 <= i <= b.len(),
        forall|k: int| i <= k < b.len() ==> #[trigger] b[k] is None,
    ensures
        pairs_from(b, i) == Seq::<(PString, Value)>::empty(),
    decreases b.len() - i,
{
    if i < b.len() {
        lemma_pairs_none(b, i + 1);
    }
}

/// The pairs before a bucket and those from it on are all the pairs.
pub open spec fn rank(b: Seq<Option<(PString, Value)>>, i: int) -> int {
    pairs(b).len() - pairs_from(b, i).len()
}

/// The pairs from a bucket on are a tail of those from any earlier bucket on.
pub proof fn lemma_pairs_tail(b: Seq<Option<(PString, Value)>>, i: int, j: int)
    requires
        0 <= i <= j <= b.len(),
    ensures
        pairs_from(b, j).len() <= pairs_from(b, i).len(),
        pairs_from(b, j) == pairs_from(b, i).skip(pairs_from(b, i).len() - pairs_from(b, j).len()),
    decreases j - i,
{
    let whole = pairs_from(b, i);
    if i < j {
        lemma_pairs_tail(b, i + 1, j);
        let rest = pairs_from(b, i + 1);
        if b[i] is Some {
            assert(whole.skip(1) =~= rest);
            assert(rest.skip(rest.len() - pairs_from(b, j).len()) =~= whole.skip(
                whole.len() - pairs_from(b, j).len(),
            ));
        }
    } else {
        assert(whole.skip(0) =~= whole);
    }
}

/// The pairs from a bucket on are the tail of all pairs that begins at its rank.
pub proof fn lemma_pairs_skip(b: Seq<Option<(PString, Value)>>, i: int)
    requires
        0 <= i <= b.len(),
    ensures
        0 <= rank(b, i) <= pairs(b).len(),
        pairs_from(b, i) == pairs(b).skip(rank(b, i)),
        i < b.len() && b[i] is Some ==> rank(b, i) < pairs(b).len() && pairs(b)[rank(b, i)] == b[i]->0,
{
    lemma_pairs_tail(b, 0, i);
    if i < b.len() && b[i] is Some {
        assert(pairs_from(b, i)[0] == b[i]->0);
        assert(pairs(b).skip(rank(b, i))[0] == pairs(b)[rank(b, i)]);
    }
}

/// A change of one bucket changes nothing behind it.
proof fn lemma_pairs_behind(
    b: Seq<Option<(PString, Value)>>,
    c: Seq<Option<(PString, Value)>>,
    i: int,
)
    requires
        0 <= i <= b.len(),
        b.len() == c.len(),
        forall|k: int| i <= k < b.len() ==> #[trigger] b[k] == c[k],
    ensures
        pairs_from(b, i) == pairs_from(c, i),
    decreases b.len() - i,
{
    if i < b.len() {
        lemma_pairs_behind(b, c, i + 1);
    }
}

/// Changing a pair changes it in the list, from any bucket up to its own on.
pub proof fn lemma_pairs_update(b: Seq<Option<(PString, Value)>>, i: int, k: int, pair: (PString, Value))
    requires
        0 <= i <= k < b.len(),
        b[k] is Some,
    ensures
        ({
            let at = pairs_from(b, i).len() - pairs_from(b, k).len();
            &&& 0 <= at < pairs_from(b, i).len()
            &&& pairs_from(b.update(k, Some(pair)), i) == pairs_from(b, i).update(at, pair)
        }),
    decreases k - i,
{
    let c = b.update(k, Some(pair));
    let at = pairs_from(b, i).len() - pairs_from(b, k).len();
    if i < k {
        lemma_pairs_update(b, i + 1, k, pair);
        lemma_pairs_tail(b, i + 1, k);
        if b[i] is Some {
            assert(pairs_from(c, i) =~= pairs_from(b, i).update(at, pair));
        }
    } else {
        lemma_pairs_behind(b, c, k + 1);
        assert(pairs_from(c, i) =~= pairs_from(b, i).update(0, pair));
    }
}

/// Emptying a bucket takes its pair out of the list, from any bucket up to its own on.
pub proof fn lemma_pairs_remove(b: Seq<Option<(PString, Value)>>, i: int, k: int)
    requires
        0 <= i <= k < b.len(),
        b[k] is Some,
    ensures
        ({
            let at = pairs_from(b, i).len() - pairs_from(b, k).len();
            &&& 0 <= at < pairs_from(b, i).len()
            &&& pairs_from(b.update(k, None), i) == pairs_from(b, i).remove(at)
        }),
    decreases k - i,
{
    let c = b.update(k, None);
    let at = pairs_from(b, i).len() - pairs_from(b, k).len();
    if i < k {
        lemma_pairs_remove(b, i + 1, k);
        lemma_pairs_tail(b, i + 1, k);
        if b[i] is Some {
            assert(pairs_from(c, i) =~= pairs_from(b, i).remove(at));
        }
    } else {
        lemma_pairs_behind(b, c, k + 1);
        assert(pairs_from(c, i) =~= pairs_from(b, i).remove(0));
    }
}

/// A change of a bucket before `i` changes nothing from `i` on.
pub proof fn lemma_pairs_before(b: Seq<Option<(PString, Value)>>, i: int, k: int, slot: Option<(PString, Value)>)
    requires
        0 <= k < i <= b.len(),
    ensures
        pairs_from(b.update(k, slot), i) == pairs_from(b, i),
{
    lemma_pairs_behind(b, b.update(k, slot), i);
}

} // verus!
