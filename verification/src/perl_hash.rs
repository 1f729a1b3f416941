//! The default hash engine: buckets, with the walk's cursor a bucket index.
use crate::bucket_table;
use crate::bucket_table::{
    bucket_at, bucket_count, bucket_value, clear_table, find_key, insert_pair, new_table, remove_bucket, table_len,
    BucketTable,
};
use crate::entries;
use crate::string::PString;
use crate::value::Value;
use vstd::prelude::*;

verus! {

/// The default engine.
pub struct PerlHash {
    table: BucketTable,
    cursor: usize,
}

impl PerlHash {
    /// No key occurs twice or is tainted.
    #[verifier::type_invariant]
    pub closed spec fn wf(self) -> bool {
        &&& entries::distinct_keys(bucket_table::pairs(self.b()))
        &&& entries::clean_keys(bucket_table::pairs(self.b()))
        &&& self.cursor <= self.b().len()
    }

    closed spec fn b(self) -> Seq<Option<(PString, Value)>> {
        bucket_table::buckets(self.table)
    }

    /// The pairs, in the order of a walk.
    pub closed spec fn listing(self) -> Seq<(PString, Value)> {
        bucket_table::pairs(self.b())
    }

    /// The pairs that the current walk has still to yield.
    pub closed spec fn pending(self) -> Seq<(PString, Value)> {
        bucket_table::pairs_from(self.b(), self.cursor as int)
    }

    pub(crate) fn new() -> (r: PerlHash)
        ensures
            r.listing() == Seq::<(PString, Value)>::empty(),
            r.pending() == Seq::<(PString, Value)>::empty(),
    {
        let table = new_table();
        proof {
            bucket_table::lemma_pairs_none(bucket_table::buckets(table), 0);
        }
        PerlHash { table, cursor: 0 }
    }
}

/// No key occurs twice or is tainted, and what is pending ends the listing.
pub proof fn lemma_perl_shape(hash: PerlHash)
    requires
        hash.wf(),
    ensures
        entries::distinct_keys(hash.listing()),
        entries::clean_keys(hash.listing()),
        hash.pending().len() <= hash.listing().len(),
        hash.pending() == hash.listing().skip(hash.listing().len() - hash.pending().len()),
{
    bucket_table::lemma_pairs_skip(hash.b(), hash.cursor as int);
}

proof fn lemma_find_absent(b: Seq<Option<(PString, Value)>>, key: Seq<u8>)
    requires
        forall|i: int| !#[trigger] bucket_table::holds_key(b, i, key),
    ensures
        forall|i: int| !#[trigger] entries::keyed(bucket_table::pairs(b), i, key),
        !entries::contents(bucket_table::pairs(b)).contains_key(key),
{
    let list = bucket_table::pairs(b);
    assert forall|i: int| !#[trigger] entries::keyed(list, i, key) by {
        if entries::keyed(list, i, key) {
            bucket_table::lemma_pairs_members(b, 0, list[i]);
            assert(list.contains(list[i]));
            let k = choose|k: int| 0 <= k < b.len() && #[trigger] b[k] == Some(list[i]);
            assert(bucket_table::holds_key(b, k, key));
        }
    }
}

proof fn lemma_find_present(b: Seq<Option<(PString, Value)>>, k: int)
    requires
        entries::distinct_keys(bucket_table::pairs(b)),
        0 <= k < b.len(),
        b[k] is Some,
    ensures
        entries::keyed(bucket_table::pairs(b), bucket_table::rank(b, k), (b[k]->0).0.encoding()),
        bucket_table::pairs(b)[bucket_table::rank(b, k)] == b[k]->0,
        entries::contents(bucket_table::pairs(b)).contains_key((b[k]->0).0.encoding()),
        entries::contents(bucket_table::pairs(b))[(b[k]->0).0.encoding()] == b[k]->0,
{
    bucket_table::lemma_pairs_skip(b, k);
    entries::lemma_contents_at(bucket_table::pairs(b), bucket_table::rank(b, k));
}

impl PerlHash {
    pub(crate) fn len(&self) -> (r: usize)
        ensures
            r == self.listing().len(),
    {
        table_len(&self.table)
    }

    /// The value of a key.
    pub(crate) fn get(&self, key: &PString) -> (r: Option<&Value>)
        ensures
            r is Some <==> entries::contents(self.listing()).contains_key(key.encoding()),
            r is Some ==> *r->0 == entries::contents(self.listing())[key.encoding()].1,
    {
        proof {
            use_type_invariant(self);
        }
        match find_key(&self.table, key) {
            None => {
                proof {
                    lemma_find_absent(self.b(), key.encoding());
                }
                None
            },
            Some(index) => {
                proof {
                    lemma_find_present(self.b(), index as int);
                }
                match bucket_at(&self.table, index) {
                    Some(pair) => Some(&pair.1),
                    None => None,
                }
            },
        }
    }

    fn take_table(&mut self) -> (r: BucketTable)
        ensures
            r == old(self).table,
    {
        let mut taken = PerlHash::new();
        std::mem::swap(self, &mut taken);
        taken.table
    }

    /// Store a value under a clean key.  A new key restarts the walk; a key that is present leaves it alone.
    pub(crate) fn store(&mut self, key: PString, value: Value)
        requires
            !key.taint_bit(),
        ensures
            entries::contents(final(self).listing()) == entries::stored(
                entries::contents(old(self).listing()),
                key,
                value,
            ),
            !entries::contents(old(self).listing()).contains_key(key.encoding()) ==> {
                final(self).pending() == final(self).listing()
            },
            entries::contents(old(self).listing()).contains_key(key.encoding()) ==> {
                &&& entries::keys_of(final(self).pending()) == entries::keys_of(old(self).pending())
                &&& entries::keys_of(final(self).listing()) == entries::keys_of(old(self).listing())
                &&& entries::encodings(final(self).pending()) == entries::encodings(old(self).pending())
                &&& final(self).pending() == final(self).listing() <==> old(self).pending() == old(self).listing()
            },
    {
        if let Some(slot) = self.value_mut(&key) {
            *slot = value;
            return;
        }
        proof {
            use_type_invariant(&*self);
        }
        let ghost list = self.listing();
        let mut taken = self.take_table();
        insert_pair(&mut taken, key, value);
        proof {
            broadcast use vstd::seq_lib::group_to_multiset_ensures;

            entries::lemma_contents_push(list, (key, value));
            let after = bucket_table::pairs(bucket_table::buckets(taken));
            entries::lemma_contents_rearranged(list.push((key, value)), after);
            entries::lemma_clean_rearranged(list.push((key, value)), after);
        }
        *self = PerlHash { table: taken, cursor: 0 };
    }
}

impl PerlHash {
    /// The value of a key, to be changed in place.  Every pair stays where it stands, and the walk with it.
    pub(crate) fn value_mut(&mut self, key: &PString) -> (r: Option<&mut Value>)
        ensures
            r is Some <==> entries::contents(old(self).listing()).contains_key(key.encoding()),
            r is None ==> *final(self) == *old(self),
            r is Some ==> {
                let pair = entries::contents(old(self).listing())[key.encoding()];
                &&& *r->0 == pair.1
                &&& entries::contents(final(self).listing()) == entries::contents(old(self).listing()).insert(
                    key.encoding(),
                    (pair.0, *final(r->0)),
                )
                &&& entries::keys_of(final(self).pending()) == entries::keys_of(old(self).pending())
                &&& entries::keys_of(final(self).listing()) == entries::keys_of(old(self).listing())
                &&& entries::encodings(final(self).pending()) == entries::encodings(old(self).pending())
                &&& final(self).pending() == final(self).listing() <==> old(self).pending() == old(self).listing()
            },
    {
        proof {
            use_type_invariant(&*self);
        }
        match find_key(&self.table, key) {
            None => {
                proof {
                    lemma_find_absent(self.b(), key.encoding());
                }
                None
            },
            Some(index) => {
                proof {
                    lemma_find_present(self.b(), index as int);
                    let b = self.b();
                    let k = index as int;
                    let cursor = self.cursor as int;
                    assert forall|value: Value| #![trigger b.update(k, Some(((b[k]->0).0, value)))] changed_in_place(
                        b,
                        k,
                        cursor,
                        value,
                    ) by {
                        lemma_changed_in_place(b, k, cursor, value);
                    }
                }
                bucket_value(&mut self.table, index)
            },
        }
    }

    /// Take a key out.  No other pair moves, so a walk goes on with what was pending, less this key.
    pub(crate) fn delete(&mut self, key: &PString) -> (r: Option<Value>)
        ensures
            r == entries::value_of_key(entries::contents(old(self).listing()), key.encoding()),
            entries::contents(final(self).listing()) == entries::contents(old(self).listing()).remove(key.encoding()),
            final(self).listing() == entries::without_key(old(self).listing(), key.encoding()),
            final(self).pending() == entries::without_key(old(self).pending(), key.encoding()),
    {
        proof {
            use_type_invariant(&*self);
        }
        let ghost b = self.b();
        let ghost list = self.listing();
        let ghost pending = self.pending();
        let cursor: usize = self.cursor;
        match find_key(&self.table, key) {
            None => {
                proof {
                    lemma_find_absent(b, key.encoding());
                    entries::lemma_without_absent(list, key.encoding());
                    bucket_table::lemma_pairs_skip(b, cursor as int);
                    let before = list.len() - pending.len();
                    assert forall|i: int| !#[trigger] entries::keyed(pending, i, key.encoding()) by {
                        assert(!entries::keyed(list, i + before, key.encoding()));
                    }
                    entries::lemma_without_absent(pending, key.encoding());
                    assert(entries::contents(list).remove(key.encoding()) =~= entries::contents(list));
                }
                None
            },
            Some(index) => {
                let mut taken = self.take_table();
                let removed = remove_bucket(&mut taken, index);
                proof {
                    let k = index as int;
                    let at = bucket_table::rank(b, k);
                    lemma_find_present(b, k);
                    bucket_table::lemma_pairs_remove(b, 0, k);
                    entries::lemma_contents_remove(list, at);
                    entries::lemma_without_at(list, at, key.encoding());
                    entries::lemma_clean_update(list, at, list[at]);
                    bucket_table::lemma_pairs_skip(b, cursor as int);
                    let before = list.len() - pending.len();
                    entries::lemma_distinct_skip(list, before);
                    if cursor <= k {
                        bucket_table::lemma_pairs_remove(b, cursor as int, k);
                        assert(pending[at - before] == list[at]);
                        entries::lemma_without_at(pending, at - before, key.encoding());
                    } else {
                        bucket_table::lemma_pairs_before(b, cursor as int, k, None);
                        lemma_rank_before(b, k, cursor as int);
                        assert forall|i: int| !#[trigger] entries::keyed(pending, i, key.encoding()) by {
                            if entries::keyed(pending, i, key.encoding()) {
                                assert(list[i + before].0.encoding() == list[at].0.encoding());
                            }
                        }
                        entries::lemma_without_absent(pending, key.encoding());
                    }
                }
                *self = PerlHash { table: taken, cursor };
                match removed {
                    Some(pair) => Some(pair.1),
                    None => None,
                }
            },
        }
    }

    /// The next pair of the walk, or nothing at its end, where the walk begins anew.
    pub(crate) fn each(&mut self) -> (r: Option<(PString, Value)>)
        ensures
            final(self).listing() == old(self).listing(),
            old(self).pending().len() == 0 ==> r is None && final(self).pending() == final(self).listing(),
            old(self).pending().len() > 0 ==> {
                &&& r == Some(old(self).pending()[0])
                &&& final(self).pending() == old(self).pending().drop_first()
            },
    {
        proof {
            use_type_invariant(&*self);
        }
        let ghost b = self.b();
        let ghost pending = self.pending();
        let end: usize = bucket_count(&self.table);
        let mut cursor: usize = self.cursor;
        while cursor < end
            invariant
                b == bucket_table::buckets(self.table),
                end == b.len(),
                cursor <= end,
                *self == *old(self),
                self.wf(),
                b == self.b(),
                pending == bucket_table::pairs_from(b, cursor as int),
                pending == old(self).pending(),
            decreases end - cursor,
        {
            let bucket: usize = cursor;
            cursor = cursor + 1;
            if let Some(pair) = bucket_at(&self.table, bucket) {
                let yielded = (pair.0.clone(), pair.1.clone());
                self.cursor = cursor;
                assert(pending[0] == yielded);
                assert(pending.drop_first() =~= bucket_table::pairs_from(b, cursor as int));
                return Some(yielded);
            }
        }
        self.cursor = 0;
        None
    }

    /// The walk begins anew.
    pub(crate) fn rewind(&mut self)
        ensures
            final(self).listing() == old(self).listing(),
            final(self).pending() == final(self).listing(),
    {
        proof {
            use_type_invariant(&*self);
        }
        self.cursor = 0;
    }

    /// The pairs in the order of a walk.
    pub(crate) fn pairs(&self) -> (r: Vec<(PString, Value)>)
        ensures
            r@ == self.listing(),
    {
        let mut out: Vec<(PString, Value)> = Vec::new();
        let end: usize = bucket_count(&self.table);
        let mut i: usize = 0;
        let ghost b = self.b();
        assert(out@ + bucket_table::pairs_from(b, 0) =~= bucket_table::pairs(b));
        while i < end
            invariant
                b == bucket_table::buckets(self.table),
                end == b.len(),
                i <= end,
                out@ + bucket_table::pairs_from(b, i as int) == bucket_table::pairs(b),
            decreases end - i,
        {
            let ghost rest = bucket_table::pairs_from(b, i + 1);
            if let Some(pair) = bucket_at(&self.table, i) {
                out.push((pair.0.clone(), pair.1.clone()));
            }
            i = i + 1;
            assert(out@ + rest =~= bucket_table::pairs(b));
        }
        assert(out@ =~= bucket_table::pairs(b));
        out
    }

    /// No pairs.
    pub(crate) fn clear(&mut self)
        ensures
            final(self).listing() == Seq::<(PString, Value)>::empty(),
            final(self).pending() == Seq::<(PString, Value)>::empty(),
    {
        let mut taken = self.take_table();
        clear_table(&mut taken);
        proof {
            bucket_table::lemma_pairs_none(bucket_table::buckets(taken), 0);
        }
        *self = PerlHash { table: taken, cursor: 0 };
    }
}

/// What holds once the value in the bucket `k` is changed, of a walk whose cursor is at `cursor`.
spec fn changed_in_place(b: Seq<Option<(PString, Value)>>, k: int, cursor: int, value: Value) -> bool {
    let pair = ((b[k]->0).0, value);
    let after = b.update(k, Some(pair));
    &&& entries::distinct_keys(bucket_table::pairs(after))
    &&& entries::clean_keys(bucket_table::pairs(after))
    &&& entries::contents(bucket_table::pairs(after)) == entries::contents(bucket_table::pairs(b)).insert(
        pair.0.encoding(),
        pair,
    )
    &&& entries::keys_of(bucket_table::pairs(after)) == entries::keys_of(bucket_table::pairs(b))
    &&& entries::keys_of(bucket_table::pairs_from(after, cursor)) == entries::keys_of(
        bucket_table::pairs_from(b, cursor),
    )
    &&& entries::encodings(bucket_table::pairs_from(after, cursor)) == entries::encodings(
        bucket_table::pairs_from(b, cursor),
    )
    &&& bucket_table::pairs_from(after, cursor) == bucket_table::pairs(after) <==> bucket_table::pairs_from(b, cursor)
        == bucket_table::pairs(b)
}

proof fn lemma_changed_in_place(b: Seq<Option<(PString, Value)>>, k: int, cursor: int, value: Value)
    requires
        entries::distinct_keys(bucket_table::pairs(b)),
        entries::clean_keys(bucket_table::pairs(b)),
        0 <= k < b.len(),
        b[k] is Some,
        0 <= cursor <= b.len(),
    ensures
        changed_in_place(b, k, cursor, value),
{
    let list = bucket_table::pairs(b);
    let pair = ((b[k]->0).0, value);
    let at = bucket_table::rank(b, k);
    lemma_find_present(b, k);
    bucket_table::lemma_pairs_update(b, 0, k, pair);
    entries::lemma_contents_update(list, at, pair);
    assert(!list[at].0.taint_bit());
    entries::lemma_clean_update(list, at, pair);
    let pending = bucket_table::pairs_from(b, cursor);
    if cursor <= k {
        let place = pending.len() - bucket_table::pairs_from(b, k).len();
        bucket_table::lemma_pairs_update(b, cursor, k, pair);
        bucket_table::lemma_pairs_skip(b, cursor);
        assert(pending[place] == list[at]);
        assert(entries::keys_of(pending.update(place, pair)) =~= entries::keys_of(pending));
    } else {
        bucket_table::lemma_pairs_before(b, cursor, k, Some(pair));
    }
    assert(entries::keys_of(list.update(at, pair)) =~= entries::keys_of(list));
    let after = b.update(k, Some(pair));
    entries::lemma_same_keys(bucket_table::pairs_from(after, cursor), pending);
    bucket_table::lemma_pairs_skip(b, cursor);
    bucket_table::lemma_pairs_skip(after, cursor);
    assert(entries::keys_of(bucket_table::pairs_from(after, cursor)).len() == bucket_table::pairs_from(after, cursor).len());
    assert(entries::keys_of(pending).len() == pending.len());
    assert(list.skip(0) =~= list);
    assert(bucket_table::pairs(after).skip(0) =~= bucket_table::pairs(after));
}

proof fn lemma_rank_before(b: Seq<Option<(PString, Value)>>, k: int, i: int)
    requires
        0 <= k < i <= b.len(),
        b[k] is Some,
    ensures
        bucket_table::rank(b, k) < bucket_table::rank(b, i),
{
    bucket_table::lemma_pairs_tail(b, k + 1, i);
}

} // verus!
