//! The insertion-ordered hash engine, with the walk's cursor an entry index.
use crate::entries;
use crate::ordered_map;
use crate::ordered_map::{map_at, map_clear, map_insert, map_len, map_position, map_swap_remove, map_value, new_map};
use crate::string::PString;
use crate::value::Value;
use indexmap::IndexMap;
use vstd::prelude::*;

verus! {

/// The insertion-ordered engine.
pub struct OrderedHash {
    map: IndexMap<PString, Value>,
    cursor: usize,
}

impl OrderedHash {
    /// No key occurs twice or is tainted.
    #[verifier::type_invariant]
    pub closed spec fn wf(self) -> bool {
        &&& entries::distinct_keys(ordered_map::map_pairs(self.map))
        &&& entries::clean_keys(ordered_map::map_pairs(self.map))
        &&& self.cursor <= ordered_map::map_pairs(self.map).len()
    }

    /// The pairs, in the order of a walk.
    pub closed spec fn listing(self) -> Seq<(PString, Value)> {
        ordered_map::map_pairs(self.map)
    }

    /// How many pairs the current walk has passed.
    pub closed spec fn passed(self) -> nat {
        self.cursor as nat
    }

    /// The pairs that the current walk has still to yield.
    pub open spec fn pending(self) -> Seq<(PString, Value)> {
        self.listing().skip(self.passed() as int)
    }

    pub(crate) fn new() -> (r: OrderedHash)
        ensures
            r.listing() == Seq::<(PString, Value)>::empty(),
            r.passed() == 0,
    {
        OrderedHash { map: new_map(), cursor: 0 }
    }

    pub(crate) fn len(&self) -> (r: usize)
        ensures
            r == self.listing().len(),
    {
        map_len(&self.map)
    }

    /// The value of a key.
    pub(crate) fn get(&self, key: &PString) -> (r: Option<&Value>)
        ensures
            r is Some <==> entries::contents(self.listing()).contains_key(key.encoding()),
            r is Some ==> *r->0 == entries::contents(self.listing())[key.encoding()].1,
    {
        proof {
            use_type_invariant(self);
        }
        match map_position(&self.map, key) {
            None => None,
            Some(index) => {
                proof {
                    entries::lemma_contents_at(self.listing(), index as int);
                }
                match map_at(&self.map, index) {
                    Some((_, value)) => Some(value),
                    None => None,
                }
            },
        }
    }

    fn take_map(&mut self) -> (r: IndexMap<PString, Value>)
        ensures
            r == old(self).map,
    {
        let mut taken = OrderedHash::new();
        std::mem::swap(self, &mut taken);
        taken.map
    }

    /// The value of a key, to be changed in place.  Every pair stays where it stands, and the walk with it.
    pub(crate) fn value_mut(&mut self, key: &PString) -> (r: Option<&mut Value>)
        ensures
            r is Some <==> entries::contents(old(self).listing()).contains_key(key.encoding()),
            r is None ==> *final(self) == *old(self),
            r is Some ==> {
                let pair = entries::contents(old(self).listing())[key.encoding()];
                let list = old(self).listing();
                &&& *r->0 == pair.1
                &&& entries::contents(final(self).listing()) == entries::contents(old(self).listing()).insert(
                    key.encoding(),
                    (pair.0, *final(r->0)),
                )
                &&& entries::keys_of(final(self).listing()) == entries::keys_of(old(self).listing())
                &&& final(self).passed() == old(self).passed()
                &&& entries::encodings(final(self).pending()) == entries::encodings(old(self).pending())
                &&& forall|i: int| #[trigger]
                    entries::keyed(list, i, key.encoding()) ==> final(self).listing() == list.update(
                        i,
                        (list[i].0, *final(r->0)),
                    )
            },
    {
        proof {
            use_type_invariant(&*self);
        }
        match map_position(&self.map, key) {
            None => None,
            Some(index) => {
                proof {
                    let list = self.listing();
                    let i = index as int;
                    entries::lemma_contents_at(list, i);
                    assert forall|value: Value| #![trigger list.update(i, (list[i].0, value))] entries::changed_in_place(
                        list,
                        i,
                        value,
                    ) && entries::encodings(list.update(i, (list[i].0, value)).skip(self.passed() as int))
                        == entries::encodings(self.pending()) by {
                        entries::lemma_changed_in_place(list, i, value);
                        entries::lemma_encodings_skip(list, self.passed() as int);
                        entries::lemma_encodings_skip(list.update(i, (list[i].0, value)), self.passed() as int);
                    }
                }
                map_value(&mut self.map, index)
            },
        }
    }

    /// Store a value under a clean key.  A new key goes to the end, and the walk is left alone.
    pub(crate) fn store(&mut self, key: PString, value: Value)
        requires
            !key.taint_bit(),
        ensures
            final(self).passed() == old(self).passed(),
            entries::contents(final(self).listing()) == entries::stored(
                entries::contents(old(self).listing()),
                key,
                value,
            ),
            entries::contents(old(self).listing()).contains_key(key.encoding()) ==> entries::keys_of(
                final(self).listing(),
            ) == entries::keys_of(old(self).listing()),
            !entries::contents(old(self).listing()).contains_key(key.encoding()) ==> {
                final(self).listing() == old(self).listing().push((key, value))
            },
    {
        proof {
            use_type_invariant(&*self);
        }
        let ghost list = self.listing();
        let ghost encoding = key.encoding();
        let cursor: usize = self.cursor;
        let mut map = self.take_map();
        map_insert(&mut map, key, value);
        proof {
            let after = ordered_map::map_pairs(map);
            if entries::contents(list).contains_key(encoding) {
                let i = choose|i: int| #[trigger] entries::keyed(list, i, encoding);
                entries::lemma_contents_at(list, i);
                entries::lemma_contents_update(list, i, (list[i].0, value));
                assert(entries::keys_of(after) =~= entries::keys_of(list));
            } else {
                assert forall|i: int| !#[trigger] entries::keyed(list, i, encoding) by {
                    if entries::keyed(list, i, encoding) {
                        entries::lemma_contents_at(list, i);
                    }
                }
                entries::lemma_contents_push(list, (key, value));
            }
        }
        *self = OrderedHash { map, cursor };
    }

    /// Take a key out, the last pair taking its place.
    pub(crate) fn delete(&mut self, key: &PString) -> (r: Option<Value>)
        ensures
            r == entries::value_of_key(entries::contents(old(self).listing()), key.encoding()),
            entries::contents(final(self).listing()) == entries::contents(old(self).listing()).remove(key.encoding()),
            r is None ==> final(self).listing() == old(self).listing() && final(self).passed() == old(self).passed(),
            forall|i: int| #[trigger]
                entries::keyed(old(self).listing(), i, key.encoding()) ==> {
                    &&& final(self).listing() == ordered_map::swap_removed(old(self).listing(), i)
                    &&& final(self).passed() == (if i < old(self).passed() {
                        (old(self).passed() - 1) as nat
                    } else {
                        old(self).passed()
                    })
                },
    {
        proof {
            use_type_invariant(&*self);
        }
        let ghost list = self.listing();
        let cursor: usize = self.cursor;
        match map_position(&self.map, key) {
            None => {
                assert(entries::contents(list).remove(key.encoding()) =~= entries::contents(list));
                None
            },
            Some(index) => {
                let mut map = self.take_map();
                let removed = map_swap_remove(&mut map, index);
                proof {
                    let i = index as int;
                    lemma_swap_removed(list, i);
                    entries::lemma_contents_at(list, i);
                    assert forall|k: int| #[trigger] entries::keyed(list, k, key.encoding()) implies k == i by {
                        assert(list[k].0.encoding() == list[i].0.encoding());
                    }
                }
                *self = OrderedHash { map, cursor: if index < cursor { cursor - 1 } else { cursor } };
                match removed {
                    Some(pair) => Some(pair.1),
                    None => None,
                }
            },
        }
    }

    /// The next pair of the walk, or nothing at its end, where the walk begins anew.
    pub(crate) fn each(&mut self) -> (r: Option<(PString, Value)>)
        ensures
            final(self).listing() == old(self).listing(),
            old(self).pending().len() == 0 ==> r is None && final(self).passed() == 0,
            old(self).pending().len() > 0 ==> {
                &&& r == Some(old(self).pending()[0])
                &&& final(self).passed() == old(self).passed() + 1
            },
    {
        proof {
            use_type_invariant(&*self);
        }
        if self.cursor < map_len(&self.map) {
            if let Some((key, value)) = map_at(&self.map, self.cursor) {
                let pair = (key.clone(), value.clone());
                self.cursor = self.cursor + 1;
                return Some(pair);
            }
        }
        self.cursor = 0;
        None
    }

    /// The walk begins anew.
    pub(crate) fn rewind(&mut self)
        ensures
            final(self).listing() == old(self).listing(),
            final(self).passed() == 0,
    {
        proof {
            use_type_invariant(&*self);
        }
        self.cursor = 0;
    }

    /// The pairs in the order of a walk.
    pub(crate) fn pairs(&self) -> (r: Vec<(PString, Value)>)
        ensures
            r@ == self.listing(),
    {
        let mut out: Vec<(PString, Value)> = Vec::new();
        let end: usize = map_len(&self.map);
        let mut i: usize = 0;
        while i < end
            invariant
                end == self.listing().len(),
                i <= end,
                out@ == self.listing().take(i as int),
            decreases end - i,
        {
            if let Some((key, value)) = map_at(&self.map, i) {
                out.push((key.clone(), value.clone()));
            }
            i = i + 1;
            assert(out@ =~= self.listing().take(i as int));
        }
        assert(out@ =~= self.listing());
        out
    }

    /// No pairs.
    pub(crate) fn clear(&mut self)
        ensures
            final(self).listing() == Seq::<(PString, Value)>::empty(),
            final(self).passed() == 0,
    {
        let mut map = self.take_map();
        map_clear(&mut map);
        *self = OrderedHash { map, cursor: 0 };
    }
}

/// No key occurs twice or is tainted, and a walk has passed some of the pairs.
pub proof fn lemma_ordered_shape(hash: OrderedHash)
    requires
        hash.wf(),
    ensures
        entries::distinct_keys(hash.listing()),
        entries::clean_keys(hash.listing()),
        hash.passed() <= hash.listing().len(),
{
}

proof fn lemma_swap_removed(list: Seq<(PString, Value)>, i: int)
    requires
        entries::distinct_keys(list),
        entries::clean_keys(list),
        0 <= i < list.len(),
    ensures
        entries::distinct_keys(ordered_map::swap_removed(list, i)),
        entries::clean_keys(ordered_map::swap_removed(list, i)),
        entries::contents(ordered_map::swap_removed(list, i)) == entries::contents(list).remove(
            list[i].0.encoding(),
        ),
{
    let after = ordered_map::swap_removed(list, i);
    let rest = list.remove(i);
    let last = list.len() - 1;
    assert forall|a: int, b: int|
        0 <= a < after.len() && 0 <= b < after.len() && #[trigger] after[a].0.encoding()
            == #[trigger] after[b].0.encoding() implies a == b by {
        let p = if a == i { last } else { a };
        let q = if b == i { last } else { b };
        assert(list[p].0.encoding() == list[q].0.encoding());
    }
    assert forall|a: int| 0 <= a < after.len() implies !(#[trigger] after[a]).0.taint_bit() by {
        assert(!list[if a == i { last } else { a }].0.taint_bit());
    }
    entries::lemma_contents_remove(list, i);
    assert forall|p: (PString, Value)| #[trigger] after.contains(p) <==> rest.contains(p) by {
        if after.contains(p) {
            let a = choose|a: int| 0 <= a < after.len() && after[a] == p;
            let k = if a == i {
                last - 1
            } else if a < i {
                a
            } else {
                a - 1
            };
            assert(rest[k] == p);
        }
        if rest.contains(p) {
            let k = choose|k: int| 0 <= k < rest.len() && rest[k] == p;
            let a = if k < i {
                k
            } else if k == last - 1 {
                i
            } else {
                k + 1
            };
            assert(after[a] == p);
        }
    }
    entries::lemma_contents_by_members(after, rest);
}

/// Deleting the pair that a walk yielded last is safe: the pairs still to come are the same, in an order of their own.
pub proof fn law_delete_current_keeps_the_rest(list: Seq<(PString, Value)>, passed: int)
    requires
        0 < passed <= list.len(),
    ensures
        ordered_map::swap_removed(list, passed - 1).skip(passed - 1).to_multiset() == list.skip(passed).to_multiset(),
{
    let after = ordered_map::swap_removed(list, passed - 1).skip(passed - 1);
    let rest = list.skip(passed);
    if passed == list.len() {
        assert(after =~= rest);
    } else {
        let middle = list.subrange(passed, list.len() - 1);
        let last = seq![list.last()];
        assert(after =~= last + middle);
        assert(rest =~= middle + last);
        vstd::seq_lib::lemma_multiset_commutative(last, middle);
        vstd::seq_lib::lemma_multiset_commutative(middle, last);
    }
}

} // verus!
