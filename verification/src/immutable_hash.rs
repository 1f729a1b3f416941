//! The immutable hash engine: a persistent map with cheap detached copies.  A walk goes over such a copy and looks each
//! key up anew, so that deleted keys are skipped, values are the current ones, and new keys wait for the next walk.
use crate::entries;
use crate::key_tree;
use crate::key_tree::{
    key_tree_clone, key_tree_get, key_tree_insert, key_tree_len, key_tree_remove, key_tree_value, new_key_tree,
    start_walk, walk_next, KeyTree, KeyWalk,
};
use crate::string::PString;
use crate::value::Value;
use vstd::prelude::*;

verus! {

/// The immutable engine.
pub struct ImmutableHash {
    map: KeyTree,
    walk: Option<KeyWalk>,
}

/// The keys of the pairs that are still in the map.
pub open spec fn live_keys(rest: Seq<(PString, Value)>, map: Map<Seq<u8>, (PString, Value)>) -> Seq<Seq<u8>>
    decreases rest.len(),
{
    if rest.len() == 0 {
        seq![]
    } else if map.contains_key(rest[0].0.encoding()) {
        seq![rest[0].0.encoding()] + live_keys(rest.drop_first(), map)
    } else {
        live_keys(rest.drop_first(), map)
    }
}

/// The keys of the pairs that are still in the map, as they are spelled there.
pub open spec fn live_names(rest: Seq<(PString, Value)>, map: Map<Seq<u8>, (PString, Value)>) -> Seq<PString>
    decreases rest.len(),
{
    if rest.len() == 0 {
        seq![]
    } else if map.contains_key(rest[0].0.encoding()) {
        seq![rest[0].0] + live_names(rest.drop_first(), map)
    } else {
        live_names(rest.drop_first(), map)
    }
}

/// The order without a key.
pub open spec fn order_without(order: Seq<Seq<u8>>, key: Seq<u8>) -> Seq<Seq<u8>>
    decreases order.len(),
{
    if order.len() == 0 {
        order
    } else if order[0] == key {
        order_without(order.drop_first(), key)
    } else {
        seq![order[0]] + order_without(order.drop_first(), key)
    }
}

impl ImmutableHash {
    /// No key occurs twice or is tainted, neither in the map nor in the copy that a walk goes over.
    #[verifier::type_invariant]
    pub closed spec fn wf(self) -> bool {
        &&& entries::distinct_keys(key_tree::tree_pairs(self.map))
        &&& entries::clean_keys(key_tree::tree_pairs(self.map))
        &&& self.walk is Some ==> entries::clean_keys(key_tree::walk_rest(self.walk->0))
        &&& self.walk is Some ==> entries::distinct_keys(key_tree::walk_rest(self.walk->0))
    }

    /// The pairs, in the order of a walk that begins.
    pub closed spec fn listing(self) -> Seq<(PString, Value)> {
        key_tree::tree_pairs(self.map)
    }

    /// The entries.
    pub open spec fn map_entries(self) -> Map<Seq<u8>, (PString, Value)> {
        entries::contents(self.listing())
    }

    /// Whether a walk is under way.
    pub closed spec fn walking(self) -> bool {
        self.walk is Some
    }

    /// The keys in the order that the walk goes on, or begins, in.
    pub open spec fn order(self) -> Seq<Seq<u8>> {
        if self.walking() {
            self.pending_keys()
        } else {
            entries::encodings(self.listing())
        }
    }

    /// The keys that the walk goes on, or begins, with, as they are spelled in what it goes over.
    pub closed spec fn names(self) -> Seq<PString> {
        if self.walk is Some {
            live_names(key_tree::walk_rest(self.walk->0), key_tree::tree_entries(self.map))
        } else {
            entries::keys_of(self.listing())
        }
    }

    /// Whether the walk under way has the key in its own copy, still ahead.
    pub closed spec fn copy_holds(self, key: Seq<u8>) -> bool {
        exists|i: int| #[trigger] entries::keyed(key_tree::walk_rest(self.walk->0), i, key)
    }

    /// The keys that the walk under way has still to yield.
    pub closed spec fn pending_keys(self) -> Seq<Seq<u8>> {
        live_keys(key_tree::walk_rest(self.walk->0), key_tree::tree_entries(self.map))
    }

    pub(crate) fn new() -> (r: ImmutableHash)
        ensures
            r.listing() == Seq::<(PString, Value)>::empty(),
            !r.walking(),
    {
        ImmutableHash { map: new_key_tree(), walk: None }
    }

    pub(crate) fn len(&self) -> (r: usize)
        ensures
            r == self.listing().len(),
    {
        key_tree_len(&self.map)
    }

    /// The value of a key.
    pub(crate) fn get(&self, key: &PString) -> (r: Option<&Value>)
        ensures
            r is Some <==> self.map_entries().contains_key(key.encoding()),
            r is Some ==> *r->0 == self.map_entries()[key.encoding()].1,
    {
        key_tree_get(&self.map, key)
    }

    fn take_parts(&mut self) -> (r: (KeyTree, Option<KeyWalk>))
        ensures
            r == (old(self).map, old(self).walk),
    {
        let mut taken = ImmutableHash::new();
        std::mem::swap(self, &mut taken);
        (taken.map, taken.walk)
    }

    /// The value of a key, to be changed in place.  Every pair stays where it stands, and the walk with it.
    pub(crate) fn value_mut(&mut self, key: &PString) -> (r: Option<&mut Value>)
        ensures
            r is Some <==> old(self).map_entries().contains_key(key.encoding()),
            r is None ==> *final(self) == *old(self),
            r is Some ==> {
                let pair = old(self).map_entries()[key.encoding()];
                &&& *r->0 == pair.1
                &&& final(self).map_entries() == old(self).map_entries().insert(
                    key.encoding(),
                    (pair.0, *final(r->0)),
                )
                &&& entries::keys_of(final(self).listing()) == entries::keys_of(old(self).listing())
                &&& final(self).walking() == old(self).walking()
                &&& final(self).order() == old(self).order()
            },
    {
        proof {
            use_type_invariant(&*self);
        }
        if key_tree_get(&self.map, key).is_none() {
            return None;
        }
        proof {
            let list = self.listing();
            let i = choose|i: int| #[trigger] entries::keyed(list, i, key.encoding());
            let rest = key_tree::walk_rest(self.walk->0);
            entries::lemma_contents_at(list, i);
            assert(entries::keyed(key_tree::tree_pairs(self.map), i, key.encoding()));
            assert forall|value: Value| #![trigger list.update(i, (list[i].0, value))] entries::changed_in_place(
                list,
                i,
                value,
            ) && live_keys(rest, entries::contents(list.update(i, (list[i].0, value)))) == live_keys(
                rest,
                entries::contents(list),
            ) by {
                entries::lemma_changed_in_place(list, i, value);
                let after = entries::contents(list.update(i, (list[i].0, value)));
                assert(after.dom() =~= entries::contents(list).dom());
                lemma_live_same(rest, entries::contents(list), after);
            }
        }
        key_tree_value(&mut self.map, key)
    }

    /// Store a value under a clean key.  A walk under way goes on over its own copy; a new key comes up in it only where
    /// the copy has it still ahead.
    pub(crate) fn store(&mut self, key: PString, value: Value)
        requires
            !key.taint_bit(),
        ensures
            final(self).map_entries() == entries::stored(old(self).map_entries(), key, value),
            final(self).walking() == old(self).walking(),
            old(self).map_entries().contains_key(key.encoding()) ==> entries::keys_of(final(self).listing())
                == entries::keys_of(old(self).listing()),
            old(self).walking() && (old(self).map_entries().contains_key(key.encoding()) || !old(self).copy_holds(
                key.encoding(),
            )) ==> final(self).pending_keys() == old(self).pending_keys(),
            old(self).walking() && !old(self).map_entries().contains_key(key.encoding()) && old(self).copy_holds(
                key.encoding(),
            ) ==> {
                &&& final(self).pending_keys().contains(key.encoding())
                &&& order_without(final(self).pending_keys(), key.encoding()) == old(self).pending_keys()
            },
    {
        if let Some(slot) = self.value_mut(&key) {
            *slot = value;
            return;
        }
        proof {
            use_type_invariant(&*self);
        }
        let (mut map, walk) = self.take_parts();
        let ghost list = key_tree::tree_pairs(map);
        let ghost before = key_tree::tree_entries(map);
        let ghost encoding = key.encoding();
        key_tree_insert(&mut map, key, value);
        proof {
            broadcast use vstd::seq_lib::group_to_multiset_ensures;

            let after = key_tree::tree_entries(map);
            entries::lemma_contents_push(list, (key, value));
            entries::lemma_contents_rearranged(list.push((key, value)), key_tree::tree_pairs(map));
            entries::lemma_clean_rearranged(list.push((key, value)), key_tree::tree_pairs(map));
            if walk is Some {
                let rest = key_tree::walk_rest(walk->0);
                if !old(self).copy_holds(encoding) {
                    lemma_live_added(rest, before, encoding, (key, value));
                } else {
                    lemma_live_removed(rest, after, encoding);
                    assert(after.remove(encoding) =~= before);
                    lemma_live_members(rest, after, encoding);
                }
            }
        }
        *self = ImmutableHash { map, walk };
    }

    /// Take a key out.  A walk under way skips it.
    pub(crate) fn delete(&mut self, key: &PString) -> (r: Option<Value>)
        ensures
            r == entries::value_of_key(old(self).map_entries(), key.encoding()),
            final(self).map_entries() == old(self).map_entries().remove(key.encoding()),
            final(self).walking() == old(self).walking(),
            old(self).walking() ==> final(self).pending_keys() == order_without(
                old(self).pending_keys(),
                key.encoding(),
            ),
    {
        proof {
            use_type_invariant(&*self);
        }
        let (mut map, walk) = self.take_parts();
        let ghost list = key_tree::tree_pairs(map);
        let ghost before = key_tree::tree_entries(map);
        let r = key_tree_remove(&mut map, key);
        proof {
            broadcast use vstd::seq_lib::group_to_multiset_ensures;

            let pairs = key_tree::tree_pairs(map);
            if before.contains_key(key.encoding()) {
                let i = choose|i: int| #[trigger] entries::keyed(list, i, key.encoding());
                entries::lemma_contents_at(list, i);
                entries::lemma_contents_remove(list, i);
                entries::lemma_clean_update(list, i, list[i]);
                entries::lemma_contents_rearranged(list.remove(i), pairs);
                entries::lemma_clean_rearranged(list.remove(i), pairs);
            } else {
                entries::lemma_contents_rearranged(list, pairs);
                entries::lemma_clean_rearranged(list, pairs);
                assert(before.remove(key.encoding()) =~= before);
            }
            if walk is Some {
                lemma_live_removed(key_tree::walk_rest(walk->0), before, key.encoding());
            }
        }
        *self = ImmutableHash { map, walk };
        r
    }

    /// The next pair of the walk, or nothing at its end.  Without a walk under way one begins, in an order of its own.
    pub(crate) fn each(&mut self) -> (r: Option<(PString, Value)>)
        ensures
            final(self).listing() == old(self).listing(),
            steps(*old(self), *final(self), old(self).order(), r),
    {
        proof {
            use_type_invariant(&*self);
        }
        let (map, parked) = self.take_parts();
        let ghost list = key_tree::tree_pairs(map);
        let ghost all = key_tree::tree_entries(map);
        let mut walk = match parked {
            Some(walk) => walk,
            None => start_walk(key_tree_clone(&map)),
        };
        let ghost order = live_keys(key_tree::walk_rest(walk), all);
        let ghost names = live_names(key_tree::walk_rest(walk), all);
        proof {
            if parked is None {
                lemma_all_live(list, list.len() as int);
                lemma_all_named(list, list.len() as int);
                assert(list.skip(0) =~= list);
            }
            lemma_named_like_ordered(key_tree::walk_rest(walk), all);
        }
        loop
            invariant
                all == key_tree::tree_entries(map),
                list == key_tree::tree_pairs(map),
                entries::distinct_keys(list),
                entries::clean_keys(list),
                entries::clean_keys(key_tree::walk_rest(walk)),
                entries::distinct_keys(key_tree::walk_rest(walk)),
                order == live_keys(key_tree::walk_rest(walk), all),
                list == old(self).listing(),
                order == old(self).order(),
                names == live_names(key_tree::walk_rest(walk), all),
                names == old(self).names(),
                names.len() == order.len(),
            decreases key_tree::walk_rest(walk).len(),
        {
            let ghost rest = key_tree::walk_rest(walk);
            match walk_next(&mut walk) {
                None => {
                    *self = ImmutableHash { map, walk: None };
                    assert(steps(*old(self), *self, order, None));
                    return None;
                },
                Some((key, _)) => {
                    proof {
                        assert(!rest[0].0.taint_bit());
                        entries::lemma_distinct_skip(rest, 1);
                        entries::lemma_clean_skip(rest, 1);
                        assert(rest.skip(1) =~= rest.drop_first());
                    }
                    let found: Option<Value> = match key_tree_get(&map, &key) {
                        Some(live) => Some(live.clone()),
                        None => None,
                    };
                    if let Some(live) = found {
                        *self = ImmutableHash { map, walk: Some(walk) };
                        assert(order.drop_first() =~= live_keys(rest.drop_first(), all));
                        assert(names.drop_first() =~= live_names(rest.drop_first(), all));
                        assert(steps(*old(self), *self, order, Some((key, live))));
                        return Some((key, live));
                    }
                },
            }
        }
    }

    /// A walk under way is given up.
    pub(crate) fn rewind(&mut self)
        ensures
            final(self).listing() == old(self).listing(),
            !final(self).walking(),
    {
        proof {
            use_type_invariant(&*self);
        }
        self.walk = None;
    }

    /// The pairs in the order of a walk.
    pub(crate) fn pairs(&self) -> (r: Vec<(PString, Value)>)
        ensures
            r@ == self.listing(),
    {
        let mut walk = start_walk(key_tree_clone(&self.map));
        let ghost whole = key_tree::walk_rest(walk);
        let mut out: Vec<(PString, Value)> = Vec::new();
        assert(out@ + whole =~= whole);
        loop
            invariant
                out@ + key_tree::walk_rest(walk) == whole,
            ensures
                out@ == whole,
            decreases key_tree::walk_rest(walk).len(),
        {
            let ghost rest = key_tree::walk_rest(walk);
            let ghost sofar = out@;
            match walk_next(&mut walk) {
                None => {
                    assert(out@ =~= whole);
                    break;
                },
                Some(pair) => {
                    out.push(pair);
                    assert(out@ + rest.drop_first() =~= sofar + rest);
                },
            }
        }
        out
    }

    /// No entries, and no walk.
    pub(crate) fn clear(&mut self)
        ensures
            final(self).listing() == Seq::<(PString, Value)>::empty(),
            !final(self).walking(),
    {
        *self = ImmutableHash::new();
    }

    /// A detached copy, without a walk.
    pub(crate) fn snapshot(&self) -> (r: ImmutableHash)
        ensures
            r.listing() == self.listing(),
            !r.walking(),
    {
        proof {
            use_type_invariant(self);
        }
        ImmutableHash { map: key_tree_clone(&self.map), walk: None }
    }
}

/// One step of a walk in the given order.
pub open spec fn steps(
    before: ImmutableHash,
    after: ImmutableHash,
    order: Seq<Seq<u8>>,
    r: Option<(PString, Value)>,
) -> bool {
    if order.len() == 0 {
        r is None && !after.walking()
    } else {
        &&& r is Some
        &&& (r->0).0.encoding() == order[0]
        &&& !(r->0).0.taint_bit()
        &&& before.map_entries().contains_key(order[0])
        &&& (r->0).1 == before.map_entries()[order[0]].1
        &&& after.walking()
        &&& after.pending_keys() == order.drop_first()
        &&& (r->0).0 == before.names()[0]
        &&& after.names() == before.names().drop_first()
    }
}

/// What a walk has still to yield has no key twice.
pub proof fn lemma_pending_distinct(hash: ImmutableHash)
    requires
        hash.wf(),
    ensures
        hash.walking() ==> hash.pending_keys().no_duplicates(),
{
    if hash.walking() {
        lemma_live_distinct(key_tree::walk_rest(hash.walk->0), key_tree::tree_entries(hash.map));
    }
}

pub proof fn lemma_order_without_absent(order: Seq<Seq<u8>>, key: Seq<u8>)
    requires
        !order.contains(key),
    ensures
        order_without(order, key) == order,
    decreases order.len(),
{
    if order.len() > 0 {
        let rest = order.drop_first();
        assert(order[0] != key);
        if rest.contains(key) {
            let i = choose|i: int| 0 <= i < rest.len() && rest[i] == key;
            assert(order[i + 1] == key);
        }
        lemma_order_without_absent(rest, key);
        assert(seq![order[0]] + rest =~= order);
    }
}

proof fn lemma_live_same(
    rest: Seq<(PString, Value)>,
    a: Map<Seq<u8>, (PString, Value)>,
    b: Map<Seq<u8>, (PString, Value)>,
)
    requires
        a.dom() == b.dom(),
    ensures
        live_keys(rest, a) == live_keys(rest, b),
    decreases rest.len(),
{
    if rest.len() > 0 {
        lemma_live_same(rest.drop_first(), a, b);
        assert(a.dom().contains(rest[0].0.encoding()) == b.dom().contains(rest[0].0.encoding()));
    }
}

proof fn lemma_live_added(
    rest: Seq<(PString, Value)>,
    map: Map<Seq<u8>, (PString, Value)>,
    key: Seq<u8>,
    pair: (PString, Value),
)
    requires
        forall|i: int| !#[trigger] entries::keyed(rest, i, key),
    ensures
        live_keys(rest, map.insert(key, pair)) == live_keys(rest, map),
    decreases rest.len(),
{
    if rest.len() > 0 {
        let tail = rest.drop_first();
        assert(!entries::keyed(rest, 0, key));
        assert forall|i: int| !#[trigger] entries::keyed(tail, i, key) by {
            assert(!entries::keyed(rest, i + 1, key));
        }
        lemma_live_added(tail, map, key, pair);
    }
}

proof fn lemma_live_removed(rest: Seq<(PString, Value)>, map: Map<Seq<u8>, (PString, Value)>, key: Seq<u8>)
    ensures
        live_keys(rest, map.remove(key)) == order_without(live_keys(rest, map), key),
    decreases rest.len(),
{
    if rest.len() > 0 {
        let tail = rest.drop_first();
        let head = rest[0].0.encoding();
        lemma_live_removed(tail, map, key);
        if map.contains_key(head) {
            assert(live_keys(rest, map).drop_first() =~= live_keys(tail, map));
        }
    }
}

proof fn lemma_live_members(rest: Seq<(PString, Value)>, map: Map<Seq<u8>, (PString, Value)>, key: Seq<u8>)
    ensures
        live_keys(rest, map).contains(key) <==> map.contains_key(key) && exists|i: int| #[trigger]
            entries::keyed(rest, i, key),
    decreases rest.len(),
{
    if rest.len() > 0 {
        let tail = rest.drop_first();
        let head = rest[0].0.encoding();
        let live = live_keys(rest, map);
        let live_tail = live_keys(tail, map);
        lemma_live_members(tail, map, key);
        if live.contains(key) {
            let i = choose|i: int| 0 <= i < live.len() && live[i] == key;
            if map.contains_key(head) && i == 0 {
                assert(entries::keyed(rest, 0, key));
            } else {
                assert(live_tail[if map.contains_key(head) { i - 1 } else { i }] == key);
                assert(live_tail.contains(key));
                let k = choose|k: int| #[trigger] entries::keyed(tail, k, key);
                assert(entries::keyed(rest, k + 1, key));
            }
        }
        if map.contains_key(key) && exists|i: int| #[trigger] entries::keyed(rest, i, key) {
            let k = choose|k: int| #[trigger] entries::keyed(rest, k, key);
            if k == 0 {
                assert(live[0] == key);
            } else {
                assert(entries::keyed(tail, k - 1, key));
                let i = choose|i: int| 0 <= i < live_tail.len() && live_tail[i] == key;
                assert(live[if map.contains_key(head) { i + 1 } else { i }] == key);
            }
        }
    }
}

proof fn lemma_live_distinct(rest: Seq<(PString, Value)>, map: Map<Seq<u8>, (PString, Value)>)
    requires
        entries::distinct_keys(rest),
    ensures
        live_keys(rest, map).no_duplicates(),
    decreases rest.len(),
{
    if rest.len() > 0 {
        let tail = rest.drop_first();
        let head = rest[0].0.encoding();
        entries::lemma_distinct_skip(rest, 1);
        assert(rest.skip(1) =~= tail);
        lemma_live_distinct(tail, map);
        if map.contains_key(head) {
            let live = live_keys(rest, map);
            let live_tail = live_keys(tail, map);
            lemma_live_members(tail, map, head);
            if live_tail.contains(head) {
                let k = choose|k: int| #[trigger] entries::keyed(tail, k, head);
                assert(rest[k + 1].0.encoding() == rest[0].0.encoding());
            }
            assert forall|i: int, j: int| 0 <= i < live.len() && 0 <= j < live.len() && i != j implies live[i]
                != live[j] by {
                if i == 0 {
                    assert(live_tail[j - 1] == live[j]);
                    assert(live_tail.contains(live[j]));
                } else if j == 0 {
                    assert(live_tail[i - 1] == live[i]);
                    assert(live_tail.contains(live[i]));
                } else {
                    assert(live_tail[i - 1] != live_tail[j - 1]);
                }
            }
        }
    }
}

/// Every key of the map's own pairs is live.
proof fn lemma_all_live(list: Seq<(PString, Value)>, n: int)
    requires
        entries::distinct_keys(list),
        0 <= n <= list.len(),
    ensures
        live_keys(list.skip(list.len() - n), entries::contents(list)) == entries::encodings(
            list.skip(list.len() - n),
        ),
    decreases n,
{
    let rest = list.skip(list.len() - n);
    if n > 0 {
        lemma_all_live(list, n - 1);
        assert(rest.drop_first() =~= list.skip(list.len() - (n - 1)));
        entries::lemma_contents_at(list, list.len() - n);
        assert(entries::encodings(rest) =~= seq![rest[0].0.encoding()] + entries::encodings(rest.drop_first()));
    } else {
        assert(entries::encodings(rest) =~= seq![]);
    }
}

proof fn lemma_all_named(list: Seq<(PString, Value)>, n: int)
    requires
        entries::distinct_keys(list),
        0 <= n <= list.len(),
    ensures
        live_names(list.skip(list.len() - n), entries::contents(list)) == entries::keys_of(list.skip(list.len() - n)),
    decreases n,
{
    let rest = list.skip(list.len() - n);
    if n > 0 {
        lemma_all_named(list, n - 1);
        assert(rest.drop_first() =~= list.skip(list.len() - (n - 1)));
        entries::lemma_contents_at(list, list.len() - n);
        assert(entries::keys_of(rest) =~= seq![rest[0].0] + entries::keys_of(rest.drop_first()));
    } else {
        assert(entries::keys_of(rest) =~= seq![]);
    }
}

/// The keys as they are spelled are those of the order.
proof fn lemma_named_like_ordered(rest: Seq<(PString, Value)>, map: Map<Seq<u8>, (PString, Value)>)
    ensures
        live_names(rest, map).len() == live_keys(rest, map).len(),
        forall|i: int|
            0 <= i < live_names(rest, map).len() ==> (#[trigger] live_names(rest, map)[i]).encoding() == live_keys(
                rest,
                map,
            )[i],
    decreases rest.len(),
{
    if rest.len() > 0 {
        lemma_named_like_ordered(rest.drop_first(), map);
        let names = live_names(rest, map);
        if map.contains_key(rest[0].0.encoding()) {
            assert forall|i: int| 0 <= i < names.len() implies (#[trigger] names[i]).encoding() == live_keys(
                rest,
                map,
            )[i] by {
                if i > 0 {
                    assert(names[i] == live_names(rest.drop_first(), map)[i - 1]);
                }
            }
        }
    }
}

/// A walk that begins spells the keys as they are listed.
pub proof fn lemma_walk_begins_with_the_names(hash: ImmutableHash)
    requires
        !hash.walking(),
    ensures
        hash.names() == entries::keys_of(hash.listing()),
{
}

/// No key occurs twice or is tainted.
pub proof fn lemma_immutable_shape(hash: ImmutableHash)
    requires
        hash.wf(),
    ensures
        entries::distinct_keys(hash.listing()),
        entries::clean_keys(hash.listing()),
{
}

pub proof fn lemma_order_without_members(order: Seq<Seq<u8>>, key: Seq<u8>, other: Seq<u8>)
    ensures
        order_without(order, key).contains(other) <==> order.contains(other) && other != key,
    decreases order.len(),
{
    if order.len() > 0 {
        let rest = order.drop_first();
        let left = order_without(rest, key);
        lemma_order_without_members(rest, key, other);
        if order.contains(other) && other != order[0] {
            let i = choose|i: int| 0 <= i < order.len() && order[i] == other;
            assert(rest[i - 1] == other);
        }
        if rest.contains(other) {
            let i = choose|i: int| 0 <= i < rest.len() && rest[i] == other;
            assert(order[i + 1] == other);
        }
        if order[0] != key {
            let whole = seq![order[0]] + left;
            assert(whole[0] == order[0]);
            if left.contains(other) {
                let i = choose|i: int| 0 <= i < left.len() && left[i] == other;
                assert(whole[i + 1] == other);
            }
            if whole.contains(other) && other != order[0] {
                let i = choose|i: int| 0 <= i < whole.len() && whole[i] == other;
                assert(left[i - 1] == other);
            }
        }
        assert(order[0] == order[0] && order.contains(order[0]));
    }
}

/// An order without a key is the order without its place: every other key stays, in the same order.
pub proof fn law_order_without_a_key(order: Seq<Seq<u8>>, key: Seq<u8>, i: int)
    requires
        order.no_duplicates(),
    ensures
        0 <= i < order.len() && order[i] == key ==> order_without(order, key) == order.remove(i),
        !order.contains(key) ==> order_without(order, key) == order,
    decreases order.len(),
{
    if !order.contains(key) {
        lemma_order_without_absent(order, key);
    }
    if 0 <= i < order.len() && order[i] == key {
        let rest = order.drop_first();
        assert forall|a: int, b: int| 0 <= a < rest.len() && 0 <= b < rest.len() && a != b implies rest[a] != rest[b] by {
            assert(order[a + 1] != order[b + 1]);
        }
        if i == 0 {
            if rest.contains(key) {
                let j = choose|j: int| 0 <= j < rest.len() && rest[j] == key;
                assert(order[j + 1] == order[0]);
            }
            lemma_order_without_absent(rest, key);
            assert(order.remove(0) =~= rest);
        } else {
            assert(rest[i - 1] == key);
            law_order_without_a_key(rest, key, i - 1);
            assert(order.remove(i) =~= seq![order[0]] + rest.remove(i - 1));
        }
    }
}

} // verus!
