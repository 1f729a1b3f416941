//! `Hash`: the hash a perl program sees, over one of three engines that is fixed at construction.
//!
//! Keys are laundered at storage: a tainted key is stored clean.  A key that is present keeps its first spelling.  A
//! walk with [`Hash::each`] yields every entry once; it is safe to delete the entry it yielded last.
use crate::array;
use crate::containers::check_writable;
use crate::entries;
use crate::immutable_hash;
use crate::immutable_hash::ImmutableHash;
use crate::ordered_hash;
use crate::ordered_hash::OrderedHash;
use crate::ordered_map;
use crate::perl_hash;
use crate::perl_hash::PerlHash;
use crate::scalar::ScalarError;
use crate::string::PString;
use crate::value::{ScalarPayload, Value};
use vstd::prelude::*;

verus! {

/// An engine with its readonly flag.
pub struct Guarded<E> {
    pub engine: E,
    pub readonly: bool,
}

/// A hash.
pub enum Hash {
    /// The default: buckets, in an order of their own.
    Perl(Guarded<PerlHash>),
    /// The insertion-ordered engine, on explicit request only.
    Ordered(Guarded<OrderedHash>),
    /// The immutable engine, on explicit request only.
    Immutable(Guarded<ImmutableHash>),
}

/// `after` is `before` with its taint bit cleared.
pub open spec fn laundered(before: PString, after: PString) -> bool {
    &&& after.data() == before.data()
    &&& after.flagged() == before.flagged()
    &&& !after.taint_bit()
}

/// What storing under a clean key does to the insertion order: a key that is present keeps its place, and a new one
/// goes to the end.
pub open spec fn stored_in_order(before: Hash, after: Hash, key: PString, value: Value) -> bool {
    before is Ordered ==> if before.contents().contains_key(key.encoding()) {
        entries::keys_of(after.listing()) == entries::keys_of(before.listing())
    } else {
        after.listing() == before.listing().push((key, value))
    }
}

/// What storing under a new key does to a walk: over buckets it restarts, over the insertion order the key comes last,
/// and over a copy it waits for the next walk, unless the copy has the key still ahead.  A walk that is about to begin is
/// still about to.
pub open spec fn new_key_in_walk(before: Hash, after: Hash, key: Seq<u8>) -> bool {
    match before {
        Hash::Perl(_) => after.begins_anew(),
        Hash::Ordered(_) => after.walk_order() == before.walk_order().push(key),
        Hash::Immutable(_) => if before.begins_anew() {
            after.begins_anew()
        } else if before.copy_holds(key) {
            &&& after.walk_order().contains(key)
            &&& immutable_hash::order_without(after.walk_order(), key) == before.walk_order()
            &&& !after.begins_anew()
        } else {
            after.same_to_come(before)
        },
    }
}

/// What deleting a key does to a walk and to the order of the entries.  Over buckets no other entry moves.  Over the
/// insertion order the last pair takes the place of the deleted one, and the walk has passed one pair less where it had
/// passed that one.  Over a copy the key is skipped.  A walk that is about to begin is still about to.
pub open spec fn deleted_in_walk(before: Hash, after: Hash, key: Seq<u8>) -> bool {
    match (before, after) {
        (Hash::Perl(b), Hash::Perl(a)) => {
            &&& a.engine.listing() == entries::without_key(b.engine.listing(), key)
            &&& a.engine.pending() == entries::without_key(b.engine.pending(), key)
            &&& after.walk_order() == immutable_hash::order_without(before.walk_order(), key)
        },
        (Hash::Ordered(b), Hash::Ordered(a)) => {
            &&& !before.contents().contains_key(key) ==> a.engine.listing() == b.engine.listing() && a.engine.passed()
                == b.engine.passed()
            &&& forall|i: int| #[trigger]
                entries::keyed(b.engine.listing(), i, key) ==> {
                    &&& a.engine.listing() == ordered_map::swap_removed(b.engine.listing(), i)
                    &&& a.engine.passed() == (if i < b.engine.passed() {
                        (b.engine.passed() - 1) as nat
                    } else {
                        b.engine.passed()
                    })
                }
        },
        (Hash::Immutable(b), Hash::Immutable(a)) => {
            &&& a.engine.walking() == b.engine.walking()
            &&& b.engine.walking() ==> after.walk_order() == immutable_hash::order_without(before.walk_order(), key)
        },
        _ => false,
    }
}

fn launder(key: PString) -> (r: PString)
    ensures
        laundered(key, r),
        r.encoding() == key.encoding(),
{
    let mut key = key;
    if key.is_tainted() {
        key.untaint_for_sanctioned_path();
    }
    key
}

impl Hash {
    /// The entries: from a key's encoding to the key as it is stored and its value.
    pub open spec fn contents(self) -> Map<Seq<u8>, (PString, Value)> {
        entries::contents(self.listing())
    }

    /// The readonly flag.
    pub open spec fn frozen(self) -> bool {
        match self {
            Hash::Perl(h) => h.readonly,
            Hash::Ordered(h) => h.readonly,
            Hash::Immutable(h) => h.readonly,
        }
    }

    /// The engine of `other`.
    pub open spec fn same_engine(self, other: Hash) -> bool {
        &&& self is Perl == other is Perl
        &&& self is Ordered == other is Ordered
    }

    /// Whether a walk is about to begin.
    pub open spec fn begins_anew(self) -> bool {
        match self {
            Hash::Perl(h) => h.engine.pending() == h.engine.listing(),
            Hash::Ordered(h) => h.engine.passed() == 0,
            Hash::Immutable(h) => !h.engine.walking(),
        }
    }

    /// The keys in the order that the walk goes on in.
    pub open spec fn walk_order(self) -> Seq<Seq<u8>> {
        match self {
            Hash::Perl(h) => entries::encodings(h.engine.pending()),
            Hash::Ordered(h) => entries::encodings(h.engine.pending()),
            Hash::Immutable(h) => h.engine.order(),
        }
    }

    /// The keys that the walk goes on with, as they are spelled in what it goes over.
    pub open spec fn walk_names(self) -> Seq<PString> {
        match self {
            Hash::Perl(h) => entries::keys_of(h.engine.pending()),
            Hash::Ordered(h) => entries::keys_of(h.engine.pending()),
            Hash::Immutable(h) => h.engine.names(),
        }
    }

    /// The entries as a list, in the order of a walk that begins.
    pub open spec fn listing(self) -> Seq<(PString, Value)> {
        match self {
            Hash::Perl(h) => h.engine.listing(),
            Hash::Ordered(h) => h.engine.listing(),
            Hash::Immutable(h) => h.engine.listing(),
        }
    }

    /// Whether the key can be deleted without a trace in the walk: it was yielded, last of all under the
    /// insertion-ordered engine.
    pub open spec fn has_yielded(self, key: Seq<u8>) -> bool {
        match self {
            Hash::Perl(h) => forall|i: int| !#[trigger] entries::keyed(h.engine.pending(), i, key),
            Hash::Ordered(h) => entries::keyed(h.engine.listing(), h.engine.passed() - 1, key),
            Hash::Immutable(h) => h.engine.walking() && !h.engine.pending_keys().contains(key),
        }
    }

    /// Whether the walk has the same entries to come as that of `other`.
    pub open spec fn same_to_come(self, other: Hash) -> bool {
        match (self, other) {
            (Hash::Perl(h), Hash::Perl(o)) => h.engine.pending() == o.engine.pending(),
            (Hash::Ordered(h), Hash::Ordered(o)) => h.engine.pending().to_multiset()
                == o.engine.pending().to_multiset(),
            (Hash::Immutable(h), Hash::Immutable(o)) => h.engine.walking() == o.engine.walking()
                && h.engine.order() == o.engine.order(),
            _ => false,
        }
    }

    /// Whether every entry stands where it stood in `other`, and the walk with it.
    pub open spec fn undisturbed(self, other: Hash) -> bool {
        &&& entries::keys_of(self.listing()) == entries::keys_of(other.listing())
        &&& self.walk_order() == other.walk_order()
        &&& self.begins_anew() == other.begins_anew()
    }

    /// Whether the walk under way has the key in its own copy, still ahead; only the immutable engine walks a copy.
    pub open spec fn copy_holds(self, key: Seq<u8>) -> bool {
        self matches Hash::Immutable(h) && h.engine.copy_holds(key)
    }

    /// The default engine.
    pub fn new() -> (r: Hash)
        ensures
            r is Perl,
            r.contents() == entries::no_entries(),
            !r.frozen(),
            r.begins_anew(),
    {
        let r = Hash::Perl(Guarded { engine: PerlHash::new(), readonly: false });
        assert(r.contents() =~= entries::no_entries());
        r
    }

    /// The insertion-ordered engine.
    pub fn ordered() -> (r: Hash)
        ensures
            r is Ordered,
            r.contents() == entries::no_entries(),
            !r.frozen(),
            r.begins_anew(),
    {
        let r = Hash::Ordered(Guarded { engine: OrderedHash::new(), readonly: false });
        assert(r.contents() =~= entries::no_entries());
        r
    }

    /// The immutable engine.
    pub fn immutable() -> (r: Hash)
        ensures
            r is Immutable,
            r.contents() == entries::no_entries(),
            !r.frozen(),
            r.begins_anew(),
    {
        Hash::Immutable(Guarded { engine: ImmutableHash::new(), readonly: false })
    }

    pub fn len(&self) -> (r: usize)
        ensures
            r == self.contents().len(),
    {
        match self {
            Hash::Perl(h) => {
                proof {
                    use_type_invariant(&h.engine);
                    perl_hash::lemma_perl_shape(h.engine);
                    entries::lemma_contents_len(h.engine.listing());
                }
                h.engine.len()
            },
            Hash::Ordered(h) => {
                proof {
                    use_type_invariant(&h.engine);
                    ordered_hash::lemma_ordered_shape(h.engine);
                    entries::lemma_contents_len(h.engine.listing());
                }
                h.engine.len()
            },
            Hash::Immutable(h) => {
                proof {
                    use_type_invariant(&h.engine);
                    immutable_hash::lemma_immutable_shape(h.engine);
                    entries::lemma_contents_len(h.engine.listing());
                }
                h.engine.len()
            },
        }
    }

    pub fn is_empty(&self) -> (r: bool)
        ensures
            r == (self.contents().len() == 0),
    {
        self.len() == 0
    }

    /// Read access: never creates.  Clones out.
    pub fn get(&self, key: &PString) -> (r: Option<Value>)
        ensures
            r == entries::value_of_key(self.contents(), key.encoding()),
    {
        let found: Option<&Value> = match self {
            Hash::Perl(h) => h.engine.get(key),
            Hash::Ordered(h) => h.engine.get(key),
            Hash::Immutable(h) => h.engine.get(key),
        };
        match found {
            Some(value) => Some(value.clone()),
            None => None,
        }
    }

    /// `exists $h{$k}`.
    pub fn exists_key(&self, key: &PString) -> (r: bool)
        ensures
            r == self.contents().contains_key(key.encoding()),
    {
        match self {
            Hash::Perl(h) => h.engine.get(key).is_some(),
            Hash::Ordered(h) => h.engine.get(key).is_some(),
            Hash::Immutable(h) => h.engine.get(key).is_some(),
        }
    }

    pub fn is_readonly(&self) -> (r: bool)
        ensures
            r == self.frozen(),
    {
        match self {
            Hash::Perl(h) => h.readonly,
            Hash::Ordered(h) => h.readonly,
            Hash::Immutable(h) => h.readonly,
        }
    }

    pub fn set_readonly(&mut self, readonly: bool)
        ensures
            final(self).frozen() == readonly,
            final(self).same_engine(*old(self)),
            final(self).same_to_come(*old(self)),
            final(self).listing() == old(self).listing(),
    {
        match self {
            Hash::Perl(h) => {
                h.readonly = readonly;
            },
            Hash::Ordered(h) => {
                h.readonly = readonly;
            },
            Hash::Immutable(h) => {
                h.readonly = readonly;
            },
        }
    }

    /// `$h{$k} = $v`, laundering the key.  A key that is present keeps its spelling, and a walk goes on undisturbed; a
    /// new key restarts the walk over buckets.
    pub fn store(&mut self, key: PString, value: Value) -> (r: Result<(), ScalarError>)
        ensures
            final(self).same_engine(*old(self)),
            final(self).frozen() == old(self).frozen(),
            old(self).frozen() ==> r == Err::<(), ScalarError>(ScalarError::ReadOnly) && *final(self) == *old(self),
            !old(self).frozen() ==> {
                &&& r is Ok
                &&& exists|clean: PString| #[trigger]
                    laundered(key, clean) && final(self).contents() == entries::stored(
                        old(self).contents(),
                        clean,
                        value,
                    ) && stored_in_order(*old(self), *final(self), clean, value)
            },
            !old(self).frozen() && old(self).contents().contains_key(key.encoding()) ==> {
                final(self).undisturbed(*old(self))
            },
            !old(self).frozen() && !old(self).contents().contains_key(key.encoding()) ==> new_key_in_walk(
                *old(self),
                *final(self),
                key.encoding(),
            ),
    {
        match check_writable(self.is_readonly()) {
            Err(error) => {
                return Err(error);
            },
            Ok(()) => {},
        }
        let clean = launder(key);
        let ghost kept = clean;
        match self {
            Hash::Perl(h) => {
                let ghost before = h.engine;
                proof {
                    use_type_invariant(&h.engine);
                    perl_hash::lemma_perl_shape(h.engine);
                }
                h.engine.store(clean, value);
                proof {
                    use_type_invariant(&h.engine);
                    perl_hash::lemma_perl_shape(h.engine);
                }
            },
            Hash::Ordered(h) => {
                let ghost before = h.engine;
                proof {
                    use_type_invariant(&h.engine);
                    ordered_hash::lemma_ordered_shape(h.engine);
                }
                h.engine.store(clean, value);
                proof {
                    if entries::contents(before.listing()).contains_key(kept.encoding()) {
                        entries::lemma_same_keys(before.listing(), h.engine.listing());
                        assert(entries::encodings(h.engine.listing()).len() == h.engine.listing().len());
                        assert(entries::encodings(before.listing()).len() == before.listing().len());
                        entries::lemma_encodings_skip(before.listing(), before.passed() as int);
                        entries::lemma_encodings_skip(h.engine.listing(), before.passed() as int);
                    } else {
                        assert(h.engine.pending() =~= before.pending().push((kept, value)));
                        assert(entries::encodings(h.engine.pending()) =~= entries::encodings(before.pending()).push(kept.encoding()));
                    }
                }
            },
            Hash::Immutable(h) => {
                let ghost before = h.engine;
                h.engine.store(clean, value);
                proof {
                    if before.map_entries().contains_key(kept.encoding()) {
                        entries::lemma_same_keys(before.listing(), h.engine.listing());
                    }
                }
            },
        }
        assert(laundered(key, kept));
        Ok(())
    }

    /// The value of a key, to be changed in place.  Every entry stays where it stands, and the walk with it.
    fn value_mut(&mut self, key: &PString) -> (r: Option<&mut Value>)
        ensures
            final(self).same_engine(*old(self)),
            final(self).frozen() == old(self).frozen(),
            r is Some <==> old(self).contents().contains_key(key.encoding()),
            r is None ==> *final(self) == *old(self),
            r is Some ==> {
                let pair = old(self).contents()[key.encoding()];
                let list = old(self).listing();
                &&& *r->0 == pair.1
                &&& final(self).contents() == old(self).contents().insert(key.encoding(), (pair.0, *final(r->0)))
                &&& final(self).undisturbed(*old(self))
                &&& *old(self) is Ordered ==> forall|i: int| #[trigger]
                    entries::keyed(list, i, key.encoding()) ==> final(self).listing() == list.update(
                        i,
                        (list[i].0, *final(r->0)),
                    )
            },
    {
        match self {
            Hash::Perl(h) => {
                proof {
                    use_type_invariant(&h.engine);
                    perl_hash::lemma_perl_shape(h.engine);
                }
                h.engine.value_mut(key)
            },
            Hash::Ordered(h) => {
                proof {
                    use_type_invariant(&h.engine);
                    ordered_hash::lemma_ordered_shape(h.engine);
                }
                h.engine.value_mut(key)
            },
            Hash::Immutable(h) => h.engine.value_mut(key),
        }
    }

    /// Lvalue access: an entry that is absent comes into being, undefined.
    pub fn entry_or_undef(&mut self, key: PString) -> (r: Result<&mut Value, ScalarError>)
        ensures
            final(self).same_engine(*old(self)),
            final(self).frozen() == old(self).frozen(),
            old(self).frozen() ==> r is Err && r->Err_0 is ReadOnly && *final(self) == *old(self),
            !old(self).frozen() ==> {
                &&& r is Ok
                &&& *r->Ok_0 == array::slot_value(entries::value_of_key(old(self).contents(), key.encoding()))
                &&& exists|clean: PString| #[trigger]
                    laundered(key, clean) && final(self).contents() == entries::stored(
                        old(self).contents(),
                        clean,
                        *final(r->Ok_0),
                    ) && stored_in_order(*old(self), *final(self), clean, *final(r->Ok_0))
            },
            !old(self).frozen() && old(self).contents().contains_key(key.encoding()) ==> final(self).undisturbed(
                *old(self),
            ),
            !old(self).frozen() && !old(self).contents().contains_key(key.encoding()) ==> new_key_in_walk(
                *old(self),
                *final(self),
                key.encoding(),
            ),
    {
        match check_writable(self.is_readonly()) {
            Err(error) => {
                return Err(error);
            },
            Ok(()) => {},
        }
        let clean = launder(key);
        let ghost before = *self;
        if !self.exists_key(&clean) {
            let undef = ScalarPayload::Undef { tainted: false };
            match self.store(clean.clone(), undef) {
                Ok(()) => {},
                Err(error) => {
                    return Err(error);
                },
            }
            proof {
                let list = before.listing();
                let stored = choose|c: PString| #[trigger]
                    laundered(clean, c) && self.contents() == entries::stored(
                        before.contents(),
                        c,
                        ScalarPayload::undef_value(),
                    ) && stored_in_order(before, *self, c, ScalarPayload::undef_value());
                assert(laundered(key, stored));
                assert forall|v: Value| #![trigger self.contents().insert(clean.encoding(), (stored, v))] self.contents().insert(
                    clean.encoding(),
                    (stored, v),
                ) == entries::stored(before.contents(), stored, v) by {
                    assert(self.contents().insert(clean.encoding(), (stored, v)) =~= entries::stored(
                        before.contents(),
                        stored,
                        v,
                    ));
                }
                if *self is Ordered {
                    assert(entries::keyed(self.listing(), list.len() as int, clean.encoding()));
                    assert forall|v: Value| #![trigger self.listing().update(list.len() as int, (stored, v))] self.listing().update(
                        list.len() as int,
                        (stored, v),
                    ) == list.push((stored, v)) by {
                        assert(self.listing().update(list.len() as int, (stored, v)) =~= list.push((stored, v)));
                    }
                }
            }
        }
        match self.value_mut(&clean) {
            Some(value) => Ok(value),
            None => Err(ScalarError::ReadOnly),
        }
    }

    /// `delete $h{$k}`: the value, undefined for an absent key.  A walk goes on without the key; of the
    /// insertion-ordered engine the last pair takes the place of the deleted one.
    pub fn delete(&mut self, key: &PString) -> (r: Result<Value, ScalarError>)
        ensures
            final(self).same_engine(*old(self)),
            final(self).frozen() == old(self).frozen(),
            old(self).frozen() ==> r == Err::<Value, ScalarError>(ScalarError::ReadOnly) && *final(self) == *old(
                self),
            !old(self).frozen() ==> {
                &&& r == Ok::<Value, ScalarError>(
                    array::slot_value(entries::value_of_key(old(self).contents(), key.encoding())),
                )
                &&& final(self).contents() == old(self).contents().remove(key.encoding())
            },
            !old(self).frozen() && old(self).has_yielded(key.encoding()) ==> final(self).same_to_come(*old(self)),
            !old(self).frozen() ==> deleted_in_walk(*old(self), *final(self), key.encoding()),
    {
        match check_writable(self.is_readonly()) {
            Err(error) => {
                return Err(error);
            },
            Ok(()) => {},
        }
        let removed: Option<Value> = match self {
            Hash::Perl(h) => {
                let ghost before = h.engine;
                proof {
                    use_type_invariant(&h.engine);
                    perl_hash::lemma_perl_shape(h.engine);
                    entries::lemma_distinct_skip(
                        before.listing(),
                        before.listing().len() - before.pending().len(),
                    );
                }
                let r = h.engine.delete(key);
                proof {
                    if forall|i: int| !#[trigger] entries::keyed(before.pending(), i, key.encoding()) {
                        entries::lemma_without_absent(before.pending(), key.encoding());
                    }
                    lemma_encodings_without(before.pending(), key.encoding());
                }
                r
            },
            Hash::Ordered(h) => {
                let ghost before = h.engine;
                proof {
                    use_type_invariant(&h.engine);
                    ordered_hash::lemma_ordered_shape(h.engine);
                }
                let r = h.engine.delete(key);
                proof {
                    if entries::keyed(before.listing(), before.passed() - 1, key.encoding()) {
                        ordered_hash::law_delete_current_keeps_the_rest(before.listing(), before.passed() as int);
                    }
                }
                r
            },
            Hash::Immutable(h) => {
                let ghost before = h.engine;
                let r = h.engine.delete(key);
                proof {
                    if before.walking() && !before.pending_keys().contains(key.encoding()) {
                        immutable_hash::lemma_order_without_absent(before.pending_keys(), key.encoding());
                    }
                }
                r
            },
        };
        match removed {
            Some(value) => Ok(value),
            None => Ok(ScalarPayload::Undef { tainted: false }),
        }
    }
}

/// One step of a walk in the given order.
pub open spec fn walk_step(before: Hash, after: Hash, order: Seq<Seq<u8>>, r: Option<(PString, Value)>) -> bool {
    if order.len() == 0 {
        r is None && after.begins_anew()
    } else {
        &&& r is Some
        &&& (r->0).0.encoding() == order[0]
        &&& !(r->0).0.taint_bit()
        &&& entries::value_of_key(before.contents(), order[0]) == Some((r->0).1)
        &&& before !is Immutable ==> r->0 == before.contents()[order[0]]
        &&& (r->0).0 == before.walk_names()[0]
        &&& after.walk_names() == before.walk_names().drop_first()
        &&& after.walk_order() == order.drop_first()
        &&& order.no_duplicates() ==> after.has_yielded(order[0])
    }
}

impl Hash {
    /// `each %h`: the next pair of the walk, or nothing once at its end, where the walk begins anew.
    pub fn each(&mut self) -> (r: Option<(PString, Value)>)
        ensures
            final(self).same_engine(*old(self)),
            final(self).frozen() == old(self).frozen(),
            walk_step(*old(self), *final(self), old(self).walk_order(), r),
            final(self).listing() == old(self).listing(),
    {
        match self {
            Hash::Perl(h) => {
                let ghost before = h.engine;
                proof {
                    use_type_invariant(&h.engine);
                    perl_hash::lemma_perl_shape(h.engine);
                }
                let r = h.engine.each();
                proof {
                    let order = entries::encodings(before.pending());
                    if order.len() > 0 {
                        let passed = before.listing().len() - before.pending().len();
                        assert(before.pending()[0] == before.listing()[passed]);
                        entries::lemma_contents_at(before.listing(), passed);
                        assert(entries::encodings(before.pending().drop_first()) =~= order.drop_first());
                        assert(entries::keys_of(before.pending().drop_first()) =~= entries::keys_of(
                            before.pending(),
                        ).drop_first());
                        let rest = before.pending().drop_first();
                        assert forall|i: int| order.no_duplicates() implies !#[trigger] entries::keyed(
                            rest,
                            i,
                            order[0],
                        ) by {
                            if entries::keyed(rest, i, order[0]) {
                                assert(order[i + 1] == order[0]);
                            }
                        }
                    }
                }
                r
            },
            Hash::Ordered(h) => {
                let ghost before = h.engine;
                proof {
                    use_type_invariant(&h.engine);
                    ordered_hash::lemma_ordered_shape(h.engine);
                }
                let r = h.engine.each();
                proof {
                    let order = entries::encodings(before.pending());
                    if order.len() > 0 {
                        let passed = before.passed() as int;
                        assert(before.pending()[0] == before.listing()[passed]);
                        entries::lemma_contents_at(before.listing(), passed);
                        assert(before.pending().drop_first() =~= before.listing().skip(passed + 1));
                        assert(entries::encodings(before.pending().drop_first()) =~= order.drop_first());
                        assert(entries::keys_of(before.pending().drop_first()) =~= entries::keys_of(
                            before.pending(),
                        ).drop_first());
                    }
                }
                r
            },
            Hash::Immutable(h) => {
                let ghost before = h.engine;
                let r = h.engine.each();
                proof {
                    let order = before.order();
                    if order.len() > 0 && order.no_duplicates() {
                        let rest = order.drop_first();
                        if rest.contains(order[0]) {
                            let i = choose|i: int| 0 <= i < rest.len() && rest[i] == order[0];
                            assert(order[i + 1] == order[0]);
                        }
                    }
                }
                r
            },
        }
    }

    /// The entries, as a list.
    fn pairs(&self) -> (r: Vec<(PString, Value)>)
        ensures
            r@ == self.listing(),
            r@.len() == self.contents().len(),
            entries::clean_keys(r@),
    {
        match self {
            Hash::Perl(h) => {
                proof {
                    use_type_invariant(&h.engine);
                    perl_hash::lemma_perl_shape(h.engine);
                    entries::lemma_contents_len(h.engine.listing());
                }
                h.engine.pairs()
            },
            Hash::Ordered(h) => {
                proof {
                    use_type_invariant(&h.engine);
                    ordered_hash::lemma_ordered_shape(h.engine);
                    entries::lemma_contents_len(h.engine.listing());
                }
                h.engine.pairs()
            },
            Hash::Immutable(h) => {
                proof {
                    use_type_invariant(&h.engine);
                    immutable_hash::lemma_immutable_shape(h.engine);
                    entries::lemma_contents_len(h.engine.listing());
                }
                h.engine.pairs()
            },
        }
    }

    fn rewind(&mut self)
        ensures
            final(self).same_engine(*old(self)),
            final(self).frozen() == old(self).frozen(),
            final(self).begins_anew(),
            final(self).listing() == old(self).listing(),
    {
        match self {
            Hash::Perl(h) => h.engine.rewind(),
            Hash::Ordered(h) => h.engine.rewind(),
            Hash::Immutable(h) => h.engine.rewind(),
        }
    }

    /// The values of the entries, in the order of a walk that begins.  A walk under way is left alone.
    pub fn existing_values(&self) -> (r: Vec<Value>)
        ensures
            r@ == entries::values_of(self.listing()),
            r@.len() == self.contents().len(),
    {
        let list = self.pairs();
        let mut out: Vec<Value> = Vec::new();
        let mut i: usize = 0;
        while i < list.len()
            invariant
                i <= list@.len(),
                out@ == entries::values_of(list@).take(i as int),
            decreases list@.len() - i,
        {
            out.push(list[i].1.clone());
            i = i + 1;
            assert(out@ =~= entries::values_of(list@).take(i as int));
        }
        assert(out@ =~= entries::values_of(list@));
        out
    }

    /// `keys %h`: the keys, in the order of a walk.  The walk begins anew.
    pub fn keys(&mut self) -> (r: Vec<PString>)
        ensures
            final(self).same_engine(*old(self)),
            final(self).frozen() == old(self).frozen(),
            final(self).begins_anew(),
            r@ == entries::keys_of(old(self).listing()),
            final(self).listing() == old(self).listing(),
            r@.len() == old(self).contents().len(),
            forall|i: int| 0 <= i < r@.len() ==> !(#[trigger] r@[i]).taint_bit(),
    {
        self.rewind();
        let list = self.pairs();
        let mut out: Vec<PString> = Vec::new();
        let mut i: usize = 0;
        while i < list.len()
            invariant
                i <= list@.len(),
                out@ == entries::keys_of(list@).take(i as int),
            decreases list@.len() - i,
        {
            out.push(list[i].0.clone());
            i = i + 1;
            assert(out@ =~= entries::keys_of(list@).take(i as int));
        }
        assert(out@ =~= entries::keys_of(list@));
        assert forall|k: int| 0 <= k < out@.len() implies !(#[trigger] out@[k]).taint_bit() by {
            assert(!list@[k].0.taint_bit());
        }
        out
    }

    /// `values %h`: the values, in the order of the keys.  The walk begins anew.
    pub fn values(&mut self) -> (r: Vec<Value>)
        ensures
            final(self).same_engine(*old(self)),
            final(self).frozen() == old(self).frozen(),
            final(self).begins_anew(),
            r@ == entries::values_of(old(self).listing()),
            final(self).listing() == old(self).listing(),
            r@.len() == old(self).contents().len(),
    {
        self.rewind();
        self.existing_values()
    }

    /// `%h = ()`.
    pub fn clear(&mut self) -> (r: Result<(), ScalarError>)
        ensures
            final(self).same_engine(*old(self)),
            final(self).frozen() == old(self).frozen(),
            old(self).frozen() ==> r == Err::<(), ScalarError>(ScalarError::ReadOnly) && *final(self) == *old(self),
            !old(self).frozen() ==> {
                &&& r is Ok
                &&& final(self).contents() == entries::no_entries()
                &&& final(self).begins_anew()
            },
    {
        match check_writable(self.is_readonly()) {
            Err(error) => {
                return Err(error);
            },
            Ok(()) => {},
        }
        match self {
            Hash::Perl(h) => h.engine.clear(),
            Hash::Ordered(h) => h.engine.clear(),
            Hash::Immutable(h) => h.engine.clear(),
        }
        assert(self.contents() =~= entries::no_entries());
        Ok(())
    }

    /// A detached copy of an immutable hash, with a fresh walk and its readonly flag cleared.  The other engines have no
    /// cheap copy.
    pub fn snapshot(&self) -> (r: Result<Hash, ScalarError>)
        ensures
            self !is Immutable ==> r == Err::<Hash, ScalarError>(ScalarError::SnapshotUnsupported),
            self is Immutable ==> {
                &&& r is Ok
                &&& r->Ok_0 is Immutable
                &&& (r->Ok_0).listing() == self.listing()
                &&& !(r->Ok_0).frozen()
                &&& (r->Ok_0).begins_anew()
            },
    {
        match self {
            Hash::Immutable(h) => Ok(Hash::Immutable(Guarded { engine: h.engine.snapshot(), readonly: false })),
            _ => Err(ScalarError::SnapshotUnsupported),
        }
    }

    /// A hash as every exec value is.
    pub open spec fn wf(self) -> bool {
        match self {
            Hash::Perl(h) => h.engine.wf(),
            Hash::Ordered(h) => h.engine.wf(),
            Hash::Immutable(h) => h.engine.wf(),
        }
    }
}

impl Default for Hash {
    fn default() -> (r: Hash)
        ensures
            r is Perl,
            r.contents() == entries::no_entries(),
            !r.frozen(),
            r.begins_anew(),
    {
        Hash::new()
    }
}

/// No key occurs twice or is tainted.
proof fn lemma_shape(hash: Hash)
    requires
        hash.wf(),
    ensures
        entries::distinct_keys(hash.listing()),
        entries::clean_keys(hash.listing()),
{
    match hash {
        Hash::Perl(h) => perl_hash::lemma_perl_shape(h.engine),
        Hash::Ordered(h) => ordered_hash::lemma_ordered_shape(h.engine),
        Hash::Immutable(h) => immutable_hash::lemma_immutable_shape(h.engine),
    }
}

/// An order of all keys of a map, each once.
pub open spec fn whole_order(order: Seq<Seq<u8>>, map: Map<Seq<u8>, (PString, Value)>) -> bool {
    &&& order.no_duplicates()
    &&& forall|key: Seq<u8>| #[trigger] order.contains(key) <==> map.contains_key(key)
}

proof fn lemma_whole_order(list: Seq<(PString, Value)>)
    requires
        entries::distinct_keys(list),
    ensures
        whole_order(entries::encodings(list), entries::contents(list)),
{
    let order = entries::encodings(list);
    let map = entries::contents(list);
    assert forall|i: int, j: int| 0 <= i < order.len() && 0 <= j < order.len() && i != j implies order[i]
        != order[j] by {
        assert(order[i] == list[i].0.encoding() && order[j] == list[j].0.encoding());
    }
    assert forall|key: Seq<u8>| #[trigger] order.contains(key) <==> map.contains_key(key) by {
        if order.contains(key) {
            let i = choose|i: int| 0 <= i < order.len() && order[i] == key;
            entries::lemma_contents_at(list, i);
        }
        if map.contains_key(key) {
            let i = choose|i: int| #[trigger] entries::keyed(list, i, key);
            assert(order[i] == key);
        }
    }
}

/// A walk that begins anew goes over every key, and over each once, in the order that the keys are listed in.
pub proof fn law_walk_covers_every_key_once(hash: Hash)
    requires
        hash.wf(),
        hash.begins_anew(),
    ensures
        hash.walk_order() == entries::encodings(hash.listing()),
        whole_order(hash.walk_order(), hash.contents()),
{
    lemma_shape(hash);
    lemma_whole_order(hash.listing());
    if let Hash::Ordered(h) = hash {
        assert(h.engine.listing().skip(0) =~= h.engine.listing());
    }
}

/// What a walk has still to yield never has a key twice, so that whatever it yielded it has passed.
pub proof fn law_walk_repeats_no_key(hash: Hash)
    requires
        hash.wf(),
    ensures
        hash.walk_order().no_duplicates(),
{
    lemma_shape(hash);
    match hash {
        Hash::Perl(h) => {
            perl_hash::lemma_perl_shape(h.engine);
            let passed = h.engine.listing().len() - h.engine.pending().len();
            entries::lemma_distinct_skip(h.engine.listing(), passed);
            lemma_whole_order(h.engine.pending());
        },
        Hash::Ordered(h) => {
            ordered_hash::lemma_ordered_shape(h.engine);
            entries::lemma_distinct_skip(h.engine.listing(), h.engine.passed() as int);
            lemma_whole_order(h.engine.pending());
        },
        Hash::Immutable(h) => {
            immutable_hash::lemma_pending_distinct(h.engine);
            lemma_whole_order(h.engine.listing());
        },
    }
}

/// Keys and values correspond: the values stand in the order of the keys, and each is its key's.
pub proof fn law_keys_and_values_correspond(hash: Hash, i: int)
    requires
        hash.wf(),
        0 <= i < entries::keys_of(hash.listing()).len(),
    ensures
        entries::keys_of(hash.listing()).len() == entries::values_of(hash.listing()).len(),
        entries::value_of_key(hash.contents(), entries::keys_of(hash.listing())[i].encoding()) == Some(
            entries::values_of(hash.listing())[i],
        ),
{
    lemma_shape(hash);
    entries::lemma_contents_at(hash.listing(), i);
}

proof fn lemma_names_begin(hash: Hash)
    requires
        hash.begins_anew(),
    ensures
        hash.walk_names() == entries::keys_of(hash.listing()),
{
    match hash {
        Hash::Perl(_) => {},
        Hash::Ordered(h) => {
            assert(h.engine.listing().skip(0) =~= h.engine.listing());
        },
        Hash::Immutable(h) => {
            immutable_hash::lemma_walk_begins_with_the_names(h.engine);
        },
    }
}

/// A walk that begins anew yields, step by step, the keys and the values as they are listed, then nothing once, and
/// then begins anew: after `n` steps in a row that changed nothing else, the next one yields the entry at `n`.
pub proof fn law_walk_yields_the_listing(start: Hash, before: Hash, after: Hash, n: int, r: Option<(PString, Value)>)
    requires
        start.wf(),
        start.begins_anew(),
        0 <= n <= start.listing().len(),
        before.listing() == start.listing(),
        before.walk_order() == start.walk_order().skip(n),
        walk_step(before, after, before.walk_order(), r),
    ensures
        n < start.listing().len() ==> {
            &&& r is Some
            &&& (r->0).0.encoding() == entries::keys_of(start.listing())[n].encoding()
            &&& (r->0).1 == entries::values_of(start.listing())[n]
            &&& after.walk_order() == start.walk_order().skip(n + 1)
        },
        n == start.listing().len() ==> r is None && after.begins_anew(),
{
    law_walk_covers_every_key_once(start);
    let order = start.walk_order();
    assert(order.len() == start.listing().len());
    if n < order.len() {
        assert(before.walk_order()[0] == order[n]);
        assert(before.walk_order().drop_first() =~= order.skip(n + 1));
        law_keys_and_values_correspond(start, n);
    }
}

/// A walk spells the keys as they are listed: after `n` steps in a row that changed nothing else, the next one yields the
/// key at `n`, under its own flag.
pub proof fn law_walk_spells_the_listing(start: Hash, before: Hash, after: Hash, n: int, r: Option<(PString, Value)>)
    requires
        start.begins_anew(),
        0 <= n < start.listing().len(),
        before.walk_names() == start.walk_names().skip(n),
        before.walk_order().len() > 0,
        walk_step(before, after, before.walk_order(), r),
    ensures
        r is Some,
        (r->0).0 == entries::keys_of(start.listing())[n],
        after.walk_names() == start.walk_names().skip(n + 1),
{
    lemma_names_begin(start);
    assert(before.walk_names()[0] == start.walk_names()[n]);
    assert(before.walk_names().drop_first() =~= start.walk_names().skip(n + 1));
}

/// A read gives back what a write wrote under any equal key, and every other key reads as before; the first spelling of
/// a key stays.
pub proof fn law_read_gives_back_the_write(
    map: Map<Seq<u8>, (PString, Value)>,
    key: PString,
    value: Value,
    other: Seq<u8>,
)
    requires
        other != key.encoding(),
    ensures
        entries::value_of_key(entries::stored(map, key, value), key.encoding()) == Some(value),
        entries::value_of_key(entries::stored(map, key, value), other) == entries::value_of_key(map, other),
        map.contains_key(key.encoding()) ==> entries::stored(map, key, value)[key.encoding()].0
            == map[key.encoding()].0,
{
}

proof fn lemma_encodings_without(list: Seq<(PString, Value)>, key: Seq<u8>)
    requires
        entries::distinct_keys(list),
    ensures
        entries::encodings(entries::without_key(list, key)) == immutable_hash::order_without(entries::encodings(list), key),
    decreases list.len(),
{
    let order = entries::encodings(list);
    if list.len() > 0 {
        let rest = list.drop_first();
        entries::lemma_distinct_skip(list, 1);
        assert(list.skip(1) =~= rest);
        assert(entries::encodings(rest) =~= order.drop_first());
        lemma_encodings_without(rest, key);
        if order[0] == key {
            if entries::encodings(rest).contains(key) {
                let i = choose|i: int| 0 <= i < rest.len() && entries::encodings(rest)[i] == key;
                assert(list[i + 1].0.encoding() == list[0].0.encoding());
            }
            immutable_hash::lemma_order_without_absent(entries::encodings(rest), key);
        } else {
            assert(entries::encodings(entries::without_key(list, key)) =~= seq![order[0]] + entries::encodings(
                entries::without_key(rest, key),
            ));
        }
    } else {
        assert(entries::encodings(entries::without_key(list, key)) =~= order);
    }
}

/// A look-up finds what is listed: a key reads as a value exactly where an entry has that key and that value, and does
/// not exist where no entry has it.
pub proof fn law_lookup_finds_what_is_listed(hash: Hash, key: Seq<u8>, value: Value)
    requires
        hash.wf(),
    ensures
        entries::value_of_key(hash.contents(), key) == Some(value) <==> exists|i: int|
            0 <= i < hash.listing().len() && (#[trigger] hash.listing()[i]).0.encoding() == key && hash.listing()[i].1
                == value,
        hash.contents().contains_key(key) <==> exists|i: int|
            0 <= i < hash.listing().len() && (#[trigger] hash.listing()[i]).0.encoding() == key,
        forall|i: int| 0 <= i < hash.listing().len() ==> !(#[trigger] hash.listing()[i]).0.taint_bit(),
{
    lemma_shape(hash);
    let list = hash.listing();
    if hash.contents().contains_key(key) {
        let i = choose|i: int| #[trigger] entries::keyed(list, i, key);
        entries::lemma_contents_at(list, i);
        assert(list[i].0.encoding() == key);
    }
    if exists|i: int| 0 <= i < list.len() && (#[trigger] list[i]).0.encoding() == key {
        let i = choose|i: int| 0 <= i < list.len() && (#[trigger] list[i]).0.encoding() == key;
        entries::lemma_contents_at(list, i);
    }
    if exists|i: int| 0 <= i < list.len() && (#[trigger] list[i]).0.encoding() == key && list[i].1 == value {
        let i = choose|i: int| 0 <= i < list.len() && (#[trigger] list[i]).0.encoding() == key && list[i].1 == value;
        entries::lemma_contents_at(list, i);
    }
}

/// A new key is stored as it is spelled, with its value, and nothing else changes; storing never takes a key away.
pub proof fn law_storing_adds_one_entry(map: Map<Seq<u8>, (PString, Value)>, key: PString, value: Value, other: Seq<u8>)
    ensures
        !map.contains_key(key.encoding()) ==> entries::stored(map, key, value)[key.encoding()] == (key, value),
        entries::stored(map, key, value).contains_key(other) <==> map.contains_key(other) || other == key.encoding(),
        other != key.encoding() && map.contains_key(other) ==> entries::stored(map, key, value)[other] == map[other],
{
}

/// A laundered key is the same characters without the taint.
pub proof fn law_laundering_takes_only_the_taint(before: PString, after: PString)
    requires
        laundered(before, after),
    ensures
        after.encoding() == before.encoding(),
        after.data() == before.data(),
        after.flagged() == before.flagged(),
        !after.taint_bit(),
{
}

/// The insertion-ordered engine lists entries as they came: a new key behind all others, and a key that was there in the
/// place it had.
pub proof fn law_insertion_order_is_kept(before: Hash, after: Hash, key: PString, value: Value, i: int)
    requires
        before is Ordered,
        stored_in_order(before, after, key, value),
        0 <= i < before.listing().len(),
    ensures
        before.contents().contains_key(key.encoding()) ==> after.listing().len() == before.listing().len()
            && after.listing()[i].0 == before.listing()[i].0,
        !before.contents().contains_key(key.encoding()) ==> {
            &&& after.listing().len() == before.listing().len() + 1
            &&& after.listing()[i] == before.listing()[i]
            &&& after.listing().last() == (key, value)
        },
{
    if before.contents().contains_key(key.encoding()) {
        assert(entries::keys_of(after.listing()).len() == after.listing().len());
        assert(entries::keys_of(before.listing()).len() == before.listing().len());
        assert(entries::keys_of(after.listing())[i] == after.listing()[i].0);
        assert(entries::keys_of(before.listing())[i] == before.listing()[i].0);
    }
}

/// Deleting the entry that a walk yielded last is safe: the walk goes on with every key that was still to come, and
/// with no other.
pub proof fn law_deleting_the_current_entry_is_safe(
    before: Hash,
    current: Hash,
    after: Hash,
    r: Option<(PString, Value)>,
)
    requires
        before.wf(),
        current.wf(),
        walk_step(before, current, before.walk_order(), r),
        r is Some,
        current.has_yielded((r->0).0.encoding()) ==> after.same_to_come(current),
    ensures
        after.walk_order().to_multiset() == before.walk_order().drop_first().to_multiset(),
{
    law_walk_repeats_no_key(before);
    assert(before.walk_order().len() > 0);
    assert(current.has_yielded(before.walk_order()[0]));
    match (after, current) {
        (Hash::Ordered(h), Hash::Ordered(o)) => {
            lemma_encodings_multiset(h.engine.pending(), o.engine.pending());
        },
        _ => {},
    }
}

proof fn lemma_encodings_multiset(a: Seq<(PString, Value)>, b: Seq<(PString, Value)>)
    requires
        a.to_multiset() == b.to_multiset(),
    ensures
        entries::encodings(a).to_multiset() == entries::encodings(b).to_multiset(),
    decreases a.len(),
{
    broadcast use vstd::seq_lib::group_to_multiset_ensures;

    assert(a.to_multiset().len() == a.len() && b.to_multiset().len() == b.len());
    if a.len() > 0 {
        let x = a[0];
        assert(a.to_multiset().count(x) > 0);
        assert(b.contains(x));
        let j = choose|j: int| 0 <= j < b.len() && b[j] == x;
        let rest_a = a.drop_first();
        let rest_b = b.remove(j);
        assert(a =~= seq![x] + rest_a);
        assert(a.remove(0) =~= rest_a);
        assert(rest_a.to_multiset() =~= rest_b.to_multiset());
        lemma_encodings_multiset(rest_a, rest_b);
        let ea = entries::encodings(a);
        let eb = entries::encodings(b);
        assert(ea.remove(0) =~= entries::encodings(rest_a));
        assert(eb.remove(j) =~= entries::encodings(rest_b));
        assert(ea[0] == eb[j]);
        assert(ea.to_multiset() =~= ea.remove(0).to_multiset().insert(ea[0]));
        assert(eb.to_multiset() =~= eb.remove(j).to_multiset().insert(eb[j]));
    } else {
        assert(entries::encodings(a) =~= entries::encodings(b));
    }
}

/// What a deletion leaves of a walk, whichever engine: keys that were still to come come still, but for the deleted one,
/// unless the insertion-ordered engine moved the last pair back to a place that was passed.
pub proof fn law_deleting_takes_one_key_from_a_walk(before: Hash, after: Hash, key: Seq<u8>, other: Seq<u8>)
    requires
        before.wf(),
        before !is Ordered,
        deleted_in_walk(before, after, key),
        !before.begins_anew(),
    ensures
        after.walk_order().contains(other) <==> before.walk_order().contains(other) && other != key,
{
    immutable_hash::lemma_order_without_members(before.walk_order(), key, other);
}

/// Of the insertion-ordered engine the last pair takes the place of the deleted one, so that every other pair keeps its
/// place and nothing else is lost.
pub proof fn law_deleting_moves_the_last_pair(before: Hash, after: Hash, key: Seq<u8>, i: int, k: int)
    requires
        before.wf(),
        before is Ordered,
        deleted_in_walk(before, after, key),
        0 <= i < before.listing().len(),
        before.listing()[i].0.encoding() == key,
        0 <= k < before.listing().len() - 1,
    ensures
        after.listing().len() == before.listing().len() - 1,
        k != i ==> after.listing()[k] == before.listing()[k],
        k == i ==> after.listing()[k] == before.listing().last(),
        before matches Hash::Ordered(b) && after matches Hash::Ordered(a) && a.engine.passed() == (if i
            < b.engine.passed() {
            b.engine.passed() - 1
        } else {
            b.engine.passed() as int
        }),
{
    assert(entries::keyed(before.listing(), i, key));
}

/// What a new key does to a walk under way: over buckets it starts over, over the insertion order the key comes after
/// all others, and over a copy it waits for the next walk where the copy does not have it.
pub proof fn law_new_key_in_a_walk(before: Hash, after: Hash, key: Seq<u8>)
    requires
        new_key_in_walk(before, after, key),
        after.same_engine(before),
    ensures
        before is Perl ==> after.begins_anew(),
        before is Ordered ==> after.walk_order().len() == before.walk_order().len() + 1 && after.walk_order().last() == key
            && after.walk_order().drop_last() == before.walk_order(),
        before is Immutable && before.begins_anew() ==> after.begins_anew(),
        before is Immutable && !before.begins_anew() && !before.copy_holds(key) ==> after.walk_order()
            == before.walk_order() && !after.begins_anew(),
        before is Immutable && !before.begins_anew() && before.copy_holds(key) ==> after.walk_order().contains(key),
{
    assert(before is Ordered ==> after.walk_order().drop_last() =~= before.walk_order());
}

} // verus!
