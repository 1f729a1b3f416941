//! `Array`: the array a perl program sees, over one of two engines that is fixed at construction.
use crate::array;
use crate::array::PerlArray;
use crate::scalar::ScalarError;
use crate::slot_tree;
use crate::slot_tree::{
    new_tree, tree_clone, tree_get, tree_len, tree_pop_back, tree_pop_front, tree_push_back, tree_push_front, tree_set,
    tree_slot, SlotTree,
};
use crate::value::{ScalarPayload, Value};
use vstd::prelude::*;

verus! {

/// The immutable engine: a persistent sequence of slots, with cheap detached copies.
pub struct ImmutableArray {
    vec: SlotTree,
    readonly: bool,
}

/// An array.
pub enum Array {
    /// The default: the front-gap engine.
    Perl(PerlArray),
    /// The immutable engine, on explicit request only.
    Immutable(ImmutableArray),
}

pub(crate) fn check_writable(readonly: bool) -> (r: Result<(), ScalarError>)
    ensures
        r == if readonly {
            Err(ScalarError::ReadOnly)
        } else {
            Ok::<(), ScalarError>(())
        },
{
    if readonly {
        Err(ScalarError::ReadOnly)
    } else {
        Ok(())
    }
}

fn flat_value(slot: Option<Option<Value>>) -> (r: Value)
    ensures
        r == match slot {
            Some(inner) => array::slot_value(inner),
            None => ScalarPayload::undef_value(),
        },
{
    match slot {
        Some(Some(value)) => value,
        _ => ScalarPayload::Undef { tainted: false },
    }
}

impl ImmutableArray {
    /// The elements, holes included.
    pub closed spec fn elements(self) -> Seq<Option<Value>> {
        slot_tree::tree_slots(self.vec)
    }

    /// The readonly flag.
    pub closed spec fn frozen(self) -> bool {
        self.readonly
    }

    /// Make the sequence reach `index`, holes standing in between.
    fn extend_to(&mut self, index: usize)
        requires
            index < usize::MAX,
        ensures
            final(self).elements() == array::extended(old(self).elements(), index as nat + 1),
            final(self).frozen() == old(self).frozen(),
    {
        assert(self.elements() =~= array::extended(self.elements(), self.elements().len()));
        while tree_len(&self.vec) <= index
            invariant
                index < usize::MAX,
                self.readonly == old(self).readonly,
                self.elements().len() >= old(self).elements().len(),
                self.elements() == array::extended(old(self).elements(), self.elements().len()),
                self.elements().len() <= index + 1 || self.elements() == old(self).elements(),
            decreases index + 1 - self.elements().len(),
        {
            let ghost before = self.elements();
            tree_push_back(&mut self.vec, None);
            assert(self.elements() =~= array::extended(old(self).elements(), before.len() + 1));
        }
        assert(self.elements() =~= array::extended(old(self).elements(), index as nat + 1));
    }

    /// Drop the holes at the end.
    fn trim(&mut self)
        ensures
            final(self).elements() == array::trimmed(old(self).elements()),
            final(self).frozen() == old(self).frozen(),
    {
        loop
            invariant
                self.readonly == old(self).readonly,
                array::trimmed(self.elements()) == array::trimmed(old(self).elements()),
            ensures
                self.readonly == old(self).readonly,
                self.elements() == array::trimmed(old(self).elements()),
            decreases self.elements().len(),
        {
            let n: usize = tree_len(&self.vec);
            if n == 0 {
                break;
            }
            let occupied: bool = match tree_get(&self.vec, n - 1) {
                Some(Some(_)) => true,
                _ => false,
            };
            if occupied {
                break;
            }
            let _hole = tree_pop_back(&mut self.vec);
        }
    }
}

/// The values of the slots that are no holes, in their order.
pub open spec fn existing(slots: Seq<Option<Value>>) -> Seq<Value>
    decreases slots.len(),
{
    if slots.len() == 0 {
        seq![]
    } else {
        match slots.last() {
            Some(value) => existing(slots.drop_last()).push(value),
            None => existing(slots.drop_last()),
        }
    }
}

impl Array {
    /// The elements, holes included.
    pub open spec fn elements(self) -> Seq<Option<Value>> {
        match self {
            Array::Perl(a) => a.elements(),
            Array::Immutable(a) => a.elements(),
        }
    }

    /// The readonly flag.
    pub open spec fn frozen(self) -> bool {
        match self {
            Array::Perl(a) => a.frozen(),
            Array::Immutable(a) => a.frozen(),
        }
    }

    /// Whether the slots that are allocated reach `index`; the immutable engine allocates as it goes.
    pub open spec fn reaches(self, index: nat) -> bool {
        self matches Array::Perl(a) ==> index < a.total()
    }

    /// What reaching `index` makes of the allocation of `before`; the immutable engine allocates as it goes.
    pub open spec fn reached(self, before: Array, index: nat) -> bool {
        match (self, before) {
            (Array::Perl(a), Array::Perl(b)) => a.reached(b, index),
            (Array::Immutable(_), Array::Immutable(_)) => true,
            _ => false,
        }
    }

    /// Whether as many slots are allocated as in `before`.
    pub open spec fn same_slots(self, before: Array) -> bool {
        match (self, before) {
            (Array::Perl(a), Array::Perl(b)) => a.total() == b.total(),
            (Array::Immutable(_), Array::Immutable(_)) => true,
            _ => false,
        }
    }

    /// Whether the elements stand behind as long a gap as in `before`, in as many slots.
    pub open spec fn same_window(self, before: Array) -> bool {
        &&& self.same_slots(before)
        &&& self matches Array::Perl(a) ==> before matches Array::Perl(b) ==> a.gap() == b.gap()
    }

    /// What an element at the front makes of the allocation of `before`.
    pub open spec fn reached_before(self, before: Array) -> bool {
        match (self, before) {
            (Array::Perl(a), Array::Perl(b)) => if b.gap() > 0 {
                a.total() == b.total() && a.gap() == b.gap() - 1
            } else {
                &&& a.total() == array::grown_total(b.total(), array::unshift_need(b.elements().len()))
                &&& a.gap() == array::prepaid_gap(b.elements().len())
            },
            (Array::Immutable(_), Array::Immutable(_)) => true,
            _ => false,
        }
    }

    /// Whether an element can go to the front with the slots that are allocated: into the gap, or where the elements
    /// slide right.
    pub open spec fn has_room_before(self) -> bool {
        ||| self.reaches(2 * self.elements().len() + 1)
        ||| self matches Array::Perl(a) && a.gap() > 0
    }

    /// A refused or failed change: the elements are as they were, and the error says why.
    pub open spec fn unchanged_by(self, before: Array, error: ScalarError) -> bool {
        &&& self.elements() == before.elements()
        &&& self.same_slots(before)
        &&& before.frozen() <==> error is ReadOnly
        &&& error is ReadOnly || error is Alloc
    }

    /// The default engine.
    pub fn new() -> (r: Array)
        ensures
            r matches Array::Perl(a) && a.total() == 0 && a.gap() == 0,
            r.elements() == Seq::<Option<Value>>::empty(),
            !r.frozen(),
    {
        Array::Perl(PerlArray::new())
    }

    /// The immutable engine.
    pub fn immutable() -> (r: Array)
        ensures
            r is Immutable,
            r.elements() == Seq::<Option<Value>>::empty(),
            !r.frozen(),
    {
        Array::Immutable(ImmutableArray { vec: new_tree(), readonly: false })
    }

    pub fn len(&self) -> (r: usize)
        ensures
            r == self.elements().len(),
            self matches Array::Perl(a) ==> a.gap() + r <= a.total(),
    {
        match self {
            Array::Perl(a) => a.len(),
            Array::Immutable(a) => tree_len(&a.vec),
        }
    }

    pub fn is_empty(&self) -> (r: bool)
        ensures
            r == (self.elements().len() == 0),
    {
        self.len() == 0
    }

    /// Read access, cloned out: `None` for holes and beyond the end alike.
    pub fn get(&self, index: usize) -> (r: Option<Value>)
        ensures
            r == if index < self.elements().len() {
                self.elements()[index as int]
            } else {
                None
            },
    {
        match self {
            Array::Perl(a) => match a.get(index) {
                Some(value) => Some(value.clone()),
                None => None,
            },
            Array::Immutable(a) => match tree_get(&a.vec, index) {
                Some(Some(value)) => Some(value.clone()),
                _ => None,
            },
        }
    }

    /// Present and occupied.
    pub fn exists_at(&self, index: usize) -> (r: bool)
        ensures
            r == (index < self.elements().len() && self.elements()[index as int] is Some),
    {
        self.get(index).is_some()
    }

    /// `$a[$i] = $v`: extends with holes below.
    pub fn set(&mut self, index: usize, value: Value) -> (r: Result<(), ScalarError>)
        requires
            *old(self) is Immutable && !old(self).frozen() ==> index < usize::MAX,
        ensures
            *final(self) is Perl == *old(self) is Perl,
            final(self).frozen() == old(self).frozen(),
            old(self).frozen() ==> r is Err,
            !old(self).frozen() && old(self).reaches(index as nat) ==> r is Ok,
            r is Ok ==> final(self).reached(*old(self), index as nat),
            r is Ok ==> final(self).elements() == array::extended(old(self).elements(), index as nat + 1).update(
                index as int,
                Some(value),
            ),
            r is Err ==> final(self).unchanged_by(*old(self), r->Err_0),
    {
        match self {
            Array::Perl(a) => a.set(index, value),
            Array::Immutable(a) => {
                match check_writable(a.readonly) {
                    Err(error) => {
                        return Err(error);
                    },
                    Ok(()) => {},
                }
                a.extend_to(index);
                let _earlier = tree_set(&mut a.vec, index, Some(value));
                Ok(())
            },
        }
    }

    /// Lvalue access: an element that does not exist comes into being, undefined.
    pub fn ensure_element(&mut self, index: usize) -> (r: Result<&mut Value, ScalarError>)
        requires
            *old(self) is Immutable && !old(self).frozen() ==> index < usize::MAX,
        ensures
            *final(self) is Perl == *old(self) is Perl,
            final(self).frozen() == old(self).frozen(),
            old(self).frozen() ==> r is Err,
            !old(self).frozen() && old(self).reaches(index as nat) ==> r is Ok,
            r is Ok ==> final(self).reached(*old(self), index as nat),
            r is Ok ==> *r->Ok_0 == array::value_at(old(self).elements(), index as int),
            r is Ok ==> final(self).elements() == array::extended(old(self).elements(), index as nat + 1).update(
                index as int,
                Some(*final(r->Ok_0)),
            ),
            r is Err ==> final(self).unchanged_by(*old(self), r->Err_0),
    {
        match self {
            Array::Perl(a) => a.ensure_element(index),
            Array::Immutable(a) => {
                match check_writable(a.readonly) {
                    Err(error) => {
                        return Err(error);
                    },
                    Ok(()) => {},
                }
                a.extend_to(index);
                let existing: bool = match tree_get(&a.vec, index) {
                    Some(Some(_)) => true,
                    _ => false,
                };
                if !existing {
                    let _hole = tree_set(&mut a.vec, index, Some(ScalarPayload::Undef { tainted: false }));
                }
                match tree_slot(&mut a.vec, index) {
                    Some(Some(value)) => Ok(value),
                    _ => Err(ScalarError::ReadOnly),
                }
            },
        }
    }

    /// `delete $a[$i]`: the deleted value.  Deleting the last element truncates through the holes before it.
    pub fn delete(&mut self, index: usize) -> (r: Result<Value, ScalarError>)
        ensures
            *final(self) is Perl == *old(self) is Perl,
            final(self).frozen() == old(self).frozen(),
            old(self).frozen() ==> r == Err::<Value, ScalarError>(ScalarError::ReadOnly) && final(self).elements()
                == old(self).elements(),
            !old(self).frozen() ==> {
                &&& r == Ok::<Value, ScalarError>(array::value_at(old(self).elements(), index as int))
                &&& final(self).elements() == array::deleted(old(self).elements(), index as int)
                &&& index < final(self).elements().len() ==> final(self).elements()[index as int] is None
            },
            final(self).same_window(*old(self)),
    {
        match self {
            Array::Perl(a) => a.delete(index),
            Array::Immutable(a) => {
                match check_writable(a.readonly) {
                    Err(error) => {
                        return Err(error);
                    },
                    Ok(()) => {},
                }
                let n: usize = tree_len(&a.vec);
                if index >= n {
                    return Ok(ScalarPayload::Undef { tainted: false });
                }
                let taken = tree_set(&mut a.vec, index, None);
                if index == n - 1 {
                    proof {
                        array::law_deleting_leaves_a_hole(old(self).elements(), index as int);
                    }
                    a.trim();
                }
                Ok(flat_value(Some(taken)))
            },
        }
    }

    /// `push @a, $v`.
    pub fn push_value(&mut self, value: Value) -> (r: Result<(), ScalarError>)
        requires
            *old(self) is Immutable && !old(self).frozen() ==> old(self).elements().len() < usize::MAX,
        ensures
            *final(self) is Perl == *old(self) is Perl,
            final(self).frozen() == old(self).frozen(),
            old(self).frozen() ==> r is Err,
            !old(self).frozen() && old(self).reaches(old(self).elements().len()) ==> r is Ok,
            r is Ok ==> final(self).reached(*old(self), old(self).elements().len()),
            r is Ok ==> final(self).elements() == old(self).elements().push(Some(value)),
            r is Err ==> final(self).unchanged_by(*old(self), r->Err_0),
    {
        match self {
            Array::Perl(a) => a.push_value(value),
            Array::Immutable(a) => {
                match check_writable(a.readonly) {
                    Err(error) => {
                        return Err(error);
                    },
                    Ok(()) => {},
                }
                tree_push_back(&mut a.vec, Some(value));
                Ok(())
            },
        }
    }

    /// `pop @a`: undefined for an empty array and for a hole at the end; shortens by one.
    pub fn pop_value(&mut self) -> (r: Result<Value, ScalarError>)
        ensures
            *final(self) is Perl == *old(self) is Perl,
            final(self).frozen() == old(self).frozen(),
            old(self).frozen() ==> r == Err::<Value, ScalarError>(ScalarError::ReadOnly) && final(self).elements()
                == old(self).elements(),
            !old(self).frozen() ==> {
                let elements = old(self).elements();
                &&& r == Ok::<Value, ScalarError>(array::value_at(elements, elements.len() - 1))
                &&& final(self).elements() == (if elements.len() == 0 {
                    elements
                } else {
                    elements.drop_last()
                })
            },
            final(self).same_window(*old(self)),
    {
        match self {
            Array::Perl(a) => a.pop_value(),
            Array::Immutable(a) => {
                match check_writable(a.readonly) {
                    Err(error) => {
                        return Err(error);
                    },
                    Ok(()) => {},
                }
                Ok(flat_value(tree_pop_back(&mut a.vec)))
            },
        }
    }

    /// `shift @a`: undefined for an empty array and for a hole at the front; shortens by one.
    pub fn shift_value(&mut self) -> (r: Result<Value, ScalarError>)
        ensures
            *final(self) is Perl == *old(self) is Perl,
            final(self).frozen() == old(self).frozen(),
            old(self).frozen() ==> r == Err::<Value, ScalarError>(ScalarError::ReadOnly) && final(self).elements()
                == old(self).elements(),
            !old(self).frozen() ==> {
                let elements = old(self).elements();
                &&& r == Ok::<Value, ScalarError>(array::value_at(elements, 0))
                &&& final(self).elements() == (if elements.len() == 0 {
                    elements
                } else {
                    elements.drop_first()
                })
            },
            final(self).same_slots(*old(self)),
            !old(self).frozen() && old(self).elements().len() > 0 ==> (*final(self) matches Array::Perl(a) ==> *old(
                self) matches Array::Perl(b) ==> a.gap() == b.gap() + 1),
            old(self).frozen() || old(self).elements().len() == 0 ==> final(self).same_window(*old(self)),
    {
        match self {
            Array::Perl(a) => a.shift_value(),
            Array::Immutable(a) => {
                match check_writable(a.readonly) {
                    Err(error) => {
                        return Err(error);
                    },
                    Ok(()) => {},
                }
                Ok(flat_value(tree_pop_front(&mut a.vec)))
            },
        }
    }

    /// `unshift @a, $v`.
    pub fn unshift_value(&mut self, value: Value) -> (r: Result<(), ScalarError>)
        requires
            *old(self) is Immutable && !old(self).frozen() ==> old(self).elements().len() < usize::MAX,
        ensures
            *final(self) is Perl == *old(self) is Perl,
            final(self).frozen() == old(self).frozen(),
            old(self).frozen() ==> r is Err,
            !old(self).frozen() && old(self).has_room_before() ==> r is Ok,
            r is Ok ==> final(self).reached_before(*old(self)),
            r is Ok ==> final(self).elements() == seq![Some(value)] + old(self).elements(),
            r is Err ==> final(self).unchanged_by(*old(self), r->Err_0),
    {
        match self {
            Array::Perl(a) => a.unshift_value(value),
            Array::Immutable(a) => {
                match check_writable(a.readonly) {
                    Err(error) => {
                        return Err(error);
                    },
                    Ok(()) => {},
                }
                tree_push_front(&mut a.vec, Some(value));
                Ok(())
            },
        }
    }

    /// `@a = ()`.
    pub fn clear(&mut self) -> (r: Result<(), ScalarError>)
        ensures
            *final(self) is Perl == *old(self) is Perl,
            final(self).frozen() == old(self).frozen(),
            old(self).frozen() ==> r == Err::<(), ScalarError>(ScalarError::ReadOnly) && final(self).elements()
                == old(self).elements(),
            !old(self).frozen() ==> r is Ok && final(self).elements() == Seq::<Option<Value>>::empty(),
            final(self).same_window(*old(self)),
    {
        match self {
            Array::Perl(a) => a.clear(),
            Array::Immutable(a) => {
                match check_writable(a.readonly) {
                    Err(error) => {
                        return Err(error);
                    },
                    Ok(()) => {},
                }
                a.vec = new_tree();
                Ok(())
            },
        }
    }

    pub fn set_readonly(&mut self, readonly: bool)
        ensures
            *final(self) is Perl == *old(self) is Perl,
            final(self).frozen() == readonly,
            final(self).elements() == old(self).elements(),
            final(self).same_window(*old(self)),
    {
        match self {
            Array::Perl(a) => a.set_readonly(readonly),
            Array::Immutable(a) => {
                a.readonly = readonly;
            },
        }
    }

    pub fn is_readonly(&self) -> (r: bool)
        ensures
            r == self.frozen(),
    {
        match self {
            Array::Perl(a) => a.is_readonly(),
            Array::Immutable(a) => a.readonly,
        }
    }

    /// The elements that exist, in their order.
    pub fn existing_values(&self) -> (r: Vec<Value>)
        ensures
            r@ == existing(self.elements()),
    {
        let mut out: Vec<Value> = Vec::new();
        let n: usize = self.len();
        let mut i: usize = 0;
        assert(self.elements().take(0) =~= Seq::<Option<Value>>::empty());
        while i < n
            invariant
                n == self.elements().len(),
                i <= n,
                out@ == existing(self.elements().take(i as int)),
            decreases n - i,
        {
            if let Some(value) = self.get(i) {
                out.push(value);
            }
            assert(self.elements().take(i + 1).drop_last() =~= self.elements().take(i as int));
            i = i + 1;
        }
        assert(self.elements().take(n as int) =~= self.elements());
        out
    }

    /// A detached copy of an immutable array, its readonly flag cleared.  The front-gap engine has no cheap copy.
    pub fn snapshot(&self) -> (r: Result<Array, ScalarError>)
        ensures
            self is Perl ==> r == Err::<Array, ScalarError>(ScalarError::SnapshotUnsupported),
            self is Immutable ==> {
                &&& r is Ok
                &&& r->Ok_0 is Immutable
                &&& (r->Ok_0).elements() == self.elements()
                &&& !(r->Ok_0).frozen()
            },
    {
        match self {
            Array::Perl(_) => Err(ScalarError::SnapshotUnsupported),
            Array::Immutable(a) => Ok(Array::Immutable(ImmutableArray { vec: tree_clone(&a.vec), readonly: false })),
        }
    }
}

/// The values of two stretches of slots are those of the first and then those of the second; of one slot they are the
/// value it holds, if it is no hole.
pub proof fn law_existing_values_keep_their_order(a: Seq<Option<Value>>, b: Seq<Option<Value>>, value: Value)
    ensures
        existing(a + b) == existing(a) + existing(b),
        existing(seq![Some(value)]) == seq![value],
        existing(seq![None]) == Seq::<Value>::empty(),
    decreases b.len(),
{
    let one: Seq<Option<Value>> = seq![Some(value)];
    let hole: Seq<Option<Value>> = seq![None];
    assert(one.drop_last() =~= Seq::<Option<Value>>::empty());
    assert(hole.drop_last() =~= Seq::<Option<Value>>::empty());
    assert(existing(Seq::<Option<Value>>::empty()) =~= Seq::<Value>::empty());
    assert(existing(one) =~= seq![value]);
    assert(existing(hole) =~= Seq::<Value>::empty());
    if b.len() == 0 {
        assert(a + b =~= a);
        assert(existing(a) + existing(b) =~= existing(a));
    } else {
        law_existing_values_keep_their_order(a, b.drop_last(), value);
        assert((a + b).drop_last() =~= a + b.drop_last());
        assert(existing(a + b) =~= existing(a) + existing(b));
    }
}

impl Default for Array {
    fn default() -> (r: Array)
        ensures
            r matches Array::Perl(a) && a.total() == 0 && a.gap() == 0,
            r.elements() == Seq::<Option<Value>>::empty(),
            !r.frozen(),
    {
        Array::new()
    }
}

/// A change that failed left the elements as they were, and it says that the array is readonly exactly where it is.
pub proof fn law_failed_changes_change_nothing(before: Array, after: Array, error: ScalarError)
    requires
        after.unchanged_by(before, error),
    ensures
        after.elements() == before.elements(),
        before.frozen() ==> error == ScalarError::ReadOnly,
        !before.frozen() ==> error is Alloc,
{
}

/// The slots reach what they hold: an index among the elements is within them, and one that was written stays so.
pub proof fn law_written_indices_stay_in_reach(before: Array, after: Array, index: nat)
    requires
        after.reached(before, index),
    ensures
        after.reaches(index),
        before.reaches(index) ==> after.same_slots(before),
{
}

} // verus!
