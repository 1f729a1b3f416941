//! The front-gap array engine: slots whose live window floats behind a gap, so that `shift` slides the window and
//! `unshift` reclaims the gap before any element moves.
use crate::cow_buffer::{reserve_exact, AllocError};
use crate::scalar::ScalarError;
use crate::value::{ScalarPayload, Value};
use vstd::prelude::*;

verus! {

/// Slots brought to at least `n` by holes at the end.
pub open spec fn extended(slots: Seq<Option<Value>>, n: nat) -> Seq<Option<Value>> {
    if slots.len() >= n {
        slots
    } else {
        slots + Seq::new((n - slots.len()) as nat, |i: int| None)
    }
}

/// Slots without the holes at their end.
pub open spec fn trimmed(slots: Seq<Option<Value>>) -> Seq<Option<Value>>
    decreases slots.len(),
{
    if slots.len() > 0 && slots.last() is None {
        trimmed(slots.drop_last())
    } else {
        slots
    }
}

/// The value of a slot: the undefined value for a hole.
pub open spec fn slot_value(slot: Option<Value>) -> Value {
    match slot {
        Some(value) => value,
        None => ScalarPayload::undef_value(),
    }
}

/// The value of the slot at `index`, which may lie beyond the end.
pub open spec fn value_at(slots: Seq<Option<Value>>, index: int) -> Value {
    if 0 <= index < slots.len() {
        slot_value(slots[index])
    } else {
        ScalarPayload::undef_value()
    }
}

/// What deleting the slot at `index` leaves: a hole there, and where it was the last slot no holes at the end.
pub open spec fn deleted(slots: Seq<Option<Value>>, index: int) -> Seq<Option<Value>> {
    if index >= slots.len() {
        slots
    } else if index == slots.len() - 1 {
        trimmed(slots.update(index, None))
    } else {
        slots.update(index, None)
    }
}

/// The bytes of `n` slots, or the largest number where they are more.
pub open spec fn slot_bytes(n: nat) -> nat {
    let bytes = n * vstd::layout::size_of::<Option<Value>>();
    if bytes <= usize::MAX {
        bytes
    } else {
        usize::MAX as nat
    }
}

/// What is asked of the allocator for an array of `total` slots that is to hold `min_cap`.
pub open spec fn growth_request(total: nat, min_cap: nat) -> nat {
    if min_cap + total / 5 <= usize::MAX {
        slot_bytes(min_cap + total / 5)
    } else {
        slot_bytes(min_cap)
    }
}

/// The slots there are once `min_cap` of them are to be had, of `total`: as many as before where that is enough, and
/// otherwise the need and a fifth of what there was.
pub open spec fn grown_total(total: nat, min_cap: nat) -> nat {
    if min_cap <= total {
        total
    } else {
        min_cap + total / 5
    }
}

fn request_of(slots: usize) -> (r: usize)
    ensures
        r == slot_bytes(slots as nat),
{
    let width: usize = std::mem::size_of::<Option<Value>>();
    match slots.checked_mul(width) {
        Some(bytes) => bytes,
        None => usize::MAX,
    }
}

/// The value of a slot, taken out of it.
fn value_of(slot: Option<Value>) -> (r: Value)
    ensures
        r == slot_value(slot),
{
    match slot {
        Some(value) => value,
        None => ScalarPayload::Undef { tainted: false },
    }
}

/// The slots, the gap before the live window, and the window's length.  Every slot outside the window is a hole.
struct Geometry {
    slots: Vec<Option<Value>>,
    start: usize,
    len: usize,
}

impl Geometry {
    spec fn wf(self) -> bool {
        &&& self.start + self.len <= self.slots@.len()
        &&& forall|i: int|
            0 <= i < self.slots@.len() && !(self.start <= i < self.start + self.len) ==> #[trigger] self.slots@[i] is None
    }

    spec fn live(self) -> Seq<Option<Value>> {
        self.slots@.subrange(self.start as int, self.start + self.len)
    }

    /// The slots that are usable from the window's start on.
    spec fn cap(self) -> nat {
        (self.slots@.len() - self.start) as nat
    }

    fn empty() -> (r: Geometry)
        ensures
            r.wf(),
            r.live() == Seq::<Option<Value>>::empty(),
            r.slots@.len() == 0,
            r.start == 0,
    {
        let r = Geometry { slots: Vec::new(), start: 0, len: 0 };
        assert(r.live() =~= Seq::<Option<Value>>::empty());
        r
    }

    /// Slide the live window back over the gap.
    fn reclaim_gap(&mut self)
        requires
            old(self).wf(),
        ensures
            final(self).wf(),
            final(self).live() == old(self).live(),
            final(self).start == 0,
            final(self).len == old(self).len,
            final(self).slots@.len() == old(self).slots@.len(),
    {
        let ghost before = self.slots@;
        let gap: usize = self.start;
        let mut k: usize = 0;
        if gap > 0 {
            while k < self.len
                invariant
                    gap == self.start,
                    gap > 0,
                    k <= self.len,
                    self.len == old(self).len,
                    self.start == old(self).start,
                    self.start + self.len <= self.slots@.len(),
                    self.slots@.len() == before.len(),
                    before == old(self).slots@,
                    old(self).wf(),
                    forall|j: int|
                        0 <= j < before.len() ==> #[trigger] self.slots@[j] == (if j < k {
                            before[j + gap]
                        } else if j < gap + k {
                            None
                        } else {
                            before[j]
                        }),
                decreases self.len - k,
            {
                let mut moved: Option<Value> = None;
                assert(gap + k < self.slots.len());
                self.slots.set_and_swap(gap + k, &mut moved);
                self.slots.set(k, moved);
                k = k + 1;
            }
            self.start = 0;
            assert(self.live() =~= old(self).live());
        }
    }

    /// Make room for `min_cap` slots: slide the window back over the gap, and where that is not enough ask for the
    /// need and a fifth of what there is.
    fn grow(&mut self, min_cap: usize) -> (r: Result<(), AllocError>)
        requires
            old(self).wf(),
        ensures
            final(self).wf(),
            final(self).live() == old(self).live(),
            final(self).len == old(self).len,
            r is Ok ==> min_cap <= final(self).cap(),
            r is Ok ==> final(self).slots@.len() == grown_total(old(self).slots@.len(), min_cap as nat),
            r is Err ==> final(self).slots@.len() == old(self).slots@.len(),
            min_cap <= old(self).cap() ==> r is Ok && *final(self) == *old(self),
            min_cap <= old(self).slots@.len() ==> r is Ok,
            min_cap > old(self).cap() ==> final(self).start == 0,
            r is Err ==> (r->Err_0).requested == growth_request(old(self).slots@.len(), min_cap as nat),
    {
        if self.slots.len() - self.start >= min_cap {
            return Ok(());
        }
        self.reclaim_gap();
        if self.slots.len() >= min_cap {
            return Ok(());
        }
        let total: usize = self.slots.len();
        let requested: usize = match min_cap.checked_add(total / 5) {
            Some(n) => n,
            None => {
                return Err(AllocError { requested: request_of(min_cap) });
            },
        };
        let granted: bool = reserve_exact(&mut self.slots, requested - total);
        self.grown(granted, requested)
    }

    /// Fill the slots up to `requested` with holes where they were granted.
    fn grown(&mut self, granted: bool, requested: usize) -> (r: Result<(), AllocError>)
        requires
            old(self).wf(),
            old(self).start == 0,
            old(self).slots@.len() < requested,
        ensures
            final(self).wf(),
            final(self).live() == old(self).live(),
            final(self).start == 0,
            final(self).len == old(self).len,
            granted ==> r is Ok && final(self).slots@.len() == requested,
            !granted ==> *final(self) == *old(self) && r is Err && (r->Err_0).requested == slot_bytes(requested as nat),
    {
        if !granted {
            return Err(AllocError { requested: request_of(requested) });
        }
        let ghost kept = self.slots@;
        while self.slots.len() < requested
            invariant
                self.wf(),
                self.start == 0,
                self.len == old(self).len,
                kept.len() <= self.slots@.len() <= requested,
                self.len <= kept.len(),
                self.slots@.take(kept.len() as int) == kept,
            decreases requested - self.slots@.len(),
        {
            let ghost earlier = self.slots@;
            self.slots.push(None);
            assert(self.slots@.take(kept.len() as int) =~= earlier.take(kept.len() as int));
        }
        assert(self.live() =~= kept.subrange(0, self.len as int)) by {
            assert forall|i: int| 0 <= i < self.len implies self.slots@[i] == kept[i] by {
                assert(self.slots@.take(kept.len() as int)[i] == kept[i]);
            }
        }
        Ok(())
    }

    /// Make the window reach `index`, holes standing in between.
    fn extend_to(&mut self, index: usize) -> (r: Result<(), AllocError>)
        requires
            old(self).wf(),
        ensures
            final(self).wf(),
            r is Ok ==> final(self).live() == extended(old(self).live(), index as nat + 1),
            r is Ok ==> index < final(self).len,
            r is Ok ==> final(self).slots@.len() == grown_total(old(self).slots@.len(), index as nat + 1),
            r is Err ==> final(self).slots@.len() == old(self).slots@.len(),
            r is Ok && index < old(self).cap() ==> final(self).start == old(self).start,
            r is Ok && index >= old(self).cap() ==> final(self).start == 0,
            r is Err ==> final(self).start == if index == usize::MAX {
                old(self).start
            } else {
                0
            },
            r is Err ==> final(self).live() == old(self).live(),
            index < old(self).slots@.len() ==> r is Ok,
            r is Err ==> (r->Err_0).requested == (if index == usize::MAX {
                usize::MAX as nat
            } else {
                growth_request(old(self).slots@.len(), index as nat + 1)
            }),
    {
        assert(self.slots.len() <= usize::MAX);
        if index == usize::MAX {
            return Err(AllocError { requested: usize::MAX });
        }
        let needed: usize = index + 1;
        match self.grow(needed) {
            Err(error) => {
                return Err(error);
            },
            Ok(()) => {},
        }
        if needed > self.len {
            self.len = needed;
        }
        assert(self.live() =~= extended(old(self).live(), index as nat + 1));
        Ok(())
    }

    /// Slide the live window `by` slots to the right, from a window without a gap.
    fn slide_right(&mut self, by: usize)
        requires
            old(self).wf(),
            old(self).start == 0,
            old(self).len + by <= old(self).slots@.len(),
        ensures
            final(self).wf(),
            final(self).start == by,
            final(self).live() == old(self).live(),
            final(self).slots@.len() == old(self).slots@.len(),
    {
        let ghost before = self.slots@;
        let mut k: usize = self.len;
        if by > 0 {
            while k > 0
                invariant
                    by > 0,
                    k <= self.len,
                    self.len == old(self).len,
                    self.len + by <= self.slots@.len(),
                    self.slots@.len() == before.len(),
                    before == old(self).slots@,
                    old(self).wf(),
                    old(self).start == 0,
                    forall|j: int|
                        0 <= j < before.len() ==> #[trigger] self.slots@[j] == (if j < k {
                            before[j]
                        } else if j < k + by {
                            None
                        } else if j < self.len + by {
                            before[j - by]
                        } else {
                            before[j]
                        }),
                decreases k,
            {
                k = k - 1;
                let mut moved: Option<Value> = None;
                self.slots.set_and_swap(k, &mut moved);
                assert(k + by < self.slots.len());
                self.slots.set(k + by, moved);
            }
        }
        self.start = by;
        assert(self.live() =~= old(self).live());
    }
}

impl Geometry {
    /// Fill the slot at `index` of the window.
    fn put(&mut self, index: usize, slot: Option<Value>)
        requires
            old(self).wf(),
            index < old(self).len,
        ensures
            final(self).wf(),
            final(self).live() == old(self).live().update(index as int, slot),
            final(self).start == old(self).start,
            final(self).len == old(self).len,
            final(self).slots@.len() == old(self).slots@.len(),
    {
        assert(self.start + index < self.slots.len());
        let at: usize = self.start + index;
        self.slots.set(at, slot);
        assert(self.live() =~= old(self).live().update(index as int, slot));
    }

    /// Empty the slot at `index` of the window.
    fn take(&mut self, index: usize) -> (r: Option<Value>)
        requires
            old(self).wf(),
            index < old(self).len,
        ensures
            r == old(self).live()[index as int],
            final(self).wf(),
            final(self).live() == old(self).live().update(index as int, None),
            final(self).start == old(self).start,
            final(self).len == old(self).len,
            final(self).slots@.len() == old(self).slots@.len(),
    {
        assert(self.start + index < self.slots.len());
        let at: usize = self.start + index;
        let mut taken: Option<Value> = None;
        self.slots.set_and_swap(at, &mut taken);
        assert(self.live() =~= old(self).live().update(index as int, None));
        taken
    }

    /// Shorten the window through the holes at its end.
    fn trim(&mut self)
        requires
            old(self).wf(),
        ensures
            final(self).wf(),
            final(self).live() == trimmed(old(self).live()),
            final(self).slots@.len() == old(self).slots@.len(),
            final(self).start == old(self).start,
    {
        loop
            invariant
                self.wf(),
                self.slots@.len() == old(self).slots@.len(),
                self.start == old(self).start,
                trimmed(self.live()) == trimmed(old(self).live()),
            ensures
                self.wf(),
                self.slots@.len() == old(self).slots@.len(),
                self.start == old(self).start,
                self.live() == trimmed(old(self).live()),
            decreases self.len,
        {
            if self.len == 0 {
                break;
            }
            assert(self.start + self.len <= self.slots.len());
            let last: usize = self.start + self.len - 1;
            let ghost before = self.live();
            assert(before.last() == self.slots@[last as int]);
            if self.slots[last].is_some() {
                break;
            }
            self.len = self.len - 1;
            assert(self.live() =~= before.drop_last());
        }
    }

    /// Turn a hole at `index` of the window into the undefined value.
    fn vivify(&mut self, index: usize)
        requires
            old(self).wf(),
            index < old(self).len,
        ensures
            final(self).wf(),
            final(self).live() == old(self).live().update(
                index as int,
                Some(slot_value(old(self).live()[index as int])),
            ),
            final(self).start == old(self).start,
            final(self).len == old(self).len,
            final(self).slots@.len() == old(self).slots@.len(),
    {
        let value = value_of(self.take(index));
        self.put(index, Some(value));
        assert(self.live() =~= old(self).live().update(
            index as int,
            Some(slot_value(old(self).live()[index as int])),
        ));
    }
}

/// A failure to make an array of `total` slots reach `index`.
pub open spec fn extend_failure(total: nat, index: nat, error: ScalarError) -> bool {
    &&& total <= index
    &&& error matches ScalarError::Alloc(e) && e.requested == (if index == usize::MAX {
        usize::MAX as nat
    } else {
        growth_request(total, index + 1)
    })
}

/// The front-gap array.  A hole is an element that does not exist; an existing element may hold the undefined value.
pub struct PerlArray {
    parts: Geometry,
    readonly: bool,
}

impl PerlArray {
    /// Whether the live window lies within the slots, and every slot outside it is a hole.
    #[verifier::type_invariant]
    pub closed spec fn wf(self) -> bool {
        self.parts.wf()
    }

    /// The elements, holes included.
    pub closed spec fn elements(self) -> Seq<Option<Value>> {
        self.parts.live()
    }

    /// The readonly flag.
    pub closed spec fn frozen(self) -> bool {
        self.readonly
    }

    /// The slots that are allocated, the gap and the spare ones included.
    pub closed spec fn total(self) -> nat {
        self.parts.slots@.len()
    }

    /// The slots before the live window.
    pub closed spec fn gap(self) -> nat {
        self.parts.start as nat
    }

    /// What reaching `index` makes of the allocation of `before`: slots come only where there are too few, and the gap
    /// is given up only where the slots behind it are too few.
    pub open spec fn reached(self, before: PerlArray, index: nat) -> bool {
        &&& self.total() == grown_total(before.total(), index + 1)
        &&& self.gap() == if before.gap() + index < before.total() {
            before.gap()
        } else {
            0
        }
    }

    /// What failing to reach `index` makes of the allocation of `before`: no slot comes, and the gap is given up in the
    /// attempt, if there was one.
    pub open spec fn not_reached(self, before: PerlArray, index: nat) -> bool {
        &&& self.total() == before.total()
        &&& self.gap() == if before.frozen() || index == usize::MAX {
            before.gap()
        } else {
            0
        }
    }

    pub fn new() -> (r: PerlArray)
        ensures
            r.elements() == Seq::<Option<Value>>::empty(),
            !r.frozen(),
            r.total() == 0,
            r.gap() == 0,
    {
        PerlArray { parts: Geometry::empty(), readonly: false }
    }

    pub fn len(&self) -> (r: usize)
        ensures
            r == self.elements().len(),
            self.gap() + r <= self.total(),
    {
        proof {
            use_type_invariant(self);
        }
        self.parts.len
    }

    pub fn is_empty(&self) -> (r: bool)
        ensures
            r == (self.elements().len() == 0),
    {
        self.len() == 0
    }

    pub fn is_readonly(&self) -> (r: bool)
        ensures
            r == self.frozen(),
    {
        self.readonly
    }

    pub fn set_readonly(&mut self, readonly: bool)
        ensures
            final(self).frozen() == readonly,
            final(self).elements() == old(self).elements(),
            final(self).total() == old(self).total(),
            final(self).gap() == old(self).gap(),
    {
        proof {
            use_type_invariant(&*self);
        }
        self.readonly = readonly;
    }

    /// Read access: never creates.  `None` for holes and for indices beyond the end alike.
    pub fn get(&self, index: usize) -> (r: Option<&Value>)
        ensures
            r is Some <==> index < self.elements().len() && self.elements()[index as int] is Some,
            r is Some ==> self.elements()[index as int] == Some(*r->0),
    {
        proof {
            use_type_invariant(self);
        }
        if index >= self.parts.len {
            return None;
        }
        assert(self.parts.start + index < self.parts.slots.len());
        match &self.parts.slots[self.parts.start + index] {
            Some(value) => Some(value),
            None => None,
        }
    }

    /// Present and occupied.
    pub fn exists_at(&self, index: usize) -> (r: bool)
        ensures
            r == (index < self.elements().len() && self.elements()[index as int] is Some),
    {
        self.get(index).is_some()
    }

    fn take_parts(&mut self) -> (r: Geometry)
        ensures
            r == old(self).parts,
            r.wf(),
            final(self).readonly == old(self).readonly,
    {
        proof {
            use_type_invariant(&*self);
        }
        let mut parts = Geometry::empty();
        std::mem::swap(&mut self.parts, &mut parts);
        parts
    }

    /// `$a[$i] = $v`: extends with holes below.
    pub fn set(&mut self, index: usize, value: Value) -> (r: Result<(), ScalarError>)
        ensures
            final(self).frozen() == old(self).frozen(),
            old(self).frozen() ==> r == Err::<(), ScalarError>(ScalarError::ReadOnly),
            r is Ok ==> final(self).elements() == extended(old(self).elements(), index as nat + 1).update(
                index as int,
                Some(value),
            ),
            r is Ok ==> final(self).reached(*old(self), index as nat),
            r is Err ==> final(self).elements() == old(self).elements() && final(self).not_reached(
                *old(self),
                index as nat,
            ),
            r is Err && !old(self).frozen() ==> extend_failure(old(self).total(), index as nat, r->Err_0),
    {
        if self.readonly {
            return Err(ScalarError::ReadOnly);
        }
        let mut parts = self.take_parts();
        let outcome = parts.extend_to(index);
        if outcome.is_ok() {
            parts.put(index, Some(value));
        }
        std::mem::swap(&mut self.parts, &mut parts);
        match outcome {
            Ok(()) => Ok(()),
            Err(error) => Err(ScalarError::Alloc(error)),
        }
    }

    /// Lvalue access: an element that does not exist comes into being, undefined.
    pub fn ensure_element(&mut self, index: usize) -> (r: Result<&mut Value, ScalarError>)
        ensures
            final(self).frozen() == old(self).frozen(),
            old(self).frozen() ==> r is Err && r->Err_0 == ScalarError::ReadOnly,
            r is Ok ==> final(self).reached(*old(self), index as nat),
            r is Err ==> final(self).elements() == old(self).elements() && final(self).not_reached(
                *old(self),
                index as nat,
            ),
            r is Err && !old(self).frozen() ==> extend_failure(old(self).total(), index as nat, r->Err_0),
            r is Ok ==> *r->Ok_0 == value_at(old(self).elements(), index as int),
            r is Ok ==> final(self).elements() == extended(old(self).elements(), index as nat + 1).update(
                index as int,
                Some(*final(r->Ok_0)),
            ),
    {
        if self.readonly {
            return Err(ScalarError::ReadOnly);
        }
        let mut parts = self.take_parts();
        let outcome = parts.extend_to(index);
        if outcome.is_ok() {
            parts.vivify(index);
        }
        std::mem::swap(&mut self.parts, &mut parts);
        match outcome {
            Err(error) => Err(ScalarError::Alloc(error)),
            Ok(()) => {
                assert(self.parts.start + index < self.parts.slots.len());
                let at: usize = self.parts.start + index;
                proof {
                    let parts = self.parts;
                    let slots = parts.slots@;
                    let (from, to) = (parts.start as int, parts.start + parts.len);
                    assert(slots[at as int] == parts.live()[index as int]);
                    assert forall|slot: Option<Value>| (#[trigger] slots.update(at as int, slot)).subrange(from, to)
                        == parts.live().update(index as int, slot) by {
                        assert(slots.update(at as int, slot).subrange(from, to) =~= parts.live().update(
                            index as int,
                            slot,
                        ));
                    }
                    let reached = extended(old(self).elements(), index as nat + 1);
                    assert forall|slot: Option<Value>| (#[trigger] parts.live().update(index as int, slot))
                        == reached.update(index as int, slot) by {
                        assert(parts.live().update(index as int, slot) =~= reached.update(index as int, slot));
                    }
                }
                match &mut self.parts.slots[at] {
                    Some(value) => Ok(value),
                    None => Err(ScalarError::ReadOnly),
                }
            },
        }
    }

    /// `delete $a[$i]`: the deleted value, undefined for holes and beyond the end, which are left untouched.  Deleting
    /// the last element truncates through the holes before it.
    pub fn delete(&mut self, index: usize) -> (r: Result<Value, ScalarError>)
        ensures
            final(self).frozen() == old(self).frozen(),
            old(self).frozen() ==> r == Err::<Value, ScalarError>(ScalarError::ReadOnly) && final(self).elements()
                == old(self).elements(),
            !old(self).frozen() ==> {
                &&& r == Ok::<Value, ScalarError>(value_at(old(self).elements(), index as int))
                &&& final(self).elements() == deleted(old(self).elements(), index as int)
                &&& index < final(self).elements().len() ==> final(self).elements()[index as int] is None
            },
            final(self).total() == old(self).total() && final(self).gap() == old(self).gap(),
    {
        if self.readonly {
            return Err(ScalarError::ReadOnly);
        }
        let mut parts = self.take_parts();
        let mut value: Value = ScalarPayload::Undef { tainted: false };
        if index < parts.len {
            value = value_of(parts.take(index));
            if index == parts.len - 1 {
                proof {
                    lemma_trimmed(parts.live());
                }
                parts.trim();
            }
        }
        std::mem::swap(&mut self.parts, &mut parts);
        Ok(value)
    }

    /// `push @a, $v`.
    pub fn push_value(&mut self, value: Value) -> (r: Result<(), ScalarError>)
        ensures
            final(self).frozen() == old(self).frozen(),
            old(self).frozen() ==> r == Err::<(), ScalarError>(ScalarError::ReadOnly),
            r is Ok ==> final(self).elements() == old(self).elements().push(Some(value)),
            r is Ok ==> final(self).reached(*old(self), old(self).elements().len()),
            r is Err ==> final(self).elements() == old(self).elements() && final(self).not_reached(
                *old(self),
                old(self).elements().len(),
            ),
            r is Err && !old(self).frozen() ==> extend_failure(
                old(self).total(),
                old(self).elements().len(),
                r->Err_0,
            ),
    {
        let index: usize = self.len();
        let r = self.set(index, value);
        assert(r is Ok ==> self.elements() =~= old(self).elements().push(Some(value)));
        r
    }

    /// `pop @a`: undefined for an empty array and for a hole at the end; shortens by one.
    pub fn pop_value(&mut self) -> (r: Result<Value, ScalarError>)
        ensures
            final(self).frozen() == old(self).frozen(),
            old(self).frozen() ==> r == Err::<Value, ScalarError>(ScalarError::ReadOnly) && final(self).elements()
                == old(self).elements(),
            !old(self).frozen() ==> {
                let elements = old(self).elements();
                &&& r == Ok::<Value, ScalarError>(value_at(elements, elements.len() - 1))
                &&& final(self).elements() == (if elements.len() == 0 {
                    elements
                } else {
                    elements.drop_last()
                })
            },
            final(self).total() == old(self).total() && final(self).gap() == old(self).gap(),
    {
        if self.readonly {
            return Err(ScalarError::ReadOnly);
        }
        let mut parts = self.take_parts();
        let mut value: Value = ScalarPayload::Undef { tainted: false };
        if parts.len > 0 {
            let last: usize = parts.len - 1;
            value = value_of(parts.take(last));
            let ghost emptied = parts;
            parts.len = last;
            assert(parts.live() =~= old(self).elements().drop_last());
            assert(emptied.slots@[emptied.start + last] == emptied.live()[last as int]);
        }
        std::mem::swap(&mut self.parts, &mut parts);
        Ok(value)
    }

    /// `shift @a`: takes the first slot and slides the window right.  Undefined for an empty array.
    pub fn shift_value(&mut self) -> (r: Result<Value, ScalarError>)
        ensures
            final(self).frozen() == old(self).frozen(),
            old(self).frozen() ==> r == Err::<Value, ScalarError>(ScalarError::ReadOnly) && final(self).elements()
                == old(self).elements(),
            !old(self).frozen() ==> {
                let elements = old(self).elements();
                &&& r == Ok::<Value, ScalarError>(value_at(elements, 0))
                &&& final(self).elements() == (if elements.len() == 0 {
                    elements
                } else {
                    elements.drop_first()
                })
                &&& final(self).gap() == (if elements.len() == 0 {
                    old(self).gap()
                } else {
                    old(self).gap() + 1
                })
            },
            old(self).frozen() ==> final(self).gap() == old(self).gap(),
            final(self).total() == old(self).total(),
    {
        if self.readonly {
            return Err(ScalarError::ReadOnly);
        }
        let mut parts = self.take_parts();
        let mut value: Value = ScalarPayload::Undef { tainted: false };
        if parts.len > 0 {
            value = value_of(parts.take(0));
            let ghost emptied = parts;
            assert(emptied.slots@[emptied.start as int] == emptied.live()[0]);
            assert(parts.start < parts.slots.len());
            parts.start = parts.start + 1;
            parts.len = parts.len - 1;
            assert forall|i: int| 0 <= i < parts.len implies parts.live()[i] == old(self).elements()[i + 1] by {
                assert(emptied.live()[i + 1] == old(self).elements()[i + 1]);
            }
            assert(parts.live() =~= old(self).elements().drop_first());
        }
        std::mem::swap(&mut self.parts, &mut parts);
        Ok(value)
    }

    /// `unshift @a, $v`: reclaims a slot of the gap where there is one, without moving an element.  Where there is
    /// none, the elements slide right by the need and, of two and more, by all but one of their number again, which
    /// becomes the next gap.
    pub fn unshift_value(&mut self, value: Value) -> (r: Result<(), ScalarError>)
        ensures
            final(self).frozen() == old(self).frozen(),
            old(self).frozen() ==> r == Err::<(), ScalarError>(ScalarError::ReadOnly),
            r is Ok ==> final(self).elements() == seq![Some(value)] + old(self).elements(),
            r is Ok ==> final(self).total() == if old(self).gap() > 0 {
                old(self).total()
            } else {
                grown_total(old(self).total(), unshift_need(old(self).elements().len()))
            },
            r is Err ==> final(self).elements() == old(self).elements() && final(self).total() == old(self).total()
                && final(self).gap() == old(self).gap(),
            !old(self).frozen() && old(self).gap() > 0 ==> r is Ok && final(self).gap() == old(self).gap() - 1,
            !old(self).frozen() && old(self).gap() == 0 && r is Ok ==> final(self).gap() == prepaid_gap(
                old(self).elements().len(),
            ),
            r is Err && !old(self).frozen() ==> unshift_failure(
                old(self).total(),
                old(self).elements().len(),
                r->Err_0,
            ),
    {
        if self.readonly {
            return Err(ScalarError::ReadOnly);
        }
        let mut parts = self.take_parts();
        let ghost before = parts;
        assert(parts.start + parts.len <= parts.slots.len() <= usize::MAX);
        let outcome: Result<(), AllocError> = if parts.start > 0 {
            parts.start = parts.start - 1;
            parts.len = parts.len + 1;
            Ok(())
        } else {
            let live: usize = parts.len;
            let slide: usize = if live >= 2 { live - 1 } else { 0 };
            match live.checked_add(1 + slide) {
                None => Err(AllocError { requested: usize::MAX }),
                Some(needed) => match parts.grow(needed) {
                    Err(error) => Err(error),
                    Ok(()) => {
                        parts.slide_right(1 + slide);
                        parts.start = slide;
                        parts.len = live + 1;
                        Ok(())
                    },
                },
            }
        };
        if outcome.is_ok() {
            parts.put(0, Some(value));
            assert(parts.live() =~= seq![Some(value)] + before.live());
        }
        std::mem::swap(&mut self.parts, &mut parts);
        match outcome {
            Ok(()) => Ok(()),
            Err(error) => Err(ScalarError::Alloc(error)),
        }
    }

    /// `@a = ()`.
    pub fn clear(&mut self) -> (r: Result<(), ScalarError>)
        ensures
            final(self).frozen() == old(self).frozen(),
            old(self).frozen() ==> r == Err::<(), ScalarError>(ScalarError::ReadOnly) && final(self).elements()
                == old(self).elements(),
            !old(self).frozen() ==> r is Ok && final(self).elements() == Seq::<Option<Value>>::empty(),
            final(self).total() == old(self).total() && final(self).gap() == old(self).gap(),
    {
        if self.readonly {
            return Err(ScalarError::ReadOnly);
        }
        let mut parts = self.take_parts();
        let ghost total = parts.slots@.len();
        let ghost start = parts.start;
        while parts.len > 0
            invariant
                parts.wf(),
                parts.slots@.len() == total,
                parts.start == start,
            decreases parts.len,
        {
            let last: usize = parts.len - 1;
            let _dropped = parts.take(last);
            let ghost emptied = parts;
            assert(emptied.slots@[emptied.start + last] == emptied.live()[last as int]);
            parts.len = last;
        }
        assert(parts.live() =~= Seq::<Option<Value>>::empty());
        std::mem::swap(&mut self.parts, &mut parts);
        Ok(())
    }

}

impl Default for PerlArray {
    fn default() -> (r: PerlArray)
        ensures
            r.elements() == Seq::<Option<Value>>::empty(),
            !r.frozen(),
            r.total() == 0,
            r.gap() == 0,
    {
        PerlArray::new()
    }
}

/// The gap that an `unshift` on `live` elements without one leaves behind.
pub open spec fn prepaid_gap(live: nat) -> nat {
    if live >= 2 {
        (live - 1) as nat
    } else {
        0
    }
}

/// The slots that an `unshift` on `live` elements without a gap needs.
pub open spec fn unshift_need(live: nat) -> nat {
    live + 1 + prepaid_gap(live)
}

/// A failure to make room for an `unshift`.
pub open spec fn unshift_failure(total: nat, live: nat, error: ScalarError) -> bool {
    let needed = unshift_need(live);
    &&& total < needed
    &&& error matches ScalarError::Alloc(e) && e.requested == (if needed > usize::MAX {
        usize::MAX as nat
    } else {
        growth_request(total, needed)
    })
}

/// The gap and the elements lie within the slots that are allocated.
pub proof fn law_window_lies_within_the_slots(array: PerlArray)
    requires
        array.wf(),
    ensures
        array.gap() + array.elements().len() <= array.total(),
{
}

/// What `shift` takes `unshift` puts back, and what `push` adds `pop` takes away.
pub proof fn law_ends_undo_each_other(elements: Seq<Option<Value>>, value: Value)
    ensures
        elements.len() > 0 && elements[0] is Some ==> seq![Some(value_at(elements, 0))] + elements.drop_first()
            == elements,
        value_at(elements.push(Some(value)), elements.len() as int) == value,
        elements.push(Some(value)).drop_last() == elements,
        value_at(seq![Some(value)] + elements, 0) == value,
        (seq![Some(value)] + elements).drop_first() == elements,
{
    if elements.len() > 0 && elements[0] is Some {
        assert(seq![Some(value_at(elements, 0))] + elements.drop_first() =~= elements);
    }
    assert(elements.push(Some(value)).drop_last() =~= elements);
    assert((seq![Some(value)] + elements).drop_first() =~= elements);
}

/// A read gives back what a write wrote, and every other element reads as before.
pub proof fn law_read_gives_back_the_write(elements: Seq<Option<Value>>, index: nat, value: Value, other: int)
    requires
        0 <= other,
        other != index,
    ensures
        ({
            let after = extended(elements, index + 1).update(index as int, Some(value));
            &&& value_at(after, index as int) == value
            &&& value_at(after, other) == value_at(elements, other)
        }),
{
}

/// Extending keeps every element, and only holes come with it.
pub proof fn law_extending_adds_holes_only(slots: Seq<Option<Value>>, n: nat, i: int)
    requires
        0 <= i < extended(slots, n).len(),
    ensures
        extended(slots, n).len() == if slots.len() >= n { slots.len() } else { n },
        extended(slots, n)[i] == if i < slots.len() { slots[i] } else { None },
{
}

proof fn lemma_trimmed(slots: Seq<Option<Value>>)
    ensures
        trimmed(slots).len() <= slots.len(),
        trimmed(slots) == slots.take(trimmed(slots).len() as int),
        trimmed(slots).len() > 0 ==> trimmed(slots).last() is Some,
        forall|i: int| trimmed(slots).len() <= i < slots.len() ==> #[trigger] slots[i] is None,
    decreases slots.len(),
{
    if slots.len() > 0 && slots.last() is None {
        let shorter = slots.drop_last();
        lemma_trimmed(shorter);
        assert(shorter.take(trimmed(shorter).len() as int) =~= slots.take(trimmed(shorter).len() as int));
        assert forall|i: int| trimmed(slots).len() <= i < slots.len() implies #[trigger] slots[i] is None by {
            if i < slots.len() - 1 {
                assert(shorter[i] is None);
            }
        }
    } else {
        assert(slots.take(slots.len() as int) =~= slots);
    }
}

/// A deleted element does not exist: its slot is a hole or is gone.  No other slot changes, and slots go only where the
/// last one is deleted: it, and the holes right before it.
pub proof fn law_deleting_leaves_a_hole(slots: Seq<Option<Value>>, index: int)
    requires
        0 <= index,
    ensures
        index < deleted(slots, index).len() ==> deleted(slots, index)[index] is None,
        forall|i: int|
            0 <= i < deleted(slots, index).len() && i != index ==> #[trigger] deleted(slots, index)[i] == slots[i],
        index != slots.len() - 1 ==> deleted(slots, index).len() == slots.len(),
        index == slots.len() - 1 ==> {
            &&& deleted(slots, index).len() <= index
            &&& deleted(slots, index).len() > 0 ==> slots[deleted(slots, index).len() - 1] is Some
            &&& forall|i: int| deleted(slots, index).len() <= i < index ==> #[trigger] slots[i] is None
        },
{
    if index < slots.len() {
        let emptied = slots.update(index, None);
        lemma_trimmed(emptied);
        let after = deleted(slots, index);
        if index == slots.len() - 1 {
            assert forall|i: int| after.len() <= i < index implies #[trigger] slots[i] is None by {
                assert(emptied[i] is None);
            }
            assert(after.len() > 0 ==> after.last() == emptied[after.len() - 1]);
        }
    }
}

/// Reading a slot gives the value it holds, and the undefined value, untainted, for a hole and beyond the end.
pub proof fn law_reading_a_slot(slots: Seq<Option<Value>>, index: int, value: Value)
    requires
        0 <= index,
    ensures
        index < slots.len() && slots[index] == Some(value) ==> value_at(slots, index) == value,
        index < slots.len() && slots[index] is None ==> value_at(slots, index) == (ScalarPayload::Undef {
            tainted: false,
        }),
        index >= slots.len() ==> value_at(slots, index) == (ScalarPayload::Undef { tainted: false }),
{
}

/// Room that is short grows by a fifth beyond the need, and room that is enough is left alone.
pub proof fn law_growth_is_a_fifth(total: nat, needed: nat)
    ensures
        needed <= total ==> grown_total(total, needed) == total,
        needed > total ==> {
            let spare = grown_total(total, needed) - needed;
            5 * spare <= total < 5 * spare + 5
        },
{
}

/// What is asked for when room is short is the slots there will be, in bytes: the allocation has exactly the room that
/// was asked for.
pub proof fn law_growth_asks_for_what_it_takes(total: nat, needed: nat)
    requires
        total < needed,
        (needed + total / 5) * vstd::layout::size_of::<Option<Value>>() <= usize::MAX,
        needed + total / 5 <= usize::MAX,
    ensures
        growth_request(total, needed) == grown_total(total, needed) * vstd::layout::size_of::<Option<Value>>(),
{
}

/// An `unshift` that finds no gap leaves one for as many more as there are elements but one, so that the next element
/// moves only when the array has doubled.
pub proof fn law_unshift_prepays(live: nat)
    ensures
        live >= 2 ==> (live + 1) + prepaid_gap(live) == 2 * live,
        live < 2 ==> prepaid_gap(live) == 0,
        unshift_need(live) == live + 1 + prepaid_gap(live),
{
}

/// Deleting the last element leaves an array that ends in an element, or none at all; deleting any other changes no
/// length.
pub proof fn law_deleting_the_last_truncates(slots: Seq<Option<Value>>, index: int)
    requires
        0 <= index < slots.len(),
    ensures
        index < slots.len() - 1 ==> deleted(slots, index).len() == slots.len(),
        index == slots.len() - 1 && deleted(slots, index).len() > 0 ==> deleted(slots, index).last() is Some,
        deleted(slots, index).len() <= slots.len(),
        value_at(deleted(slots, index), index) == ScalarPayload::undef_value(),
        forall|i: int|
            0 <= i && i != index ==> value_at(deleted(slots, index), i) == #[trigger] value_at(slots, i),
{
    lemma_trimmed(slots.update(index, None));
    let after = deleted(slots, index);
    let emptied = slots.update(index, None);
    assert forall|i: int| 0 <= i && i != index implies value_at(after, i) == #[trigger] value_at(slots, i) by {
        if i < slots.len() {
            assert(emptied[i] == slots[i]);
            if i < after.len() {
                assert(after[i] == emptied[i]);
            }
        }
    }
}

/// What a failed extension asked for: the bytes of the slots that it would have taken, or the largest number where they
/// are more or the index has no successor.
pub proof fn law_failed_extensions_say_what_they_asked_for(total: nat, index: nat, error: ScalarError)
    requires
        extend_failure(total, index, error),
        index <= usize::MAX,
    ensures
        total <= index,
        error is Alloc,
        index == usize::MAX ==> error->Alloc_0.requested == usize::MAX,
        index < usize::MAX && index + 1 + total / 5 <= usize::MAX && (index + 1 + total / 5) * vstd::layout::size_of::<
            Option<Value>,
        >() <= usize::MAX ==> error->Alloc_0.requested == (index + 1 + total / 5) * vstd::layout::size_of::<
            Option<Value>,
        >(),
        index < usize::MAX && index + 1 + total / 5 <= usize::MAX && (index + 1 + total / 5) * vstd::layout::size_of::<
            Option<Value>,
        >() > usize::MAX ==> error->Alloc_0.requested == usize::MAX,
{
}

/// Once an index was reached it is within the slots, no slot was given back, and none came that was not needed.
pub proof fn law_reaching_an_index_makes_room_for_it(before: PerlArray, after: PerlArray, index: nat)
    requires
        after.reached(before, index),
    ensures
        index < after.total(),
        before.total() <= after.total(),
        index < before.total() ==> after.total() == before.total(),
        after.gap() == before.gap() || after.gap() == 0,
        before.gap() + index < before.total() ==> after.gap() == before.gap(),
{
}

/// An index that was not reached changed no slot.
pub proof fn law_failing_to_reach_an_index_takes_no_slots(before: PerlArray, after: PerlArray, index: nat)
    requires
        after.not_reached(before, index),
    ensures
        after.total() == before.total(),
        after.gap() <= before.gap(),
        before.frozen() ==> after.gap() == before.gap(),
{
}

} // verus!
