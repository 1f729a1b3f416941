//! The persistent slot sequence behind immutable arrays: `imbl::Vector`.
use crate::value::Value;
use vstd::prelude::*;

verus! {

/// An `imbl::Vector` of array slots.
#[verifier::external_body]
pub struct SlotTree {
    vec: imbl::Vector<Option<Value>>,
}

/// The slots that a tree holds, in order.
pub uninterp spec fn tree_slots(tree: SlotTree) -> Seq<Option<Value>>;

/// `imbl::Vector::new`: no slots.
#[verifier::external_body]
pub(crate) fn new_tree() -> (r: SlotTree)
    ensures
        tree_slots(r) == Seq::<Option<Value>>::empty(),
{
    SlotTree { vec: imbl::Vector::new() }
}

/// `imbl::Vector::len`: the number of slots.
#[verifier::external_body]
pub(crate) fn tree_len(tree: &SlotTree) -> (r: usize)
    ensures
        r == tree_slots(*tree).len(),
{
    tree.vec.len()
}

/// `imbl::Vector::get`: the slot at an index, or nothing where the index is beyond the end.
#[verifier::external_body]
pub(crate) fn tree_get(tree: &SlotTree, index: usize) -> (r: Option<&Option<Value>>)
    ensures
        r is Some <==> index < tree_slots(*tree).len(),
        r is Some ==> *r->0 == tree_slots(*tree)[index as int],
{
    tree.vec.get(index)
}

/// `imbl::Vector::get_mut`: the slot at an index, to be changed in place, or nothing where the index is beyond the end.
#[verifier::external_body]
pub(crate) fn tree_slot(tree: &mut SlotTree, index: usize) -> (r: Option<&mut Option<Value>>)
    ensures
        (r is Some <==> index < tree_slots(*old(tree)).len()),
        r is None ==> tree_slots(*final(tree)) == tree_slots(*old(tree)),
        r is Some ==> {
            &&& *r->0 == tree_slots(*old(tree))[index as int]
            &&& tree_slots(*final(tree)) == tree_slots(*old(tree)).update(index as int, *final(r->0))
        },
{
    tree.vec.get_mut(index)
}

/// `imbl::Vector::set`: fills the slot at an index and hands back what was there.  It panics beyond the end.
#[verifier::external_body]
pub(crate) fn tree_set(tree: &mut SlotTree, index: usize, slot: Option<Value>) -> (r: Option<Value>)
    requires
        index < tree_slots(*old(tree)).len(),
    ensures
        r == tree_slots(*old(tree))[index as int],
        tree_slots(*final(tree)) == tree_slots(*old(tree)).update(index as int, slot),
{
    tree.vec.set(index, slot)
}

/// `imbl::Vector::push_back`: one slot more at the end.
#[verifier::external_body]
pub(crate) fn tree_push_back(tree: &mut SlotTree, slot: Option<Value>)
    requires
        tree_slots(*old(tree)).len() < usize::MAX,
    ensures
        tree_slots(*final(tree)) == tree_slots(*old(tree)).push(slot),
{
    tree.vec.push_back(slot)
}

/// `imbl::Vector::push_front`: one slot more at the front.
#[verifier::external_body]
pub(crate) fn tree_push_front(tree: &mut SlotTree, slot: Option<Value>)
    requires
        tree_slots(*old(tree)).len() < usize::MAX,
    ensures
        tree_slots(*final(tree)) == seq![slot] + tree_slots(*old(tree)),
{
    tree.vec.push_front(slot)
}

/// `imbl::Vector::pop_back`: takes the last slot, where there is one.
#[verifier::external_body]
pub(crate) fn tree_pop_back(tree: &mut SlotTree) -> (r: Option<Option<Value>>)
    ensures
        tree_slots(*old(tree)).len() == 0 ==> r is None && tree_slots(*final(tree)) == tree_slots(*old(tree)),
        tree_slots(*old(tree)).len() > 0 ==> r == Some(tree_slots(*old(tree)).last()) && tree_slots(*final(tree))
            == tree_slots(*old(tree)).drop_last(),
{
    tree.vec.pop_back()
}

/// `imbl::Vector::pop_front`: takes the first slot, where there is one.
#[verifier::external_body]
pub(crate) fn tree_pop_front(tree: &mut SlotTree) -> (r: Option<Option<Value>>)
    ensures
        tree_slots(*old(tree)).len() == 0 ==> r is None && tree_slots(*final(tree)) == tree_slots(*old(tree)),
        tree_slots(*old(tree)).len() > 0 ==> r == Some(tree_slots(*old(tree))[0]) && tree_slots(*final(tree))
            == tree_slots(*old(tree)).drop_first(),
{
    tree.vec.pop_front()
}

/// `imbl::Vector::clone`: the same slots, detached from this tree.
#[verifier::external_body]
pub(crate) fn tree_clone(tree: &SlotTree) -> (r: SlotTree)
    ensures
        tree_slots(r) == tree_slots(*tree),
{
    SlotTree { vec: tree.vec.clone() }
}

} // verus!
