//! The persistent map behind immutable hashes: `imbl::HashMap`.
//!
//! Keys are compared with `PString`'s `==`, which is equality of the encodings, and hashed with its `Hash`, which
//! equal strings give the same bytes.
use crate::entries;
use crate::string::PString;
use crate::value::Value;
use vstd::prelude::*;

verus! {

/// An `imbl::HashMap` from keys to values.
#[verifier::external_body]
pub struct KeyTree {
    map: imbl::HashMap<PString, Value>,
}

/// An owning iterator over an `imbl::HashMap`.
#[verifier::external_body]
pub struct KeyWalk {
    iter: <imbl::HashMap<PString, Value> as IntoIterator>::IntoIter,
}

/// The pairs of a tree, in the order that its owning iterator yields them.  A map comes out in the same order every
/// time, which the documentation of the iterators says, and which is the order of the nodes.
pub uninterp spec fn tree_pairs(tree: KeyTree) -> Seq<(PString, Value)>;

/// The entries of a tree: from a key's encoding to the key as it is stored and its value.
pub open spec fn tree_entries(tree: KeyTree) -> Map<Seq<u8>, (PString, Value)> {
    entries::contents(tree_pairs(tree))
}

/// The pairs that a walk has still to yield.
pub uninterp spec fn walk_rest(walk: KeyWalk) -> Seq<(PString, Value)>;

/// `imbl::HashMap::new`: no pairs.
#[verifier::external_body]
pub(crate) fn new_key_tree() -> (r: KeyTree)
    ensures
        tree_pairs(r) == Seq::<(PString, Value)>::empty(),
{
    KeyTree { map: imbl::HashMap::new() }
}

/// `imbl::HashMap::len`: the number of pairs.
#[verifier::external_body]
pub(crate) fn key_tree_len(tree: &KeyTree) -> (r: usize)
    ensures
        r == tree_pairs(*tree).len(),
{
    tree.map.len()
}

/// `imbl::HashMap::get`: the value of a key, or nothing where it is absent.
#[verifier::external_body]
pub(crate) fn key_tree_get<'a>(tree: &'a KeyTree, key: &PString) -> (r: Option<&'a Value>)
    ensures
        r is Some <==> tree_entries(*tree).contains_key(key.encoding()),
        r is Some ==> *r->0 == tree_entries(*tree)[key.encoding()].1,
{
    tree.map.get(key)
}

/// `imbl::HashMap::get_mut`: the value of a key, to be changed in place; the key stays as it is stored, and every pair
/// where it stands.  It does not panic.
#[verifier::external_body]
pub(crate) fn key_tree_value<'a>(tree: &'a mut KeyTree, key: &PString) -> (r: Option<&'a mut Value>)
    ensures
        r is Some <==> tree_entries(*old(tree)).contains_key(key.encoding()),
        r is None ==> tree_pairs(*final(tree)) == tree_pairs(*old(tree)),
        r is Some ==> forall|i: int| #[trigger]
            entries::keyed(tree_pairs(*old(tree)), i, key.encoding()) && entries::distinct_keys(tree_pairs(*old(tree)))
                ==> {
                let pair = tree_pairs(*old(tree))[i];
                &&& *r->0 == pair.1
                &&& tree_pairs(*final(tree)) == tree_pairs(*old(tree)).update(i, (pair.0, *final(r->0)))
            },
    no_unwind
{
    tree.map.get_mut(key)
}

/// `imbl::HashMap::insert`, of a key that is absent: one pair more.  Where the pairs stand afterwards is left open: the
/// nodes may have been split.
#[verifier::external_body]
pub(crate) fn key_tree_insert(tree: &mut KeyTree, key: PString, value: Value)
    requires
        !tree_entries(*old(tree)).contains_key(key.encoding()),
    ensures
        tree_pairs(*final(tree)).to_multiset() == tree_pairs(*old(tree)).to_multiset().insert((key, value)),
{
    tree.map.insert(key, value);
}

/// `imbl::HashMap::remove`: the pair of a key goes, and its value is handed back.  Where the other pairs stand
/// afterwards is left open: the nodes may have been joined.
#[verifier::external_body]
pub(crate) fn key_tree_remove(tree: &mut KeyTree, key: &PString) -> (r: Option<Value>)
    ensures
        r is Some <==> tree_entries(*old(tree)).contains_key(key.encoding()),
        r is None ==> tree_pairs(*final(tree)).to_multiset() == tree_pairs(*old(tree)).to_multiset(),
        r is Some ==> forall|i: int| #[trigger]
            entries::keyed(tree_pairs(*old(tree)), i, key.encoding()) && entries::distinct_keys(tree_pairs(*old(tree)))
                ==> {
                let pair = tree_pairs(*old(tree))[i];
                &&& r->0 == pair.1
                &&& tree_pairs(*final(tree)).to_multiset() == tree_pairs(*old(tree)).to_multiset().remove(pair)
            },
{
    tree.map.remove(key)
}

/// `imbl::HashMap::clone`: the same pairs in the same order, detached from this tree.
#[verifier::external_body]
pub(crate) fn key_tree_clone(tree: &KeyTree) -> (r: KeyTree)
    ensures
        tree_pairs(r) == tree_pairs(*tree),
{
    KeyTree { map: tree.map.clone() }
}

/// `imbl::HashMap::into_iter`: a walk that yields every pair, in the order of the tree.
#[verifier::external_body]
pub(crate) fn start_walk(tree: KeyTree) -> (r: KeyWalk)
    ensures
        walk_rest(r) == tree_pairs(tree),
{
    KeyWalk { iter: tree.map.into_iter() }
}

/// `Iterator::next` of the owning iterator: the next pair, or nothing at the end.
#[verifier::external_body]
pub(crate) fn walk_next(walk: &mut KeyWalk) -> (r: Option<(PString, Value)>)
    ensures
        walk_rest(*old(walk)).len() == 0 ==> r is None && walk_rest(*final(walk)) == walk_rest(*old(walk)),
        walk_rest(*old(walk)).len() > 0 ==> r == Some(walk_rest(*old(walk))[0]) && walk_rest(*final(walk))
            == walk_rest(*old(walk)).drop_first(),
{
    walk.iter.next()
}

} // verus!
