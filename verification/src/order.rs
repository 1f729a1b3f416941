//! The order of byte sequences: the first difference decides, and a proper prefix is the lesser.
use crate::latin1;
use std::cmp::Ordering;
use vstd::prelude::*;

verus! {

/// The outcome of a comparison.
#[derive(Clone, Copy, PartialEq, Eq, Structural, Debug)]
pub enum Order {
    Less,
    Equal,
    Greater,
}

impl Order {
    /// The outcome with the operands exchanged.
    pub open spec fn flipped(self) -> Order {
        match self {
            Order::Less => Order::Greater,
            Order::Equal => Order::Equal,
            Order::Greater => Order::Less,
        }
    }

    /// The outcome with the operands exchanged.
    pub fn reverse(self) -> (r: Order)
        ensures
            r == self.flipped(),
    {
        match self {
            Order::Less => Order::Greater,
            Order::Equal => Order::Equal,
            Order::Greater => Order::Less,
        }
    }

    /// The outcome in the vocabulary of `std`.
    pub open spec fn ordering(self) -> Ordering {
        match self {
            Order::Less => Ordering::Less,
            Order::Equal => Ordering::Equal,
            Order::Greater => Ordering::Greater,
        }
    }

    /// The outcome in the vocabulary of `std`.
    pub fn to_ordering(self) -> (r: Ordering)
        ensures
            r == self.ordering(),
    {
        match self {
            Order::Less => Ordering::Less,
            Order::Equal => Ordering::Equal,
            Order::Greater => Ordering::Greater,
        }
    }
}

/// The order of two numbers.
pub open spec fn number_order(a: int, b: int) -> Order {
    if a < b {
        Order::Less
    } else if a == b {
        Order::Equal
    } else {
        Order::Greater
    }
}

/// The order of what stands from `i` on.
pub open spec fn byte_order_from(a: Seq<u8>, b: Seq<u8>, i: int) -> Order
    decreases a.len() - i,
{
    if i >= a.len() || i >= b.len() {
        number_order(a.len() as int, b.len() as int)
    } else if a[i] != b[i] {
        number_order(a[i] as int, b[i] as int)
    } else {
        byte_order_from(a, b, i + 1)
    }
}

/// The order of two byte sequences.
pub open spec fn byte_order(a: Seq<u8>, b: Seq<u8>) -> Order {
    byte_order_from(a, b, 0)
}

/// A common prefix decides nothing.
pub proof fn lemma_common_prefix(a: Seq<u8>, b: Seq<u8>, i: int, p: int)
    requires
        0 <= i <= p <= a.len(),
        p <= b.len(),
        forall|k: int| i <= k < p ==> #[trigger] a[k] == b[k],
    ensures
        byte_order_from(a, b, i) == byte_order_from(a, b, p),
    decreases p - i,
{
    if i < p {
        assert(a[i] == b[i]);
        lemma_common_prefix(a, b, i + 1, p);
    }
}

/// Where two sequences part: the length of their common prefix.
pub open spec fn parting(a: Seq<u8>, b: Seq<u8>, i: int) -> int
    decreases a.len() - i,
{
    if i < a.len() && i < b.len() && a[i] == b[i] {
        parting(a, b, i + 1)
    } else {
        i
    }
}

pub proof fn lemma_parting(a: Seq<u8>, b: Seq<u8>, i: int)
    requires
        0 <= i <= a.len(),
        i <= b.len(),
    ensures
        ({
            let p = parting(a, b, i);
            &&& i <= p <= a.len()
            &&& p <= b.len()
            &&& forall|k: int| i <= k < p ==> #[trigger] a[k] == b[k]
            &&& p < a.len() && p < b.len() ==> a[p] != b[p]
        }),
    decreases a.len() - i,
{
    if i < a.len() && i < b.len() && a[i] == b[i] {
        lemma_parting(a, b, i + 1);
    }
}

/// Two sequences compare equal exactly when they are equal.
pub proof fn law_equal_is_equality(a: Seq<u8>, b: Seq<u8>)
    ensures
        byte_order(a, b) is Equal <==> a == b,
{
    lemma_parting(a, b, 0);
    lemma_common_prefix(a, b, 0, parting(a, b, 0));
    if byte_order(a, b) is Equal {
        assert(a =~= b);
    }
}

/// Exchanging the operands reverses the outcome.
pub proof fn law_order_is_antisymmetric(a: Seq<u8>, b: Seq<u8>)
    ensures
        byte_order(b, a) == byte_order(a, b).flipped(),
{
    lemma_parting(a, b, 0);
    let p = parting(a, b, 0);
    lemma_common_prefix(a, b, 0, p);
    assert forall|k: int| 0 <= k < p implies #[trigger] b[k] == a[k] by {
        assert(a[k] == b[k]);
    }
    lemma_common_prefix(b, a, 0, p);
}

/// The order is transitive.
pub proof fn law_order_is_transitive(a: Seq<u8>, b: Seq<u8>, c: Seq<u8>)
    requires
        byte_order(a, b) is Less,
        byte_order(b, c) is Less,
    ensures
        byte_order(a, c) is Less,
{
    let p = parting(a, b, 0);
    let q = parting(b, c, 0);
    lemma_parting(a, b, 0);
    lemma_parting(b, c, 0);
    lemma_common_prefix(a, b, 0, p);
    lemma_common_prefix(b, c, 0, q);
    let m = if p < q { p } else { q };
    assert forall|k: int| 0 <= k < m implies #[trigger] a[k] == c[k] by {
        assert(a[k] == b[k]);
        assert(b[k] == c[k]);
    }
    lemma_common_prefix(a, c, 0, m);
    assert(byte_order_from(a, c, m) is Less);
}

pub proof fn lemma_widened_at(a: Seq<u8>, d: int)
    requires
        0 <= d < a.len(),
    ensures
        ({
            let w = latin1::widened(a);
            let p = latin1::widened(a.take(d));
            &&& p.len() + latin1::widened_byte(a[d]).len() <= w.len()
            &&& w.take(p.len() as int) == p
            &&& forall|k: int|
                0 <= k < latin1::widened_byte(a[d]).len() ==> w[p.len() + k] == #[trigger] latin1::widened_byte(a[d])[k]
        }),
{
    let p = latin1::widened(a.take(d));
    let rest = latin1::widened(a.skip(d + 1));
    assert(a.skip(d) =~= seq![a[d]] + a.skip(d + 1));
    latin1::lemma_widened_prepend(a[d], a.skip(d + 1));
    latin1::lemma_widened_concat(a.take(d), a.skip(d));
    assert(a.take(d) + a.skip(d) =~= a);
    assert(latin1::widened(a) == p + (latin1::widened_byte(a[d]) + rest));
    assert(latin1::widened(a).take(p.len() as int) =~= p);
}

/// Widening keeps the order: Latin-1 bytes compare as their encodings do.
pub proof fn law_widening_keeps_order(a: Seq<u8>, b: Seq<u8>)
    ensures
        byte_order(latin1::widened(a), latin1::widened(b)) == byte_order(a, b),
{
    let d = parting(a, b, 0);
    lemma_parting(a, b, 0);
    lemma_common_prefix(a, b, 0, d);
    let wa = latin1::widened(a);
    let wb = latin1::widened(b);
    assert(a.take(d) =~= b.take(d));
    let p = latin1::widened(a.take(d));
    let n = p.len() as int;
    latin1::lemma_widened_concat(a.take(d), a.skip(d));
    latin1::lemma_widened_concat(b.take(d), b.skip(d));
    assert(a.take(d) + a.skip(d) =~= a);
    assert(b.take(d) + b.skip(d) =~= b);
    assert forall|k: int| 0 <= k < n implies #[trigger] wa[k] == wb[k] by {}
    lemma_common_prefix(wa, wb, 0, n);
    latin1::lemma_widened_len(a.skip(d));
    latin1::lemma_widened_len(b.skip(d));
    if d < a.len() && d < b.len() {
        lemma_widened_at(a, d);
        lemma_widened_at(b, d);
        let xa = latin1::widened_byte(a[d]);
        let xb = latin1::widened_byte(b[d]);
        assert(wa[n] == xa[0]) by {
            assert(wa[n + 0] == xa[0]);
        }
        assert(wb[n] == xb[0]) by {
            assert(wb[n + 0] == xb[0]);
        }
        if xa[0] == xb[0] {
            assert(wa[n + 1] == xa[1]);
            assert(wb[n + 1] == xb[1]);
            assert(byte_order_from(wa, wb, n) == byte_order_from(wa, wb, n + 1));
        }
    }
}

/// Compare two byte slices.
pub fn compare_bytes(a: &[u8], b: &[u8]) -> (r: Order)
    ensures
        r == byte_order(a@, b@),
{
    let mut i: usize = 0;
    while i < a.len() && i < b.len()
        invariant
            i <= a@.len(),
            i <= b@.len(),
            byte_order(a@, b@) == byte_order_from(a@, b@, i as int),
        decreases a@.len() - i,
    {
        if a[i] < b[i] {
            return Order::Less;
        }
        if a[i] > b[i] {
            return Order::Greater;
        }
        i = i + 1;
    }
    if a.len() < b.len() {
        Order::Less
    } else if a.len() == b.len() {
        Order::Equal
    } else {
        Order::Greater
    }
}

/// Whether two byte slices hold the same bytes.
pub fn equal_bytes(a: &[u8], b: &[u8]) -> (r: bool)
    ensures
        r == (a@ == b@),
{
    if a.len() != b.len() {
        return false;
    }
    let mut i: usize = 0;
    while i < a.len()
        invariant
            i <= a@.len() == b@.len(),
            forall|k: int| 0 <= k < i ==> #[trigger] a@[k] == b@[k],
        decreases a@.len() - i,
    {
        if a[i] != b[i] {
            assert(a@[i as int] != b@[i as int]);
            return false;
        }
        i = i + 1;
    }
    assert(a@ =~= b@);
    true
}

/// The first difference decides, by the bytes as unsigned numbers, and of two sequences one of which begins the other
/// the shorter comes first.
pub proof fn law_first_difference_decides(a: Seq<u8>, b: Seq<u8>, p: int)
    requires
        0 <= p <= a.len(),
        p <= b.len(),
        forall|k: int| 0 <= k < p ==> #[trigger] a[k] == b[k],
        p < a.len() && p < b.len() ==> a[p] != b[p],
    ensures
        p < a.len() && p < b.len() && a[p] < b[p] ==> byte_order(a, b) is Less,
        p < a.len() && p < b.len() && a[p] > b[p] ==> byte_order(a, b) is Greater,
        p == a.len() && p < b.len() ==> byte_order(a, b) is Less,
        p < a.len() && p == b.len() ==> byte_order(a, b) is Greater,
        p == a.len() && p == b.len() ==> byte_order(a, b) is Equal,
{
    lemma_common_prefix(a, b, 0, p);
}

/// An outcome has the same name in the vocabulary of `std`, and reversing it exchanges less and greater.
pub proof fn law_outcomes_keep_their_names(order: Order)
    ensures
        order is Less <==> order.ordering() is Less,
        order is Greater <==> order.ordering() is Greater,
        order is Less <==> order.flipped() is Greater,
        order is Greater <==> order.flipped() is Less,
{
}

} // verus!
