//! The encoding keeps the order of code points: comparing decodable bytes compares what they encode.
use crate::decode;
use crate::order;
use crate::order::Order;
use vstd::prelude::*;

verus! {

/// The order of two code point sequences from a position on: the first difference decides, and a proper prefix is the
/// lesser.
pub open spec fn point_order_from(a: Seq<nat>, b: Seq<nat>, i: int) -> Order
    decreases a.len() - i,
{
    if i >= a.len() || i >= b.len() {
        order::number_order(a.len() as int, b.len() as int)
    } else if a[i] != b[i] {
        order::number_order(a[i] as int, b[i] as int)
    } else {
        point_order_from(a, b, i + 1)
    }
}

/// The order of two code point sequences.
pub open spec fn point_order(a: Seq<nat>, b: Seq<nat>) -> Order {
    point_order_from(a, b, 0)
}

proof fn lemma_point_order_shift(x: nat, a: Seq<nat>, b: Seq<nat>, i: int)
    requires
        0 <= i,
    ensures
        point_order_from(seq![x] + a, seq![x] + b, i + 1) == point_order_from(a, b, i),
    decreases a.len() - i,
{
    let xa = seq![x] + a;
    let xb = seq![x] + b;
    if i < a.len() && i < b.len() {
        assert(xa[i + 1] == a[i] && xb[i + 1] == b[i]);
        lemma_point_order_shift(x, a, b, i + 1);
    }
}

/// Sixty-four to a power.
spec fn p64(n: nat) -> nat
    decreases n,
{
    if n == 0 {
        1
    } else {
        64 * p64((n - 1) as nat)
    }
}

proof fn lemma_accumulated_bound(s: Seq<u8>, at: int, n: nat)
    requires
        decode::conts_follow(s, at, n),
    ensures
        decode::accumulated(s, at, n) < (decode::lead_bits(s[at]) + 1) * p64(n),
    decreases n,
{
    if n > 0 {
        lemma_accumulated_bound(s, at, (n - 1) as nat);
        assert(decode::is_cont(s[at + n]));
        let acc = decode::accumulated(s, at, (n - 1) as nat);
        let lead = decode::lead_bits(s[at]) + 1;
        let p = p64((n - 1) as nat);
        assert(acc * 64 + 63 < lead * (64 * p)) by (nonlinear_arith)
            requires
                acc < lead * p,
        ;
    } else {
        assert((decode::lead_bits(s[at]) + 1) * 1 == decode::lead_bits(s[at]) + 1);
    }
}

/// The largest code point of each sequence length is below the smallest of the next.
proof fn lemma_value_below(s: Seq<u8>, at: int, len: nat)
    requires
        0 <= at < s.len(),
        decode::sequence_at(s, at) is Some,
        (decode::sequence_at(s, at)->0).0 < len,
        2 <= len <= 7 || len == 13,
    ensures
        (decode::sequence_at(s, at)->0).1 < decode::least_of_len(len),
{
    let (own, value) = decode::sequence_at(s, at)->0;
    decode::lemma_sequence_bounds(s, at);
    lemma_accumulated_bound(s, at, (own - 1) as nat);
    reveal_with_fuel(p64, 8);
    assert(p64(1) == 64);
    assert(p64(2) == 64 * 64);
    assert(p64(3) == 64 * 64 * 64);
    assert(p64(4) == 64 * 64 * 64 * 64);
    assert(p64(5) == 64 * 64 * 64 * 64 * 64);
    assert(p64(6) == 64 * 64 * 64 * 64 * 64 * 64);
    let lead = decode::lead_bits(s[at]) + 1;
    let p = p64((own - 1) as nat);
    assert(value < lead * p);
    if own == 1 {
    } else if own == 2 {
        assert(lead * p <= 0x800) by (nonlinear_arith)
            requires
                lead <= 32,
                p == 64,
        ;
    } else if own == 3 {
        assert(lead * p <= 0x1_0000) by (nonlinear_arith)
            requires
                lead <= 16,
                p == 64 * 64,
        ;
    } else if own == 4 {
        assert(lead * p <= 0x20_0000) by (nonlinear_arith)
            requires
                lead <= 8,
                p == 64 * 64 * 64,
        ;
    } else if own == 5 {
        assert(lead * p <= 0x400_0000) by (nonlinear_arith)
            requires
                lead <= 4,
                p == 64 * 64 * 64 * 64,
        ;
    } else if own == 6 {
        assert(lead * p <= 0x8000_0000) by (nonlinear_arith)
            requires
                lead <= 2,
                p == 64 * 64 * 64 * 64 * 64,
        ;
    } else {
        assert(own == 7);
        assert(lead * p <= 0x10_0000_0000) by (nonlinear_arith)
            requires
                lead == 1,
                p == 64 * 64 * 64 * 64 * 64 * 64,
        ;
    }
}

/// Two sequences of the same length accumulate in the order of their bytes.
proof fn lemma_accumulated_order(a: Seq<u8>, b: Seq<u8>, at: int, n: nat)
    requires
        0 <= at,
        at + n < a.len(),
        at + n < b.len(),
        decode::announced_len(a[at]) == decode::announced_len(b[at]),
        decode::announced_len(a[at]) >= 1,
        decode::conts_follow(a, at, n),
        decode::conts_follow(b, at, n),
    ensures
        decode::accumulated(a, at, n) == decode::accumulated(b, at, n) ==> forall|k: int|
            at <= k <= at + n ==> #[trigger] a[k] == b[k],
        decode::accumulated(a, at, n) < decode::accumulated(b, at, n) ==> order::byte_order_from(a, b, at) is Less,
        decode::accumulated(a, at, n) > decode::accumulated(b, at, n) ==> order::byte_order_from(a, b, at) is Greater,
    decreases n,
{
    if n > 0 {
        lemma_accumulated_order(a, b, at, (n - 1) as nat);
        assert(decode::is_cont(a[at + n]));
        assert(decode::is_cont(b[at + n]));
        if decode::accumulated(a, at, (n - 1) as nat) == decode::accumulated(b, at, (n - 1) as nat) {
            order::lemma_common_prefix(a, b, at, at + n);
        }
    }
}

/// Where two sequences stand at the same position: equal code points are equal bytes, and the order of the code points
/// is the order of the bytes.
pub proof fn lemma_sequence_order(a: Seq<u8>, b: Seq<u8>, at: int)
    requires
        0 <= at < a.len(),
        at < b.len(),
        decode::sequence_at(a, at) is Some,
        decode::sequence_at(b, at) is Some,
    ensures
        ({
            let (la, va) = decode::sequence_at(a, at)->0;
            let (lb, vb) = decode::sequence_at(b, at)->0;
            &&& va == vb ==> la == lb && forall|k: int| at <= k < at + la ==> #[trigger] a[k] == b[k]
            &&& va < vb ==> order::byte_order_from(a, b, at) is Less
            &&& va > vb ==> order::byte_order_from(a, b, at) is Greater
        }),
{
    let (la, va) = decode::sequence_at(a, at)->0;
    let (lb, vb) = decode::sequence_at(b, at)->0;
    decode::lemma_sequence_bounds(a, at);
    decode::lemma_sequence_bounds(b, at);
    if la < lb {
        lemma_value_below(a, at, lb);
        assert(a[at] < b[at]);
    } else if lb < la {
        lemma_value_below(b, at, la);
        assert(b[at] < a[at]);
    } else {
        lemma_accumulated_order(a, b, at, (la - 1) as nat);
    }
}

proof fn lemma_encoding_order_from(a: Seq<u8>, b: Seq<u8>, at: int)
    requires
        0 <= at <= a.len(),
        at <= b.len(),
        decode::decodable_from(a, at),
        decode::decodable_from(b, at),
    ensures
        order::byte_order_from(a, b, at) == point_order(
            decode::code_points_from(a, at),
            decode::code_points_from(b, at),
        ),
    decreases a.len() - at,
{
    let pa = decode::code_points_from(a, at);
    let pb = decode::code_points_from(b, at);
    if at < a.len() && at < b.len() {
        let (la, va) = decode::sequence_at(a, at)->0;
        let (lb, vb) = decode::sequence_at(b, at)->0;
        decode::lemma_sequence_bounds(a, at);
        decode::lemma_sequence_bounds(b, at);
        lemma_sequence_order(a, b, at);
        assert(pa[0] == va && pb[0] == vb);
        if va == vb {
            lemma_encoding_order_from(a, b, at + la);
            order::lemma_common_prefix(a, b, at, at + la);
            lemma_point_order_shift(
                va,
                decode::code_points_from(a, at + la),
                decode::code_points_from(b, at + la),
                0,
            );
        }
    } else {
        assert(at < a.len() ==> pa.len() > 0);
        assert(at < b.len() ==> pb.len() > 0);
    }
}

/// Comparing decodable bytes is comparing their code points.
pub proof fn law_byte_order_is_code_point_order(a: Seq<u8>, b: Seq<u8>)
    requires
        decode::perl_decodable(a),
        decode::perl_decodable(b),
    ensures
        order::byte_order(a, b) == point_order(decode::code_points(a), decode::code_points(b)),
{
    lemma_encoding_order_from(a, b, 0);
}

} // verus!
