//! Equality, order and digest of perl strings: all three go by characters, whatever the utf8 flags.
use crate::classify;
use crate::classify::block_end;
use crate::decode;
use crate::decode::decode_one;
use crate::latin1;
use crate::order;
use crate::order::Order;
use crate::scan;
use crate::scan::{is_known_beyond_latin1, is_known_non_ascii, ScanState};
use crate::string::PString;
use std::cmp::Ordering;
use vstd::prelude::*;

verus! {

/// First walk block: one cache line bounds the cost of an early mismatch.
const WALK_FIRST_BLOCK: usize = 64;

/// Where the bytes of a flagged string stand against those of a plain one: `i` bytes encode `j` characters.
spec fn in_step(fb: Seq<u8>, pb: Seq<u8>, i: int, j: int) -> bool {
    &&& 0 <= i <= fb.len()
    &&& 0 <= j <= pb.len()
    &&& fb.take(i) == latin1::widened(pb.take(j))
}

/// In step, equal contents go on with the next character.
proof fn lemma_next_character(fb: Seq<u8>, pb: Seq<u8>, i: int, j: int)
    requires
        in_step(fb, pb, i, j),
        fb == latin1::widened(pb),
        i < fb.len(),
    ensures
        j < pb.len(),
        decode::sequence_at(fb, i) == Some((latin1::widened_byte(pb[j]).len(), pb[j] as nat)),
{
    if j == pb.len() {
        assert(pb.take(j) =~= pb);
        assert(fb.take(i) =~= fb);
    }
    order::lemma_widened_at(pb, j);
    let x = latin1::widened_byte(pb[j]);
    latin1::lemma_widened_byte_sequence(pb[j]);
    assert(i == latin1::widened(pb.take(j)).len());
    assert forall|k: int| 0 <= k < x.len() implies #[trigger] x[k] == fb[k + i] by {
        assert(fb[i + k] == x[k]);
    }
    decode::lemma_sequence_local(x, fb, 0, i);
}

/// In step, an equal character keeps the step.
proof fn lemma_step(fb: Seq<u8>, pb: Seq<u8>, i: int, j: int, len: int)
    requires
        in_step(fb, pb, i, j),
        0 <= i < fb.len(),
        0 <= j < pb.len(),
        0 <= len,
        i + len <= fb.len(),
        fb.subrange(i, i + len) == latin1::widened_byte(pb[j]),
    ensures
        in_step(fb, pb, i + len, j + 1),
{
    assert(pb.take(j + 1).drop_last() =~= pb.take(j));
    assert(fb.take(i + len) =~= fb.take(i) + fb.subrange(i, i + len));
}

/// Compare a block of the flagged side that holds no high byte: there characters are bytes.
fn ascii_block_equal(fb: &[u8], pb: &[u8], i: usize, end: usize, j: usize) -> (r: bool)
    requires
        i < end <= fb@.len(),
        in_step(fb@, pb@, i as int, j as int),
        forall|k: int| i <= k < end ==> #[trigger] fb@[k] < 0x80,
    ensures
        r ==> j + (end - i) <= pb@.len() && in_step(fb@, pb@, end as int, j + (end - i)),
        !r ==> fb@ != latin1::widened(pb@),
{
    let mut k: usize = 0;
    while k < end - i
        invariant
            k <= end - i,
            i < end <= fb@.len(),
            j + k <= pb@.len(),
            in_step(fb@, pb@, i + k, j + k),
            forall|n: int| i <= n < end ==> #[trigger] fb@[n] < 0x80,
        decreases end - i - k,
    {
        proof {
            if fb@ == latin1::widened(pb@) {
                lemma_next_character(fb@, pb@, i + k, j + k);
                decode::lemma_sequence_bounds(fb@, i + k);
            }
        }
        if k >= pb.len() - j || fb[i + k] != pb[j + k] {
            return false;
        }
        proof {
            assert(fb@.subrange(i + k, i + k + 1) =~= latin1::widened_byte(pb@[j + k]));
            lemma_step(fb@, pb@, i + k, j + k, 1);
        }
        k = k + 1;
    }
    true
}

/// Whether a flagged string's bytes are the upgrade of a plain one's: the streaming compare.  Per block of the flagged
/// side, a block without high bits compares bytes with bytes; any other block is decoded character by character.  A
/// sequence that encodes no character below U+0100 settles the question.
pub fn encodes(fb: &[u8], pb: &[u8]) -> (r: bool)
    ensures
        r == (fb@ == latin1::widened(pb@)),
{
    let mut i: usize = 0;
    let mut j: usize = 0;
    assert(fb@.take(0) =~= seq![]);
    assert(pb@.take(0) =~= seq![]);
    while i < fb.len()
        invariant
            in_step(fb@, pb@, i as int, j as int),
        decreases fb@.len() - i,
    {
        let end: usize = if i == 0 {
            if WALK_FIRST_BLOCK < fb.len() { WALK_FIRST_BLOCK } else { fb.len() }
        } else {
            block_end(i, fb.len())
        };
        if !classify::span_has_high(fb, i, end) {
            if !ascii_block_equal(fb, pb, i, end, j) {
                return false;
            }
            assert(j + (end - i) <= pb.len());
            j = j + (end - i);
            i = end;
            continue;
        }
        let ghost block_start = i;
        while i < end
            invariant
                block_start <= i <= fb@.len(),
                end <= fb@.len(),
                block_start < end,
                in_step(fb@, pb@, i as int, j as int),
            ensures
                i > block_start,
                in_step(fb@, pb@, i as int, j as int),
            decreases fb@.len() - i,
        {
            proof {
                if fb@ == latin1::widened(pb@) {
                    lemma_next_character(fb@, pb@, i as int, j as int);
                }
            }
            match decode_one(fb, i) {
                None => {
                    return false;
                },
                Some((len, value)) => {
                    if j >= pb.len() || value != pb[j] as u64 {
                        return false;
                    }
                    proof {
                        latin1::lemma_latin1_sequence(fb@, i as int);
                        lemma_step(fb@, pb@, i as int, j as int, len as int);
                    }
                    assert(i + len <= fb.len());
                    i = i + len;
                    j = j + 1;
                },
            }
        }
    }
    proof {
        assert(fb@.take(i as int) =~= fb@);
        if j < pb@.len() {
            order::lemma_widened_at(pb@, j as int);
        } else {
            assert(pb@.take(j as int) =~= pb@);
        }
    }
    j == pb.len()
}

/// Whether a flagged and a plain string are the same characters.  The lengths and the scan states answer where they
/// can, and the streaming compare otherwise.
fn equal_across_flags(flagged: &PString, plain: &PString) -> (r: bool)
    ensures
        r == (flagged.data() == latin1::widened(plain.data())),
{
    let sf: ScanState = flagged.scan_state();
    let sp: ScanState = plain.scan_state();
    proof {
        let fb = flagged.data();
        let pb = plain.data();
        scan::law_predicates_are_sound(sf, fb);
        scan::law_predicates_are_sound(sp, pb);
        decode::lemma_content_facts(fb);
        decode::lemma_content_facts(pb);
        latin1::lemma_widened_len(pb);
        latin1::lemma_widened_decodes(pb);
        latin1::law_narrow_undoes_widen(pb);
        lemma_high_bytes(pb);
    }
    // The character count never exceeds the byte count, and a multi-byte sequence keeps it below.
    if plain.len() > flagged.len() {
        return false;
    }
    if (sf == ScanState::Utf8Latin1 || sf == ScanState::Utf8NonAscii) && plain.len() == flagged.len() {
        return false;
    }
    if (sf == ScanState::Ascii && is_known_non_ascii(sp)) || (sp == ScanState::Ascii && is_known_non_ascii(sf)) {
        return false;
    }
    if is_known_beyond_latin1(sf) || sf == ScanState::MalformedUtf8 {
        return false;
    }
    let mut fs: [u8; 41] = [0u8; 41];
    let mut ps: [u8; 41] = [0u8; 41];
    encodes(flagged.as_bytes(&mut fs), plain.as_bytes(&mut ps))
}

/// High bytes and their encodings.
proof fn lemma_high_bytes(s: Seq<u8>)
    ensures
        decode::has_high_byte(s) <==> decode::has_high_byte(latin1::widened(s)),
        decode::has_high_byte(s) <==> latin1::widened(s).len() > s.len(),
{
    let text = latin1::widened(s);
    latin1::lemma_widened_decodes(s);
    decode::lemma_content_facts(text);
    let points = decode::code_points(text);
    if decode::has_high_byte(s) {
        let i = choose|i: int| 0 <= i < s.len() && #[trigger] s[i] >= 0x80;
        assert(points[i] >= 0x80);
    }
    if decode::has_at_least(points, 0x80) {
        let i = choose|i: int| 0 <= i < points.len() && #[trigger] points[i] >= 0x80;
        assert(s[i] >= 0x80);
    }
    latin1::lemma_widened_len(s);
    crate::inline_form::lemma_high_count_zero(s);
    decode::lemma_content_facts(s);
}

impl PartialEq for PString {
    /// Two strings are equal when they are the same characters.  Taint is no part of it.
    fn eq(&self, other: &PString) -> (r: bool) {
        if self.is_utf8() == other.is_utf8() {
            proof {
                if !self.flagged() && latin1::widened(self.data()) == latin1::widened(other.data()) {
                    latin1::law_widen_is_injective(self.data(), other.data());
                }
            }
            return self.same_bytes(other);
        }
        if self.is_utf8() {
            equal_across_flags(self, other)
        } else {
            equal_across_flags(other, self)
        }
    }
}

impl vstd::std_specs::cmp::PartialEqSpecImpl for PString {
    open spec fn obeys_eq_spec() -> bool {
        true
    }

    open spec fn eq_spec(&self, other: &PString) -> bool {
        self.encoding() == other.encoding()
    }
}

impl Eq for PString {

}

/// Compare a flagged string's bytes with the upgrade of a plain one's, byte for byte: each plain octet below `0x80`
/// presents itself, and each octet above presents its two encoding bytes in turn.
fn order_across_flags(fb: &[u8], pb: &[u8]) -> (r: Order)
    ensures
        r == order::byte_order(fb@, latin1::widened(pb@)),
{
    let ghost upgrade = latin1::widened(pb@);
    let mut i: usize = 0;
    let mut j: usize = 0;
    assert(pb@.take(0) =~= seq![]);
    assert(upgrade.take(0) =~= seq![]);
    while j < pb.len()
        invariant
            upgrade == latin1::widened(pb@),
            j <= pb@.len(),
            i <= fb@.len(),
            i == latin1::widened(pb@.take(j as int)).len(),
            i <= upgrade.len(),
            order::byte_order(fb@, upgrade) == order::byte_order_from(fb@, upgrade, i as int),
        decreases pb@.len() - j,
    {
        let b: u8 = pb[j];
        proof {
            order::lemma_widened_at(pb@, j as int);
            assert(pb@.take(j + 1).drop_last() =~= pb@.take(j as int));
            assert(upgrade[i + 0] == latin1::widened_byte(b)[0]);
        }
        if i >= fb.len() {
            return Order::Less;
        }
        if b < 0x80 {
            if fb[i] < b {
                return Order::Less;
            }
            if fb[i] > b {
                return Order::Greater;
            }
            i = i + 1;
        } else {
            let (lead, cont): (u8, u8) = latin1::widen_high(b);
            assert(upgrade[i + 1] == latin1::widened_byte(b)[1]);
            if fb[i] < lead {
                return Order::Less;
            }
            if fb[i] > lead {
                return Order::Greater;
            }
            assert(order::byte_order_from(fb@, upgrade, i as int) == order::byte_order_from(fb@, upgrade, i + 1));
            if fb.len() - i <= 1 {
                return Order::Less;
            }
            if fb[i + 1] < cont {
                return Order::Less;
            }
            if fb[i + 1] > cont {
                return Order::Greater;
            }
            i = i + 2;
        }
        j = j + 1;
    }
    assert(pb@.take(j as int) =~= pb@);
    if i < fb.len() {
        Order::Greater
    } else {
        Order::Equal
    }
}

impl PString {
    /// The order of two strings by their characters.
    pub fn order_perl(&self, other: &PString) -> (r: Order)
        ensures
            r == order::byte_order(self.encoding(), other.encoding()),
    {
        if self.is_utf8() == other.is_utf8() {
            // Bytes read alike: unflagged octets are their own code points, and UTF-8 keeps the order.
            proof {
                order::law_widening_keeps_order(self.data(), other.data());
            }
            return self.order_raw_bytes(other);
        }
        let mut left: [u8; 41] = [0u8; 41];
        let mut right: [u8; 41] = [0u8; 41];
        if self.is_utf8() {
            order_across_flags(self.as_bytes(&mut left), other.as_bytes(&mut right))
        } else {
            proof {
                order::law_order_is_antisymmetric(other.encoding(), self.encoding());
            }
            order_across_flags(other.as_bytes(&mut right), self.as_bytes(&mut left)).reverse()
        }
    }

    /// Perl's `cmp`: code-point ordering, whatever the utf8 flags.  Equal content compares equal across flags.
    pub fn cmp_perl(&self, other: &PString) -> (r: Ordering)
        ensures
            r == order::byte_order(self.encoding(), other.encoding()).ordering(),
    {
        self.order_perl(other).to_ordering()
    }
}

impl PartialOrd for PString {
    fn partial_cmp(&self, other: &PString) -> (r: Option<Ordering>) {
        Some(self.cmp_perl(other))
    }
}

impl vstd::std_specs::cmp::PartialOrdSpecImpl for PString {
    open spec fn obeys_partial_cmp_spec() -> bool {
        true
    }

    open spec fn partial_cmp_spec(&self, other: &PString) -> Option<Ordering> {
        Some(order::byte_order(self.encoding(), other.encoding()).ordering())
    }
}

/// Comparison agrees with equality: two strings compare equal exactly when they are equal.
pub proof fn law_order_agrees_with_equality(a: PString, b: PString)
    ensures
        order::byte_order(a.encoding(), b.encoding()) is Equal <==> a.encoding() == b.encoding(),
{
    order::law_equal_is_equality(a.encoding(), b.encoding());
}

/// The order is total: of two strings either comes first or they are equal, whichever is asked of, and what comes
/// before a string comes before all that it comes before.
pub proof fn law_order_is_total(a: PString, b: PString, c: PString)
    ensures
        order::byte_order(b.encoding(), a.encoding()) == order::byte_order(a.encoding(), b.encoding()).flipped(),
        !(order::byte_order(a.encoding(), b.encoding()) is Greater) && !(order::byte_order(
            b.encoding(),
            c.encoding(),
        ) is Greater) ==> !(order::byte_order(a.encoding(), c.encoding()) is Greater),
{
    order::law_order_is_antisymmetric(a.encoding(), b.encoding());
    order::law_equal_is_equality(a.encoding(), b.encoding());
    order::law_equal_is_equality(b.encoding(), c.encoding());
    if order::byte_order(a.encoding(), b.encoding()) is Less && order::byte_order(b.encoding(), c.encoding()) is Less {
        order::law_order_is_transitive(a.encoding(), b.encoding(), c.encoding());
    }
}

/// Strings compare by their characters: under one flag as their bytes do, and across flags as the flagged bytes and the
/// UTF-8 encoding of the plain ones do.
pub proof fn law_strings_compare_by_characters(a: PString, b: PString)
    ensures
        a.flagged() && b.flagged() ==> a.encoding() == a.data() && b.encoding() == b.data(),
        !a.flagged() ==> a.encoding() == vstd::utf8::encode_utf8(a.data().map_values(|x: u8| x as char)),
        !a.flagged() && !b.flagged() ==> {
            &&& order::byte_order(a.encoding(), b.encoding()) == order::byte_order(a.data(), b.data())
            &&& a.encoding() == b.encoding() <==> a.data() == b.data()
        },
{
    latin1::law_upgrade_is_the_utf8_encoding(a.data());
    if !a.flagged() && !b.flagged() {
        order::law_widening_keeps_order(a.data(), b.data());
        if a.encoding() == b.encoding() {
            latin1::law_widen_is_injective(a.data(), b.data());
        }
    }
}

/// Equality of strings is equality of their characters, and so is comparing equal; the taint is no part of either.
pub proof fn law_operators_go_by_characters(a: PString, b: PString)
    ensures
        vstd::std_specs::cmp::PartialEqSpec::eq_spec(&a, &b) <==> a.encoding() == b.encoding(),
        a.flagged() == b.flagged() ==> (vstd::std_specs::cmp::PartialEqSpec::eq_spec(&a, &b) <==> a.data() == b.data()),
        vstd::std_specs::cmp::PartialOrdSpec::partial_cmp_spec(&a, &b) is Some,
        order::byte_order(a.encoding(), b.encoding()) is Less <==> vstd::std_specs::cmp::PartialOrdSpec::partial_cmp_spec(
            &a,
            &b,
        )->0 is Less,
        order::byte_order(a.encoding(), b.encoding()) is Greater <==> vstd::std_specs::cmp::PartialOrdSpec::partial_cmp_spec(
            &a,
            &b,
        )->0 is Greater,
{
    if !a.flagged() && !b.flagged() && a.encoding() == b.encoding() {
        latin1::law_widen_is_injective(a.data(), b.data());
    }
}

} // verus!
