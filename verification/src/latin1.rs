//! Latin-1 and its UTF-8 encoding: the upgrade that widens each high byte to two, and the downgrade that undoes it.
use crate::cow_buffer::{provided, reserve_exact, AllocError};
use crate::decode;
use vstd::prelude::*;

verus! {

/// The UTF-8 encoding of one Latin-1 character.
pub open spec fn widened_byte(b: u8) -> Seq<u8> {
    if b < 0x80 {
        seq![b]
    } else {
        seq![(0xC0 + b / 64) as u8, (0x80 + b % 64) as u8]
    }
}

/// The UTF-8 encoding of Latin-1 content: the upgrade.
pub open spec fn widened(s: Seq<u8>) -> Seq<u8>
    decreases s.len(),
{
    if s.len() == 0 {
        seq![]
    } else {
        widened(s.drop_last()) + widened_byte(s.last())
    }
}

/// How many bytes of `s` are at or above `0x80`.
pub open spec fn high_count(s: Seq<u8>) -> nat
    decreases s.len(),
{
    if s.len() == 0 {
        0
    } else {
        high_count(s.drop_last()) + if s.last() >= 0x80 {
            1nat
        } else {
            0nat
        }
    }
}

/// The encoding of characters that are all at most U+00FF: what the downgrade accepts.
pub open spec fn is_latin1_text(s: Seq<u8>) -> bool {
    decode::perl_decodable(s) && !decode::has_at_least(decode::code_points(s), 0x100)
}

/// The characters of Latin-1 text, one byte each: the downgrade.
pub open spec fn narrowed(s: Seq<u8>) -> Seq<u8> {
    decode::code_points(s).map_values(|v: nat| v as u8)
}

/// The encoding of one character reads back as that character.
pub proof fn lemma_widened_byte_sequence(b: u8)
    ensures
        decode::sequence_at(widened_byte(b), 0) == Some((widened_byte(b).len(), b as nat)),
{
    let s = widened_byte(b);
    assert(decode::accumulated(s, 0, 0) == decode::lead_bits(s[0]));
    if b >= 0x80 {
        assert(decode::is_cont(s[1]));
        assert(decode::accumulated(s, 0, 1) == decode::accumulated(s, 0, 0) * 64 + (s[1] - 0x80));
        assert(decode::conts_follow(s, 0, 1));
    }
}

proof fn lemma_widened_byte(b: u8)
    ensures
        decode::perl_decodable(widened_byte(b)),
        decode::code_points(widened_byte(b)) == seq![b as nat],
{
    let s = widened_byte(b);
    let points = decode::code_points(s);
    assert(decode::accumulated(s, 0, 0) == decode::lead_bits(s[0]));
    if b < 0x80 {
        assert(decode::sequence_at(s, 0) == Some((1nat, b as nat)));
        assert(decode::code_points_from(s, 1) =~= seq![]);
        assert(decode::decodable_from(s, 1));
    } else {
        assert(decode::is_cont(s[1]));
        assert(decode::accumulated(s, 0, 1) == decode::accumulated(s, 0, 0) * 64 + (s[1] - 0x80));
        assert(decode::conts_follow(s, 0, 1));
        assert(decode::sequence_at(s, 0) == Some((2nat, b as nat)));
        assert(decode::code_points_from(s, 2) =~= seq![]);
        assert(decode::decodable_from(s, 2));
    }
    assert(points =~= seq![b as nat]);
}

/// The upgrade of any bytes is decodable, with the bytes as its code points.
pub proof fn lemma_widened_decodes(s: Seq<u8>)
    ensures
        decode::perl_decodable(widened(s)),
        decode::code_points(widened(s)) == s.map_values(|b: u8| b as nat),
    decreases s.len(),
{
    let points = s.map_values(|b: u8| b as nat);
    if s.len() == 0 {
        assert(decode::code_points(widened(s)) =~= points);
    } else {
        lemma_widened_decodes(s.drop_last());
        lemma_widened_byte(s.last());
        decode::lemma_concat(widened(s.drop_last()), widened_byte(s.last()));
        assert(decode::code_points(widened(s)) =~= points);
    }
}

/// Upgrade, then downgrade: the same bytes.
pub proof fn law_narrow_undoes_widen(s: Seq<u8>)
    ensures
        is_latin1_text(widened(s)),
        narrowed(widened(s)) == s,
{
    lemma_widened_decodes(s);
    assert(narrowed(widened(s)) =~= s);
}

pub proof fn lemma_latin1_sequence(s: Seq<u8>, at: int)
    requires
        0 <= at < s.len(),
        decode::sequence_at(s, at) is Some,
        (decode::sequence_at(s, at)->0).1 < 0x100,
    ensures
        ({
            let (len, value) = decode::sequence_at(s, at)->0;
            &&& len <= 2
            &&& at + len <= s.len()
            &&& s.subrange(at, at + len) == widened_byte(value as u8)
            &&& len == 2 <==> s[at] >= 0x80
            &&& len == 2 ==> (s[at] == 0xC2 || s[at] == 0xC3) && decode::is_cont(s[at + 1])
            &&& len == 2 ==> value == (s[at] - 0xC0) * 64 + (s[at + 1] - 0x80)
        }),
{
    let (len, value) = decode::sequence_at(s, at)->0;
    decode::lemma_sequence_bounds(s, at);
    assert(decode::accumulated(s, at, 0) == decode::lead_bits(s[at]));
    if len == 1 {
        assert(s.subrange(at, at + len) =~= widened_byte(value as u8));
    } else {
        assert(decode::is_cont(s[at + 1]));
        assert(decode::accumulated(s, at, 1) == decode::lead_bits(s[at]) * 64 + (s[at + 1] - 0x80));
        assert(s.subrange(at, at + len) =~= widened_byte(value as u8));
    }
}

pub proof fn lemma_widened_concat(a: Seq<u8>, b: Seq<u8>)
    ensures
        widened(a + b) == widened(a) + widened(b),
    decreases b.len(),
{
    if b.len() == 0 {
        assert(a + b =~= a);
        assert(widened(a) + widened(b) =~= widened(a));
    } else {
        lemma_widened_concat(a, b.drop_last());
        assert((a + b).drop_last() =~= a + b.drop_last());
        assert((a + b).last() == b.last());
        assert(widened(a) + (widened(b.drop_last()) + widened_byte(b.last())) =~= (widened(a) + widened(
            b.drop_last(),
        )) + widened_byte(b.last()));
    }
}

proof fn lemma_widen_undoes_narrow_from(s: Seq<u8>, at: int)
    requires
        0 <= at <= s.len(),
        decode::decodable_from(s, at),
        !decode::has_at_least(decode::code_points_from(s, at), 0x100),
    ensures
        widened(decode::code_points_from(s, at).map_values(|v: nat| v as u8)) == s.skip(at),
    decreases s.len() - at,
{
    let points = decode::code_points_from(s, at);
    let bytes = points.map_values(|v: nat| v as u8);
    if at == s.len() {
        assert(s.skip(at) =~= seq![]);
        assert(bytes =~= seq![]);
    } else {
        let (len, value) = decode::sequence_at(s, at)->0;
        let rest = decode::code_points_from(s, at + len);
        decode::lemma_sequence_bounds(s, at);
        assert(points[0] == value);
        assert forall|i: int| 0 <= i < rest.len() implies #[trigger] rest[i] < 0x100 by {
            assert(points[i + 1] == rest[i]);
        }
        lemma_latin1_sequence(s, at);
        lemma_widen_undoes_narrow_from(s, at + len);
        let first = seq![value as u8];
        let tail = rest.map_values(|v: nat| v as u8);
        assert(bytes =~= first + tail);
        lemma_widened_concat(first, tail);
        assert(widened(first) =~= widened_byte(value as u8)) by {
            assert(first.drop_last() =~= seq![]);
            assert(widened(first.drop_last()) =~= seq![]);
        }
        assert(s.skip(at) =~= s.subrange(at, at + len) + s.skip(at + len));
    }
}

/// Downgrade, then upgrade: the same bytes, for content that the downgrade accepts.
pub proof fn law_widen_undoes_narrow(s: Seq<u8>)
    requires
        is_latin1_text(s),
    ensures
        widened(narrowed(s)) == s,
{
    lemma_widen_undoes_narrow_from(s, 0);
    assert(s.skip(0) =~= s);
}

/// The upgrade keeps contents apart: equal upgrades are upgrades of equal bytes.
pub proof fn law_widen_is_injective(a: Seq<u8>, b: Seq<u8>)
    requires
        widened(a) == widened(b),
    ensures
        a == b,
{
    law_narrow_undoes_widen(a);
    law_narrow_undoes_widen(b);
}

proof fn lemma_high_count_concat(a: Seq<u8>, b: Seq<u8>)
    ensures
        high_count(a + b) == high_count(a) + high_count(b),
    decreases b.len(),
{
    if b.len() == 0 {
        assert(a + b =~= a);
    } else {
        lemma_high_count_concat(a, b.drop_last());
        assert((a + b).drop_last() =~= a + b.drop_last());
    }
}

proof fn lemma_ascii_prefix(s: Seq<u8>, n: int)
    requires
        0 <= n <= s.len(),
        forall|k: int| 0 <= k < n ==> #[trigger] s[k] < 0x80,
    ensures
        high_count(s.take(n)) == 0,
        widened(s.take(n)) == s.take(n),
    decreases n,
{
    if n > 0 {
        lemma_ascii_prefix(s, n - 1);
        assert(s.take(n).drop_last() =~= s.take(n - 1));
        assert(widened(s.take(n)) =~= s.take(n));
    } else {
        assert(s.take(n) =~= seq![]);
        assert(widened(s.take(n)) =~= s.take(n));
    }
}

/// The upgrade has one more byte for each high byte.
pub proof fn lemma_widened_len(s: Seq<u8>)
    ensures
        widened(s).len() == s.len() + high_count(s),
        high_count(s) <= s.len(),
    decreases s.len(),
{
    if s.len() > 0 {
        lemma_widened_len(s.drop_last());
    }
}

/// Count the bytes at or above `0x80`, the ones that take two bytes under UTF-8.
pub fn variant_count(bytes: &[u8]) -> (r: usize)
    ensures
        r == high_count(bytes@),
        r <= bytes@.len(),
{
    let mut i: usize = 0;
    let mut count: usize = 0;
    assert(bytes@.take(0) =~= seq![]);
    while i < bytes.len()
        invariant
            i <= bytes@.len(),
            count == high_count(bytes@.take(i as int)),
            count <= i,
        decreases bytes@.len() - i,
    {
        assert(bytes@.take(i + 1).drop_last() =~= bytes@.take(i as int));
        if bytes[i] >= 0x80 {
            count = count + 1;
        }
        i = i + 1;
    }
    assert(bytes@.take(i as int) =~= bytes@);
    count
}

/// The offset of the first byte at or above `0x80`, or `None` when every byte is invariant.
pub fn first_variant(bytes: &[u8]) -> (r: Option<usize>)
    ensures
        r is None <==> decode::all_ascii(bytes@),
        r is Some ==> r->0 < bytes@.len() && bytes@[r->0 as int] >= 0x80 && forall|k: int|
            0 <= k < r->0 ==> #[trigger] bytes@[k] < 0x80,
{
    let mut i: usize = 0;
    while i < bytes.len()
        invariant
            i <= bytes@.len(),
            forall|k: int| 0 <= k < i ==> #[trigger] bytes@[k] < 0x80,
        decreases bytes@.len() - i,
    {
        if bytes[i] >= 0x80 {
            return Some(i);
        }
        i = i + 1;
    }
    None
}

/// The two bytes that encode a Latin-1 character at or above `0x80`.
pub fn widen_high(byte: u8) -> (r: (u8, u8))
    requires
        byte >= 0x80,
    ensures
        widened_byte(byte) == seq![r.0, r.1],
{
    proof {
        assert(0xC0 | (byte >> 6) == 0xC0 + byte / 64) by (bit_vector);
        assert(0x80 | (byte & 0x3F) == 0x80 + byte % 64) by (bit_vector);
    }
    (0xC0 | (byte >> 6), 0x80 | (byte & 0x3F))
}

/// The Latin-1 character that a two-byte sequence encodes.
pub fn narrow_pair(lead: u8, cont: u8) -> (r: u8)
    requires
        lead == 0xC2 || lead == 0xC3,
        decode::is_cont(cont),
    ensures
        r == (lead - 0xC0) * 64 + (cont - 0x80),
        r >= 0x80,
        widened_byte(r) == seq![lead, cont],
{
    proof {
        assert(((lead & 0x03) << 6) | (cont & 0x3F) == (lead - 0xC0) * 64 + (cont - 0x80)) by (bit_vector)
            requires
                lead == 0xC2 || lead == 0xC3,
                0x80 <= cont <= 0xBF,
        ;
    }
    ((lead & 0x03) << 6) | (cont & 0x3F)
}

/// The number of bytes an upgrade asks for: its length, or the largest request there is where that is beyond it.
pub open spec fn upgrade_request(s: Seq<u8>) -> nat {
    if widened(s).len() <= usize::MAX {
        widened(s).len()
    } else {
        usize::MAX as nat
    }
}

/// A fresh buffer holding the upgraded encoding of `bytes`.
pub fn upgraded_bytes(bytes: &[u8]) -> (r: Result<Vec<u8>, AllocError>)
    ensures
        r is Ok ==> (r->Ok_0)@ == widened(bytes@),
        r is Err ==> (r->Err_0).requested == upgrade_request(bytes@),
        bytes@.len() == 0 ==> r is Ok,
{
    let first: usize = match first_variant(bytes) {
        Some(at) => at,
        None => bytes.len(),
    };
    let ghost s = bytes@;
    proof {
        lemma_ascii_prefix(s, first as int);
        lemma_widened_len(s);
    }
    let rest = vstd::slice::slice_subrange(bytes, first, bytes.len());
    proof {
        lemma_high_count_concat(s.take(first as int), rest@);
        assert(s.take(first as int) + rest@ =~= s);
    }
    let total: usize = match bytes.len().checked_add(variant_count(rest)) {
        Some(total) => total,
        None => {
            return Err(AllocError { requested: usize::MAX });
        },
    };
    let mut out: Vec<u8> = Vec::new();
    let granted: bool = reserve_exact(&mut out, total);
    match provided(granted, out, total) {
        Err(error) => Err(error),
        Ok(mut out) => {
            upgrade_into(&mut out, bytes);
            assert(out@ =~= widened(s));
            Ok(out)
        },
    }
}

/// Append the upgraded encoding of `bytes` to a buffer.
pub fn upgrade_into(out: &mut Vec<u8>, bytes: &[u8])
    ensures
        final(out)@ == old(out)@ + widened(bytes@),
{
    let ghost s = bytes@;
    let mut i: usize = 0;
    assert(out@ =~= old(out)@ + widened(s.take(0)));
    while i < bytes.len()
        invariant
            s == bytes@,
            i <= bytes@.len(),
            out@ == old(out)@ + widened(s.take(i as int)),
        decreases bytes@.len() - i,
    {
        let byte: u8 = bytes[i];
        assert(s.take(i + 1).drop_last() =~= s.take(i as int));
        if byte < 0x80 {
            out.push(byte);
        } else {
            let (lead, cont): (u8, u8) = widen_high(byte);
            out.push(lead);
            out.push(cont);
        }
        assert(out@ =~= old(out)@ + (widened(s.take(i as int)) + widened_byte(byte)));
        i = i + 1;
    }
    assert(s.take(i as int) =~= s);
}

/// Count the two-byte sequences in `bytes`, or `None` when any byte is not part of a Latin-1-range encoding.
pub fn latin1_contractions(bytes: &[u8]) -> (r: Option<usize>)
    ensures
        r is Some <==> is_latin1_text(bytes@),
        r is Some ==> r->0 <= bytes@.len() && bytes@.len() - r->0 == narrowed(bytes@).len(),
{
    let ghost s = bytes@;
    let mut count: usize = 0;
    let mut i: usize = 0;
    while i < bytes.len()
        invariant
            s == bytes@,
            i <= s.len(),
            count <= i,
            is_latin1_text(s) <==> decode::decodable_from(s, i as int) && !decode::has_at_least(
                decode::code_points_from(s, i as int),
                0x100,
            ),
            decode::code_points(s).len() == (i - count) + decode::code_points_from(s, i as int).len(),
        decreases s.len() - i,
    {
        let byte: u8 = bytes[i];
        proof {
            lemma_latin1_step(s, i as int);
        }
        if byte < 0x80 {
            i = i + 1;
        } else if (byte == 0xC2 || byte == 0xC3) && bytes.len() - i > 1 && decode::is_continuation(bytes[i + 1]) {
            count = count + 1;
            i = i + 2;
        } else {
            return None;
        }
    }
    assert(decode::code_points_from(s, i as int) =~= seq![]);
    Some(count)
}

/// Whether the two-byte encoding of a Latin-1 character stands at `at`.
pub open spec fn latin1_pair_at(s: Seq<u8>, at: int) -> bool {
    &&& at + 1 < s.len()
    &&& s[at] == 0xC2 || s[at] == 0xC3
    &&& decode::is_cont(s[at + 1])
}

/// One step of the downgrade: an ASCII byte, a two-byte sequence, or a refusal.
pub proof fn lemma_latin1_step(s: Seq<u8>, at: int)
    requires
        0 <= at < s.len(),
    ensures
        s[at] < 0x80 ==> {
            &&& decode::decodable_from(s, at) == decode::decodable_from(s, at + 1)
            &&& decode::code_points_from(s, at) == seq![s[at] as nat] + decode::code_points_from(s, at + 1)
            &&& decode::has_at_least(decode::code_points_from(s, at), 0x100) == decode::has_at_least(
                decode::code_points_from(s, at + 1),
                0x100,
            )
        },
        latin1_pair_at(s, at) ==> {
            let value = (s[at] - 0xC0) * 64 + (s[at + 1] - 0x80);
            &&& decode::decodable_from(s, at) == decode::decodable_from(s, at + 2)
            &&& decode::code_points_from(s, at) == seq![value as nat] + decode::code_points_from(s, at + 2)
            &&& decode::has_at_least(decode::code_points_from(s, at), 0x100) == decode::has_at_least(
                decode::code_points_from(s, at + 2),
                0x100,
            )
        },
        s[at] >= 0x80 && !latin1_pair_at(s, at) ==> !(decode::decodable_from(s, at) && !decode::has_at_least(
            decode::code_points_from(s, at),
            0x100,
        )),
{
    let points = decode::code_points_from(s, at);
    assert(decode::accumulated(s, at, 0) == decode::lead_bits(s[at]));
    if s[at] < 0x80 {
        assert(decode::sequence_at(s, at) == Some((1nat, s[at] as nat)));
        lemma_prepend(s[at] as nat, decode::code_points_from(s, at + 1));
    } else if latin1_pair_at(s, at) {
        let value = (s[at] - 0xC0) * 64 + (s[at + 1] - 0x80);
        assert(decode::accumulated(s, at, 1) == value);
        assert(decode::conts_follow(s, at, 1));
        assert(decode::sequence_at(s, at) == Some((2nat, value as nat)));
        lemma_prepend(value as nat, decode::code_points_from(s, at + 2));
    } else if decode::sequence_at(s, at) is Some {
        let value = (decode::sequence_at(s, at)->0).1;
        if value < 0x100 {
            lemma_latin1_sequence(s, at);
        }
        assert(points[0] == value);
    }
}

proof fn lemma_prepend(v: nat, rest: Seq<nat>)
    requires
        v < 0x100,
    ensures
        decode::has_at_least(seq![v] + rest, 0x100) == decode::has_at_least(rest, 0x100),
{
    let all = seq![v] + rest;
    if decode::has_at_least(all, 0x100) {
        let i = choose|i: int| 0 <= i < all.len() && #[trigger] all[i] >= 0x100;
        assert(rest[i - 1] >= 0x100);
    }
    if decode::has_at_least(rest, 0x100) {
        let i = choose|i: int| 0 <= i < rest.len() && #[trigger] rest[i] >= 0x100;
        assert(all[i + 1] >= 0x100);
    }
}

/// A fresh buffer holding the contracted bytes, or `None` when the content refuses to downgrade.
pub fn downgraded_bytes(bytes: &[u8]) -> (r: Result<Option<Vec<u8>>, AllocError>)
    ensures
        !is_latin1_text(bytes@) ==> r == Ok::<Option<Vec<u8>>, AllocError>(None),
        is_latin1_text(bytes@) && r is Ok ==> r->Ok_0 is Some && (r->Ok_0->0)@ == narrowed(bytes@),
        r is Err ==> is_latin1_text(bytes@) && (r->Err_0).requested == narrowed(bytes@).len(),
        bytes@.len() == 0 ==> r is Ok,
{
    let ghost s = bytes@;
    let total: usize = match latin1_contractions(bytes) {
        None => {
            return Ok(None);
        },
        Some(contractions) => bytes.len() - contractions,
    };
    let mut out: Vec<u8> = Vec::new();
    let granted: bool = reserve_exact(&mut out, total);
    match provided(granted, out, total) {
        Err(error) => Err(error),
        Ok(mut out) => {
            downgrade_into(&mut out, bytes);
            assert(out@ =~= narrowed(s));
            Ok(Some(out))
        },
    }
}

/// Append the contraction of Latin-1 text to a buffer.
pub fn downgrade_into(out: &mut Vec<u8>, bytes: &[u8])
    requires
        is_latin1_text(bytes@),
    ensures
        final(out)@ == old(out)@ + narrowed(bytes@),
{
    let ghost s = bytes@;
    let ghost points = decode::code_points(s);
    let ghost mut n: int = 0;
    let mut src: usize = 0;
    assert(points.skip(0) =~= points);
    assert(out@ =~= old(out)@ + narrowed(s).take(0));
    while src < bytes.len()
        invariant
            s == bytes@,
            src <= s.len(),
            points == decode::code_points(s),
            0 <= n <= points.len(),
            points.skip(n) == decode::code_points_from(s, src as int),
            out@ == old(out)@ + narrowed(s).take(n),
            decode::decodable_from(s, src as int),
            !decode::has_at_least(decode::code_points_from(s, src as int), 0x100),
        decreases s.len() - src,
    {
        let byte: u8 = bytes[src];
        proof {
            lemma_latin1_step(s, src as int);
            assert(byte < 0x80 || latin1_pair_at(s, src as int));
            assert(decode::code_points_from(s, src as int).len() > 0);
            assert(points.skip(n)[0] == points[n]);
            assert(narrowed(s)[n] == points[n] as u8);
            assert(points.skip(n + 1) =~= points.skip(n).skip(1));
        }
        if byte < 0x80 {
            assert(points.skip(n).skip(1) =~= decode::code_points_from(s, src + 1));
            out.push(byte);
            src = src + 1;
        } else {
            assert(points.skip(n).skip(1) =~= decode::code_points_from(s, src + 2));
            out.push(narrow_pair(byte, bytes[src + 1]));
            src = src + 2;
        }
        assert(out@ =~= old(out)@ + narrowed(s).take(n + 1));
        proof {
            n = n + 1;
        }
    }
    assert(decode::code_points_from(s, src as int) =~= seq![]);
    assert(points.skip(n).len() == 0);
    assert(narrowed(s).take(n) =~= narrowed(s));
}

pub proof fn lemma_widened_prepend(b: u8, s: Seq<u8>)
    ensures
        widened(seq![b] + s) == widened_byte(b) + widened(s),
{
    let first = seq![b];
    lemma_widened_concat(first, s);
    assert(first.drop_last() =~= seq![]);
    assert(widened(first.drop_last()) =~= seq![]);
    assert(widened(first) =~= widened_byte(b));
}

/// Rewrite the buffer in place as the UTF-8 upgrade of its Latin-1 content.  Every byte before `first` is ASCII, and
/// `new_len` is the length of the upgrade.
///
/// The cursors descend from the ends of their regions and meet at `first`, so no write lands on a byte not yet read.
pub fn expand_latin1_in_place(buffer: &mut Vec<u8>, first: usize, new_len: usize)
    requires
        first <= old(buffer)@.len(),
        forall|k: int| 0 <= k < first ==> #[trigger] old(buffer)@[k] < 0x80,
        new_len == widened(old(buffer)@).len(),
    ensures
        final(buffer)@ == widened(old(buffer)@),
{
    let ghost s = buffer@;
    let old_len: usize = buffer.len();
    proof {
        lemma_widened_len(s);
    }
    while buffer.len() < new_len
        invariant
            old_len == s.len() <= buffer@.len() <= new_len,
            buffer@.take(old_len as int) == s,
        decreases new_len - buffer@.len(),
    {
        let ghost before = buffer@;
        buffer.push(0);
        assert(buffer@.take(old_len as int) =~= before.take(old_len as int));
    }
    let mut src: usize = old_len;
    let mut dst: usize = new_len;
    assert(s.take(src as int) =~= s);
    assert(s.skip(src as int) =~= seq![]);
    assert(buffer@.skip(dst as int) =~= widened(s.skip(src as int)));
    while src > first
        invariant
            first <= src <= s.len(),
            src <= dst <= new_len,
            buffer@.len() == new_len,
            dst == widened(s.take(src as int)).len(),
            buffer@.take(src as int) == s.take(src as int),
            buffer@.skip(dst as int) == widened(s.skip(src as int)),
        decreases src,
    {
        let ghost before = buffer@;
        let ghost high = dst as int;
        proof {
            lemma_widened_len(s.take(src as int));
            lemma_widened_len(s.take(src - 1));
            assert(s.take(src as int).drop_last() =~= s.take(src - 1));
            assert(seq![s[src - 1]] + s.skip(src as int) =~= s.skip(src - 1));
            lemma_widened_prepend(s[src - 1], s.skip(src as int));
            assert(buffer@.take(src as int)[src - 1] == s[src - 1]);
        }
        src = src - 1;
        let byte: u8 = buffer[src];
        if byte < 0x80 {
            dst = dst - 1;
            buffer[dst] = byte;
        } else {
            let (lead, cont): (u8, u8) = widen_high(byte);
            dst = dst - 2;
            buffer[dst] = lead;
            buffer[dst + 1] = cont;
        }
        proof {
            assert(buffer@.skip(dst as int) =~= widened_byte(byte) + before.skip(high));
            assert(buffer@.take(src as int) =~= s.take(src as int)) by {
                assert forall|k: int| 0 <= k < src implies buffer@[k] == s[k] by {
                    assert(before.take(src + 1)[k] == s.take(src + 1)[k]);
                }
            }
        }
    }
    proof {
        lemma_ascii_prefix(s, first as int);
        lemma_widened_concat(s.take(first as int), s.skip(first as int));
        assert(s.take(first as int) + s.skip(first as int) =~= s);
        assert(buffer@ =~= buffer@.take(first as int) + buffer@.skip(first as int));
    }
}

/// Rewrite the buffer in place as the Latin-1 contraction of its UTF-8 content.
pub fn contract_latin1_in_place(buffer: &mut Vec<u8>)
    requires
        is_latin1_text(old(buffer)@),
    ensures
        final(buffer)@ == narrowed(old(buffer)@),
{
    let ghost s = buffer@;
    let ghost points = decode::code_points(s);
    let old_len: usize = buffer.len();
    let mut src: usize = 0;
    let mut dst: usize = 0;
    assert(points.skip(0) =~= points);
    assert(narrowed(s).take(0) =~= seq![]);
    assert(buffer@.take(0) =~= seq![]);
    while src < old_len
        invariant
            old_len == s.len() == buffer@.len(),
            dst <= src <= s.len(),
            points == decode::code_points(s),
            dst <= points.len(),
            points.skip(dst as int) == decode::code_points_from(s, src as int),
            buffer@.take(dst as int) == narrowed(s).take(dst as int),
            forall|k: int| src <= k < s.len() ==> #[trigger] buffer@[k] == s[k],
            decode::decodable_from(s, src as int),
            !decode::has_at_least(decode::code_points_from(s, src as int), 0x100),
        decreases s.len() - src,
    {
        let byte: u8 = buffer[src];
        let ghost before = buffer@;
        let ghost n = dst as int;
        proof {
            lemma_latin1_step(s, src as int);
            assert(byte < 0x80 || latin1_pair_at(s, src as int));
            assert(decode::code_points_from(s, src as int).len() > 0);
            assert(points.skip(n)[0] == points[n]);
            assert(narrowed(s)[n] == points[n] as u8);
            assert(points.skip(n + 1) =~= points.skip(n).skip(1));
        }
        if byte < 0x80 {
            proof {
                assert(points.skip(n).skip(1) =~= decode::code_points_from(s, src + 1));
            }
            buffer[dst] = byte;
            src = src + 1;
        } else {
            proof {
                assert(points.skip(n).skip(1) =~= decode::code_points_from(s, src + 2));
            }
            let narrow: u8 = narrow_pair(byte, buffer[src + 1]);
            buffer[dst] = narrow;
            src = src + 2;
        }
        dst = dst + 1;
        assert(buffer@.take(n + 1) =~= narrowed(s).take(n + 1)) by {
            assert forall|k: int| 0 <= k < n implies buffer@[k] == narrowed(s)[k] by {
                assert(before.take(n)[k] == narrowed(s).take(n)[k]);
            }
        }
    }
    assert(decode::code_points_from(s, src as int) =~= seq![]);
    assert(points.skip(dst as int).len() == 0);
    assert(narrowed(s).take(dst as int) =~= narrowed(s));
    buffer.truncate(dst);
}

proof fn lemma_char_of_its_number(c: char)
    ensures
        (c as nat) as char == c,
{
}

/// The upgrade is UTF-8: of bytes that are the numbers of characters it is the encoding of those characters.
pub proof fn law_upgrade_is_the_utf8_encoding(s: Seq<u8>)
    ensures
        widened(s) == vstd::utf8::encode_utf8(s.map_values(|b: u8| b as char)),
{
    let text = widened(s);
    lemma_widened_decodes(s);
    let points = decode::code_points(text);
    assert forall|i: int| 0 <= i < points.len() implies decode::is_scalar_value(#[trigger] points[i]) by {
        assert(points[i] == s[i]);
    }
    assert(decode::rust_decodable(text));
    crate::utf8::law_rust_decodable_is_valid_utf8(text);
    let chars = vstd::utf8::decode_utf8(text);
    assert(chars.map_values(|c: char| c as nat) == points);
    assert(chars =~= s.map_values(|b: u8| b as char)) by {
        let numbers = chars.map_values(|c: char| c as nat);
        assert(numbers.len() == chars.len());
        assert(points.len() == s.len());
        assert forall|i: int| 0 <= i < s.len() implies chars[i] == s[i] as char by {
            assert(numbers[i] == chars[i] as nat);
            assert(points[i] == s[i] as nat);
            lemma_char_of_its_number(chars[i]);
            assert((s[i] as nat) as char == s[i] as char);
        }
    }
    vstd::utf8::decode_utf8_encode_utf8(text);
}

/// The downgrade reads UTF-8: text is Latin-1 exactly where no character is beyond U+00FF, and then each character
/// becomes the byte of its number.
pub proof fn law_downgrade_takes_characters_to_bytes(chars: Seq<char>)
    ensures
        is_latin1_text(vstd::utf8::encode_utf8(chars)) <==> forall|i: int|
            0 <= i < chars.len() ==> #[trigger] chars[i] as nat <= 0xFF,
        is_latin1_text(vstd::utf8::encode_utf8(chars)) ==> {
            let bytes = narrowed(vstd::utf8::encode_utf8(chars));
            &&& bytes.len() == chars.len()
            &&& forall|i: int| 0 <= i < chars.len() ==> #[trigger] bytes[i] as nat == chars[i] as nat
        },
{
    let text = vstd::utf8::encode_utf8(chars);
    vstd::utf8::encode_utf8_valid_utf8(chars);
    vstd::utf8::encode_utf8_decode_utf8(chars);
    crate::utf8::law_rust_decodable_is_valid_utf8(text);
    let points = decode::code_points(text);
    assert(points == chars.map_values(|c: char| c as nat));
    if is_latin1_text(text) {
        assert forall|i: int| 0 <= i < chars.len() implies #[trigger] chars[i] as nat <= 0xFF by {
            assert(points[i] == chars[i] as nat);
        }
        let bytes = narrowed(text);
        assert forall|i: int| 0 <= i < chars.len() implies #[trigger] bytes[i] as nat == chars[i] as nat by {
            assert(points[i] == chars[i] as nat);
        }
    } else {
        let i = choose|i: int| 0 <= i < points.len() && #[trigger] points[i] >= 0x100;
        assert(points[i] == chars[i] as nat);
    }
}

/// What is no encoding has no downgrade.
pub proof fn law_only_text_is_downgraded(s: Seq<u8>)
    requires
        is_latin1_text(s),
    ensures
        vstd::utf8::valid_utf8(s),
        forall|i: int| 0 <= i < vstd::utf8::decode_utf8(s).len() ==> #[trigger] vstd::utf8::decode_utf8(s)[i] as nat <= 0xFF,
{
    let points = decode::code_points(s);
    assert forall|i: int| 0 <= i < points.len() implies decode::is_scalar_value(#[trigger] points[i]) by {}
    crate::utf8::law_rust_decodable_is_valid_utf8(s);
    vstd::utf8::decode_utf8_encode_utf8(s);
    law_downgrade_takes_characters_to_bytes(vstd::utf8::decode_utf8(s));
}

/// What an upgrade asks for is its length: a byte for each byte and one more for each high one.
pub proof fn law_upgrade_grows_by_the_high_bytes(s: Seq<u8>, b: u8)
    ensures
        widened(s.push(b)).len() == widened(s).len() + if b < 0x80 { 1nat } else { 2nat },
        widened(Seq::<u8>::empty()).len() == 0,
        widened(s).len() <= usize::MAX ==> upgrade_request(s) == widened(s).len(),
        widened(s).len() > usize::MAX ==> upgrade_request(s) == usize::MAX,
{
    assert(s.push(b).drop_last() =~= s);
}

/// The high bytes are counted one by one.
pub proof fn law_high_bytes_are_counted(a: Seq<u8>, b: Seq<u8>, x: u8)
    ensures
        high_count(a + b) == high_count(a) + high_count(b),
        high_count(seq![x]) == if x >= 0x80 { 1nat } else { 0nat },
{
    lemma_high_count_concat(a, b);
    assert(seq![x].drop_last() =~= Seq::<u8>::empty());
    assert(high_count(Seq::<u8>::empty()) == 0);
}

} // verus!
