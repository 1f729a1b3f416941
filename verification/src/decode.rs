//! Perl's extended UTF-8: one decoder, and what it says of whole byte sequences.
use vstd::prelude::*;

verus! {

/// The largest code point perl's extended encoding admits, `IV_MAX`.
pub const IV_MAX: u64 = 0x7FFF_FFFF_FFFF_FFFF;

/// A continuation byte carries `10` in its top two bits.
pub open spec fn is_cont(byte: u8) -> bool {
    0x80 <= byte <= 0xBF
}

/// The length that a lead byte announces; zero for a byte that begins no sequence.
pub open spec fn announced_len(lead: u8) -> nat {
    if lead <= 0x7F {
        1
    } else if lead <= 0xBF {
        0
    } else if lead <= 0xDF {
        2
    } else if lead <= 0xEF {
        3
    } else if lead <= 0xF7 {
        4
    } else if lead <= 0xFB {
        5
    } else if lead <= 0xFD {
        6
    } else if lead == 0xFE {
        7
    } else {
        13
    }
}

/// The bits of the code point that the lead byte itself carries.
pub open spec fn lead_bits(lead: u8) -> nat {
    if lead <= 0x7F {
        lead as nat
    } else if lead <= 0xDF {
        (lead - 0xC0) as nat
    } else if lead <= 0xEF {
        (lead - 0xE0) as nat
    } else if lead <= 0xF7 {
        (lead - 0xF0) as nat
    } else if lead <= 0xFB {
        (lead - 0xF8) as nat
    } else if lead <= 0xFD {
        (lead - 0xFC) as nat
    } else {
        0
    }
}

/// The smallest code point whose encoding has the given length: the minimal-length rule.
pub open spec fn least_of_len(len: nat) -> nat {
    if len <= 1 {
        0
    } else if len == 2 {
        0x80
    } else if len == 3 {
        0x800
    } else if len == 4 {
        0x1_0000
    } else if len == 5 {
        0x20_0000
    } else if len == 6 {
        0x400_0000
    } else if len == 7 {
        0x8000_0000
    } else {
        0x10_0000_0000
    }
}

/// The value accumulated from the lead byte at `at` and the `n` bytes after it, six bits each.
pub open spec fn accumulated(s: Seq<u8>, at: int, n: nat) -> nat
    decreases n,
{
    if n == 0 {
        lead_bits(s[at])
    } else {
        accumulated(s, at, (n - 1) as nat) * 64 + ((s[at + n] - 0x80) as nat)
    }
}

/// Whether the `n` bytes after `at` are all continuation bytes.
pub open spec fn conts_follow(s: Seq<u8>, at: int, n: nat) -> bool {
    forall|k: int| at < k <= at + n ==> is_cont(#[trigger] s[k])
}

/// The sequence at `at`: its length and code point, or `None` where no code point is encoded there.
pub open spec fn sequence_at(s: Seq<u8>, at: int) -> Option<(nat, nat)> {
    let len = announced_len(s[at]);
    if 0 <= at && 0 < len && at + len <= s.len() && conts_follow(s, at, (len - 1) as nat) {
        let value = accumulated(s, at, (len - 1) as nat);
        if least_of_len(len) <= value <= IV_MAX {
            Some((len, value))
        } else {
            None
        }
    } else {
        None
    }
}

/// Whether everything from `at` on is a run of encoded code points.
pub open spec fn decodable_from(s: Seq<u8>, at: int) -> bool
    decreases s.len() - at,
{
    if at >= s.len() {
        at == s.len()
    } else {
        match sequence_at(s, at) {
            Some((len, _)) => decodable_from(s, at + len),
            None => false,
        }
    }
}

/// The code points from `at` on, up to the end or to the first byte where none is encoded.
pub open spec fn code_points_from(s: Seq<u8>, at: int) -> Seq<nat>
    decreases s.len() - at,
{
    if at >= s.len() {
        seq![]
    } else {
        match sequence_at(s, at) {
            Some((len, value)) => seq![value] + code_points_from(s, at + len),
            None => seq![],
        }
    }
}

/// Decodable by perl, extended forms included.
pub open spec fn perl_decodable(s: Seq<u8>) -> bool {
    decodable_from(s, 0)
}

/// The code points of a decodable byte sequence.
pub open spec fn code_points(s: Seq<u8>) -> Seq<nat> {
    code_points_from(s, 0)
}

/// A Unicode scalar value, the code points that a Rust `str` can hold.
pub open spec fn is_scalar_value(value: nat) -> bool {
    value < 0xD800 || 0xE000 <= value <= 0x10_FFFF
}

/// All code points are scalar values.
pub open spec fn all_scalar(points: Seq<nat>) -> bool {
    forall|i: int| 0 <= i < points.len() ==> is_scalar_value(#[trigger] points[i])
}

/// Decodable by Rust: decodable by perl, with scalar values only.
pub open spec fn rust_decodable(s: Seq<u8>) -> bool {
    &&& perl_decodable(s)
    &&& all_scalar(code_points(s))
}

/// Some code point is at least `bound`.
pub open spec fn has_at_least(points: Seq<nat>, bound: nat) -> bool {
    exists|i: int| 0 <= i < points.len() && #[trigger] points[i] >= bound
}

/// Some byte has its high bit set.
pub open spec fn has_high_byte(s: Seq<u8>) -> bool {
    exists|i: int| 0 <= i < s.len() && #[trigger] s[i] >= 0x80
}

/// No byte has its high bit set.
pub open spec fn all_ascii(s: Seq<u8>) -> bool {
    forall|i: int| 0 <= i < s.len() ==> #[trigger] s[i] < 0x80
}

proof fn lemma_accumulated_grows(s: Seq<u8>, at: int, m: nat, n: nat)
    requires
        m <= n,
        conts_follow(s, at, n),
    ensures
        accumulated(s, at, m) <= accumulated(s, at, n),
    decreases n - m,
{
    if m < n {
        lemma_accumulated_grows(s, at, m, (n - 1) as nat);
        assert(is_cont(s[at + n]));
    }
}

/// A sequence is read from its own bytes alone.
pub proof fn lemma_sequence_local(s: Seq<u8>, t: Seq<u8>, at: int, shift: int)
    requires
        0 <= at,
        0 <= at + shift,
        sequence_at(s, at) is Some,
        at + shift + (sequence_at(s, at)->0).0 <= t.len(),
        forall|k: int| at <= k < at + (sequence_at(s, at)->0).0 ==> #[trigger] s[k] == t[k + shift],
    ensures
        sequence_at(t, at + shift) == sequence_at(s, at),
{
    let len = announced_len(s[at]);
    assert(s[at] == t[at + shift]);
    assert forall|k: int| at + shift < k <= at + shift + (len - 1) implies is_cont(#[trigger] t[k]) by {
        assert(s[k - shift] == t[k - shift + shift]);
        assert(is_cont(s[k - shift]));
    }
    lemma_accumulated_local(s, t, at, shift, (len - 1) as nat);
}

proof fn lemma_accumulated_local(s: Seq<u8>, t: Seq<u8>, at: int, shift: int, n: nat)
    requires
        forall|k: int| at <= k <= at + n ==> #[trigger] s[k] == t[k + shift],
    ensures
        accumulated(s, at, n) == accumulated(t, at + shift, n),
    decreases n,
{
    if n > 0 {
        lemma_accumulated_local(s, t, at, shift, (n - 1) as nat);
        assert(s[at + n] == t[at + n + shift]);
        assert(at + shift + n == at + n + shift);
    } else {
        assert(s[at] == t[at + shift]);
    }
}

pub proof fn lemma_sequence_bounds(s: Seq<u8>, at: int)
    requires
        0 <= at < s.len(),
        sequence_at(s, at) is Some,
    ensures
        ({
            let (len, value) = sequence_at(s, at)->0;
            &&& 1 <= len <= 13
            &&& at + len <= s.len()
            &&& len == 1 <==> s[at] < 0x80
            &&& len == 1 <==> value < 0x80
            &&& len == 1 ==> value == s[at]
        }),
{
    let len = announced_len(s[at]);
    assert(accumulated(s, at, 0) == lead_bits(s[at]));
}

/// How the facts about a byte sequence from a position on are related.
proof fn lemma_content_facts_from(s: Seq<u8>, at: int)
    requires
        0 <= at <= s.len(),
        decodable_from(s, at),
    ensures
        has_at_least(code_points_from(s, at), 0x80) <==> exists|i: int| at <= i < s.len() && #[trigger] s[i] >= 0x80,
    decreases s.len() - at,
{
    let points = code_points_from(s, at);
    if at < s.len() {
        let (len, value) = sequence_at(s, at)->0;
        lemma_sequence_bounds(s, at);
        lemma_content_facts_from(s, at + len);
        let rest = code_points_from(s, at + len);
        assert(points[0] == value);
        assert(forall|i: int| 0 <= i < rest.len() ==> #[trigger] rest[i] == points[i + 1]);
        if has_at_least(points, 0x80) {
            let i = choose|i: int| 0 <= i < points.len() && #[trigger] points[i] >= 0x80;
            if i == 0 {
                assert(s[at] >= 0x80);
            } else {
                assert(rest[i - 1] >= 0x80);
            }
        }
        if exists|i: int| at <= i < s.len() && #[trigger] s[i] >= 0x80 {
            let i = choose|i: int| at <= i < s.len() && #[trigger] s[i] >= 0x80;
            if i < at + len {
                if len == 1 {
                    assert(i == at);
                }
                assert(points[0] >= 0x80);
            } else {
                let j = choose|j: int| 0 <= j < rest.len() && #[trigger] rest[j] >= 0x80;
                assert(points[j + 1] >= 0x80);
            }
        }
    }
}

/// How the facts about one byte sequence are related: which imply which.
pub proof fn lemma_content_facts(s: Seq<u8>)
    ensures
        all_ascii(s) == !has_high_byte(s),
        all_ascii(s) ==> perl_decodable(s),
        rust_decodable(s) ==> perl_decodable(s),
        perl_decodable(s) ==> (has_high_byte(s) <==> has_at_least(code_points(s), 0x80)),
        has_at_least(code_points(s), 0x100) ==> has_at_least(code_points(s), 0x80),
        perl_decodable(s) && !rust_decodable(s) ==> has_at_least(code_points(s), 0x100),
        perl_decodable(s) && !has_high_byte(s) ==> rust_decodable(s),
{
    if all_ascii(s) {
        lemma_ascii_decodable(s, 0);
    }
    if perl_decodable(s) {
        lemma_content_facts_from(s, 0);
    }
    let points = code_points(s);
    if has_at_least(points, 0x100) {
        let i = choose|i: int| 0 <= i < points.len() && #[trigger] points[i] >= 0x100;
        assert(points[i] >= 0x80);
    }
    if perl_decodable(s) && !rust_decodable(s) {
        let i = choose|i: int| 0 <= i < points.len() && !is_scalar_value(#[trigger] points[i]);
        assert(points[i] >= 0x100);
    }
}

/// What follows a position is read alike wherever it stands.
pub proof fn lemma_shift(s: Seq<u8>, t: Seq<u8>, at: int, shift: int)
    requires
        0 <= at <= s.len(),
        0 <= at + shift,
        s.len() + shift == t.len(),
        forall|k: int| at <= k < s.len() ==> #[trigger] s[k] == t[k + shift],
    ensures
        decodable_from(s, at) == decodable_from(t, at + shift),
        code_points_from(s, at) == code_points_from(t, at + shift),
    decreases s.len() - at,
{
    if at < s.len() {
        assert(s[at] == t[at + shift]);
        if sequence_at(s, at) is Some {
            let len = (sequence_at(s, at)->0).0;
            lemma_sequence_bounds(s, at);
            lemma_sequence_local(s, t, at, shift);
            assert forall|k: int| at + len <= k < s.len() implies #[trigger] s[k] == t[k + shift] by {}
            lemma_shift(s, t, at + len, shift);
            assert(at + len + shift == at + shift + len);
        } else if sequence_at(t, at + shift) is Some {
            lemma_sequence_bounds(t, at + shift);
            assert forall|k: int|
                at + shift <= k < at + shift + (sequence_at(t, at + shift)->0).0 implies #[trigger] t[k] == s[k - shift] by {
                assert(s[k - shift] == t[k - shift + shift]);
            }
            lemma_sequence_local(t, s, at + shift, -shift);
            assert(at + shift + (-shift) == at);
        }
    }
}

proof fn lemma_concat_from(a: Seq<u8>, b: Seq<u8>, at: int)
    requires
        0 <= at <= a.len(),
        decodable_from(a, at),
    ensures
        decodable_from(a + b, at) == perl_decodable(b),
        code_points_from(a + b, at) == code_points_from(a, at) + code_points(b),
    decreases a.len() - at,
{
    let c = a + b;
    if at < a.len() {
        let (len, value) = sequence_at(a, at)->0;
        lemma_sequence_bounds(a, at);
        lemma_sequence_local(a, c, at, 0);
        lemma_concat_from(a, b, at + len);
        assert(code_points_from(c, at) =~= code_points_from(a, at) + code_points(b));
    } else {
        assert forall|k: int| 0 <= k < b.len() implies #[trigger] b[k] == c[k + a.len()] by {}
        lemma_shift(b, c, 0, a.len() as int);
        assert(code_points_from(a, at) =~= seq![]);
        assert(seq![] + code_points(b) =~= code_points(b));
    }
}

/// Decodable content followed by other content: the code points of the first come first, and the whole is decodable
/// exactly when the second part is.
pub proof fn lemma_concat(a: Seq<u8>, b: Seq<u8>)
    requires
        perl_decodable(a),
    ensures
        perl_decodable(a + b) == perl_decodable(b),
        code_points(a + b) == code_points(a) + code_points(b),
{
    lemma_concat_from(a, b, 0);
}

/// A cut at `p` splits no sequence: it stands at an end, or before a byte that begins one.
pub open spec fn clean_cut(s: Seq<u8>, p: int) -> bool {
    0 <= p <= s.len() && (p < s.len() ==> !is_cont(s[p]))
}

proof fn lemma_split_from(s: Seq<u8>, at: int, p: int)
    requires
        0 <= at <= p,
        clean_cut(s, p),
        decodable_from(s, at),
    ensures
        decodable_from(s.take(p), at),
        decodable_from(s, p),
        code_points_from(s, at) == code_points_from(s.take(p), at) + code_points_from(s, p),
    decreases p - at,
{
    let a = s.take(p);
    if at < p {
        let (len, value) = sequence_at(s, at)->0;
        lemma_sequence_bounds(s, at);
        if at + len > p {
            assert(is_cont(s[p]));
        }
        lemma_sequence_local(s, a, at, 0);
        lemma_split_from(s, at + len, p);
        assert(code_points_from(s, at) =~= code_points_from(a, at) + code_points_from(s, p));
    } else {
        assert(code_points_from(a, at) =~= seq![]);
        assert(seq![] + code_points_from(s, p) =~= code_points_from(s, p));
    }
}

/// Cut cleanly, decodable content falls into two decodable parts.
pub proof fn lemma_split(s: Seq<u8>, p: int)
    requires
        clean_cut(s, p),
        perl_decodable(s),
    ensures
        perl_decodable(s.take(p)),
        perl_decodable(s.skip(p)),
        code_points(s) == code_points(s.take(p)) + code_points(s.skip(p)),
{
    lemma_split_from(s, 0, p);
    let b = s.skip(p);
    assert forall|k: int| 0 <= k < b.len() implies #[trigger] b[k] == s[k + p] by {}
    lemma_shift(b, s, 0, p);
}

/// Cut cleanly at both ends, a slice of decodable content is decodable, and its code points are among the content's.
pub proof fn lemma_clean_slice(s: Seq<u8>, from: int, to: int)
    requires
        0 <= from <= to,
        clean_cut(s, from),
        clean_cut(s, to),
        perl_decodable(s),
    ensures
        perl_decodable(s.subrange(from, to)),
        rust_decodable(s) ==> rust_decodable(s.subrange(from, to)),
        forall|bound: nat|
            #[trigger] has_at_least(code_points(s.subrange(from, to)), bound) ==> has_at_least(code_points(s), bound),
{
    let head = s.take(to);
    let part = s.subrange(from, to);
    lemma_split(s, to);
    assert(clean_cut(head, from));
    lemma_split(head, from);
    assert(head.skip(from) =~= part);
    let before = code_points(head.take(from));
    let inner = code_points(part);
    let all = code_points(s);
    assert forall|i: int| 0 <= i < inner.len() implies #[trigger] inner[i] == all[i + before.len()] by {}
    assert forall|bound: nat| #[trigger] has_at_least(inner, bound) implies has_at_least(all, bound) by {
        let i = choose|i: int| 0 <= i < inner.len() && #[trigger] inner[i] >= bound;
        assert(all[i + before.len()] >= bound);
    }
    if rust_decodable(s) {
        assert forall|i: int| 0 <= i < inner.len() implies is_scalar_value(#[trigger] inner[i]) by {
            assert(is_scalar_value(all[i + before.len()]));
        }
    }
}

proof fn lemma_ascii_decodable(s: Seq<u8>, at: int)
    requires
        all_ascii(s),
        0 <= at <= s.len(),
    ensures
        decodable_from(s, at),
    decreases s.len() - at,
{
    if at < s.len() {
        lemma_ascii_decodable(s, at + 1);
        assert(accumulated(s, at, 0) == s[at]);
    }
}

/// A continuation byte carries `10` in its top two bits, and can therefore never begin a sequence.
pub fn is_continuation(byte: u8) -> (r: bool)
    ensures
        r == is_cont(byte),
{
    proof {
        assert((byte & 0xC0 == 0x80) == (0x80 <= byte && byte <= 0xBF)) by (bit_vector);
    }
    byte & 0xC0 == 0x80
}

/// The smallest code point for each sequence length.
fn min_for_len(len: usize) -> (r: u64)
    requires
        1 <= len <= 7 || len == 13,
    ensures
        r == least_of_len(len as nat),
{
    match len {
        1 => 0,
        2 => 0x80,
        3 => 0x800,
        4 => 0x1_0000,
        5 => 0x20_0000,
        6 => 0x400_0000,
        7 => 0x8000_0000,
        _ => 0x10_0000_0000,
    }
}

/// Decode one sequence at `bytes[at]`, returning its length and code point.
///
/// `None` covers every way a sequence can be rejected: a bare continuation byte, truncation, a missing continuation,
/// a value overlong for its form, and one beyond [`IV_MAX`].
pub fn decode_one(bytes: &[u8], at: usize) -> (r: Option<(usize, u64)>)
    requires
        at < bytes@.len(),
    ensures
        r is Some <==> sequence_at(bytes@, at as int) is Some,
        r is Some ==> ((r->0).0 as nat, (r->0).1 as nat) == sequence_at(bytes@, at as int)->0,
        r is Some ==> 1 <= (r->0).0 <= 13 && at + (r->0).0 <= bytes@.len(),
{
    let lead: u8 = bytes[at];
    if lead <= 0x7F {
        return Some((1, lead as u64));
    }
    if lead <= 0xBF {
        return None;
    }
    let (len, first): (usize, u8) = if lead <= 0xDF {
        (2, lead - 0xC0)
    } else if lead <= 0xEF {
        (3, lead - 0xE0)
    } else if lead <= 0xF7 {
        (4, lead - 0xF0)
    } else if lead <= 0xFB {
        (5, lead - 0xF8)
    } else if lead <= 0xFD {
        (6, lead - 0xFC)
    } else if lead == 0xFE {
        (7, 0)
    } else {
        (13, 0)
    };
    if len > bytes.len() - at {
        return None;
    }
    let mut value: u64 = first as u64;
    let mut k: usize = 1;
    let ghost s = bytes@;
    while k < len
        invariant
            s == bytes@,
            1 <= k <= len,
            len == announced_len(s[at as int]),
            at + len <= bytes@.len(),
            conts_follow(s, at as int, (k - 1) as nat),
            value == accumulated(s, at as int, (k - 1) as nat),
        decreases len - k,
    {
        assert(at + k < bytes.len());
        let b: u8 = bytes[at + k];
        if !is_continuation(b) {
            assert(!is_cont(s[at + k]));
            return None;
        }
        assert(conts_follow(s, at as int, k as nat));
        match value.checked_mul(64) {
            Some(scaled) => {
                proof {
                    assert(b & 0x3F == b - 0x80) by (bit_vector)
                        requires
                            0x80 <= b <= 0xBF,
                    ;
                    let low = (b & 0x3F) as u64;
                    assert(scaled % 64 == 0);
                    assert(scaled | low == scaled + low) by (bit_vector)
                        requires
                            scaled % 64 == 0,
                            low < 64,
                    ;
                }
                value = scaled | (b & 0x3F) as u64;
            },
            None => {
                proof {
                    if conts_follow(s, at as int, (len - 1) as nat) {
                        lemma_accumulated_grows(s, at as int, k as nat, (len - 1) as nat);
                    }
                }
                return None;
            },
        }
        k = k + 1;
    }
    if value < min_for_len(len) || value > IV_MAX {
        return None;
    }
    Some((len, value))
}

/// The sequences of the extended encoding: how long each lead byte makes them, that continuation bytes fill them, that
/// every code point has its shortest form alone, and how the bits are spread over the bytes.
pub proof fn law_sequences_are_shortest_forms(s: Seq<u8>, at: int)
    requires
        0 <= at < s.len(),
        sequence_at(s, at) is Some,
    ensures
        ({
            let (len, value) = sequence_at(s, at)->0;
            let lead = s[at];
            &&& at + len <= s.len()
            &&& forall|k: int| at < k < at + len ==> 0x80 <= #[trigger] s[k] <= 0xBF
            &&& len == 1 ==> lead < 0x80 && value == lead
            &&& len == 2 ==> 0xC2 <= lead <= 0xDF && value == (lead - 0xC0) * 64 + (s[at + 1] - 0x80)
            &&& len == 3 ==> 0xE0 <= lead <= 0xEF && 0x800 <= value <= 0xFFFF && value == (lead - 0xE0) * 4096 + (s[at + 1]
                - 0x80) * 64 + (s[at + 2] - 0x80)
            &&& len == 4 ==> 0xF0 <= lead <= 0xF7 && 0x1_0000 <= value <= 0x1F_FFFF && value == (lead - 0xF0) * 262144
                + (s[at + 1] - 0x80) * 4096 + (s[at + 2] - 0x80) * 64 + (s[at + 3] - 0x80)
            &&& len == 5 ==> 0xF8 <= lead <= 0xFB && 0x20_0000 <= value
            &&& len == 6 ==> 0xFC <= lead <= 0xFD && 0x400_0000 <= value
            &&& len == 7 ==> lead == 0xFE && 0x8000_0000 <= value
            &&& len > 7 ==> len == 13 && lead == 0xFF && 0x10_0000_0000 <= value
            &&& value <= 0x7FFF_FFFF_FFFF_FFFF
            &&& len > 1 ==> value % 64 == s[at + len - 1] - 0x80
            &&& len > 2 ==> value / 64 % 64 == s[at + len - 2] - 0x80
        }),
{
    let (len, value) = sequence_at(s, at)->0;
    lemma_sequence_bounds(s, at);
    assert(accumulated(s, at, 0) == lead_bits(s[at]));
    assert forall|k: int| at < k < at + len implies 0x80 <= #[trigger] s[k] <= 0xBF by {
        assert(is_cont(s[k]));
    }
    if len > 1 {
        let n = (len - 1) as nat;
        assert(accumulated(s, at, n) == accumulated(s, at, (n - 1) as nat) * 64 + ((s[at + n] - 0x80) as nat));
        if len > 2 {
            let m = (n - 1) as nat;
            assert(accumulated(s, at, m) == accumulated(s, at, (m - 1) as nat) * 64 + ((s[at + m] - 0x80) as nat));
        }
        if len == 2 {
            assert(accumulated(s, at, 1) == lead_bits(s[at]) * 64 + ((s[at + 1] - 0x80) as nat));
        }
        if len == 3 || len == 4 {
            assert(accumulated(s, at, 1) == lead_bits(s[at]) * 64 + ((s[at + 1] - 0x80) as nat));
            assert(accumulated(s, at, 2) == accumulated(s, at, 1) * 64 + ((s[at + 2] - 0x80) as nat));
        }
    }
}

/// Perl's decoder takes what Rust's does not: the surrogates, and the four-byte forms beyond U+10FFFF.
pub proof fn law_extended_forms_are_taken(s: Seq<u8>)
    ensures
        s.len() == 3 && s[0] == 0xED && 0xA0 <= s[1] <= 0xBF && 0x80 <= s[2] <= 0xBF ==> perl_decodable(s)
            && code_points(s).len() == 1 && 0xD800 <= code_points(s)[0] <= 0xDFFF && !rust_decodable(s),
        s.len() == 4 && 0xF5 <= s[0] <= 0xF7 && 0x80 <= s[1] <= 0xBF && 0x80 <= s[2] <= 0xBF && 0x80 <= s[3] <= 0xBF
            ==> perl_decodable(s) && code_points(s).len() == 1 && code_points(s)[0] > 0x10_FFFF && !rust_decodable(s),
{
    assert(accumulated(s, 0, 0) == lead_bits(s[0]));
    if s.len() == 3 && s[0] == 0xED && 0xA0 <= s[1] <= 0xBF && 0x80 <= s[2] <= 0xBF {
        assert(accumulated(s, 0, 1) == lead_bits(s[0]) * 64 + ((s[1] - 0x80) as nat));
        assert(accumulated(s, 0, 2) == accumulated(s, 0, 1) * 64 + ((s[2] - 0x80) as nat));
        assert(conts_follow(s, 0, 2));
        assert(sequence_at(s, 0) is Some && (sequence_at(s, 0)->0).0 == 3);
        assert(decodable_from(s, 3));
        let points = code_points(s);
        assert(code_points_from(s, 3) =~= Seq::<nat>::empty());
        assert(points =~= seq![(sequence_at(s, 0)->0).1]);
        assert(!is_scalar_value(points[0]));
    }
    if s.len() == 4 && 0xF5 <= s[0] <= 0xF7 && 0x80 <= s[1] <= 0xBF && 0x80 <= s[2] <= 0xBF && 0x80 <= s[3] <= 0xBF {
        assert(accumulated(s, 0, 1) == lead_bits(s[0]) * 64 + ((s[1] - 0x80) as nat));
        assert(accumulated(s, 0, 2) == accumulated(s, 0, 1) * 64 + ((s[2] - 0x80) as nat));
        assert(accumulated(s, 0, 3) == accumulated(s, 0, 2) * 64 + ((s[3] - 0x80) as nat));
        assert(conts_follow(s, 0, 3));
        assert(sequence_at(s, 0) is Some && (sequence_at(s, 0)->0).0 == 4);
        assert(decodable_from(s, 4));
        let points = code_points(s);
        assert(code_points_from(s, 4) =~= Seq::<nat>::empty());
        assert(points =~= seq![(sequence_at(s, 0)->0).1]);
        assert(!is_scalar_value(points[0]));
    }
}

/// Decoding goes piece by piece: two decodable stretches decode, in a row, to the code points of the one and then those
/// of the other.
pub proof fn law_decoding_goes_piece_by_piece(a: Seq<u8>, b: Seq<u8>)
    requires
        perl_decodable(a),
    ensures
        perl_decodable(b) ==> perl_decodable(a + b) && code_points(a + b) == code_points(a) + code_points(b),
        perl_decodable(Seq::<u8>::empty()) && code_points(Seq::<u8>::empty()).len() == 0,
{
    if perl_decodable(b) {
        lemma_concat(a, b);
    }
}

/// What is left of a number above its lowest `n` groups of six bits.
pub open spec fn high_part(v: nat, n: nat) -> nat
    decreases n,
{
    if n == 0 {
        v
    } else {
        high_part(v / 64, (n - 1) as nat)
    }
}

/// The lowest `n` groups of six bits of a number, in a continuation byte each, the highest group first.
pub open spec fn low_groups(v: nat, n: nat) -> Seq<u8>
    decreases n,
{
    if n == 0 {
        seq![]
    } else {
        low_groups(v / 64, (n - 1) as nat).push((0x80 + v % 64) as u8)
    }
}

/// The encoding of a code point: one byte below 128, and otherwise the shortest of the longer forms, whose lead byte
/// announces how many continuation bytes follow.
pub open spec fn encoded_point(v: nat) -> Seq<u8> {
    if v < 0x80 {
        seq![v as u8]
    } else if v < 0x800 {
        seq![(0xC0 + high_part(v, 1)) as u8] + low_groups(v, 1)
    } else if v < 0x1_0000 {
        seq![(0xE0 + high_part(v, 2)) as u8] + low_groups(v, 2)
    } else if v < 0x20_0000 {
        seq![(0xF0 + high_part(v, 3)) as u8] + low_groups(v, 3)
    } else if v < 0x400_0000 {
        seq![(0xF8 + high_part(v, 4)) as u8] + low_groups(v, 4)
    } else if v < 0x8000_0000 {
        seq![(0xFC + high_part(v, 5)) as u8] + low_groups(v, 5)
    } else if v < 0x10_0000_0000 {
        seq![0xFEu8] + low_groups(v, 6)
    } else {
        seq![0xFFu8] + low_groups(v, 12)
    }
}

proof fn lemma_low_groups(v: nat, n: nat)
    ensures
        low_groups(v, n).len() == n,
        forall|i: int| 0 <= i < n ==> is_cont(#[trigger] low_groups(v, n)[i]),
    decreases n,
{
    if n > 0 {
        lemma_low_groups(v / 64, (n - 1) as nat);
    }
}

proof fn lemma_groups_accumulate(lead: u8, v: nat, n: nat)
    requires
        lead_bits(lead) == high_part(v, n),
    ensures
        accumulated(seq![lead] + low_groups(v, n), 0, n) == v,
    decreases n,
{
    let s = seq![lead] + low_groups(v, n);
    lemma_low_groups(v, n);
    if n > 0 {
        let m = (n - 1) as nat;
        let t = seq![lead] + low_groups(v / 64, m);
        lemma_low_groups(v / 64, m);
        lemma_groups_accumulate(lead, v / 64, m);
        assert forall|k: int| 0 <= k <= m implies #[trigger] t[k] == s[k + 0] by {
            if k > 0 {
                assert(t[k] == low_groups(v / 64, m)[k - 1]);
                assert(s[k] == low_groups(v, n)[k - 1]);
            }
        }
        lemma_accumulated_local(t, s, 0, 0, m);
        assert(s[n as int] == low_groups(v, n)[n - 1]);
        assert(s[n as int] == 0x80 + v % 64);
    }
}

/// Every code point up to the largest has its encoding, and that decodes to it alone.
pub proof fn law_every_code_point_decodes_from_its_encoding(v: nat)
    requires
        v <= 0x7FFF_FFFF_FFFF_FFFF,
    ensures
        perl_decodable(encoded_point(v)),
        code_points(encoded_point(v)) == seq![v],
{
    let s = encoded_point(v);
    reveal_with_fuel(high_part, 13);
    let n: nat = if v < 0x80 {
        0
    } else if v < 0x800 {
        1
    } else if v < 0x1_0000 {
        2
    } else if v < 0x20_0000 {
        3
    } else if v < 0x400_0000 {
        4
    } else if v < 0x8000_0000 {
        5
    } else if v < 0x10_0000_0000 {
        6
    } else {
        12
    };
    lemma_low_groups(v, n);
    if n == 0 {
        assert(s =~= seq![v as u8] + low_groups(v, 0));
    }
    let lead = s[0];
    assert(s == seq![lead] + low_groups(v, n)) by {
        assert(s =~= seq![lead] + low_groups(v, n));
    }
    assert(lead_bits(lead) == high_part(v, n));
    lemma_groups_accumulate(lead, v, n);
    assert(announced_len(lead) == n + 1);
    assert(conts_follow(s, 0, n)) by {
        assert forall|k: int| 0 < k <= 0 + n implies is_cont(#[trigger] s[k]) by {
            assert(s[k] == low_groups(v, n)[k - 1]);
        }
    }
    assert(sequence_at(s, 0) == Some((n + 1, v)));
    assert(decodable_from(s, s.len() as int));
    assert(code_points_from(s, s.len() as int) =~= Seq::<nat>::empty());
    assert(code_points(s) =~= seq![v]);
}

proof fn lemma_accumulated_groups(s: Seq<u8>, at: int, n: nat)
    requires
        0 <= at,
        at + n < s.len(),
        conts_follow(s, at, n),
    ensures
        low_groups(accumulated(s, at, n), n) == s.subrange(at + 1, at + n + 1),
        high_part(accumulated(s, at, n), n) == lead_bits(s[at]),
    decreases n,
{
    let v = accumulated(s, at, n);
    if n > 0 {
        let m = (n - 1) as nat;
        lemma_accumulated_groups(s, at, m);
        assert(is_cont(s[at + n]));
        assert(v == accumulated(s, at, m) * 64 + ((s[at + n] - 0x80) as nat));
        assert(v / 64 == accumulated(s, at, m));
        assert(v % 64 == s[at + n] - 0x80);
        assert(low_groups(v, n) =~= s.subrange(at + 1, at + n + 1));
    } else {
        assert(low_groups(v, n) =~= s.subrange(at + 1, at + n + 1));
    }
}

/// Nothing else decodes: what is read at a place is the encoding of the code point it is read as.
pub proof fn law_what_decodes_is_an_encoding(s: Seq<u8>, at: int)
    requires
        0 <= at < s.len(),
        sequence_at(s, at) is Some,
    ensures
        ({
            let (len, value) = sequence_at(s, at)->0;
            s.subrange(at, at + len) == encoded_point(value) && value <= 0x7FFF_FFFF_FFFF_FFFF
        }),
{
    let (len, value) = sequence_at(s, at)->0;
    lemma_sequence_bounds(s, at);
    let n = (len - 1) as nat;
    let lead = s[at];
    lemma_accumulated_groups(s, at, n);
    assert(accumulated(s, at, 0) == lead_bits(lead));
    assert(n >= 1 ==> is_cont(s[at + 1]) && accumulated(s, at, 1) == accumulated(s, at, 0) * 64 + ((s[at + 1] - 0x80) as nat));
    assert(n >= 2 ==> is_cont(s[at + 2]) && accumulated(s, at, 2) == accumulated(s, at, 1) * 64 + ((s[at + 2] - 0x80) as nat));
    assert(n >= 3 ==> is_cont(s[at + 3]) && accumulated(s, at, 3) == accumulated(s, at, 2) * 64 + ((s[at + 3] - 0x80) as nat));
    assert(n >= 4 ==> is_cont(s[at + 4]) && accumulated(s, at, 4) == accumulated(s, at, 3) * 64 + ((s[at + 4] - 0x80) as nat));
    assert(n >= 5 ==> is_cont(s[at + 5]) && accumulated(s, at, 5) == accumulated(s, at, 4) * 64 + ((s[at + 5] - 0x80) as nat));
    assert(n >= 6 ==> is_cont(s[at + 6]) && accumulated(s, at, 6) == accumulated(s, at, 5) * 64 + ((s[at + 6] - 0x80) as nat));
    assert(s.subrange(at, at + len) =~= seq![lead] + s.subrange(at + 1, at + len));
    assert(seq![lead] + low_groups(value, n) == s.subrange(at, at + len));
    if n == 0 {
        assert(encoded_point(value) =~= s.subrange(at, at + len));
    }
}

} // verus!
