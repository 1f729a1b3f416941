//! Reading numbers from the front of text, by perl's rules.
use crate::decode;
use crate::decode::decode_one;
use vstd::prelude::*;

verus! {

/// ASCII whitespace: tab, line feed, form feed, carriage return and space.
pub open spec fn is_ascii_space(byte: u8) -> bool {
    byte == 0x09 || byte == 0x0A || byte == 0x0C || byte == 0x0D || byte == 0x20
}

/// Where the ASCII whitespace from `i` on ends.
pub open spec fn ascii_space_end(s: Seq<u8>, i: int) -> int
    decreases s.len() - i,
{
    if 0 <= i < s.len() && is_ascii_space(s[i]) {
        ascii_space_end(s, i + 1)
    } else {
        i
    }
}

/// Unicode whitespace.
pub open spec fn is_white_point(value: nat) -> bool {
    ||| 0x09 <= value <= 0x0D
    ||| value == 0x20
    ||| value == 0x85
    ||| value == 0xA0
    ||| value == 0x1680
    ||| 0x2000 <= value <= 0x200A
    ||| value == 0x2028
    ||| value == 0x2029
    ||| value == 0x202F
    ||| value == 0x205F
    ||| value == 0x3000
}

/// Where the Unicode whitespace from `i` on ends.
pub open spec fn white_end(s: Seq<u8>, i: int) -> int
    decreases s.len() - i,
{
    if 0 <= i < s.len() {
        match decode::sequence_at(s, i) {
            Some((len, value)) => if is_white_point(value) {
                white_end(s, i + len)
            } else {
                i
            },
            None => i,
        }
    } else {
        i
    }
}

/// The value of a digit, or `None` for a byte that is none in the radix.
pub open spec fn digit_value(byte: u8, radix: nat) -> Option<nat> {
    let d = if 0x30 <= byte <= 0x39 {
        (byte - 0x30) as nat
    } else if 0x41 <= byte <= 0x46 {
        (byte - 0x41 + 10) as nat
    } else if 0x61 <= byte <= 0x66 {
        (byte - 0x61 + 10) as nat
    } else {
        99
    };
    if d < radix {
        Some(d)
    } else {
        None
    }
}

/// Where the digits from `i` on end.
pub open spec fn digits_end(s: Seq<u8>, i: int, radix: nat) -> int
    decreases s.len() - i,
{
    if 0 <= i < s.len() && digit_value(s[i], radix) is Some {
        digits_end(s, i + 1, radix)
    } else {
        i
    }
}

/// The number that the digits in `from..to` spell.
pub open spec fn digits_number(s: Seq<u8>, from: int, to: int, radix: nat) -> nat
    decreases to - from,
{
    if to <= from {
        0
    } else {
        digits_number(s, from, to - 1, radix) * radix + digit_value(s[to - 1], radix)->0
    }
}

/// The largest magnitude that reads as itself: decimal digits behind a minus sign reach one further.
pub open spec fn magnitude_limit(negative: bool, radix: nat) -> nat {
    if negative && radix == 10 {
        0x8000_0000_0000_0000
    } else {
        0x7FFF_FFFF_FFFF_FFFF
    }
}

/// Where the number behind an optional sign begins.
pub open spec fn unsigned_start(s: Seq<u8>, at: int) -> int {
    if at < s.len() && (s[at] == 0x2B || s[at] == 0x2D) {
        at + 1
    } else {
        at
    }
}

/// The radix that a prefix at `at` announces.
pub open spec fn announced_radix(s: Seq<u8>, at: int) -> nat {
    if at + 1 < s.len() && s[at] == 0x30 && (s[at + 1] == 0x78 || s[at + 1] == 0x58) {
        16
    } else if at + 1 < s.len() && s[at] == 0x30 && (s[at + 1] == 0x62 || s[at + 1] == 0x42) {
        2
    } else {
        10
    }
}

/// The integer that the text from `at` on begins with: an optional sign, an optional radix prefix, and digits.  Whatever
/// follows the digits is ignored.  A magnitude beyond the range reads as zero.
pub open spec fn leading_int(s: Seq<u8>, at: int) -> int {
    let negative = at < s.len() && s[at] == 0x2D;
    let p = unsigned_start(s, at);
    let radix = announced_radix(s, p);
    let q = if radix == 10 { p } else { p + 2 };
    let v = digits_number(s, q, digits_end(s, q, radix), radix);
    if v > magnitude_limit(negative, radix) {
        0
    } else if negative {
        -v
    } else {
        v as int
    }
}

/// The integer reading of text whose leading ASCII whitespace is gone: the number behind the rest of the whitespace.
pub open spec fn int_reading(s: Seq<u8>) -> int {
    leading_int(s, white_end(s, 0))
}

/// Where the sign, the digits and the point with its digits end, each of them optional.
pub open spec fn mantissa_end(s: Seq<u8>, at: int) -> int {
    let a = digits_end(s, unsigned_start(s, at), 10);
    if a < s.len() && s[a] == 0x2E {
        digits_end(s, a + 1, 10)
    } else {
        a
    }
}

/// Whether a float begins at `at`: behind an optional sign there is a digit, or a point with a digit.
pub open spec fn float_begins(s: Seq<u8>, at: int) -> bool {
    let p = unsigned_start(s, at);
    let q = if p < s.len() && s[p] == 0x2E { p + 1 } else { p };
    q < s.len() && digit_value(s[q], 10) is Some
}

/// Where the exponent at `at` ends, or `at` where there is none: an `e` is one only with a digit behind it or its sign.
pub open spec fn exponent_end(s: Seq<u8>, at: int) -> int {
    let q = unsigned_start(s, at + 1);
    if at < s.len() && (s[at] == 0x65 || s[at] == 0x45) && q < s.len() && digit_value(s[q], 10) is Some {
        digits_end(s, q, 10)
    } else {
        at
    }
}

/// Where the longest float that begins at `at` ends, or `at` where none does.
pub open spec fn float_end(s: Seq<u8>, at: int) -> int {
    if float_begins(s, at) {
        exponent_end(s, mantissa_end(s, at))
    } else {
        at
    }
}

proof fn lemma_number_grows(s: Seq<u8>, from: int, a: int, b: int, radix: nat)
    requires
        from <= a <= b,
        radix >= 1,
    ensures
        digits_number(s, from, a, radix) <= digits_number(s, from, b, radix),
    decreases b - a,
{
    if a < b {
        lemma_number_grows(s, from, a, b - 1, radix);
        let v = digits_number(s, from, b - 1, radix);
        assert(v <= v * radix) by (nonlinear_arith)
            requires
                radix >= 1,
        ;
    }
}

/// Where the ASCII whitespace at the front ends.
pub fn skip_ascii_space(bytes: &[u8]) -> (r: usize)
    ensures
        r <= bytes@.len(),
        r == ascii_space_end(bytes@, 0),
{
    let mut i: usize = 0;
    while i < bytes.len() && (bytes[i] == 0x09 || bytes[i] == 0x0A || bytes[i] == 0x0C || bytes[i] == 0x0D || bytes[i]
        == 0x20)
        invariant
            i <= bytes@.len(),
            ascii_space_end(bytes@, i as int) == ascii_space_end(bytes@, 0),
        decreases bytes@.len() - i,
    {
        i = i + 1;
    }
    i
}

fn is_white(value: u64) -> (r: bool)
    ensures
        r == is_white_point(value as nat),
{
    (0x09 <= value && value <= 0x0D) || value == 0x20 || value == 0x85 || value == 0xA0 || value == 0x1680 || (0x2000
        <= value && value <= 0x200A) || value == 0x2028 || value == 0x2029 || value == 0x202F || value == 0x205F || value
        == 0x3000
}

/// Where the Unicode whitespace at the front ends.
pub fn skip_white(bytes: &[u8]) -> (r: usize)
    ensures
        r <= bytes@.len(),
        r == white_end(bytes@, 0),
{
    let mut i: usize = 0;
    while i < bytes.len()
        invariant
            i <= bytes@.len(),
            white_end(bytes@, i as int) == white_end(bytes@, 0),
        decreases bytes@.len() - i,
    {
        match decode_one(bytes, i) {
            None => {
                return i;
            },
            Some((len, value)) => {
                if !is_white(value) {
                    return i;
                }
                i = i + len;
            },
        }
    }
    i
}

fn digit_of(byte: u8, radix: u64) -> (r: Option<u64>)
    requires
        radix <= 16,
    ensures
        r is Some <==> digit_value(byte, radix as nat) is Some,
        r is Some ==> r->0 == digit_value(byte, radix as nat)->0 && r->0 < 16,
{
    let d: u64 = if 0x30 <= byte && byte <= 0x39 {
        (byte - 0x30) as u64
    } else if 0x41 <= byte && byte <= 0x46 {
        (byte - 0x41) as u64 + 10
    } else if 0x61 <= byte && byte <= 0x66 {
        (byte - 0x61) as u64 + 10
    } else {
        99
    };
    if d < radix {
        Some(d)
    } else {
        None
    }
}

/// The digits from `from` on: where they end, and the number they spell where it is at most `limit`.
fn read_digits(bytes: &[u8], from: usize, radix: u64, limit: u64) -> (r: (usize, Option<u64>))
    requires
        from <= bytes@.len(),
        2 <= radix <= 16,
        limit <= 0x8000_0000_0000_0000,
    ensures
        r.0 == digits_end(bytes@, from as int, radix as nat),
        from <= r.0 <= bytes@.len(),
        r.1 is Some <==> digits_number(bytes@, from as int, r.0 as int, radix as nat) <= limit,
        r.1 is Some ==> r.1->0 == digits_number(bytes@, from as int, r.0 as int, radix as nat),
{
    let ghost s = bytes@;
    let mut i: usize = from;
    let mut value: Option<u64> = Some(0);
    while i < bytes.len()
        invariant
            s == bytes@,
            from <= i <= s.len(),
            2 <= radix <= 16,
            limit <= 0x8000_0000_0000_0000,
            digits_end(s, i as int, radix as nat) == digits_end(s, from as int, radix as nat),
            value is Some <==> digits_number(s, from as int, i as int, radix as nat) <= limit,
            value is Some ==> value->0 == digits_number(s, from as int, i as int, radix as nat),
        decreases s.len() - i,
    {
        match digit_of(bytes[i], radix) {
            None => {
                return (i, value);
            },
            Some(d) => {
                let ghost before = digits_number(s, from as int, i as int, radix as nat);
                proof {
                    lemma_number_grows(s, from as int, i as int, i + 1, radix as nat);
                    assert(digits_number(s, from as int, i + 1, radix as nat) == before * radix + d);
                }
                value = match value {
                    None => None,
                    Some(v) => match v.checked_mul(radix) {
                        None => None,
                        Some(scaled) => match scaled.checked_add(d) {
                            None => None,
                            Some(total) => if total <= limit { Some(total) } else { None },
                        },
                    },
                };
                i = i + 1;
            },
        }
    }
    (i, value)
}

fn after_sign(bytes: &[u8], at: usize) -> (r: usize)
    requires
        at <= bytes@.len(),
    ensures
        r == unsigned_start(bytes@, at as int),
        at <= r <= bytes@.len(),
{
    if at < bytes.len() && (bytes[at] == 0x2B || bytes[at] == 0x2D) {
        at + 1
    } else {
        at
    }
}

/// The integer that the text from `at` on begins with.
pub fn perl_atoi(bytes: &[u8], at: usize) -> (r: i64)
    requires
        at <= bytes@.len(),
    ensures
        r == leading_int(bytes@, at as int),
{
    let negative: bool = at < bytes.len() && bytes[at] == 0x2D;
    let p: usize = after_sign(bytes, at);
    let mut radix: u64 = 10;
    let mut q: usize = p;
    if bytes.len() - p >= 2 && bytes[p] == 0x30 {
        let mark: u8 = bytes[p + 1];
        if mark == 0x78 || mark == 0x58 {
            radix = 16;
            q = p + 2;
        } else if mark == 0x62 || mark == 0x42 {
            radix = 2;
            q = p + 2;
        }
    }
    let limit: u64 = if negative && radix == 10 { 0x8000_0000_0000_0000 } else { 0x7FFF_FFFF_FFFF_FFFF };
    let (_, value) = read_digits(bytes, q, radix, limit);
    match value {
        None => 0,
        Some(v) => if !negative {
            v as i64
        } else if v == 0x8000_0000_0000_0000 {
            i64::MIN
        } else {
            -(v as i64)
        },
    }
}

fn digits_stop(bytes: &[u8], from: usize) -> (r: usize)
    requires
        from <= bytes@.len(),
    ensures
        r == digits_end(bytes@, from as int, 10),
        from <= r <= bytes@.len(),
{
    let mut i: usize = from;
    while i < bytes.len() && 0x30 <= bytes[i] && bytes[i] <= 0x39
        invariant
            from <= i <= bytes@.len(),
            digits_end(bytes@, i as int, 10) == digits_end(bytes@, from as int, 10),
        decreases bytes@.len() - i,
    {
        i = i + 1;
    }
    i
}

fn is_digit_at(bytes: &[u8], at: usize) -> (r: bool)
    ensures
        r == (at < bytes@.len() && digit_value(bytes@[at as int], 10) is Some),
{
    at < bytes.len() && 0x30 <= bytes[at] && bytes[at] <= 0x39
}

/// The longest beginning of the text, from `at` on, that is a float: where it ends.
pub fn float_stop(bytes: &[u8], at: usize) -> (r: usize)
    requires
        at <= bytes@.len(),
    ensures
        r == float_end(bytes@, at as int),
        at <= r <= bytes@.len(),
{
    let start: usize = after_sign(bytes, at);
    let pointed: bool = start < bytes.len() && bytes[start] == 0x2E;
    if !is_digit_at(bytes, if pointed { start + 1 } else { start }) {
        return at;
    }
    let mut end: usize = digits_stop(bytes, start);
    if end < bytes.len() && bytes[end] == 0x2E {
        end = digits_stop(bytes, end + 1);
    }
    if end < bytes.len() && (bytes[end] == 0x65 || bytes[end] == 0x45) {
        let digits: usize = after_sign(bytes, end + 1);
        if is_digit_at(bytes, digits) {
            return digits_stop(bytes, digits);
        }
    }
    end
}

/// The integer reading of a whole string: its leading ASCII whitespace is skipped, and then the number is read.
pub open spec fn parsed_int(s: Seq<u8>) -> int {
    int_reading(s.skip(ascii_space_end(s, 0)))
}

/// The beginning of a whole string that reads as a float, behind the whitespace at its front.
pub open spec fn parsed_float(s: Seq<u8>) -> Seq<u8> {
    let text = s.skip(ascii_space_end(s, 0));
    let start = white_end(text, 0);
    text.subrange(start, float_end(text, start))
}

proof fn lemma_bounds(s: Seq<u8>, i: int)
    requires
        0 <= i <= s.len(),
    ensures
        i <= ascii_space_end(s, i) <= s.len(),
        i <= white_end(s, i) <= s.len(),
        i <= digits_end(s, i, 10) <= s.len(),
        white_end(s, ascii_space_end(s, i)) == white_end(s, i),
    decreases s.len() - i,
{
    if i < s.len() {
        lemma_bounds(s, i + 1);
        if is_ascii_space(s[i]) {
            assert(decode::accumulated(s, i, 0) == decode::lead_bits(s[i]));
            assert(decode::sequence_at(s, i) == Some((1nat, s[i] as nat)));
        }
        if decode::sequence_at(s, i) is Some {
            decode::lemma_sequence_bounds(s, i);
            lemma_bounds(s, i + (decode::sequence_at(s, i)->0).0);
        }
    }
}

pub proof fn lemma_sequence_skip(s: Seq<u8>, k: int, i: int)
    requires
        0 <= k,
        0 <= i,
        k + i < s.len(),
    ensures
        decode::sequence_at(s.skip(k), i) == decode::sequence_at(s, k + i),
{
    let t = s.skip(k);
    if decode::sequence_at(t, i) is Some {
        decode::lemma_sequence_bounds(t, i);
        decode::lemma_sequence_local(t, s, i, k);
    }
    if decode::sequence_at(s, k + i) is Some {
        decode::lemma_sequence_bounds(s, k + i);
        decode::lemma_sequence_local(s, t, k + i, -k);
    }
}

proof fn lemma_white_skip(s: Seq<u8>, k: int, i: int)
    requires
        0 <= k,
        0 <= i,
        k + i <= s.len(),
    ensures
        k + white_end(s.skip(k), i) == white_end(s, k + i),
    decreases s.len() - k - i,
{
    let t = s.skip(k);
    if k + i < s.len() {
        lemma_sequence_skip(s, k, i);
        if decode::sequence_at(t, i) is Some {
            decode::lemma_sequence_bounds(t, i);
            lemma_white_skip(s, k, i + (decode::sequence_at(t, i)->0).0);
        }
    }
}

proof fn lemma_digits_skip(s: Seq<u8>, k: int, i: int, radix: nat)
    requires
        0 <= k,
        0 <= i,
        k + i <= s.len(),
    ensures
        k + digits_end(s.skip(k), i, radix) == digits_end(s, k + i, radix),
        i <= digits_end(s.skip(k), i, radix) <= s.len() - k,
    decreases s.len() - k - i,
{
    let t = s.skip(k);
    if k + i < s.len() {
        assert(t[i] == s[k + i]);
        lemma_digits_skip(s, k, i + 1, radix);
    }
}

/// The number that digits spell depends on those digits alone, wherever they stand.
proof fn lemma_number_local(s: Seq<u8>, t: Seq<u8>, from: int, to: int, shift: int, radix: nat)
    requires
        forall|i: int| from <= i < to ==> digit_value(#[trigger] s[i], radix) == digit_value(t[i + shift], radix),
    ensures
        digits_number(s, from, to, radix) == digits_number(t, from + shift, to + shift, radix),
    decreases to - from,
{
    if from < to {
        lemma_number_local(s, t, from, to - 1, shift, radix);
        assert(digit_value(s[to - 1], radix) == digit_value(t[to - 1 + shift], radix));
    }
}

proof fn lemma_leading_skip(s: Seq<u8>, k: int)
    requires
        0 <= k <= s.len(),
    ensures
        leading_int(s.skip(k), 0) == leading_int(s, k),
{
    let t = s.skip(k);
    let p = unsigned_start(t, 0);
    assert(t.len() > 0 ==> t[0] == s[k]);
    assert(unsigned_start(s, k) == k + p);
    assert(p < t.len() ==> t[p] == s[k + p]);
    assert(p + 1 < t.len() ==> t[p + 1] == s[k + p + 1]);
    let radix = announced_radix(t, p);
    let q = if radix == 10 { p } else { p + 2 };
    lemma_digits_skip(s, k, q, radix);
    let end = digits_end(t, q, radix);
    lemma_number_local(t, s, q, end, k, radix);
}

proof fn lemma_float_skip(s: Seq<u8>, k: int)
    requires
        0 <= k <= s.len(),
    ensures
        k + float_end(s.skip(k), 0) == float_end(s, k),
        0 <= float_end(s.skip(k), 0) <= s.len() - k,
{
    let t = s.skip(k);
    let p = unsigned_start(t, 0);
    assert(t.len() > 0 ==> t[0] == s[k]);
    assert(unsigned_start(s, k) == k + p);
    assert(p < t.len() ==> t[p] == s[k + p]);
    assert(p + 1 < t.len() ==> t[p + 1] == s[k + p + 1]);
    lemma_digits_skip(s, k, p, 10);
    let a = digits_end(t, p, 10);
    assert(a < t.len() ==> t[a] == s[k + a]);
    if a < t.len() && t[a] == 0x2E {
        lemma_digits_skip(s, k, a + 1, 10);
    }
    let m = mantissa_end(t, 0);
    assert(mantissa_end(s, k) == k + m);
    assert(m < t.len() ==> t[m] == s[k + m]);
    assert(m + 1 < t.len() ==> t[m + 1] == s[k + m + 1]);
    let q = unsigned_start(t, m + 1);
    assert(m + 1 <= t.len() ==> unsigned_start(s, k + m + 1) == k + q);
    assert(q < t.len() ==> t[q] == s[k + q]);
    if m < t.len() && q <= t.len() {
        lemma_digits_skip(s, k, q, 10);
    }
}

/// Both readings begin behind all of the whitespace at the front.
proof fn lemma_parsed(s: Seq<u8>)
    ensures
        parsed_int(s) == leading_int(s.skip(white_end(s, 0)), 0),
        0 <= white_end(s, 0) <= s.len(),
        parsed_float(s) == s.skip(white_end(s, 0)).take(float_end(s.skip(white_end(s, 0)), 0)),
        0 <= float_end(s.skip(white_end(s, 0)), 0) <= s.len() - white_end(s, 0),
{
    lemma_bounds(s, 0);
    let a = ascii_space_end(s, 0);
    let t = s.skip(a);
    lemma_bounds(t, 0);
    let w = white_end(t, 0);
    assert(a + w == white_end(s, 0)) by {
        lemma_white_skip(s, a, 0);
    }
    assert(t.skip(w) =~= s.skip(a + w));
    assert(parsed_int(s) == leading_int(t.skip(w), 0)) by {
        lemma_leading_skip(t, w);
    }
    lemma_float_part(t, w);
}

proof fn lemma_float_part(t: Seq<u8>, w: int)
    requires
        0 <= w <= t.len(),
    ensures
        t.subrange(w, float_end(t, w)) == t.skip(w).take(float_end(t.skip(w), 0)),
        0 <= float_end(t.skip(w), 0) <= t.len() - w,
{
    lemma_float_skip(t, w);
    let n = float_end(t.skip(w), 0);
    assert(t.subrange(w, w + n) =~= t.skip(w).take(n));
}

/// Text that begins with an ASCII character that is no whitespace is read from its first byte on.
proof fn lemma_no_white(s: Seq<u8>)
    requires
        s.len() > 0,
        s[0] < 0x80,
        !is_white_point(s[0] as nat),
    ensures
        parsed_int(s) == leading_int(s, 0),
        parsed_float(s) == s.take(float_end(s, 0)),
        white_end(s, 0) == 0,
{
    assert(decode::accumulated(s, 0, 0) == decode::lead_bits(s[0]));
    assert(decode::sequence_at(s, 0) == Some((1nat, s[0] as nat)));
    assert(white_end(s, 0) == 0);
    lemma_parsed(s);
    assert(s.skip(0) =~= s);
}

/// One encoded character, with whatever behind it, decodes to itself.
pub proof fn lemma_encoded_char(c: char, s: Seq<u8>)
    ensures
        ({
            let encoded = vstd::utf8::encode_utf8(seq![c]);
            &&& encoded.len() > 0
            &&& decode::sequence_at(encoded + s, 0) == Some((encoded.len(), c as nat))
        }),
{
    let encoded = vstd::utf8::encode_utf8(seq![c]);
    let text = encoded + s;
    vstd::utf8::encode_utf8_valid_utf8(seq![c]);
    vstd::utf8::encode_utf8_decode_utf8(seq![c]);
    crate::utf8::law_rust_decodable_is_valid_utf8(encoded);
    let points = decode::code_points(encoded);
    assert(seq![c].map_values(|c: char| c as nat) =~= seq![c as nat]);
    assert(points == seq![c as nat]);
    let (len, value) = decode::sequence_at(encoded, 0)->0;
    decode::lemma_sequence_bounds(encoded, 0);
    assert(points[0] == value);
    let rest = decode::code_points_from(encoded, len as int);
    assert(points.len() == 1 + rest.len());
    assert(len == encoded.len()) by {
        if len < encoded.len() {
            assert(decode::decodable_from(encoded, 0));
            assert(decode::decodable_from(encoded, len as int));
            assert(decode::sequence_at(encoded, len as int) is Some);
            assert(rest.len() > 0);
        }
    }
    decode::lemma_sequence_local(encoded, text, 0, 0);
}

/// Whitespace at the front changes nothing, one character of it after the other: the ASCII controls from tab to
/// carriage return, the space, and the spaces of Unicode.
pub proof fn law_leading_whitespace_is_skipped(c: char, s: Seq<u8>)
    requires
        ({
            let v = c as nat;
            ||| 0x09 <= v <= 0x0D || v == 0x20 || v == 0x85 || v == 0xA0
            ||| v == 0x1680 || 0x2000 <= v <= 0x200A || v == 0x2028 || v == 0x2029 || v == 0x202F || v == 0x205F
            ||| v == 0x3000
        }),
    ensures
        parsed_int(vstd::utf8::encode_utf8(seq![c]) + s) == parsed_int(s),
        parsed_float(vstd::utf8::encode_utf8(seq![c]) + s) == parsed_float(s),
{
    let encoded = vstd::utf8::encode_utf8(seq![c]);
    let text = encoded + s;
    let n = encoded.len() as int;
    lemma_encoded_char(c, s);
    lemma_parsed(text);
    lemma_parsed(s);
    lemma_white_skip(text, n, 0);
    assert(text.skip(n) =~= s);
    let w = white_end(s, 0);
    assert(white_end(text, 0) == n + w);
    assert(text.skip(n + w) =~= s.skip(w));
}

/// Text without a number at its front reads as zero, and no float begins it: behind an optional sign there is no digit.
pub proof fn law_text_without_a_number_reads_as_zero(c: char, signed: bool, sign: u8, s: Seq<u8>)
    requires
        sign == 0x2B || sign == 0x2D,
        ({
            let v = c as nat;
            &&& !(0x30 <= v <= 0x39)
            &&& !signed ==> v != 0x2B && v != 0x2D && !(0x09 <= v <= 0x0D) && v != 0x20 && v != 0x85 && v != 0xA0 && v
                != 0x1680 && !(0x2000 <= v <= 0x200A) && v != 0x2028 && v != 0x2029 && v != 0x202F && v != 0x205F && v
                != 0x3000
        }),
    ensures
        ({
            let text = if signed {
                seq![sign] + (vstd::utf8::encode_utf8(seq![c]) + s)
            } else {
                vstd::utf8::encode_utf8(seq![c]) + s
            };
            &&& parsed_int(text) == 0
            &&& c != '.' || s.len() == 0 || !(0x30 <= s[0] <= 0x39) ==> parsed_float(text).len() == 0
        }),
{
    let encoded = vstd::utf8::encode_utf8(seq![c]);
    let tail = encoded + s;
    let text = if signed {
        seq![sign] + tail
    } else {
        tail
    };
    lemma_encoded_char(c, s);
    lemma_parsed(text);
    let p: int = if signed { 1 } else { 0 };
    assert(text[p] == tail[0]);
    lemma_first_byte(tail, c);
    if signed {
        assert(decode::accumulated(text, 0, 0) == decode::lead_bits(text[0]));
        assert(decode::sequence_at(text, 0) == Some((1nat, sign as nat)));
    }
    assert(white_end(text, 0) == 0);
    assert(text.skip(0) =~= text);
    assert(unsigned_start(text, 0) == p);
    assert(digit_value(text[p], 10) is None);
    assert(digits_end(text, p, 10) == p);
    if c == '.' {
        assert(text[p] == 0x2E);
        assert(encoded.len() == 1) by {
            decode::lemma_sequence_bounds(tail, 0);
        }
        assert(s.len() > 0 ==> text[p + 1] == s[0]);
    }
}

/// The first byte of a character: the character itself where it is ASCII, and otherwise no ASCII byte.
pub proof fn lemma_first_byte(s: Seq<u8>, c: char)
    requires
        s.len() > 0,
        decode::sequence_at(s, 0) is Some,
        (decode::sequence_at(s, 0)->0).1 == c as nat,
    ensures
        s[0] < 0x80 ==> s[0] as nat == c as nat,
        c as nat <= 0x7F ==> s[0] as nat == c as nat,
{
    decode::lemma_sequence_bounds(s, 0);
    assert(decode::accumulated(s, 0, 0) == decode::lead_bits(s[0]));
}

/// The byte of a digit, its letters in either case.
pub open spec fn digit_byte(d: nat, upper: bool) -> u8 {
    if d < 10 {
        (0x30 + d) as u8
    } else if upper {
        (0x37 + d) as u8
    } else {
        (0x57 + d) as u8
    }
}

/// A number written out in a radix, without leading zeros.
pub open spec fn written(v: nat, radix: nat, upper: bool) -> Seq<u8>
    decreases v,
{
    if radix < 2 || v < radix {
        seq![digit_byte(v, upper)]
    } else {
        proof {
            vstd::arithmetic::div_mod::lemma_div_decreases(v as int, radix as int);
        }
        written(v / radix, radix, upper).push(digit_byte(v % radix, upper))
    }
}

proof fn lemma_written(v: nat, radix: nat, upper: bool)
    requires
        2 <= radix <= 16,
    ensures
        written(v, radix, upper).len() >= 1,
        v > 0 ==> written(v, radix, upper)[0] != 0x30,
        v == 0 ==> written(v, radix, upper) == seq![0x30u8],
        forall|i: int|
            0 <= i < written(v, radix, upper).len() ==> digit_value(#[trigger] written(v, radix, upper)[i], radix) is Some,
        digits_number(written(v, radix, upper), 0, written(v, radix, upper).len() as int, radix) == v,
    decreases v,
{
    let text = written(v, radix, upper);
    let n = text.len() as int;
    if v < radix {
        assert(digits_number(text, 0, 0, radix) == 0);
        assert(digits_number(text, 0, 1, radix) == 0 * radix + digit_value(text[0], radix)->0);
        assert(text =~= seq![digit_byte(v, upper)]);
    } else {
        vstd::arithmetic::div_mod::lemma_fundamental_div_mod(v as int, radix as int);
        vstd::arithmetic::div_mod::lemma_div_non_zero(v as int, radix as int);
        vstd::arithmetic::div_mod::lemma_div_decreases(v as int, radix as int);
        vstd::arithmetic::div_mod::lemma_mod_bound(v as int, radix as int);
        let high = written(v / radix, radix, upper);
        lemma_written(v / radix, radix, upper);
        lemma_number_local(high, text, 0, n - 1, 0, radix);
        assert(digit_value(text[n - 1], radix) == Some(v % radix));
        assert(digits_number(text, 0, n, radix) == (v / radix) * radix + v % radix);
        assert((v / radix) * radix == radix * (v / radix)) by (nonlinear_arith);
        assert forall|i: int| 0 <= i < n implies digit_value(#[trigger] text[i], radix) is Some by {
            if i < n - 1 {
                assert(digit_value(high[i], radix) is Some);
            }
        }
    }
}

/// The zeros at the front add nothing.
proof fn lemma_leading_zeros(s: Seq<u8>, zeros: int, to: int, radix: nat)
    requires
        0 <= zeros <= to,
        radix >= 1,
        forall|i: int| 0 <= i < zeros ==> #[trigger] s[i] == 0x30,
    ensures
        digits_number(s, 0, to, radix) == digits_number(s, zeros, to, radix),
    decreases to,
{
    if to > zeros {
        lemma_leading_zeros(s, zeros, to - 1, radix);
    } else if to > 0 {
        lemma_leading_zeros(s, zeros - 1, to - 1, radix);
        assert(s[to - 1] == 0x30);
        assert(digit_value(s[to - 1], radix) == Some(0nat));
        assert(0 * radix == 0) by (nonlinear_arith);
    }
}

proof fn lemma_digits_run(s: Seq<u8>, i: int, j: int, radix: nat)
    requires
        0 <= i <= j <= s.len(),
        forall|k: int| i <= k < j ==> digit_value(#[trigger] s[k], radix) is Some,
        j < s.len() ==> digit_value(s[j], radix) is None,
    ensures
        digits_end(s, i, radix) == j,
    decreases j - i,
{
    if i < j {
        lemma_digits_run(s, i + 1, j, radix);
    }
}

/// The mark that announces a radix behind a zero.
pub open spec fn radix_mark(radix: nat, upper: bool) -> Seq<u8> {
    if radix == 16 {
        seq![0x30u8, if upper { 0x58u8 } else { 0x78u8 }]
    } else if radix == 2 {
        seq![0x30u8, if upper { 0x42u8 } else { 0x62u8 }]
    } else {
        seq![]
    }
}

/// A number reads as itself: written in decimal, or in hexadecimal or binary behind its mark, with leading zeros or none
/// and under either sign, whatever text follows the digits.  A magnitude beyond the range reads as zero.
#[verifier::rlimit(60)]
pub proof fn law_written_numbers_read_back(
    v: nat,
    radix: nat,
    upper: bool,
    marked_upper: bool,
    zeros: nat,
    sign: Seq<u8>,
    rest: Seq<u8>,
)
    requires
        radix == 10 || radix == 16 || radix == 2,
        sign == Seq::<u8>::empty() || sign == seq![0x2Bu8] || sign == seq![0x2Du8],
        rest.len() > 0 ==> {
            let b = rest[0];
            &&& !(0x30 <= b <= 0x39)
            &&& radix == 16 ==> !(0x41 <= b <= 0x46 || 0x61 <= b <= 0x66)
            &&& radix == 10 && v == 0 && zeros == 0 ==> b != 0x78 && b != 0x58 && b != 0x62 && b != 0x42
        },
    ensures
        ({
            let digits = Seq::new(zeros, |i: int| 0x30u8) + written(v, radix, upper);
            let text = sign + radix_mark(radix, marked_upper) + digits + rest;
            let negative = sign == seq![0x2Du8];
            parsed_int(text) == if negative && radix == 10 {
                if v <= 0x8000_0000_0000_0000 { -v } else { 0 }
            } else if v > 0x7FFF_FFFF_FFFF_FFFF {
                0
            } else if negative {
                -v
            } else {
                v as int
            }
        }),
{
    let number = written(v, radix, upper);
    let digits = Seq::new(zeros, |i: int| 0x30u8) + number;
    let mark = radix_mark(radix, marked_upper);
    let text = sign + mark + digits + rest;
    let p = sign.len() as int;
    let q = p + mark.len();
    let end = q + digits.len();
    lemma_padded(v, radix, upper, zeros);
    assert(seq![0x2Bu8][0] == 0x2B && seq![0x2Du8][0] == 0x2D);
    assert(p == 1 ==> text[0] == sign[0]);
    assert(mark.len() == 2 ==> text[p] == mark[0] && text[p + 1] == mark[1]);
    assert forall|k: int| 0 <= k < digits.len() implies #[trigger] text[q + k] == digits[k] by {}
    assert forall|k: int| q <= k < end implies text[k] == #[trigger] digits[k - q] by {
        assert(text[q + (k - q)] == digits[k - q]);
    }
    assert(digit_value(digits[0], radix) is Some);
    assert(text[q + 0] == digits[0]);
    if digits.len() > 1 {
        assert(digit_value(digits[1], radix) is Some);
        assert(text[q + 1] == digits[1]);
    }
    if rest.len() > 0 {
        assert(text[end] == rest[0]);
    }
    if digits.len() == 1 {
        assert(zeros == 0);
        assert(digits =~= number);
    }
    lemma_reads(text, p, radix, digits, q, v);
}

proof fn lemma_padded(v: nat, radix: nat, upper: bool, zeros: nat)
    requires
        2 <= radix <= 16,
    ensures
        ({
            let digits = Seq::new(zeros, |i: int| 0x30u8) + written(v, radix, upper);
            &&& digits.len() > zeros
            &&& forall|k: int| 0 <= k < digits.len() ==> digit_value(#[trigger] digits[k], radix) is Some
            &&& digits_number(digits, 0, digits.len() as int, radix) == v
            &&& zeros == 0 && v > 0 ==> digits[0] != 0x30
        }),
{
    let number = written(v, radix, upper);
    let digits = Seq::new(zeros, |i: int| 0x30u8) + number;
    lemma_written(v, radix, upper);
    assert forall|k: int| 0 <= k < digits.len() implies digit_value(#[trigger] digits[k], radix) is Some by {
        if k >= zeros {
            assert(digits[k] == number[k - zeros]);
        } else {
            assert(digit_value(0x30u8, radix) == Some(0nat));
        }
    }
    lemma_leading_zeros(digits, zeros as int, digits.len() as int, radix);
    lemma_number_local(number, digits, 0, number.len() as int, zeros as int, radix);
    assert(zeros == 0 ==> digits[0] == number[0]);
}

/// The reading of text that has its sign before `p`, its mark before `q` and `digits` from there on.
proof fn lemma_reads(text: Seq<u8>, p: int, radix: nat, digits: Seq<u8>, q: int, v: nat)
    requires
        radix == 10 || radix == 16 || radix == 2,
        p == 0 || (p == 1 && (text[0] == 0x2B || text[0] == 0x2D)),
        q == if radix == 10 { p } else { p + 2 },
        q + digits.len() <= text.len(),
        digits.len() > 0,
        radix != 10 ==> text[p] == 0x30,
        radix == 16 ==> text[p + 1] == 0x78 || text[p + 1] == 0x58,
        radix == 2 ==> text[p + 1] == 0x62 || text[p + 1] == 0x42,
        radix == 10 && text[p] == 0x30 && p + 1 < text.len() ==> text[p + 1] != 0x78 && text[p + 1] != 0x58 && text[p
            + 1] != 0x62 && text[p + 1] != 0x42,
        forall|k: int| 0 <= k < digits.len() ==> digit_value(#[trigger] digits[k], radix) is Some,
        forall|k: int| 0 <= k < digits.len() ==> #[trigger] text[q + k] == digits[k],
        q + digits.len() < text.len() ==> digit_value(text[q + digits.len()], radix) is None,
        digits_number(digits, 0, digits.len() as int, radix) == v,
    ensures
        parsed_int(text) == if p == 1 && text[0] == 0x2D && radix == 10 {
            if v <= 0x8000_0000_0000_0000 { -v } else { 0 }
        } else if v > 0x7FFF_FFFF_FFFF_FFFF {
            0
        } else if p == 1 && text[0] == 0x2D {
            -v
        } else {
            v as int
        },
{
    let end = q + digits.len();
    assert forall|k: int| q <= k < end implies digit_value(#[trigger] text[k], radix) is Some by {
        assert(text[q + (k - q)] == digits[k - q]);
    }
    lemma_digits_run(text, q, end, radix);
    assert forall|i: int| 0 <= i < digits.len() implies digit_value(#[trigger] digits[i], radix) == digit_value(
        text[i + q],
        radix,
    ) by {
        assert(text[q + i] == digits[i]);
    }
    lemma_number_local(digits, text, 0, digits.len() as int, q, radix);
    assert(text[q + 0] == digits[0]);
    assert(digit_value(digits[0], radix) is Some);
    assert(text[0] < 0x80 && !is_white_point(text[0] as nat));
    assert(unsigned_start(text, 0) == p);
    assert(announced_radix(text, p) == radix);
    lemma_no_white(text);
}

/// The case of hexadecimal letters does not matter.
pub proof fn law_hexadecimal_case_does_not_matter(sign: Seq<u8>, a: Seq<u8>, b: Seq<u8>)
    requires
        sign == Seq::<u8>::empty() || sign == seq![0x2Bu8] || sign == seq![0x2Du8],
        a.len() == b.len(),
        forall|i: int|
            0 <= i < a.len() ==> (#[trigger] a[i] == b[i] || (0x41 <= a[i] <= 0x46 && b[i] == a[i] + 0x20) || (0x61
                <= a[i] <= 0x66 && b[i] == a[i] - 0x20)),
    ensures
        parsed_int(sign + seq![0x30u8, 0x78u8] + a) == parsed_int(sign + seq![0x30u8, 0x58u8] + b),
{
    let s = sign + seq![0x30u8, 0x78u8] + a;
    let t = sign + seq![0x30u8, 0x58u8] + b;
    let p = sign.len() as int;
    assert(s[0] == t[0]);
    assert(s[0] == 0x2B || s[0] == 0x2D || s[0] == 0x30);
    assert(s[p] == 0x30 && t[p] == 0x30 && s[p + 1] == 0x78 && t[p + 1] == 0x58);
    lemma_no_white(s);
    lemma_no_white(t);
    assert(unsigned_start(s, 0) == p && unsigned_start(t, 0) == p);
    assert forall|i: int| p + 2 <= i < s.len() implies digit_value(#[trigger] s[i], 16) == digit_value(t[i], 16) by {
        assert(s[i] == a[i - p - 2] && t[i] == b[i - p - 2]);
    }
    lemma_same_digits(s, t, p + 2);
    lemma_number_local(s, t, p + 2, digits_end(s, p + 2, 16), 0, 16);
}

proof fn lemma_same_digits(s: Seq<u8>, t: Seq<u8>, i: int)
    requires
        0 <= i <= s.len(),
        s.len() == t.len(),
        forall|k: int| i <= k < s.len() ==> digit_value(#[trigger] s[k], 16) == digit_value(t[k], 16),
    ensures
        digits_end(s, i, 16) == digits_end(t, i, 16),
        i <= digits_end(s, i, 16) <= s.len(),
    decreases s.len() - i,
{
    if i < s.len() {
        lemma_same_digits(s, t, i + 1);
    }
}

/// The float at the front is taken whole and nothing behind it: an optional sign, digits with an optional point among or
/// before them, and an optional exponent with an optional sign of its own and at least one digit.
#[verifier::rlimit(60)]
pub proof fn law_longest_float_is_taken(
    sign: Seq<u8>,
    whole: Seq<u8>,
    pointed: bool,
    fraction: Seq<u8>,
    raised: bool,
    mark: u8,
    raised_sign: Seq<u8>,
    exponent: Seq<u8>,
    rest: Seq<u8>,
)
    requires
        sign == Seq::<u8>::empty() || sign == seq![0x2Bu8] || sign == seq![0x2Du8],
        raised_sign == Seq::<u8>::empty() || raised_sign == seq![0x2Bu8] || raised_sign == seq![0x2Du8],
        mark == 0x65 || mark == 0x45,
        forall|i: int| 0 <= i < whole.len() ==> 0x30 <= #[trigger] whole[i] <= 0x39,
        forall|i: int| 0 <= i < fraction.len() ==> 0x30 <= #[trigger] fraction[i] <= 0x39,
        forall|i: int| 0 <= i < exponent.len() ==> 0x30 <= #[trigger] exponent[i] <= 0x39,
        whole.len() > 0 || (pointed && fraction.len() > 0),
        raised ==> exponent.len() > 0,
        rest.len() > 0 ==> !(0x30 <= rest[0] <= 0x39),
        rest.len() > 0 && !raised ==> rest[0] != 0x65 && rest[0] != 0x45,
        rest.len() > 0 && !raised && !pointed ==> rest[0] != 0x2E,
    ensures
        ({
            let decimal = if pointed {
                seq![0x2Eu8] + fraction
            } else {
                Seq::empty()
            };
            let power = if raised {
                seq![mark] + raised_sign + exponent
            } else {
                Seq::empty()
            };
            let float = sign + whole + decimal + power;
            parsed_float(float + rest) == float
        }),
{
    let decimal = if pointed {
        seq![0x2Eu8] + fraction
    } else {
        Seq::empty()
    };
    let power = if raised {
        seq![mark] + raised_sign + exponent
    } else {
        Seq::empty()
    };
    let float = sign + whole + decimal + power;
    let text = float + rest;
    let p = sign.len() as int;
    let a = p + whole.len();
    let m = a + decimal.len();
    let end = m + power.len();
    assert(p <= 1 && raised_sign.len() <= 1);
    assert(p == 1 ==> text[0] == sign[0]);
    assert forall|k: int| p <= k < a implies digit_value(#[trigger] text[k], 10) is Some by {
        assert(text[k] == whole[k - p]);
    }
    if pointed {
        assert(text[a] == 0x2E);
    } else if raised {
        assert(text[a] == mark);
    } else if rest.len() > 0 {
        assert(text[a] == rest[0]);
    }
    lemma_digits_run(text, p, a, 10);
    assert(unsigned_start(text, 0) == p) by {
        if p == 0 {
            if whole.len() > 0 {
                assert(text[0] == whole[0]);
            }
        } else {
            assert(seq![0x2Bu8][0] == 0x2B && seq![0x2Du8][0] == 0x2D);
        }
    }
    if pointed {
        assert forall|k: int| a + 1 <= k < m implies digit_value(#[trigger] text[k], 10) is Some by {
            assert(text[k] == fraction[k - a - 1]);
        }
        if raised {
            assert(text[m] == mark);
        } else if rest.len() > 0 {
            assert(text[m] == rest[0]);
        }
        lemma_digits_run(text, a + 1, m, 10);
    }
    assert(mantissa_end(text, 0) == m);
    assert(float_begins(text, 0)) by {
        if whole.len() > 0 {
            assert(text[p] == whole[0]);
        } else {
            assert(text[p] == 0x2E && text[p + 1] == fraction[0]);
        }
    }
    if raised {
        let x = m + 1 + raised_sign.len();
        assert(text[m] == mark);
        if raised_sign.len() == 1 {
            assert(text[m + 1] == raised_sign[0]);
            assert(seq![0x2Bu8][0] == 0x2B && seq![0x2Du8][0] == 0x2D);
        } else {
            assert(text[m + 1] == exponent[0]);
        }
        assert(unsigned_start(text, m + 1) == x);
        assert forall|k: int| x <= k < end implies digit_value(#[trigger] text[k], 10) is Some by {
            assert(text[k] == exponent[k - x]);
        }
        if rest.len() > 0 {
            assert(text[end] == rest[0]);
        }
        lemma_digits_run(text, x, end, 10);
    } else if rest.len() > 0 {
        assert(text[m] == rest[0]);
    }
    assert(float_end(text, 0) == end);
    assert(text[0] < 0x80 && !is_white_point(text[0] as nat)) by {
        if p == 0 {
            if whole.len() > 0 {
                assert(text[0] == whole[0]);
            } else {
                assert(text[0] == 0x2E);
            }
        }
    }
    lemma_no_white(text);
    assert(text.take(end) =~= float);
}

/// An `e` without a digit behind it, or behind its sign, is no exponent and is left behind with what follows it.
pub proof fn law_bare_exponent_mark_is_left_behind(sign: Seq<u8>, whole: Seq<u8>, mark: u8, rest: Seq<u8>)
    requires
        sign == Seq::<u8>::empty() || sign == seq![0x2Bu8] || sign == seq![0x2Du8],
        mark == 0x65 || mark == 0x45,
        whole.len() > 0,
        forall|i: int| 0 <= i < whole.len() ==> 0x30 <= #[trigger] whole[i] <= 0x39,
        rest.len() > 0 ==> !(0x30 <= rest[0] <= 0x39),
        rest.len() > 1 && (rest[0] == 0x2B || rest[0] == 0x2D) ==> !(0x30 <= rest[1] <= 0x39),
    ensures
        parsed_float(sign + whole + (seq![mark] + rest)) == sign + whole,
{
    let text = sign + whole + (seq![mark] + rest);
    let p = sign.len() as int;
    let a = p + whole.len();
    assert(p == 1 ==> text[0] == sign[0]);
    assert(seq![0x2Bu8][0] == 0x2B && seq![0x2Du8][0] == 0x2D);
    assert(text[p] == whole[0]);
    assert(text[a] == mark);
    assert forall|k: int| p <= k < a implies digit_value(#[trigger] text[k], 10) is Some by {
        assert(text[k] == whole[k - p]);
    }
    lemma_digits_run(text, p, a, 10);
    assert(rest.len() > 0 ==> text[a + 1] == rest[0]);
    assert(rest.len() > 1 ==> text[a + 2] == rest[1]);
    assert(float_end(text, 0) == a);
    lemma_no_white(text);
    assert(text.take(a) =~= sign + whole);
}

/// The ASCII whitespace that is trimmed: all of it at the front, and nothing else.
pub proof fn law_trimming_takes_ascii_whitespace(s: Seq<u8>)
    ensures
        ({
            let n = ascii_space_end(s, 0);
            &&& 0 <= n <= s.len()
            &&& forall|i: int|
                0 <= i < n ==> (#[trigger] s[i] == 0x09 || s[i] == 0x0A || s[i] == 0x0C || s[i] == 0x0D || s[i] == 0x20)
            &&& n < s.len() ==> s[n] != 0x09 && s[n] != 0x0A && s[n] != 0x0C && s[n] != 0x0D && s[n] != 0x20
        }),
{
    lemma_trimmed_front(s, 0);
}

proof fn lemma_trimmed_front(s: Seq<u8>, at: int)
    requires
        0 <= at <= s.len(),
    ensures
        at <= ascii_space_end(s, at) <= s.len(),
        forall|i: int| at <= i < ascii_space_end(s, at) ==> is_ascii_space(#[trigger] s[i]),
        ascii_space_end(s, at) < s.len() ==> !is_ascii_space(s[ascii_space_end(s, at)]),
    decreases s.len() - at,
{
    if at < s.len() && is_ascii_space(s[at]) {
        lemma_trimmed_front(s, at + 1);
    }
}

/// Bytes that begin no sequence are no number, and neither is a radix mark without a digit of the radix behind it.
pub proof fn law_stray_bytes_and_bare_marks_read_as_zero(s: Seq<u8>, sign: Seq<u8>, radix: nat, upper: bool, rest: Seq<u8>)
    requires
        s.len() > 0,
        decode::sequence_at(s, 0) is None,
        sign == Seq::<u8>::empty() || sign == seq![0x2Bu8] || sign == seq![0x2Du8],
        radix == 16 || radix == 2,
        rest.len() > 0 ==> {
            let b = rest[0];
            &&& radix == 2 ==> b != 0x30 && b != 0x31
            &&& radix == 16 ==> !(0x30 <= b <= 0x39 || 0x41 <= b <= 0x46 || 0x61 <= b <= 0x66)
        },
    ensures
        parsed_int(s) == 0,
        parsed_float(s).len() == 0,
        parsed_int(sign + radix_mark(radix, upper) + rest) == 0,
{
    lemma_parsed(s);
    assert(s[0] >= 0x80) by {
        if s[0] < 0x80 {
            assert(decode::accumulated(s, 0, 0) == decode::lead_bits(s[0]));
            assert(decode::sequence_at(s, 0) == Some((1nat, s[0] as nat)));
        }
    }
    assert(white_end(s, 0) == 0);
    assert(s.skip(0) =~= s);
    assert(digits_end(s, 0, 10) == 0);
    let mark = radix_mark(radix, upper);
    let text = sign + mark + rest;
    let p = sign.len() as int;
    assert(seq![0x2Bu8][0] == 0x2B && seq![0x2Du8][0] == 0x2D);
    assert(p == 1 ==> text[0] == sign[0]);
    assert(text[p] == mark[0] && text[p + 1] == mark[1]);
    assert(rest.len() > 0 ==> text[p + 2] == rest[0]);
    assert(digits_end(text, p + 2, radix) == p + 2);
    lemma_no_white(text);
}

/// Without an exponent behind it an `e` is left behind a decimal fraction too.
pub proof fn law_bare_exponent_mark_is_left_behind_a_fraction(sign: Seq<u8>, whole: Seq<u8>, fraction: Seq<u8>, mark: u8, rest: Seq<u8>)
    requires
        sign == Seq::<u8>::empty() || sign == seq![0x2Bu8] || sign == seq![0x2Du8],
        mark == 0x65 || mark == 0x45,
        whole.len() > 0 || fraction.len() > 0,
        forall|i: int| 0 <= i < whole.len() ==> 0x30 <= #[trigger] whole[i] <= 0x39,
        forall|i: int| 0 <= i < fraction.len() ==> 0x30 <= #[trigger] fraction[i] <= 0x39,
        rest.len() > 0 ==> !(0x30 <= rest[0] <= 0x39),
        rest.len() > 1 && (rest[0] == 0x2B || rest[0] == 0x2D) ==> !(0x30 <= rest[1] <= 0x39),
    ensures
        parsed_float(sign + whole + seq![0x2Eu8] + fraction + (seq![mark] + rest)) == sign + whole + seq![0x2Eu8]
            + fraction,
{
    let float = sign + whole + seq![0x2Eu8] + fraction;
    let text = float + (seq![mark] + rest);
    let p = sign.len() as int;
    let a = p + whole.len();
    let m = a + 1 + fraction.len();
    assert(p == 1 ==> text[0] == sign[0]);
    assert(seq![0x2Bu8][0] == 0x2B && seq![0x2Du8][0] == 0x2D);
    assert(whole.len() > 0 ==> text[p] == whole[0]);
    assert(text[a] == 0x2E && text[m] == mark);
    assert(fraction.len() > 0 ==> text[a + 1] == fraction[0]);
    assert forall|k: int| p <= k < a implies digit_value(#[trigger] text[k], 10) is Some by {
        assert(text[k] == whole[k - p]);
    }
    assert forall|k: int| a + 1 <= k < m implies digit_value(#[trigger] text[k], 10) is Some by {
        assert(text[k] == fraction[k - a - 1]);
    }
    lemma_digits_run(text, p, a, 10);
    lemma_digits_run(text, a + 1, m, 10);
    assert(rest.len() > 0 ==> text[m + 1] == rest[0]);
    assert(rest.len() > 1 ==> text[m + 2] == rest[1]);
    assert(unsigned_start(text, 0) == p);
    assert(float_end(text, 0) == m);
    lemma_no_white(text);
    assert(text.take(m) =~= float);
}

} // verus!
