//! The lossless rendering of a string's content, for diagnostics.
//!
//! The `b"…"` form appears only for an unflagged string with a high byte; other content renders as `"…"`.  Printables
//! stand for themselves, backslash and quote escape themselves, and the rest takes a short form or an escape: two
//! digits for a seven-bit character and for a byte the decoder rejects, four or more for any other code point.
use crate::decode;
use crate::decode::decode_one;
use crate::encoding_order;
use crate::numeric_text;
use crate::string::PString;
use crate::text;
use crate::text::push_numeral;
use vstd::prelude::*;
use vstd::string::*;

verus! {

/// The letter behind the backslash of a short escape.
pub open spec fn short_escape(value: nat) -> Option<char> {
    if value == 0x22 {
        Some('"')
    } else if value == 0x5C {
        Some('\\')
    } else if value == 0x0A {
        Some('n')
    } else if value == 0x0D {
        Some('r')
    } else if value == 0x09 {
        Some('t')
    } else {
        None
    }
}

/// A braced escape: the number in at least `width` digits.
pub open spec fn braced(value: nat, width: nat) -> Seq<char> {
    seq!['\\', 'x', '{'] + text::zero_padded(text::numeral(value), width) + seq!['}']
}

/// The control characters: category Cc.
pub open spec fn is_control(value: nat) -> bool {
    value < 0x20 || 0x7F <= value <= 0x9F
}

/// How one byte of an unflagged string is spelled.
pub open spec fn byte_piece(byte: u8) -> Seq<char> {
    match short_escape(byte as nat) {
        Some(letter) => seq!['\\', letter],
        None => if 0x20 <= byte <= 0x7E {
            seq![byte as char]
        } else {
            braced(byte as nat, 2)
        },
    }
}

/// How one code point of a flagged string is spelled.
pub open spec fn point_piece(value: nat) -> Seq<char> {
    match short_escape(value) {
        Some(letter) => seq!['\\', letter],
        None => if decode::is_scalar_value(value) && !is_control(value) {
            seq![value as char]
        } else if value < 0x80 {
            braced(value, 2)
        } else {
            braced(value, 4)
        },
    }
}

/// The spelling of unflagged bytes from `at` on.
pub open spec fn bytes_spelled(s: Seq<u8>, at: int) -> Seq<char>
    decreases s.len() - at,
{
    if 0 <= at < s.len() {
        byte_piece(s[at]) + bytes_spelled(s, at + 1)
    } else {
        seq![]
    }
}

/// The piece of flagged bytes at `at`: a code point's, or that of a byte that the decoder rejects.
pub open spec fn piece_at(s: Seq<u8>, at: int) -> Seq<char> {
    match decode::sequence_at(s, at) {
        Some((_, value)) => point_piece(value),
        None => braced(s[at] as nat, 2),
    }
}

/// Where the piece at `at` ends.
pub open spec fn piece_end(s: Seq<u8>, at: int) -> int {
    match decode::sequence_at(s, at) {
        Some((len, _)) => at + len,
        None => at + 1,
    }
}

/// The spelling of flagged bytes from `at` on.
pub open spec fn points_spelled(s: Seq<u8>, at: int) -> Seq<char>
    decreases s.len() - at,
{
    if 0 <= at < s.len() {
        piece_at(s, at) + points_spelled(s, piece_end(s, at))
    } else {
        seq![]
    }
}

/// The whole rendering.
pub open spec fn content_text(flagged: bool, s: Seq<u8>) -> Seq<char> {
    if flagged {
        seq!['"'] + points_spelled(s, 0) + seq!['"']
    } else if decode::all_ascii(s) {
        seq!['"'] + bytes_spelled(s, 0) + seq!['"']
    } else {
        seq!['b', '"'] + bytes_spelled(s, 0) + seq!['"']
    }
}

/// A piece by its shape alone: a character, a backslash and a letter, or a braced escape.
spec fn is_piece(p: Seq<char>) -> bool {
    ||| p.len() == 1 && p[0] != '\\' && p[0] != '"'
    ||| p.len() == 2 && p[0] == '\\' && p[1] != 'x'
    ||| {
        &&& p.len() >= 4
        &&& p[0] == '\\'
        &&& p[1] == 'x'
        &&& p[p.len() - 1] == '}'
        &&& forall|i: int| 3 <= i < p.len() - 1 ==> #[trigger] p[i] != '}'
    }
}

proof fn lemma_braced(value: nat, width: nat)
    ensures
        is_piece(braced(value, width)),
        braced(value, width).len() >= 4 + width,
        value < 0x100 && width == 2 ==> braced(value, width).len() == 6,
        braced(value, width).subrange(3, braced(value, width).len() - 1) == text::zero_padded(
            text::numeral(value),
            width,
        ),
        text::numeral_value(braced(value, width).subrange(3, braced(value, width).len() - 1)) == value,
{
    text::lemma_padded_numeral(value, width);
    let digits = text::zero_padded(text::numeral(value), width);
    let p = braced(value, width);
    assert forall|i: int| 3 <= i < p.len() - 1 implies #[trigger] p[i] != '}' by {
        assert(p[i] == digits[i - 3]);
        assert(text::is_digit(digits[i - 3]));
    }
    assert(p.subrange(3, p.len() - 1) =~= digits);
}

proof fn lemma_point_piece(value: nat)
    ensures
        is_piece(point_piece(value)),
{
    lemma_braced(value, 2);
    lemma_braced(value, 4);
    if decode::is_scalar_value(value) {
        let c = value as char;
        assert(c as nat == value);
    }
}

proof fn lemma_byte_piece(byte: u8)
    ensures
        is_piece(byte_piece(byte)),
        byte < 0x80 ==> byte_piece(byte) == point_piece(byte as nat),
{
    lemma_braced(byte as nat, 2);
    lemma_point_piece(byte as nat);
}

/// No piece is the beginning of another.
proof fn lemma_piece_split(p: Seq<char>, q: Seq<char>, r: Seq<char>, t: Seq<char>)
    requires
        is_piece(p),
        is_piece(q),
        p + r == q + t,
    ensures
        p == q,
        r == t,
{
    let whole = p + r;
    assert(whole[0] == p[0] && whole[0] == q[0]);
    if p.len() >= 2 && q.len() >= 2 {
        assert(whole[1] == p[1] && whole[1] == q[1]);
    }
    if p.len() < q.len() {
        assert(whole[p.len() - 1] == p[p.len() - 1] && whole[p.len() - 1] == q[p.len() - 1]);
    } else if q.len() < p.len() {
        assert(whole[q.len() - 1] == p[q.len() - 1] && whole[q.len() - 1] == q[q.len() - 1]);
    }
    assert(p.len() == q.len());
    assert forall|i: int| 0 <= i < p.len() implies p[i] == q[i] by {
        assert(whole[i] == p[i] && whole[i] == q[i]);
    }
    assert(p =~= q);
    assert(whole.skip(p.len() as int) =~= r);
    assert((q + t).skip(p.len() as int) =~= t);
}

proof fn lemma_same_braced(v: nat, m: nat, w: nat, n: nat)
    requires
        braced(v, m) == braced(w, n),
    ensures
        v == w,
{
    lemma_braced(v, m);
    lemma_braced(w, n);
}

/// The spelling of a code point tells it.
proof fn lemma_same_point(v: nat, w: nat)
    requires
        point_piece(v) == point_piece(w),
    ensures
        v == w,
{
    lemma_braced(v, 2);
    lemma_braced(v, 4);
    lemma_braced(w, 2);
    lemma_braced(w, 4);
    let p = point_piece(v);
    let q = point_piece(w);
    if short_escape(v) is Some || short_escape(w) is Some {
        assert(p.len() == 2 && q.len() == 2);
        assert(p[1] == q[1]);
    } else if p.len() == 1 {
        assert(p[0] == q[0]);
        assert((v as char) as nat == v && (w as char) as nat == w);
    } else {
        assert(p.len() >= 4);
    }
}

/// The spelling of a code point is never that of a rejected byte.
proof fn lemma_point_is_no_byte(value: nat, byte: u8)
    requires
        byte >= 0x80,
    ensures
        point_piece(value) != braced(byte as nat, 2),
{
    lemma_braced(value, 2);
    lemma_braced(value, 4);
    lemma_braced(byte as nat, 2);
    let p = point_piece(value);
    if p.len() == 6 && p == braced(value, 2) && p == braced(byte as nat, 2) {
        lemma_same_braced(value, 2, byte as nat, 2);
    }
}

proof fn lemma_points_lossless(s: Seq<u8>, t: Seq<u8>, at: int)
    requires
        0 <= at <= s.len(),
        at <= t.len(),
        points_spelled(s, at) + seq!['"'] == points_spelled(t, at) + seq!['"'],
        s.take(at) == t.take(at),
    ensures
        s == t,
    decreases s.len() - at,
{
    let a = points_spelled(s, at) + seq!['"'];
    let b = points_spelled(t, at) + seq!['"'];
    if at < s.len() {
        lemma_piece_at(s, at);
    }
    if at < t.len() {
        lemma_piece_at(t, at);
    }
    if at == s.len() || at == t.len() {
        if at < t.len() {
            assert(a[0] == '"');
            assert(b[0] == piece_at(t, at)[0]);
            assert(piece_at(t, at)[0] != '"');
        }
        if at < s.len() {
            assert(b[0] == '"');
            assert(a[0] == piece_at(s, at)[0]);
            assert(piece_at(s, at)[0] != '"');
        }
        assert(s.take(at) =~= s && t.take(at) =~= t);
    } else {
        let p = piece_at(s, at);
        let q = piece_at(t, at);
        let r = points_spelled(s, piece_end(s, at)) + seq!['"'];
        let u = points_spelled(t, piece_end(t, at)) + seq!['"'];
        assert(a =~= p + r);
        assert(b =~= q + u);
        lemma_piece_split(p, q, r, u);
        if decode::sequence_at(s, at) is Some && decode::sequence_at(t, at) is Some {
            lemma_same_point((decode::sequence_at(s, at)->0).1, (decode::sequence_at(t, at)->0).1);
            encoding_order::lemma_sequence_order(s, t, at);
        } else if decode::sequence_at(s, at) is Some {
            lemma_point_is_no_byte((decode::sequence_at(s, at)->0).1, t[at]);
        } else if decode::sequence_at(t, at) is Some {
            lemma_point_is_no_byte((decode::sequence_at(t, at)->0).1, s[at]);
        } else {
            lemma_same_braced(s[at] as nat, 2, t[at] as nat, 2);
        }
        let end = piece_end(s, at);
        assert(end == piece_end(t, at));
        assert forall|k: int| 0 <= k < end implies s.take(end)[k] == t.take(end)[k] by {
            if k < at {
                assert(s.take(at)[k] == t.take(at)[k]);
            }
        }
        assert(s.take(end) =~= t.take(end));
        lemma_points_lossless(s, t, end);
    }
}

proof fn lemma_piece_at(s: Seq<u8>, at: int)
    requires
        0 <= at < s.len(),
    ensures
        is_piece(piece_at(s, at)),
        at < piece_end(s, at) <= s.len(),
        decode::sequence_at(s, at) is None ==> s[at] >= 0x80,
{
    if decode::sequence_at(s, at) is Some {
        decode::lemma_sequence_bounds(s, at);
        lemma_point_piece((decode::sequence_at(s, at)->0).1);
    } else {
        lemma_braced(s[at] as nat, 2);
        if s[at] < 0x80 {
            assert(decode::accumulated(s, at, 0) == decode::lead_bits(s[at]));
        }
    }
}

proof fn lemma_bytes_lossless(s: Seq<u8>, t: Seq<u8>, at: int)
    requires
        0 <= at <= s.len(),
        at <= t.len(),
        bytes_spelled(s, at) + seq!['"'] == bytes_spelled(t, at) + seq!['"'],
        s.take(at) == t.take(at),
    ensures
        s == t,
    decreases s.len() - at,
{
    let a = bytes_spelled(s, at) + seq!['"'];
    let b = bytes_spelled(t, at) + seq!['"'];
    if at < s.len() {
        lemma_byte_piece(s[at]);
    }
    if at < t.len() {
        lemma_byte_piece(t[at]);
    }
    if at == s.len() || at == t.len() {
        if at < t.len() {
            assert(a[0] == '"');
            assert(b[0] == byte_piece(t[at])[0]);
        }
        if at < s.len() {
            assert(b[0] == '"');
            assert(a[0] == byte_piece(s[at])[0]);
        }
        assert(s.take(at) =~= s && t.take(at) =~= t);
    } else {
        let r = bytes_spelled(s, at + 1) + seq!['"'];
        let u = bytes_spelled(t, at + 1) + seq!['"'];
        assert(a =~= byte_piece(s[at]) + r);
        assert(b =~= byte_piece(t[at]) + u);
        lemma_piece_split(byte_piece(s[at]), byte_piece(t[at]), r, u);
        lemma_same_byte(s[at], t[at]);
        assert(s.take(at + 1) =~= s.take(at).push(s[at]));
        assert(t.take(at + 1) =~= t.take(at).push(t[at]));
        lemma_bytes_lossless(s, t, at + 1);
    }
}

proof fn lemma_same_byte(b: u8, c: u8)
    requires
        byte_piece(b) == byte_piece(c),
    ensures
        b == c,
{
    lemma_byte_piece(b);
    lemma_byte_piece(c);
    if b < 0x80 && c < 0x80 {
        lemma_same_point(b as nat, c as nat);
    } else if b >= 0x80 && c >= 0x80 {
        lemma_same_braced(b as nat, 2, c as nat, 2);
    } else if b < 0x80 {
        lemma_point_is_no_byte(b as nat, c);
    } else {
        lemma_point_is_no_byte(c as nat, b);
    }
}

proof fn lemma_ascii_spelled(s: Seq<u8>, at: int)
    requires
        0 <= at <= s.len(),
        decode::all_ascii(s),
    ensures
        bytes_spelled(s, at) == points_spelled(s, at),
    decreases s.len() - at,
{
    if at < s.len() {
        lemma_byte_piece(s[at]);
        assert(decode::accumulated(s, at, 0) == decode::lead_bits(s[at]));
        assert(decode::sequence_at(s, at) == Some((1nat, s[at] as nat)));
        lemma_ascii_spelled(s, at + 1);
    }
}

/// The rendering is lossless: strings that render alike have the same bytes, and the same flag unless the bytes are
/// ASCII, over which the flag says nothing.
pub proof fn law_content_rendering_is_lossless(f: bool, s: Seq<u8>, g: bool, t: Seq<u8>)
    ensures
        content_text(f, s) == content_text(g, t) <==> s == t && (f == g || decode::all_ascii(s)),
{
    if decode::all_ascii(s) {
        lemma_ascii_spelled(s, 0);
    }
    if decode::all_ascii(t) {
        lemma_ascii_spelled(t, 0);
    }
    if content_text(f, s) == content_text(g, t) {
        let a = content_text(f, s);
        let b = content_text(g, t);
        assert(a[0] == b[0]);
        let prefixed = !f && !decode::all_ascii(s);
        assert(prefixed == (!g && !decode::all_ascii(t)));
        assert(s.take(0) =~= t.take(0));
        if prefixed {
            assert(a.skip(2) =~= bytes_spelled(s, 0) + seq!['"']);
            assert(b.skip(2) =~= bytes_spelled(t, 0) + seq!['"']);
            lemma_bytes_lossless(s, t, 0);
        } else {
            assert(a.skip(1) =~= points_spelled(s, 0) + seq!['"']);
            assert(b.skip(1) =~= points_spelled(t, 0) + seq!['"']);
            lemma_points_lossless(s, t, 0);
        }
    }
}

fn push_short(out: &mut String, letter: char)
    ensures
        final(out)@ == old(out)@ + seq!['\\', letter],
{
    out.push('\\');
    out.push(letter);
    assert(out@ =~= old(out)@ + seq!['\\', letter]);
}

fn push_braced(out: &mut String, value: u64, width: usize)
    ensures
        final(out)@ == old(out)@ + braced(value as nat, width as nat),
{
    out.push('\\');
    out.push('x');
    out.push('{');
    push_numeral(out, value, width);
    out.push('}');
    assert(out@ =~= old(out)@ + braced(value as nat, width as nat));
}

fn push_byte(out: &mut String, byte: u8)
    ensures
        final(out)@ == old(out)@ + byte_piece(byte),
{
    match byte {
        0x22 => push_short(out, '"'),
        0x5C => push_short(out, '\\'),
        0x0A => push_short(out, 'n'),
        0x0D => push_short(out, 'r'),
        0x09 => push_short(out, 't'),
        _ => {
            if 0x20 <= byte && byte <= 0x7E {
                out.push(byte as char);
                assert(out@ =~= old(out)@ + seq![byte as char]);
            } else {
                push_braced(out, byte as u64, 2);
            }
        },
    }
}

fn push_point(out: &mut String, value: u64)
    ensures
        final(out)@ == old(out)@ + point_piece(value as nat),
{
    match value {
        0x22 => push_short(out, '"'),
        0x5C => push_short(out, '\\'),
        0x0A => push_short(out, 'n'),
        0x0D => push_short(out, 'r'),
        0x09 => push_short(out, 't'),
        _ => {
            let control: bool = value < 0x20 || (0x7F <= value && value <= 0x9F);
            let shown: Option<char> = if value <= 0x10_FFFF && !control {
                char::from_u32(value as u32)
            } else {
                None
            };
            match shown {
                Some(c) => {
                    out.push(c);
                    assert(out@ =~= old(out)@ + seq![c]);
                },
                None => if value < 0x80 {
                    push_braced(out, value, 2)
                } else {
                    push_braced(out, value, 4)
                },
            }
        },
    }
}

/// The pairs of lowercase digits that spell `bytes`, separated by spaces.
pub open spec fn hex_pairs(s: Seq<u8>) -> Seq<char>
    decreases s.len(),
{
    if s.len() == 0 {
        seq![]
    } else {
        let pair = text::zero_padded(text::numeral(s.last() as nat), 2);
        if s.len() == 1 {
            pair
        } else {
            hex_pairs(s.drop_last()) + seq![' '] + pair
        }
    }
}

/// Bytes in bare lowercase hex.
pub fn hex_pairs_text(bytes: &[u8]) -> (r: String)
    ensures
        r@ == hex_pairs(bytes@),
{
    let mut out = String::new();
    let mut i: usize = 0;
    assert(bytes@.take(0) =~= seq![]);
    while i < bytes.len()
        invariant
            i <= bytes@.len(),
            out@ == hex_pairs(bytes@.take(i as int)),
        decreases bytes@.len() - i,
    {
        if i > 0 {
            out.push(' ');
        }
        push_numeral(&mut out, bytes[i] as u64, 2);
        assert(bytes@.take(i + 1).drop_last() =~= bytes@.take(i as int));
        assert(out@ =~= hex_pairs(bytes@.take(i + 1)));
        i = i + 1;
    }
    assert(bytes@.take(bytes@.len() as int) =~= bytes@);
    out
}

impl PString {
    /// The content, rendered losslessly.
    pub fn content_debug(&self) -> (r: String)
        ensures
            r@ == content_text(self.flagged(), self.data()),
    {
        let mut out = String::new();
        let flagged: bool = self.is_utf8();
        let plain: bool = flagged || self.is_ascii();
        let mut scratch: [u8; 41] = [0u8; 41];
        let bytes = self.as_bytes(&mut scratch);
        let ghost s = bytes@;
        let mut i: usize = 0;
        if !plain {
            out.push('b');
        }
        out.push('"');
        let ghost head = out@;
        if flagged {
            assert(out@ =~= head + seq![]);
            while i < bytes.len()
                invariant
                    s == bytes@,
                    i <= bytes@.len(),
                    out@ + points_spelled(s, i as int) == head + points_spelled(s, 0),
                decreases bytes@.len() - i,
            {
                let ghost rest = points_spelled(s, piece_end(s, i as int));
                match decode_one(bytes, i) {
                    Some((len, value)) => {
                        push_point(&mut out, value);
                        i = i + len;
                    },
                    None => {
                        push_braced(&mut out, bytes[i] as u64, 2);
                        i = i + 1;
                    },
                }
                assert(out@ + rest =~= head + points_spelled(s, 0));
            }
        } else {
            while i < bytes.len()
                invariant
                    s == bytes@,
                    i <= bytes@.len(),
                    out@ + bytes_spelled(s, i as int) == head + bytes_spelled(s, 0),
                decreases bytes@.len() - i,
            {
                let ghost rest = bytes_spelled(s, i + 1);
                push_byte(&mut out, bytes[i]);
                i = i + 1;
                assert(out@ + rest =~= head + bytes_spelled(s, 0));
            }
        }
        out.push('"');
        assert(out@ =~= content_text(self.flagged(), self.data()));
        out
    }
}

/// How one byte of an unflagged string is spelled: quote and backslash behind a backslash, line feed, carriage return
/// and tab by their letters, other printable ASCII as itself, and the rest as a braced number of two digits.
pub proof fn law_bytes_are_spelled_one_by_one(s: Seq<u8>, byte: u8)
    ensures
        bytes_spelled(s.push(byte), 0) == bytes_spelled(s, 0) + byte_piece(byte),
        bytes_spelled(Seq::<u8>::empty(), 0) == Seq::<char>::empty(),
        byte == 0x22 ==> byte_piece(byte) == seq!['\\', '"'],
        byte == 0x5C ==> byte_piece(byte) == seq!['\\', '\\'],
        byte == 0x0A ==> byte_piece(byte) == seq!['\\', 'n'],
        byte == 0x0D ==> byte_piece(byte) == seq!['\\', 'r'],
        byte == 0x09 ==> byte_piece(byte) == seq!['\\', 't'],
        0x20 <= byte <= 0x7E && byte != 0x22 && byte != 0x5C ==> byte_piece(byte).len() == 1 && byte_piece(byte)[0] as nat
            == byte,
        byte > 0x7E || (byte < 0x20 && byte != 0x0A && byte != 0x0D && byte != 0x09) ==> byte_piece(byte) == seq![
            '\\',
            'x',
            '{',
        ] + text::zero_padded(text::numeral(byte as nat), 2) + seq!['}'],
{
    lemma_spelled_push(s, byte, 0);
}

proof fn lemma_spelled_push(s: Seq<u8>, byte: u8, at: int)
    requires
        0 <= at <= s.len(),
    ensures
        bytes_spelled(s.push(byte), at) == bytes_spelled(s, at) + byte_piece(byte),
    decreases s.len() - at,
{
    let t = s.push(byte);
    if at < s.len() {
        assert(t[at] == s[at]);
        lemma_spelled_push(s, byte, at + 1);
        assert(byte_piece(s[at]) + (bytes_spelled(s, at + 1) + byte_piece(byte)) =~= (byte_piece(s[at]) + bytes_spelled(
            s,
            at + 1,
        )) + byte_piece(byte));
    } else {
        assert(t[at] == byte);
        assert(bytes_spelled(t, at + 1) =~= Seq::<char>::empty());
        assert(byte_piece(byte) + Seq::<char>::empty() =~= Seq::<char>::empty() + byte_piece(byte));
    }
}

/// How one character of a flagged string is spelled before the rest: as itself where it is printable, and otherwise by a
/// short escape or its braced number, of two digits below 128 and of four or more from there on.
pub proof fn law_characters_are_spelled_one_by_one(c: char, rest: Seq<u8>)
    ensures
        ({
            let v = c as nat;
            let s = vstd::utf8::encode_utf8(seq![c]) + rest;
            let piece = if v == 0x22 {
                seq!['\\', '"']
            } else if v == 0x5C {
                seq!['\\', '\\']
            } else if v == 0x0A {
                seq!['\\', 'n']
            } else if v == 0x0D {
                seq!['\\', 'r']
            } else if v == 0x09 {
                seq!['\\', 't']
            } else if v < 0x20 || v == 0x7F {
                seq!['\\', 'x', '{'] + text::zero_padded(text::numeral(v), 2) + seq!['}']
            } else if 0x80 <= v <= 0x9F {
                seq!['\\', 'x', '{'] + text::zero_padded(text::numeral(v), 4) + seq!['}']
            } else {
                seq![c]
            };
            points_spelled(s, 0) == piece + points_spelled(rest, 0)
        }),
{
    let encoded = vstd::utf8::encode_utf8(seq![c]);
    let s = encoded + rest;
    let n = encoded.len() as int;
    numeric_text::lemma_encoded_char(c, rest);
    lemma_spelled_shift(s, n, 0);
    assert(s.skip(n) =~= rest);
    assert(decode::is_scalar_value(c as nat));
    assert(c as nat as char == c);
}

/// A byte that no sequence begins with is spelled as a braced number of two digits, and what follows it by itself.
pub proof fn law_stray_bytes_are_spelled_as_numbers(byte: u8, rest: Seq<u8>)
    requires
        0x80 <= byte <= 0xBF || (rest.len() == 0 && byte >= 0x80) || (rest.len() > 0 && byte >= 0x80 && rest[0] < 0x80),
    ensures
        points_spelled(seq![byte] + rest, 0) == seq!['\\', 'x', '{'] + text::zero_padded(text::numeral(byte as nat), 2)
            + seq!['}'] + points_spelled(rest, 0),
{
    let s = seq![byte] + rest;
    assert(s[0] == byte);
    assert(rest.len() > 0 ==> s[1] == rest[0]);
    assert(decode::sequence_at(s, 0) is None) by {
        if decode::sequence_at(s, 0) is Some {
            decode::lemma_sequence_bounds(s, 0);
            let len = decode::announced_len(byte);
            assert(decode::conts_follow(s, 0, (len - 1) as nat));
            assert(decode::is_cont(s[1]));
        }
    }
    lemma_spelled_shift(s, 1, 0);
    assert(s.skip(1) =~= rest);
}

proof fn lemma_spelled_shift(s: Seq<u8>, k: int, at: int)
    requires
        0 <= k,
        0 <= at,
        k + at <= s.len(),
    ensures
        points_spelled(s, k + at) == points_spelled(s.skip(k), at),
    decreases s.len() - at,
{
    let t = s.skip(k);
    if k + at < s.len() {
        numeric_text::lemma_sequence_skip(s, k, at);
        assert(t[at] == s[k + at]);
        if decode::sequence_at(t, at) is Some {
            decode::lemma_sequence_bounds(t, at);
        }
        lemma_spelled_shift(s, k, piece_end(t, at));
    }
}

/// The whole rendering is the spelling between quotes, with a `b` before them exactly where an unflagged string has a
/// high byte.
pub proof fn law_rendering_says_what_the_bytes_are(flagged: bool, s: Seq<u8>)
    ensures
        ({
            let text = content_text(flagged, s);
            let bytes = !flagged && exists|i: int| 0 <= i < s.len() && #[trigger] s[i] >= 0x80;
            let spelled = if flagged { points_spelled(s, 0) } else { bytes_spelled(s, 0) };
            &&& bytes ==> text == seq!['b', '"'] + spelled + seq!['"']
            &&& !bytes ==> text == seq!['"'] + spelled + seq!['"']
        }),
{
}

/// Bytes in bare hexadecimal: two lowercase digits for each, the high one first, and a space between one and the next.
pub proof fn law_hex_pairs_spell_bytes(s: Seq<u8>)
    ensures
        hex_pairs(s).len() == if s.len() == 0 { 0 } else { 3 * s.len() - 1 },
        forall|i: int|
            0 <= i < s.len() ==> {
                &&& hex_pairs(s)[3 * i] as nat == hex_glyph((#[trigger] s[i] / 16) as nat)
                &&& hex_pairs(s)[3 * i + 1] as nat == hex_glyph((s[i] % 16) as nat)
                &&& i + 1 < s.len() ==> hex_pairs(s)[3 * i + 2] == ' '
            },
    decreases s.len(),
{
    if s.len() > 0 {
        let last = s.last();
        let pair = text::zero_padded(text::numeral(last as nat), 2);
        lemma_pair(last);
        let before = s.drop_last();
        law_hex_pairs_spell_bytes(before);
        let n = before.len() as int;
        if s.len() > 1 {
            let whole = hex_pairs(s);
            assert forall|i: int| 0 <= i < s.len() implies {
                &&& whole[3 * i] as nat == hex_glyph((#[trigger] s[i] / 16) as nat)
                &&& whole[3 * i + 1] as nat == hex_glyph((s[i] % 16) as nat)
                &&& i + 1 < s.len() ==> whole[3 * i + 2] == ' '
            } by {
                if i < n {
                    assert(before[i] == s[i]);
                    assert(whole[3 * i] == hex_pairs(before)[3 * i]);
                    assert(whole[3 * i + 1] == hex_pairs(before)[3 * i + 1]);
                } else {
                    assert(whole[3 * n] == pair[0]);
                    assert(whole[3 * n + 1] == pair[1]);
                }
            }
        }
    }
}

/// The code of a lowercase hexadecimal digit.
pub open spec fn hex_glyph(d: nat) -> nat {
    if d < 10 {
        0x30 + d
    } else {
        0x57 + d
    }
}

proof fn lemma_pair(byte: u8)
    ensures
        ({
            let pair = text::zero_padded(text::numeral(byte as nat), 2);
            &&& pair.len() == 2
            &&& pair[0] as nat == hex_glyph((byte / 16) as nat)
            &&& pair[1] as nat == hex_glyph((byte % 16) as nat)
        }),
{
    let v = byte as nat;
    text::law_numerals_spell_numbers(v, 2);
    text::law_numerals_spell_numbers(v / 16, 2);
    if v >= 16 {
        assert(text::numeral(v).drop_last()[0] == text::numeral(v)[0]);
        assert(text::numeral(v / 16).len() == 1);
        assert(v / 16 % 16 == v / 16);
    } else {
        assert(v % 16 == v);
        let padded = text::zero_padded(text::numeral(v), 2);
        assert(padded.skip(1)[0] == padded[1]);
    }
}

/// Wherever no sequence is read, one byte is spelled as a braced number of two digits and the reading goes on behind it;
/// a code point that is no character is spelled as a braced number of four digits or more.
pub proof fn law_what_is_no_character_is_spelled_as_a_number(s: Seq<u8>)
    requires
        s.len() > 0,
    ensures
        decode::sequence_at(s, 0) is None ==> points_spelled(s, 0) == seq!['\\', 'x', '{'] + text::zero_padded(
            text::numeral(s[0] as nat),
            2,
        ) + seq!['}'] + points_spelled(s.skip(1), 0),
        decode::sequence_at(s, 0) is Some ==> {
            let (len, value) = decode::sequence_at(s, 0)->0;
            0xD800 <= value <= 0xDFFF || value > 0x10_FFFF ==> points_spelled(s, 0) == seq!['\\', 'x', '{']
                + text::zero_padded(text::numeral(value), 4) + seq!['}'] + points_spelled(s.skip(len as int), 0)
        },
{
    if decode::sequence_at(s, 0) is Some {
        decode::lemma_sequence_bounds(s, 0);
    }
    lemma_spelled_shift(s, piece_end(s, 0), 0);
}

} // verus!
