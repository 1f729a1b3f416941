//! How a string is shown: the lossy rendering with its padding, and the lossless rendering of its content.
use crate::classify;
use crate::classify::malformed_run;
use crate::decode;
use crate::decode::decode_one;
use crate::numeric_text;
use crate::string::PString;
use crate::text;
use crate::text::push_fill;
use crate::utf8;
use crate::warning;
use vstd::prelude::*;
use vstd::string::*;

verus! {

/// The glyph of a code point: the character itself where Rust can hold it, and the replacement where it cannot.
pub open spec fn glyph(value: nat) -> char {
    if decode::is_scalar_value(value) {
        value as char
    } else {
        '\u{FFFD}'
    }
}

/// A character is the glyph of its code point.
proof fn lemma_glyph_of_char(c: char)
    ensures
        glyph(c as nat) == c,
{
}

/// Where the decoding step at `at` ends: behind the sequence there, or behind the rejected unit.
pub open spec fn step_end(s: Seq<u8>, at: int) -> int {
    match decode::sequence_at(s, at) {
        Some((len, _)) => at + len,
        None => classify::unit_end(s, at),
    }
}

proof fn lemma_step_end(s: Seq<u8>, at: int)
    requires
        0 <= at < s.len(),
    ensures
        at < step_end(s, at) <= s.len(),
{
    if decode::sequence_at(s, at) is Some {
        decode::lemma_sequence_bounds(s, at);
    } else {
        classify::lemma_conts_end(s, at + 1);
    }
}

/// The lossy rendering of flagged bytes from `at` on: one glyph for each decoding step.
pub open spec fn lossy_from(s: Seq<u8>, at: int) -> Seq<char>
    decreases s.len() - at,
    when 0 <= at
    via lossy_from_decreases
{
    if at >= s.len() {
        seq![]
    } else {
        let first = match decode::sequence_at(s, at) {
            Some((_, value)) => glyph(value),
            None => '\u{FFFD}',
        };
        seq![first] + lossy_from(s, step_end(s, at))
    }
}

#[via_fn]
proof fn lossy_from_decreases(s: Seq<u8>, at: int) {
    if at < s.len() {
        lemma_step_end(s, at);
    }
}

/// The lossy rendering of a string: one character for each byte without the utf8 flag, and with it one glyph for each
/// decoding step.
pub open spec fn lossy(flagged: bool, s: Seq<u8>) -> Seq<char> {
    if flagged {
        lossy_from(s, 0)
    } else {
        text::latin1_chars(s)
    }
}

proof fn lemma_lossy_len(s: Seq<u8>, at: int)
    requires
        0 <= at <= s.len(),
    ensures
        lossy_from(s, at).len() <= s.len() - at,
        decode::decodable_from(s, at) ==> lossy_from(s, at).len() == decode::code_points_from(s, at).len(),
    decreases s.len() - at,
{
    if at < s.len() {
        lemma_step_end(s, at);
        lemma_lossy_len(s, step_end(s, at));
    }
}

proof fn lemma_lossy_points(s: Seq<u8>, at: int)
    requires
        0 <= at <= s.len(),
        decode::decodable_from(s, at),
    ensures
        lossy_from(s, at) == decode::code_points_from(s, at).map_values(|v: nat| glyph(v)),
    decreases s.len() - at,
{
    let points = decode::code_points_from(s, at);
    if at < s.len() {
        lemma_step_end(s, at);
        lemma_lossy_points(s, step_end(s, at));
        assert(lossy_from(s, at) =~= points.map_values(|v: nat| glyph(v)));
    } else {
        assert(lossy_from(s, at) =~= points.map_values(|v: nat| glyph(v)));
    }
}

/// Flagged content that Rust can represent is rendered unchanged: the rendering of valid UTF-8 is the text it encodes.
pub proof fn law_valid_text_renders_unchanged(s: Seq<u8>)
    requires
        vstd::utf8::valid_utf8(s),
    ensures
        lossy(true, s) == vstd::utf8::decode_utf8(s),
{
    utf8::law_rust_decodable_is_valid_utf8(s);
    lemma_lossy_points(s, 0);
    let text = vstd::utf8::decode_utf8(s);
    let points = decode::code_points(s);
    assert(text.map_values(|c: char| c as nat) == points);
    assert(lossy(true, s) =~= text) by {
        assert forall|i: int| 0 <= i < points.len() implies glyph(points[i]) == text[i] by {
            assert(text.map_values(|c: char| c as nat)[i] == text[i] as nat);
            lemma_glyph_of_char(text[i]);
        }
    }
}

/// An unflagged string is rendered without a replacement: one character for each byte, whatever the bytes.
pub proof fn law_unflagged_rendering_is_exact(s: Seq<u8>, i: int)
    requires
        0 <= i < s.len(),
    ensures
        lossy(false, s).len() == s.len(),
        lossy(false, s)[i] as nat == s[i] as nat,
        lossy(false, s)[i] != '\u{FFFD}',
{
}

/// How rendered text is placed in a wider column.
#[derive(Clone, Copy, PartialEq, Eq, Structural, Debug)]
pub enum Align {
    Left,
    Right,
    Center,
}

/// The request a rendering honors: at most `precision` characters, brought to `width` columns with `fill`.
#[derive(Clone, Copy, PartialEq, Eq, Structural, Debug)]
pub struct Padding {
    pub width: Option<usize>,
    pub precision: Option<usize>,
    pub align: Align,
    pub fill: char,
}

impl Padding {
    /// How many of `count` characters are shown.
    pub open spec fn shown(self, count: nat) -> nat {
        match self.precision {
            Some(p) => if p < count {
                p as nat
            } else {
                count
            },
            None => count,
        }
    }

    /// How many columns of fill a rendering of `count` characters takes.
    pub open spec fn slack(self, count: nat) -> nat {
        match self.width {
            Some(w) => if w > self.shown(count) {
                (w - self.shown(count)) as nat
            } else {
                0
            },
            None => 0,
        }
    }

    /// The columns of fill before the text; a centered text has its odd column behind it.
    pub open spec fn before(self, count: nat) -> nat {
        match self.align {
            Align::Left => 0,
            Align::Right => self.slack(count),
            Align::Center => self.slack(count) / 2,
        }
    }

    /// The rendering of `glyphs` under this request.
    pub open spec fn padded(self, glyphs: Seq<char>) -> Seq<char> {
        let n = glyphs.len();
        Seq::new(self.before(n), |i: int| self.fill) + glyphs.take(self.shown(n) as int) + Seq::new(
            (self.slack(n) - self.before(n)) as nat,
            |i: int| self.fill,
        )
    }

    /// The characters shown of `count`, and the fill before and behind them.
    pub fn plan(&self, count: usize) -> (r: (usize, usize, usize))
        ensures
            r.0 == self.shown(count as nat),
            r.1 == self.before(count as nat),
            r.1 + r.2 == self.slack(count as nat),
            self.align is Center ==> r.1 <= r.2 <= r.1 + 1,
            self.align is Left ==> r.1 == 0,
            self.align is Right ==> r.2 == 0,
    {
        let effective: usize = match self.precision {
            Some(p) => if p < count { p } else { count },
            None => count,
        };
        let pad: usize = match self.width {
            Some(width) => if width > effective { width - effective } else { 0 },
            None => 0,
        };
        match self.align {
            Align::Left => (effective, 0, pad),
            Align::Right => (effective, pad, 0),
            Align::Center => (effective, pad / 2, pad - pad / 2),
        }
    }
}

/// A rendering has the requested width where the shown text is no wider, and shows exactly the requested prefix.
pub proof fn law_padding_fits(padding: Padding, glyphs: Seq<char>)
    ensures
        padding.padded(glyphs).len() == padding.shown(glyphs.len()) + padding.slack(glyphs.len()),
        padding.width is Some ==> padding.padded(glyphs).len() >= padding.width->0,
        padding.width is None && padding.precision is None ==> padding.padded(glyphs) == glyphs,
{
    let n = glyphs.len();
    assert(padding.before(n) <= padding.slack(n));
    if padding.width is None && padding.precision is None {
        assert(padding.padded(glyphs) =~= glyphs);
    }
}

/// Where the text stands: `before` columns of fill precede the shown characters and `behind` follow them.  A centered
/// text has as much fill behind it as before it, or one column more; a left-aligned one has none before it and a
/// right-aligned one none behind it.  Fill comes only up to the width, and characters go only beyond the precision.
pub proof fn law_padding_aligns(padding: Padding, glyphs: Seq<char>)
    ensures
        ({
            let out = padding.padded(glyphs);
            let shown = padding.shown(glyphs.len()) as int;
            let before = padding.before(glyphs.len()) as int;
            let behind = out.len() - shown - before;
            &&& behind >= 0
            &&& forall|i: int| 0 <= i < before ==> #[trigger] out[i] == padding.fill
            &&& forall|i: int| before <= i < before + shown ==> #[trigger] out[i] == glyphs[i - before]
            &&& forall|i: int| before + shown <= i < out.len() ==> #[trigger] out[i] == padding.fill
            &&& padding.align is Center ==> before <= behind <= before + 1
            &&& padding.align is Left ==> before == 0
            &&& padding.align is Right ==> behind == 0
            &&& shown <= glyphs.len()
            &&& padding.precision is None ==> shown == glyphs.len()
            &&& padding.precision is Some ==> shown <= padding.precision->0 && (shown < glyphs.len() ==> shown
                == padding.precision->0)
            &&& padding.width is None ==> before + behind == 0
            &&& padding.width is Some ==> (before + behind > 0 ==> out.len() == padding.width->0)
            &&& padding.width is Some ==> out.len() >= padding.width->0
        }),
{
    let n = glyphs.len();
    assert(padding.before(n) <= padding.slack(n));
    let out = padding.padded(glyphs);
    let shown = padding.shown(n) as int;
    let before = padding.before(n) as int;
    assert forall|i: int| before <= i < before + shown implies #[trigger] out[i] == glyphs[i - before] by {
        assert(glyphs.take(shown)[i - before] == glyphs[i - before]);
    }
}

/// The rendered glyph count of flagged bytes: one for each decoding step, rejected units included.
pub fn lossy_steps(bytes: &[u8]) -> (r: usize)
    ensures
        r == lossy(true, bytes@).len(),
{
    let ghost s = bytes@;
    let mut i: usize = 0;
    let mut steps: usize = 0;
    proof {
        lemma_lossy_len(s, 0);
    }
    while i < bytes.len()
        invariant
            s == bytes@,
            i <= bytes@.len(),
            steps <= i,
            steps + lossy_from(s, i as int).len() == lossy_from(s, 0).len(),
        decreases bytes@.len() - i,
    {
        proof {
            lemma_step_end(s, i as int);
        }
        let taken: usize = match decode_one(bytes, i) {
            Some((len, _)) => len,
            None => malformed_run(bytes, i),
        };
        assert(i + taken == step_end(s, i as int));
        i = i + taken;
        steps = steps + 1;
    }
    steps
}

/// The character of a code point, where Rust can hold it.
fn char_of(value: u64) -> (r: Option<char>)
    ensures
        r is Some <==> decode::is_scalar_value(value as nat),
        r is Some ==> r->0 == value as char,
{
    if value <= 0x10_FFFF {
        char::from_u32(value as u32)
    } else {
        None
    }
}

/// Append the first `limit` glyphs of flagged bytes.
fn push_flagged_lossy(out: &mut String, bytes: &[u8], limit: usize)
    requires
        limit <= lossy(true, bytes@).len(),
    ensures
        final(out)@ == old(out)@ + lossy(true, bytes@).take(limit as int),
{
    let ghost s = bytes@;
    let ghost glyphs = lossy_from(s, 0);
    let mut i: usize = 0;
    let mut left: usize = limit;
    assert(glyphs.skip(0) =~= glyphs);
    assert(out@ =~= old(out)@ + glyphs.take(0));
    while i < bytes.len() && left > 0
        invariant
            s == bytes@,
            glyphs == lossy_from(s, 0),
            limit <= glyphs.len(),
            i <= bytes@.len(),
            left <= limit,
            lossy_from(s, i as int) == glyphs.skip(limit - left),
            out@ == old(out)@ + glyphs.take(limit - left),
        decreases bytes@.len() - i,
    {
        proof {
            lemma_step_end(s, i as int);
        }
        let ghost done = limit - left;
        let ghost here = lossy_from(s, i as int);
        assert(here[0] == glyphs[done]);
        assert(here.skip(1) =~= lossy_from(s, step_end(s, i as int)));
        assert(glyphs.skip(done).skip(1) =~= glyphs.skip(done + 1));
        assert(glyphs.take(done).push(glyphs[done]) =~= glyphs.take(done + 1));
        match decode_one(bytes, i) {
            Some((len, value)) => {
                let shown: char = match char_of(value) {
                    Some(c) => c,
                    None => '\u{FFFD}',
                };
                out.push(shown);
                i = i + len;
            },
            None => {
                out.push('\u{FFFD}');
                i = i + malformed_run(bytes, i);
            },
        }
        left = left - 1;
        assert(out@ =~= old(out)@ + glyphs.take(limit - left));
    }
    assert(glyphs.take(limit - left).len() <= glyphs.len());
}

/// Append one character for each byte.
fn push_latin1(out: &mut String, bytes: &[u8], limit: usize)
    requires
        limit <= bytes@.len(),
    ensures
        final(out)@ == old(out)@ + text::latin1_chars(bytes@).take(limit as int),
{
    let ghost glyphs = text::latin1_chars(bytes@);
    let mut i: usize = 0;
    assert(out@ =~= old(out)@ + glyphs.take(0));
    while i < limit
        invariant
            glyphs == text::latin1_chars(bytes@),
            i <= limit <= bytes@.len(),
            out@ == old(out)@ + glyphs.take(i as int),
        decreases limit - i,
    {
        out.push(bytes[i] as char);
        assert(glyphs.take(i as int).push(glyphs[i as int]) =~= glyphs.take(i + 1));
        i = i + 1;
        assert(out@ =~= old(out)@ + glyphs.take(i as int));
    }
}

impl PString {
    /// The lossy rendering, under a padding request.
    pub fn display(&self, padding: Padding) -> (r: String)
        ensures
            r@ == padding.padded(lossy(self.flagged(), self.data())),
    {
        let ghost glyphs = lossy(self.flagged(), self.data());
        let mut out = String::new();
        let mut scratch: [u8; 41] = [0u8; 41];
        let counted: Option<usize> = if self.is_utf8() {
            self.char_len()
        } else {
            None
        };
        let flagged: bool = self.is_utf8();
        let bytes = self.as_bytes(&mut scratch);
        proof {
            lemma_lossy_len(bytes@, 0);
        }
        let count: usize = if !flagged {
            bytes.len()
        } else {
            match counted {
                Some(n) => n,
                None => lossy_steps(bytes),
            }
        };
        let (effective, left, right) = padding.plan(count);
        push_fill(&mut out, padding.fill, left);
        if flagged {
            push_flagged_lossy(&mut out, bytes, effective);
        } else {
            push_latin1(&mut out, bytes, effective);
        }
        push_fill(&mut out, padding.fill, right);
        assert(out@ =~= padding.padded(glyphs));
        out
    }
}

/// What is shown of flagged bytes, one character after the other: a character as itself, and a byte that begins no
/// sequence, with the continuation bytes that follow it, as one replacement character.
pub proof fn law_lossy_rendering_goes_unit_by_unit(c: char, byte: u8, conts: Seq<u8>, rest: Seq<u8>)
    requires
        byte >= 0x80,
        forall|i: int| 0 <= i < conts.len() ==> 0x80 <= #[trigger] conts[i] <= 0xBF,
        byte >= 0xC0 ==> conts.len() == 0,
        rest.len() > 0 ==> !(0x80 <= rest[0] <= 0xBF),
    ensures
        lossy(true, vstd::utf8::encode_utf8(seq![c]) + rest) == seq![c] + lossy(true, rest),
        lossy(true, seq![byte] + conts + rest) == seq!['\u{FFFD}'] + lossy(true, rest),
        lossy(true, Seq::<u8>::empty()) == Seq::<char>::empty(),
{
    let encoded = vstd::utf8::encode_utf8(seq![c]);
    let s = encoded + rest;
    numeric_text::lemma_encoded_char(c, rest);
    lemma_glyph_of_char(c);
    lemma_lossy_shift(s, encoded.len() as int, 0);
    assert(s.skip(encoded.len() as int) =~= rest);
    let t = seq![byte] + conts + rest;
    let n = 1 + conts.len() as int;
    assert(t[0] == byte);
    assert forall|i: int| 1 <= i < n implies decode::is_cont(#[trigger] t[i]) by {
        assert(t[i] == conts[i - 1]);
    }
    assert(rest.len() > 0 ==> t[n] == rest[0]);
    assert(decode::sequence_at(t, 0) is None) by {
        if decode::sequence_at(t, 0) is Some {
            decode::lemma_sequence_bounds(t, 0);
            let len = decode::announced_len(byte);
            assert(decode::conts_follow(t, 0, (len - 1) as nat));
            assert(decode::is_cont(t[1]));
        }
    }
    warning::lemma_conts_run(t, 1, n);
    assert(step_end(t, 0) == n);
    lemma_lossy_shift(t, n, 0);
    assert(t.skip(n) =~= rest);
}

proof fn lemma_lossy_shift(s: Seq<u8>, k: int, at: int)
    requires
        0 <= k,
        0 <= at,
        k + at <= s.len(),
    ensures
        lossy_from(s, k + at) == lossy_from(s.skip(k), at),
    decreases s.len() - at,
{
    let t = s.skip(k);
    if k + at < s.len() {
        numeric_text::lemma_sequence_skip(s, k, at);
        lemma_step_end(t, at);
        lemma_conts_shift(s, k, at + 1);
        lemma_lossy_shift(s, k, step_end(t, at));
    }
}

proof fn lemma_conts_shift(s: Seq<u8>, k: int, at: int)
    requires
        0 <= k,
        0 <= at,
        k + at <= s.len(),
    ensures
        classify::conts_end(s, k + at) == k + classify::conts_end(s.skip(k), at),
    decreases s.len() - at,
{
    if k + at < s.len() {
        assert(s.skip(k)[at] == s[k + at]);
        lemma_conts_shift(s, k, at + 1);
    }
}

/// A code point is shown as itself where it is a Unicode scalar value, and as the replacement character where it is a
/// surrogate or beyond U+10FFFF.
pub proof fn law_only_scalar_values_are_shown(value: nat)
    ensures
        value < 0xD800 || 0xE000 <= value <= 0x10_FFFF ==> glyph(value) as nat == value,
        0xD800 <= value <= 0xDFFF || value > 0x10_FFFF ==> glyph(value) == '\u{FFFD}',
{
}

/// Flagged bytes are shown step by step: one glyph for each code point that perl decodes.
pub proof fn law_decodable_bytes_show_their_code_points(s: Seq<u8>, i: int)
    requires
        decode::perl_decodable(s),
        0 <= i < decode::code_points(s).len(),
    ensures
        lossy(true, s).len() == decode::code_points(s).len(),
        lossy(true, s)[i] == glyph(decode::code_points(s)[i]),
{
    lemma_lossy_points(s, 0);
}

/// Wherever no sequence is read, a whole unit is shown as one replacement character and the reading goes on behind it.
pub proof fn law_what_is_no_sequence_is_replaced(s: Seq<u8>)
    requires
        s.len() > 0,
        decode::sequence_at(s, 0) is None,
    ensures
        lossy(true, s) == seq!['\u{FFFD}'] + lossy(true, s.skip(classify::unit_end(s, 0))),
{
    lemma_step_end(s, 0);
    lemma_lossy_shift(s, step_end(s, 0), 0);
}

} // verus!
