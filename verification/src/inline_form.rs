//! The inline forms: up to fifteen payload bytes in the value itself, with no allocation.
//!
//! Content that is the UTF-8 encoding of Latin-1 characters is stored as those characters, one byte each; any other
//! content is stored verbatim.  Fifteen stored bytes fill the payload and the length family says so; fewer leave the
//! last byte for the stored count in its low nibble and the class's second count in its high nibble.
use crate::classify;
use crate::classify::classify_full;
use crate::decode;
use crate::latin1;
use crate::order;
use crate::scan::{ScanState, Terminal};
use vstd::prelude::*;

verus! {

/// Maximum inline payload.
pub const INLINE_MAX: usize = 15;

/// Where a short inline string keeps its counts.
const LENGTH_BYTE: usize = 14;

/// The inline content class, established at construction.
#[derive(Clone, Copy, PartialEq, Eq, Structural, Debug)]
pub enum InlineClass {
    /// Entirely U+0000-U+007F.
    Ascii,
    /// Rust-valid, entirely U+0000-U+00FF, non-ASCII.
    Latin1,
    /// Rust-valid, contains a character at or above U+0100.
    NonLatin1,
    /// Perl-decodable, Rust-invalid.
    Extended,
    /// Bytes that neither reader decodes.
    Bytes,
}

impl InlineClass {
    /// The terminal scan state that the class stands for.
    pub open spec fn terminal(self) -> Terminal {
        match self {
            InlineClass::Ascii => Terminal::Ascii,
            InlineClass::Latin1 => Terminal::Utf8Latin1,
            InlineClass::NonLatin1 => Terminal::Utf8NonLatin1,
            InlineClass::Extended => Terminal::ExtendedUtf8,
            InlineClass::Bytes => Terminal::MalformedUtf8,
        }
    }
}

/// The scan state that an inline class stands for.
pub fn inline_scan_to_heap(class: InlineClass) -> (r: ScanState)
    ensures
        r == class.terminal().state(),
{
    match class {
        InlineClass::Ascii => ScanState::Ascii,
        InlineClass::Latin1 => ScanState::Utf8Latin1,
        InlineClass::NonLatin1 => ScanState::Utf8NonLatin1,
        InlineClass::Extended => ScanState::ExtendedUtf8,
        InlineClass::Bytes => ScanState::MalformedUtf8,
    }
}

/// An inline value: the class, the length family, and the payload.
#[derive(Clone, Copy)]
pub struct Inline {
    pub class: InlineClass,
    /// The fifteen-byte family: every payload byte is content and the count is implied.
    pub full: bool,
    pub buf: [u8; 15],
}

impl Inline {
    /// The stored payload byte count.
    pub open spec fn stored_len(self) -> nat {
        if self.full {
            15
        } else {
            (self.buf@[14] % 16) as nat
        }
    }

    /// The stored payload bytes.
    pub open spec fn stored(self) -> Seq<u8> {
        self.buf@.take(self.stored_len() as int)
    }

    /// The value's bytes.
    pub open spec fn content(self) -> Seq<u8> {
        if self.class is Latin1 {
            latin1::widened(self.stored())
        } else {
            self.stored()
        }
    }

    /// The class's second count: the high bytes of the compressed class, the characters of the verbatim valid ones.
    pub open spec fn aux_of(class: InlineClass, stored: Seq<u8>) -> nat {
        match class {
            InlineClass::Ascii | InlineClass::Bytes => 0,
            InlineClass::Latin1 => latin1::high_count(stored),
            InlineClass::NonLatin1 | InlineClass::Extended => decode::code_points(stored).len(),
        }
    }

    /// The class is that of the content, the counts are true, and what is not content is zero.
    pub open spec fn wf(self) -> bool {
        &&& self.class.terminal() == Terminal::of(self.content())
        &&& !self.full ==> {
            &&& self.stored_len() < 15
            &&& self.buf@[14] as nat == self.stored_len() + 16 * Inline::aux_of(self.class, self.stored())
            &&& forall|i: int| self.stored_len() <= i < 14 ==> #[trigger] self.buf@[i] == 0
        }
    }

    /// The stored payload byte count: implied at full capacity, the length byte's low nibble otherwise.
    pub fn stored_count(&self) -> (r: usize)
        requires
            self.wf(),
        ensures
            r == self.stored_len(),
            r <= 15,
    {
        if self.full {
            INLINE_MAX
        } else {
            (self.buf[LENGTH_BYTE] % 16) as usize
        }
    }

    /// The class's second count, stored by the short family and derived by the full one.
    pub fn derived_aux(&self) -> (r: usize)
        requires
            self.wf(),
        ensures
            r == Inline::aux_of(self.class, self.stored()),
    {
        if !self.full {
            return (self.buf[LENGTH_BYTE] / 16) as usize;
        }
        assert(self.buf@.take(15) =~= self.buf@);
        match self.class {
            InlineClass::Ascii | InlineClass::Bytes => 0,
            InlineClass::Latin1 => latin1::variant_count(self.buf.as_slice()),
            InlineClass::NonLatin1 | InlineClass::Extended => classify_full(self.buf.as_slice()).1,
        }
    }

    /// The byte length of the value: a compressed byte at or above `0x80` stands for two.
    pub fn internal_len(&self) -> (r: usize)
        requires
            self.wf(),
        ensures
            r == self.content().len(),
            r <= 30,
    {
        let stored: usize = self.stored_count();
        proof {
            latin1::lemma_widened_len(self.stored());
        }
        match self.class {
            InlineClass::Latin1 => stored + self.derived_aux(),
            _ => stored,
        }
    }

    /// Whether two inline values have the same representation.
    pub fn same(&self, other: &Inline) -> (r: bool)
        ensures
            r == (*self == *other),
    {
        if self.class == other.class && self.full == other.full && order::equal_bytes(
            self.buf.as_slice(),
            other.buf.as_slice(),
        ) {
            assert(self.buf =~= other.buf);
            true
        } else {
            false
        }
    }

    /// Write the value's bytes to `out`, returning how many there are.
    pub fn expand(&self, out: &mut [u8; 41]) -> (len: usize)
        requires
            self.wf(),
        ensures
            len == self.content().len(),
            len <= 30,
            final(out)@.take(len as int) == self.content(),
            final(out)@.skip(len as int) == old(out)@.skip(len as int),
    {
        let stored: usize = self.stored_count();
        let ghost s = self.stored();
        let compressed: bool = matches!(self.class, InlineClass::Latin1);
        let mut n: usize = 0;
        let mut i: usize = 0;
        assert(s.take(0) =~= seq![]);
        assert(out@.take(0) =~= seq![]);
        while i < stored
            invariant
                s == self.stored(),
                s == self.buf@.take(stored as int),
                compressed == self.class is Latin1,
                i <= stored == s.len() <= 15,
                n <= 2 * i,
                out@.take(n as int) == if compressed {
                    latin1::widened(s.take(i as int))
                } else {
                    s.take(i as int)
                },
                forall|k: int| n <= k < 41 ==> #[trigger] out@[k] == old(out)@[k],
            decreases stored - i,
        {
            let ghost before = out@;
            let b: u8 = self.buf[i];
            assert(s[i as int] == b);
            assert(s.take(i + 1).drop_last() =~= s.take(i as int));
            assert(s.take(i + 1).last() == b);
            let width: usize = expand_latin1(b, compressed, out, n);
            proof {
                assert(out@.take(n + width) =~= before.take(n as int) + out@.subrange(n as int, n + width));
                if !compressed {
                    assert(s.take(i + 1) =~= s.take(i as int).push(b));
                    assert(out@.take(n + width) =~= s.take(i + 1));
                }
            }
            n = n + width;
            i = i + 1;
        }
        assert(s.take(stored as int) =~= s);
        assert(out@.skip(n as int) =~= old(out)@.skip(n as int));
        n
    }
}

/// Write one stored byte at `at`: as the sequence it transcodes where the form is compressed, itself otherwise.
/// Returns the width.
fn expand_latin1(b: u8, compressed: bool, out: &mut [u8; 41], at: usize) -> (width: usize)
    requires
        at + 1 < 41,
    ensures
        1 <= width <= 2,
        final(out)@.subrange(at as int, at + width) == if compressed {
            latin1::widened_byte(b)
        } else {
            seq![b]
        },
        forall|k: int| 0 <= k < at || at + width <= k < 41 ==> #[trigger] final(out)@[k] == old(out)@[k],
{
    if !compressed || b < 0x80 {
        out[at] = b;
        assert(out@.subrange(at as int, at + 1) =~= seq![b]);
        1
    } else {
        let (lead, cont): (u8, u8) = latin1::widen_high(b);
        out[at] = lead;
        out[at + 1] = cont;
        assert(out@.subrange(at as int, at + 2) =~= seq![lead, cont]);
        2
    }
}

/// Content that an inline form holds: Latin-1 text of at most fifteen characters, or at most fifteen bytes.
pub open spec fn inline_holds(s: Seq<u8>) -> bool {
    (latin1::is_latin1_text(s) && latin1::narrowed(s).len() <= 15) || s.len() <= 15
}

/// Strict decode of Latin-1-range UTF-8 into its Latin-1 transcoding, or `None` where the content is not that or needs
/// a sixteenth byte.  Returns the transcoded bytes, zero past their count, with the count and the high-byte count.
fn decode_latin1_range(bytes: &[u8]) -> (r: Option<([u8; 15], usize, usize)>)
    ensures
        r is Some <==> latin1::is_latin1_text(bytes@) && latin1::narrowed(bytes@).len() <= 15,
        r is Some ==> {
            let (buf, s, h) = r->0;
            &&& s <= 15
            &&& buf@.take(s as int) == latin1::narrowed(bytes@)
            &&& h == latin1::high_count(latin1::narrowed(bytes@))
            &&& forall|k: int| s <= k < 15 ==> #[trigger] buf@[k] == 0
        },
{
    let ghost src = bytes@;
    let ghost points = decode::code_points(src);
    let ghost narrow = latin1::narrowed(src);
    let mut buf: [u8; 15] = [0u8; 15];
    let mut s: usize = 0;
    let mut h: usize = 0;
    let mut i: usize = 0;
    assert(points.skip(0) =~= points);
    assert(narrow.take(0) =~= seq![]);
    assert(buf@.take(0) =~= seq![]);
    while i < bytes.len()
        invariant
            src == bytes@,
            points == decode::code_points(src),
            narrow == latin1::narrowed(src),
            i <= src.len(),
            s <= 15,
            h <= s,
            s <= points.len(),
            points.skip(s as int) == decode::code_points_from(src, i as int),
            latin1::is_latin1_text(src) <==> decode::decodable_from(src, i as int) && !decode::has_at_least(
                decode::code_points_from(src, i as int),
                0x100,
            ),
            buf@.take(s as int) == narrow.take(s as int),
            h == latin1::high_count(narrow.take(s as int)),
            forall|k: int| s <= k < 15 ==> #[trigger] buf@[k] == 0,
        decreases src.len() - i,
    {
        let byte: u8 = bytes[i];
        let ghost at = i as int;
        proof {
            latin1::lemma_latin1_step(src, at);
        }
        let decoded: u8 = if byte < 0x80 {
            i = i + 1;
            byte
        } else if (byte == 0xC2 || byte == 0xC3) && bytes.len() - i > 1 && decode::is_continuation(bytes[i + 1]) {
            let narrow_byte: u8 = latin1::narrow_pair(byte, bytes[i + 1]);
            i = i + 2;
            narrow_byte
        } else {
            return None;
        };
        proof {
            let rest = decode::code_points_from(src, at);
            assert(rest.len() > 0 && rest[0] == decoded);
            assert(points.skip(s as int)[0] == points[s as int]);
            assert(narrow[s as int] == decoded);
            assert(points.skip(s + 1) =~= points.skip(s as int).skip(1));
            assert(rest.skip(1) =~= decode::code_points_from(src, i as int));
        }
        if s == INLINE_MAX {
            assert(narrow.len() > 15);
            return None;
        }
        let ghost before = buf@;
        buf[s] = decoded;
        proof {
            assert(buf@.take(s + 1) =~= before.take(s as int).push(decoded));
            assert(narrow.take(s + 1) =~= narrow.take(s as int).push(decoded));
            assert(narrow.take(s + 1).drop_last() =~= narrow.take(s as int));
        }
        if decoded >= 0x80 {
            h = h + 1;
        }
        s = s + 1;
    }
    proof {
        assert(decode::code_points_from(src, i as int) =~= seq![]);
        assert(points.skip(s as int).len() == 0);
        assert(narrow.take(s as int) =~= narrow);
    }
    Some((buf, s, h))
}

/// A payload whose first `s` bytes are `stored` and whose counts are recorded, as the inline form of the class.
fn build_inline(class: InlineClass, s: usize, aux: usize, buf: [u8; 15]) -> (r: Inline)
    requires
        s <= 15,
        s < 15 ==> aux < 16,
        forall|k: int| s <= k < 15 ==> #[trigger] buf@[k] == 0,
    ensures
        r.class == class,
        r.full == (s == 15),
        r.stored_len() == s,
        r.stored() == buf@.take(s as int),
        s < 15 ==> r.buf@[14] as nat == s + 16 * aux,
        s < 15 ==> forall|i: int| s <= i < 14 ==> #[trigger] r.buf@[i] == 0,
{
    let mut buf: [u8; 15] = buf;
    let ghost before = buf@;
    if s < INLINE_MAX {
        buf[LENGTH_BYTE] = (aux * 16 + s) as u8;
    }
    let r = Inline { class, full: s == INLINE_MAX, buf };
    assert(r.stored() =~= before.take(s as int));
    r
}

/// Classify content into its canonical inline form, or `None` when no inline form holds it.
///
/// Latin-1-range UTF-8 always compresses, and the verbatim classes hold exactly the content of at most fifteen bytes
/// failing that test.
pub fn classify_inline(bytes: &[u8]) -> (r: Option<Inline>)
    ensures
        r is Some <==> inline_holds(bytes@),
        r is Some ==> (r->0).wf() && (r->0).content() == bytes@,
{
    let ghost src = bytes@;
    proof {
        decode::lemma_content_facts(src);
    }
    if let Some((buf, s, h)) = decode_latin1_range(bytes) {
        proof {
            latin1::law_widen_undoes_narrow(src);
            latin1::lemma_widened_len(latin1::narrowed(src));
            lemma_narrow_high(src);
        }
        let class = if h == 0 {
            InlineClass::Ascii
        } else {
            InlineClass::Latin1
        };
        let r = build_inline(class, s, h, buf);
        return Some(r);
    }
    if bytes.len() > INLINE_MAX {
        return None;
    }
    proof {
        lemma_short_narrow(src);
    }
    let (terminal, chars) = classify_full(bytes);
    let (class, aux): (InlineClass, usize) = match terminal {
        Terminal::Utf8NonLatin1 => (InlineClass::NonLatin1, chars),
        Terminal::ExtendedUtf8 => (InlineClass::Extended, chars),
        _ => (InlineClass::Bytes, 0),
    };
    let buf: [u8; 15] = inline_payload(bytes);
    proof {
        if decode::perl_decodable(src) {
            classify::lemma_leads(src, 0);
            classify::lemma_lead_count_split(src, 0, src.len() as int, src.len() as int);
        }
    }
    let r = build_inline(class, bytes.len(), aux, buf);
    assert(r.content() == src);
    Some(r)
}

/// The payload that holds the bytes verbatim.
fn inline_payload(bytes: &[u8]) -> (r: [u8; 15])
    requires
        bytes@.len() <= 15,
    ensures
        r@.take(bytes@.len() as int) == bytes@,
        forall|k: int| bytes@.len() <= k < 15 ==> #[trigger] r@[k] == 0,
{
    let mut buf: [u8; 15] = [0u8; 15];
    let mut i: usize = 0;
    while i < bytes.len()
        invariant
            i <= bytes@.len() <= 15,
            forall|k: int| 0 <= k < i ==> #[trigger] buf@[k] == bytes@[k],
            forall|k: int| i <= k < 15 ==> #[trigger] buf@[k] == 0,
        decreases bytes@.len() - i,
    {
        buf[i] = bytes[i];
        i = i + 1;
    }
    assert(buf@.take(bytes@.len() as int) =~= bytes@);
    buf
}

/// The empty inline value.
pub fn empty_inline() -> (r: Inline)
    ensures
        r.wf(),
        r.content() == Seq::<u8>::empty(),
{
    let buf: [u8; 15] = [0u8; 15];
    let r = build_inline(InlineClass::Ascii, 0, 0, buf);
    proof {
        assert(r.stored() =~= Seq::<u8>::empty());
        decode::lemma_content_facts(r.content());
    }
    r
}

/// The compressed inline form of Latin-1 characters with a high byte among them.
pub fn latin1_inline(chars: &[u8]) -> (r: Inline)
    requires
        chars@.len() <= 15,
        !decode::all_ascii(chars@),
    ensures
        r.wf(),
        r.class is Latin1,
        r.content() == latin1::widened(chars@),
{
    let buf: [u8; 15] = inline_payload(chars);
    let h: usize = latin1::variant_count(chars);
    let r = build_inline(InlineClass::Latin1, chars.len(), h, buf);
    proof {
        let text = latin1::widened(chars@);
        latin1::law_narrow_undoes_widen(chars@);
        lemma_narrow_high(text);
        decode::lemma_content_facts(text);
        latin1::lemma_widened_len(chars@);
        lemma_high_count_zero(chars@);
    }
    r
}

pub proof fn lemma_high_count_zero(s: Seq<u8>)
    ensures
        latin1::high_count(s) == 0 <==> decode::all_ascii(s),
    decreases s.len(),
{
    if s.len() > 0 {
        lemma_high_count_zero(s.drop_last());
        if decode::all_ascii(s) {
            assert(s.last() < 0x80);
            assert forall|i: int| 0 <= i < s.drop_last().len() implies #[trigger] s.drop_last()[i] < 0x80 by {
                assert(s[i] < 0x80);
            }
        }
        if latin1::high_count(s) == 0 {
            assert forall|i: int| 0 <= i < s.len() implies #[trigger] s[i] < 0x80 by {
                if i < s.len() - 1 {
                    assert(s.drop_last()[i] < 0x80);
                }
            }
        }
    }
}

/// What the high bytes of the narrowed form say of Latin-1 text.
proof fn lemma_narrow_high(s: Seq<u8>)
    requires
        latin1::is_latin1_text(s),
    ensures
        latin1::high_count(latin1::narrowed(s)) == 0 <==> decode::all_ascii(s),
        latin1::high_count(latin1::narrowed(s)) == 0 ==> latin1::narrowed(s) == s,
        decode::rust_decodable(s),
{
    let narrow = latin1::narrowed(s);
    let points = decode::code_points(s);
    lemma_high_count_zero(narrow);
    latin1::law_widen_undoes_narrow(s);
    decode::lemma_content_facts(s);
    assert forall|i: int| 0 <= i < points.len() implies decode::is_scalar_value(#[trigger] points[i]) by {
        assert(points[i] < 0x100);
    }
    if decode::all_ascii(narrow) {
        lemma_widened_ascii(narrow);
    }
    if decode::all_ascii(s) {
        assert forall|i: int| 0 <= i < narrow.len() implies #[trigger] narrow[i] < 0x80 by {
            assert(points[i] < 0x80);
        }
    }
}

pub proof fn lemma_widened_ascii(s: Seq<u8>)
    requires
        decode::all_ascii(s),
    ensures
        latin1::widened(s) == s,
    decreases s.len(),
{
    if s.len() > 0 {
        assert forall|i: int| 0 <= i < s.drop_last().len() implies #[trigger] s.drop_last()[i] < 0x80 by {
            assert(s[i] < 0x80);
        }
        lemma_widened_ascii(s.drop_last());
        assert(s.last() < 0x80);
        assert(latin1::widened(s) =~= s);
    } else {
        assert(latin1::widened(s) =~= s);
    }
}

proof fn lemma_short_narrow(s: Seq<u8>)
    ensures
        latin1::is_latin1_text(s) ==> latin1::narrowed(s).len() <= s.len(),
{
    if latin1::is_latin1_text(s) {
        latin1::law_widen_undoes_narrow(s);
        latin1::lemma_widened_len(latin1::narrowed(s));
    }
}

/// Content determines representation: two well-formed inline values with the same content are the same.
pub proof fn law_inline_representation_is_canonical(a: Inline, b: Inline)
    requires
        a.wf(),
        b.wf(),
        a.content() == b.content(),
    ensures
        a == b,
{
    assert(a.class == b.class);
    if a.class is Latin1 {
        latin1::law_widen_is_injective(a.stored(), b.stored());
    }
    assert(a.stored() == b.stored());
    assert(a.stored_len() == a.stored().len());
    assert(b.stored_len() == b.stored().len());
    assert(a.full == b.full);
    assert forall|i: int| 0 <= i < 15 implies a.buf@[i] == b.buf@[i] by {
        if i < a.stored_len() {
            assert(a.stored()[i] == b.stored()[i]);
        }
    }
    assert(a.buf =~= b.buf);
}

/// An inline value's content is one that an inline form holds.
pub proof fn lemma_inline_content_held(a: Inline)
    requires
        a.wf(),
    ensures
        inline_holds(a.content()),
        a.content().len() <= 30,
{
    if a.class is Latin1 {
        latin1::law_narrow_undoes_widen(a.stored());
        latin1::lemma_widened_len(a.stored());
    }
}

/// Latin-1 text that is stored verbatim is ASCII, and its own narrowed form.
pub proof fn lemma_verbatim_latin1(a: Inline)
    requires
        a.wf(),
        !(a.class is Latin1),
        latin1::is_latin1_text(a.content()),
    ensures
        latin1::narrowed(a.content()) == a.stored(),
{
    lemma_narrow_high(a.content());
    decode::lemma_content_facts(a.content());
}

/// Latin-1 text that is not ASCII is stored compressed.
pub proof fn lemma_latin1_class(a: Inline)
    requires
        a.wf(),
        latin1::is_latin1_text(a.content()),
        !decode::all_ascii(a.content()),
    ensures
        a.class is Latin1,
{
    lemma_narrow_high(a.content());
    decode::lemma_content_facts(a.content());
}

/// How an inline payload is laid out: the content from the front, one byte for each character where it is Latin-1 text,
/// zeros behind it, and in the last byte the count with the second count of the class above it; at full capacity all
/// fifteen bytes are content.
pub proof fn law_inline_payload_is_laid_out(form: Inline)
    requires
        form.wf(),
    ensures
        !(form.class is Latin1) ==> form.content() == form.buf@.take(form.stored_len() as int),
        form.class is Latin1 ==> vstd::utf8::encode_utf8(
            form.buf@.take(form.stored_len() as int).map_values(|b: u8| b as char),
        ) == form.content(),
        form.full ==> form.stored_len() == 15,
        !form.full ==> form.stored_len() < 15 && form.buf@[14] % 16 == form.stored_len() && forall|i: int|
            form.stored_len() <= i < 14 ==> #[trigger] form.buf@[i] == 0,
        !form.full && (form.class is Ascii || form.class is Bytes) ==> form.buf@[14] as nat == form.stored_len(),
{
    latin1::law_upgrade_is_the_utf8_encoding(form.stored());
}

} // verus!
