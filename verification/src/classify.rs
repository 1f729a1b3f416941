//! Classification of byte content: one traversal finds the terminal scan state and the character count.
use crate::decode;
use crate::scan::{Terminal, ValidRange};
use vstd::prelude::*;

verus! {

/// Classification block size: a block without high bits is settled by one pass over it.
pub const CLASSIFY_BLOCK: usize = 16384;

/// The grid boundary that ends the block at `pos`: the next multiple of [`CLASSIFY_BLOCK`] strictly after `pos`, or
/// the end of the content.
pub open spec fn grid_end(pos: nat, len: nat) -> nat {
    let next = (pos / (CLASSIFY_BLOCK as nat) + 1) * (CLASSIFY_BLOCK as nat);
    if next < len {
        next
    } else {
        len
    }
}

/// Fixed grid block boundaries: the next multiple of the block size strictly after `pos`, capped at `len`.
pub fn block_end(pos: usize, len: usize) -> (r: usize)
    requires
        pos < len,
    ensures
        r == grid_end(pos as nat, len as nat),
        pos < r <= len,
{
    let base: usize = pos - pos % CLASSIFY_BLOCK;
    if len - base <= CLASSIFY_BLOCK {
        len
    } else {
        base + CLASSIFY_BLOCK
    }
}

/// Whether some byte of `bytes[start..end]` has its high bit set.
pub fn span_has_high(bytes: &[u8], start: usize, end: usize) -> (r: bool)
    requires
        start <= end <= bytes@.len(),
    ensures
        r <==> exists|k: int| start <= k < end && #[trigger] bytes@[k] >= 0x80,
{
    let mut i: usize = start;
    while i < end
        invariant
            start <= i <= end <= bytes@.len(),
            forall|k: int| start <= k < i ==> #[trigger] bytes@[k] < 0x80,
        decreases end - i,
    {
        if bytes[i] >= 0x80 {
            assert(bytes@[i as int] >= 0x80);
            return true;
        }
        i = i + 1;
    }
    false
}

/// The bytes from `i` to `j`, each as the code point of the same number.
pub open spec fn byte_points(s: Seq<u8>, i: int, j: int) -> Seq<nat> {
    Seq::new((j - i) as nat, |k: int| s[i + k] as nat)
}

/// An ASCII run decodes to itself.
pub proof fn lemma_ascii_run(s: Seq<u8>, i: int, j: int)
    requires
        0 <= i <= j <= s.len(),
        forall|k: int| i <= k < j ==> #[trigger] s[k] < 0x80,
    ensures
        decode::decodable_from(s, i) == decode::decodable_from(s, j),
        decode::code_points_from(s, i) == byte_points(s, i, j) + decode::code_points_from(s, j),
    decreases j - i,
{
    if i < j {
        lemma_ascii_run(s, i + 1, j);
        assert(decode::accumulated(s, i, 0) == s[i]);
        assert(decode::sequence_at(s, i) == Some((1nat, s[i] as nat)));
        assert(byte_points(s, i, j) =~= seq![s[i] as nat] + byte_points(s, i + 1, j));
        assert(decode::code_points_from(s, i) =~= byte_points(s, i, j) + decode::code_points_from(s, j));
    } else {
        assert(byte_points(s, i, j) =~= seq![]);
    }
}

/// Some code point is not a Unicode scalar value.
pub open spec fn has_rejected(points: Seq<nat>) -> bool {
    exists|i: int| 0 <= i < points.len() && !decode::is_scalar_value(#[trigger] points[i])
}

/// Accumulated classification facts.
struct ScanFacts {
    saw_multibyte: bool,
    saw_beyond_latin1: bool,
    saw_rust_rejected: bool,
    chars: usize,
}

impl ScanFacts {
    /// The facts are those of the code points before `pos`, a position between two of them.
    spec fn covers(self, s: Seq<u8>, pos: int) -> bool {
        let points = decode::code_points(s);
        let seen = points.take(self.chars as int);
        &&& 0 <= pos <= s.len()
        &&& self.chars <= pos
        &&& self.chars <= points.len()
        &&& points.skip(self.chars as int) == decode::code_points_from(s, pos)
        &&& decode::perl_decodable(s) == decode::decodable_from(s, pos)
        &&& self.saw_multibyte == decode::has_at_least(seen, 0x80)
        &&& self.saw_beyond_latin1 == decode::has_at_least(seen, 0x100)
        &&& self.saw_rust_rejected == has_rejected(seen)
    }

    fn state(&self) -> (r: Terminal)
        ensures
            r == if self.saw_rust_rejected {
                Terminal::ExtendedUtf8
            } else if self.saw_beyond_latin1 {
                Terminal::Utf8NonLatin1
            } else if self.saw_multibyte {
                Terminal::Utf8Latin1
            } else {
                Terminal::Ascii
            },
    {
        if self.saw_rust_rejected {
            Terminal::ExtendedUtf8
        } else if self.saw_beyond_latin1 {
            Terminal::Utf8NonLatin1
        } else if self.saw_multibyte {
            Terminal::Utf8Latin1
        } else {
            Terminal::Ascii
        }
    }
}

pub proof fn lemma_append_points(a: Seq<nat>, b: Seq<nat>)
    ensures
        forall|bound: nat|
            #[trigger] decode::has_at_least(a + b, bound) == (decode::has_at_least(a, bound) || decode::has_at_least(
                b,
                bound,
            )),
        has_rejected(a + b) == (has_rejected(a) || has_rejected(b)),
{
    let c = a + b;
    assert forall|bound: nat|
        #[trigger] decode::has_at_least(c, bound) == (decode::has_at_least(a, bound) || decode::has_at_least(
            b,
            bound,
        )) by {
        if decode::has_at_least(c, bound) {
            let i = choose|i: int| 0 <= i < c.len() && #[trigger] c[i] >= bound;
            if i < a.len() {
                assert(a[i] >= bound);
            } else {
                assert(b[i - a.len()] >= bound);
            }
        }
        if decode::has_at_least(a, bound) {
            let i = choose|i: int| 0 <= i < a.len() && #[trigger] a[i] >= bound;
            assert(c[i] >= bound);
        }
        if decode::has_at_least(b, bound) {
            let i = choose|i: int| 0 <= i < b.len() && #[trigger] b[i] >= bound;
            assert(c[i + a.len()] >= bound);
        }
    }
    if has_rejected(c) {
        let i = choose|i: int| 0 <= i < c.len() && !decode::is_scalar_value(#[trigger] c[i]);
        if i < a.len() {
            assert(!decode::is_scalar_value(a[i]));
        } else {
            assert(!decode::is_scalar_value(b[i - a.len()]));
        }
    }
    if has_rejected(a) {
        let i = choose|i: int| 0 <= i < a.len() && !decode::is_scalar_value(#[trigger] a[i]);
        assert(!decode::is_scalar_value(c[i]));
    }
    if has_rejected(b) {
        let i = choose|i: int| 0 <= i < b.len() && !decode::is_scalar_value(#[trigger] b[i]);
        assert(!decode::is_scalar_value(c[i + a.len()]));
    }
}

/// Moving on over decoded points: what the facts must become.
proof fn lemma_advance(s: Seq<u8>, chars: int, pos: int, step: Seq<nat>, next: int)
    requires
        0 <= chars <= decode::code_points(s).len(),
        decode::code_points(s).skip(chars) == decode::code_points_from(s, pos),
        decode::code_points_from(s, pos) == step + decode::code_points_from(s, next),
    ensures
        chars + step.len() <= decode::code_points(s).len(),
        decode::code_points(s).skip(chars + step.len()) == decode::code_points_from(s, next),
        ({
            let before = decode::code_points(s).take(chars);
            let after = decode::code_points(s).take(chars + step.len());
            &&& forall|bound: nat|
                #[trigger] decode::has_at_least(after, bound) == (decode::has_at_least(before, bound)
                    || decode::has_at_least(step, bound))
            &&& has_rejected(after) == (has_rejected(before) || has_rejected(step))
        }),
{
    let points = decode::code_points(s);
    let rest = decode::code_points_from(s, next);
    let tail = points.skip(chars);
    assert(tail.len() == step.len() + rest.len());
    assert(points.skip(chars + step.len()) =~= rest) by {
        assert forall|k: int| 0 <= k < rest.len() implies points.skip(chars + step.len())[k] == rest[k] by {
            assert(tail[k + step.len()] == rest[k]);
        }
    }
    assert(points.take(chars + step.len()) =~= points.take(chars) + step) by {
        assert forall|k: int| chars <= k < chars + step.len() implies points[k] == step[k - chars] by {
            assert(tail[k - chars] == step[k - chars]);
        }
    }
    lemma_append_points(points.take(chars), step);
}

/// The scalar decoder over `bytes[start..]`, decoding whole sequences until the position reaches `soft_end`.  Returns
/// the position where decoding stopped, or `None` on malformed content.
fn scalar_decode_span(bytes: &[u8], start: usize, soft_end: usize, facts: &mut ScanFacts) -> (r: Option<usize>)
    requires
        start < soft_end <= bytes@.len(),
        old(facts).covers(bytes@, start as int),
    ensures
        r is None ==> !decode::perl_decodable(bytes@),
        r is Some ==> soft_end <= r->0 <= bytes@.len() && final(facts).covers(bytes@, r->0 as int),
{
    let ghost s = bytes@;
    let mut i: usize = start;
    while i < soft_end
        invariant
            s == bytes@,
            soft_end <= bytes@.len(),
            facts.covers(s, i as int),
        decreases bytes@.len() - i,
    {
        match decode::decode_one(bytes, i) {
            None => {
                return None;
            },
            Some((len, value)) => {
                proof {
                    let step = seq![value as nat];
                    decode::lemma_sequence_bounds(s, i as int);
                    lemma_advance(s, facts.chars as int, i as int, step, i + len);
                    assert(step[0] == value);
                    assert(decode::has_at_least(step, 0x80) <==> value >= 0x80);
                    assert(decode::has_at_least(step, 0x100) <==> value >= 0x100);
                    assert(has_rejected(step) <==> !decode::is_scalar_value(value as nat));
                }
                if len > 1 {
                    facts.saw_multibyte = true;
                    if value > 0xFF {
                        facts.saw_beyond_latin1 = true;
                    }
                    if len > 4 || value > 0x10_FFFF || (0xD800 <= value && value <= 0xDFFF) {
                        facts.saw_rust_rejected = true;
                    }
                }
                facts.chars = facts.chars + 1;
                assert(i + len <= bytes.len());
                i = i + len;
            },
        }
    }
    Some(i)
}

/// The character count that a full classification reports: zero where the content is not decodable.
pub open spec fn char_count(s: Seq<u8>) -> nat {
    if decode::perl_decodable(s) {
        decode::code_points(s).len()
    } else {
        0
    }
}

/// Blocked full classification: the terminal state and the character count.  A block without high bits contributes
/// its length; any other block is decoded, the last sequence completing past the block's end.
pub fn classify_full(bytes: &[u8]) -> (r: (Terminal, usize))
    ensures
        r.0 == Terminal::of(bytes@),
        r.1 == char_count(bytes@),
{
    let ghost s = bytes@;
    let mut facts = ScanFacts { saw_multibyte: false, saw_beyond_latin1: false, saw_rust_rejected: false, chars: 0 };
    let mut pos: usize = 0;
    assert(facts.covers(s, 0)) by {
        assert(decode::code_points(s).skip(0) =~= decode::code_points(s));
        assert(decode::code_points(s).take(0) =~= seq![]);
    }
    while pos < bytes.len()
        invariant
            s == bytes@,
            pos <= bytes@.len(),
            facts.covers(s, pos as int),
        decreases bytes@.len() - pos,
    {
        let soft_end: usize = block_end(pos, bytes.len());
        if !span_has_high(bytes, pos, soft_end) {
            proof {
                let step = byte_points(s, pos as int, soft_end as int);
                lemma_ascii_run(s, pos as int, soft_end as int);
                lemma_advance(s, facts.chars as int, pos as int, step, soft_end as int);
                assert forall|k: int| 0 <= k < step.len() implies #[trigger] step[k] < 0x80 by {
                    assert(s[pos + k] < 0x80);
                }
            }
            facts.chars = facts.chars + (soft_end - pos);
            pos = soft_end;
            continue;
        }
        match scalar_decode_span(bytes, pos, soft_end, &mut facts) {
            Some(next) => {
                pos = next;
            },
            None => {
                return (Terminal::MalformedUtf8, 0);
            },
        }
    }
    proof {
        assert(decode::code_points_from(s, s.len() as int) =~= seq![]);
        assert(decode::code_points(s).skip(facts.chars as int).len() == 0);
        assert(decode::code_points(s).take(facts.chars as int) =~= decode::code_points(s));
        decode::lemma_content_facts(s);
    }
    (facts.state(), facts.chars)
}

/// How many bytes of `s[i..j]` are not continuation bytes.
pub open spec fn lead_count(s: Seq<u8>, i: int, j: int) -> nat
    decreases j - i,
{
    if i >= j {
        0
    } else {
        lead_count(s, i, j - 1) + if decode::is_cont(s[j - 1]) {
            0nat
        } else {
            1nat
        }
    }
}

pub proof fn lemma_lead_count_split(s: Seq<u8>, i: int, j: int, k: int)
    requires
        i <= j <= k,
    ensures
        lead_count(s, i, k) == lead_count(s, i, j) + lead_count(s, j, k),
        lead_count(s, i, j) <= j - i,
    decreases k - i,
{
    if j < k {
        lemma_lead_count_split(s, i, j, k - 1);
    } else if i < j {
        lemma_lead_count_split(s, i, j - 1, j - 1);
    }
}

proof fn lemma_lead_count_conts(s: Seq<u8>, i: int, j: int)
    requires
        forall|k: int| i <= k < j ==> decode::is_cont(#[trigger] s[k]),
    ensures
        lead_count(s, i, j) == 0,
    decreases j - i,
{
    if i < j {
        lemma_lead_count_conts(s, i, j - 1);
    }
}

/// In decodable content each code point has one byte that is no continuation byte, and the code points at or above
/// U+0100 are those whose first byte is at least `0xC4`.
pub proof fn lemma_leads(s: Seq<u8>, at: int)
    requires
        0 <= at <= s.len(),
        decode::decodable_from(s, at),
    ensures
        decode::code_points_from(s, at).len() == lead_count(s, at, s.len() as int),
        decode::has_at_least(decode::code_points_from(s, at), 0x100) <==> exists|i: int|
            at <= i < s.len() && #[trigger] s[i] >= 0xC4,
    decreases s.len() - at,
{
    let points = decode::code_points_from(s, at);
    if at < s.len() {
        let (len, value) = decode::sequence_at(s, at)->0;
        decode::lemma_sequence_bounds(s, at);
        lemma_leads(s, at + len);
        let rest = decode::code_points_from(s, at + len);
        let step = seq![value];
        lemma_append_points(step, rest);
        assert(step[0] == value);
        assert(decode::has_at_least(step, 0x100) <==> value >= 0x100);
        lemma_lead_count_split(s, at, at + 1, s.len() as int);
        lemma_lead_count_split(s, at + 1, at + len, s.len() as int);
        lemma_lead_count_conts(s, at + 1, at + len);
        assert(lead_count(s, at, at) == 0);
        assert(lead_count(s, at, at + 1) == 1);
        assert(value >= 0x100 <==> s[at] >= 0xC4) by {
            assert(decode::accumulated(s, at, 0) == decode::lead_bits(s[at]));
            if len == 2 {
                assert(decode::is_cont(s[at + 1]));
                assert(decode::accumulated(s, at, 1) == decode::lead_bits(s[at]) * 64 + (s[at + 1] - 0x80));
            }
        }
        if exists|i: int| at <= i < s.len() && #[trigger] s[i] >= 0xC4 {
            let i = choose|i: int| at <= i < s.len() && #[trigger] s[i] >= 0xC4;
            if i < at + len {
                if i > at {
                    assert(decode::is_cont(s[i]));
                }
                assert(value >= 0x100);
            }
        }
    }
}

/// How many bytes of `bytes[start..end]` are not continuation bytes.
fn count_leads(bytes: &[u8], start: usize, end: usize) -> (r: usize)
    requires
        start <= end <= bytes@.len(),
    ensures
        r == lead_count(bytes@, start as int, end as int),
        r <= end - start,
{
    let mut i: usize = start;
    let mut n: usize = 0;
    while i < end
        invariant
            start <= i <= end <= bytes@.len(),
            n == lead_count(bytes@, start as int, i as int),
            n <= i - start,
        decreases end - i,
    {
        if !decode::is_continuation(bytes[i]) {
            n = n + 1;
        }
        i = i + 1;
    }
    n
}

/// Whether some byte of `bytes[start..end]` is at least `0xC4`, the first byte of U+0100.
fn span_beyond_latin1(bytes: &[u8], start: usize, end: usize) -> (r: bool)
    requires
        start <= end <= bytes@.len(),
    ensures
        r <==> exists|k: int| start <= k < end && #[trigger] bytes@[k] >= 0xC4,
{
    let mut i: usize = start;
    while i < end
        invariant
            start <= i <= end <= bytes@.len(),
            forall|k: int| start <= k < i ==> #[trigger] bytes@[k] < 0xC4,
        decreases end - i,
    {
        if bytes[i] >= 0xC4 {
            assert(bytes@[i as int] >= 0xC4);
            return true;
        }
        i = i + 1;
    }
    false
}

/// The class of Rust-valid content.
pub open spec fn range_of(s: Seq<u8>) -> ValidRange {
    if decode::has_at_least(decode::code_points(s), 0x100) {
        ValidRange::NonLatin1
    } else if decode::has_at_least(decode::code_points(s), 0x80) {
        ValidRange::Latin1
    } else {
        ValidRange::Ascii
    }
}

proof fn lemma_ascii_leads(s: Seq<u8>, i: int, j: int)
    requires
        i <= j,
        forall|k: int| i <= k < j ==> #[trigger] s[k] < 0x80,
    ensures
        lead_count(s, i, j) == j - i,
    decreases j - i,
{
    if i < j {
        lemma_ascii_leads(s, i, j - 1);
    }
}

/// Blocked range classification of content known to be Rust-valid.  The first block with a code point beyond Latin-1
/// determines the answer, and the count is then forfeited.
pub fn classify_known_valid(bytes: &[u8]) -> (r: (ValidRange, usize))
    requires
        decode::rust_decodable(bytes@),
    ensures
        r.0 == range_of(bytes@),
        r.1 == if r.0 is NonLatin1 {
            0
        } else {
            decode::code_points(bytes@).len()
        },
{
    let ghost s = bytes@;
    proof {
        decode::lemma_content_facts(s);
        lemma_leads(s, 0);
    }
    let mut saw_high: bool = false;
    let mut chars: usize = 0;
    let mut pos: usize = 0;
    while pos < bytes.len()
        invariant
            s == bytes@,
            pos <= bytes@.len(),
            saw_high <==> exists|k: int| 0 <= k < pos && #[trigger] s[k] >= 0x80,
            forall|k: int| 0 <= k < pos ==> #[trigger] s[k] < 0xC4,
            chars == lead_count(s, 0, pos as int),
            chars <= pos,
            decode::has_at_least(decode::code_points(s), 0x100) <==> exists|i: int| 0 <= i < s.len() && #[trigger] s[i] >= 0xC4,
        decreases bytes@.len() - pos,
    {
        let end: usize = block_end(pos, bytes.len());
        proof {
            lemma_lead_count_split(s, 0, pos as int, end as int);
        }
        if !span_has_high(bytes, pos, end) {
            proof {
                lemma_ascii_leads(s, pos as int, end as int);
            }
            chars = chars + (end - pos);
            pos = end;
            continue;
        }
        if span_beyond_latin1(bytes, pos, end) {
            return (ValidRange::NonLatin1, 0);
        }
        saw_high = true;
        chars = chars + count_leads(bytes, pos, end);
        pos = end;
    }
    if saw_high {
        (ValidRange::Latin1, chars)
    } else {
        (ValidRange::Ascii, chars)
    }
}

/// The copying twin of [`classify_known_valid`]: one traversal ranges, counts and appends every byte to `dst`.  The
/// copy cannot stop, so the count is real for every class.
pub fn classify_known_valid_into(dst: &mut Vec<u8>, src: &[u8]) -> (r: (ValidRange, usize))
    requires
        decode::rust_decodable(src@),
    ensures
        final(dst)@ == old(dst)@ + src@,
        r.0 == range_of(src@),
        r.1 == decode::code_points(src@).len(),
{
    let ghost s = src@;
    proof {
        decode::lemma_content_facts(s);
        lemma_leads(s, 0);
        assert(s.take(0) =~= seq![]);
        assert(dst@ + s.take(0) =~= dst@);
    }
    let mut saw_high: bool = false;
    let mut beyond: bool = false;
    let mut chars: usize = 0;
    let mut pos: usize = 0;
    while pos < src.len()
        invariant
            s == src@,
            pos <= src@.len(),
            dst@ == old(dst)@ + s.take(pos as int),
            saw_high <==> exists|k: int| 0 <= k < pos && #[trigger] s[k] >= 0x80,
            beyond <==> exists|k: int| 0 <= k < pos && #[trigger] s[k] >= 0xC4,
            chars == lead_count(s, 0, pos as int),
            chars <= pos,
        decreases src@.len() - pos,
    {
        let end: usize = block_end(pos, src.len());
        append_span(dst, src, pos, end);
        proof {
            assert(s.take(pos as int) + s.subrange(pos as int, end as int) =~= s.take(end as int));
            assert(old(dst)@ + s.take(pos as int) + s.subrange(pos as int, end as int) =~= old(dst)@ + s.take(end as int));
            lemma_lead_count_split(s, 0, pos as int, end as int);
        }
        if !span_has_high(src, pos, end) {
            proof {
                lemma_ascii_leads(s, pos as int, end as int);
            }
            chars = chars + (end - pos);
            pos = end;
            continue;
        }
        if !beyond && span_beyond_latin1(src, pos, end) {
            beyond = true;
        }
        saw_high = true;
        chars = chars + count_leads(src, pos, end);
        pos = end;
    }
    assert(s.take(pos as int) =~= s);
    if beyond {
        (ValidRange::NonLatin1, chars)
    } else if saw_high {
        (ValidRange::Latin1, chars)
    } else {
        (ValidRange::Ascii, chars)
    }
}

/// Append `src[start..end]` to `dst`.
pub fn append_span(dst: &mut Vec<u8>, src: &[u8], start: usize, end: usize)
    requires
        start <= end <= src@.len(),
    ensures
        final(dst)@ == old(dst)@ + src@.subrange(start as int, end as int),
{
    let mut i: usize = start;
    assert(src@.subrange(start as int, start as int) =~= seq![]);
    assert(dst@ =~= old(dst)@ + src@.subrange(start as int, i as int));
    while i < end
        invariant
            start <= i <= end <= src@.len(),
            dst@ == old(dst)@ + src@.subrange(start as int, i as int),
        decreases end - i,
    {
        dst.push(src[i]);
        assert(src@.subrange(start as int, i as int).push(src@[i as int]) =~= src@.subrange(start as int, i + 1));
        assert(old(dst)@ + src@.subrange(start as int, i + 1) =~= (old(dst)@ + src@.subrange(start as int, i as int)).push(src@[i as int]));
        i = i + 1;
    }
}

/// Classify `src` while appending it to `dst`.  The copy completes for malformed content too.
pub fn classify_into(dst: &mut Vec<u8>, src: &[u8]) -> (r: (Terminal, usize))
    ensures
        final(dst)@ == old(dst)@ + src@,
        r.0 == Terminal::of(src@),
        r.1 == char_count(src@),
{
    append_span(dst, src, 0, src.len());
    assert(src@.subrange(0, src@.len() as int) =~= src@);
    classify_full(src)
}

/// The first position from `k` on where no continuation byte stands.
pub open spec fn conts_end(s: Seq<u8>, k: int) -> int
    decreases s.len() - k,
{
    if 0 <= k < s.len() && decode::is_cont(s[k]) {
        conts_end(s, k + 1)
    } else {
        k
    }
}

/// Where the unit at `at` ends: the byte there with every continuation byte that follows.
pub open spec fn unit_end(s: Seq<u8>, at: int) -> int {
    conts_end(s, at + 1)
}

pub proof fn lemma_conts_end(s: Seq<u8>, k: int)
    requires
        0 <= k <= s.len(),
    ensures
        k <= conts_end(s, k) <= s.len(),
        forall|j: int| k <= j < conts_end(s, k) ==> decode::is_cont(#[trigger] s[j]),
        conts_end(s, k) < s.len() ==> !decode::is_cont(s[conts_end(s, k)]),
    decreases s.len() - k,
{
    if k < s.len() && decode::is_cont(s[k]) {
        lemma_conts_end(s, k + 1);
    }
}

/// The span of bytes a rejected sequence covers: the byte at `at` together with every continuation byte that follows.
pub fn malformed_run(bytes: &[u8], at: usize) -> (r: usize)
    requires
        at < bytes@.len(),
    ensures
        1 <= r <= bytes@.len() - at,
        at + r == unit_end(bytes@, at as int),
{
    assert(at < bytes.len());
    let mut end: usize = at + 1;
    while end < bytes.len() && decode::is_continuation(bytes[end])
        invariant
            at < end <= bytes@.len(),
            conts_end(bytes@, end as int) == unit_end(bytes@, at as int),
        decreases bytes@.len() - end,
    {
        end = end + 1;
    }
    end - at
}

/// Text is counted by its characters, and classed by the largest of them; other bytes are counted only where perl can
/// decode them.
pub proof fn law_text_is_classed_by_its_characters(chars: Seq<char>)
    ensures
        ({
            let s = vstd::utf8::encode_utf8(chars);
            let high = exists|i: int| 0 <= i < chars.len() && #[trigger] chars[i] as nat >= 0x80;
            let wide = exists|i: int| 0 <= i < chars.len() && #[trigger] chars[i] as nat >= 0x100;
            &&& char_count(s) == chars.len()
            &&& wide ==> Terminal::of(s) is Utf8NonLatin1 && range_of(s) is NonLatin1
            &&& high && !wide ==> Terminal::of(s) is Utf8Latin1 && range_of(s) is Latin1
            &&& !high ==> Terminal::of(s) is Ascii && range_of(s) is Ascii
        }),
{
    let s = vstd::utf8::encode_utf8(chars);
    vstd::utf8::encode_utf8_valid_utf8(chars);
    vstd::utf8::encode_utf8_decode_utf8(chars);
    crate::utf8::law_rust_decodable_is_valid_utf8(s);
    let points = decode::code_points(s);
    assert(points == chars.map_values(|c: char| c as nat));
    assert forall|i: int| 0 <= i < chars.len() implies #[trigger] points[i] == chars[i] as nat by {}
    if decode::has_at_least(points, 0x100) {
        let i = choose|i: int| 0 <= i < points.len() && #[trigger] points[i] >= 0x100;
        assert(chars[i] as nat >= 0x100);
    }
    if decode::has_at_least(points, 0x80) {
        let i = choose|i: int| 0 <= i < points.len() && #[trigger] points[i] >= 0x80;
        assert(chars[i] as nat >= 0x80);
    }
    if exists|i: int| 0 <= i < chars.len() && #[trigger] chars[i] as nat >= 0x100 {
        let i = choose|i: int| 0 <= i < chars.len() && #[trigger] chars[i] as nat >= 0x100;
        assert(points[i] >= 0x100);
    }
    if exists|i: int| 0 <= i < chars.len() && #[trigger] chars[i] as nat >= 0x80 {
        let i = choose|i: int| 0 <= i < chars.len() && #[trigger] chars[i] as nat >= 0x80;
        assert(points[i] >= 0x80);
    }
}

/// The three classes of valid text are told from the other two by validity, those by whether perl decodes the bytes, and
/// ASCII by the high bits alone; what perl cannot decode has no characters to count.
pub proof fn law_classes_divide_all_bytes(s: Seq<u8>)
    ensures
        vstd::utf8::valid_utf8(s) <==> !(Terminal::of(s) is ExtendedUtf8) && !(Terminal::of(s) is MalformedUtf8),
        Terminal::of(s) is MalformedUtf8 <==> !decode::perl_decodable(s),
        Terminal::of(s) is Ascii <==> forall|i: int| 0 <= i < s.len() ==> #[trigger] s[i] < 0x80,
        !decode::perl_decodable(s) ==> char_count(s) == 0,
        decode::perl_decodable(s) ==> char_count(s) == decode::code_points(s).len(),
{
    crate::utf8::law_rust_decodable_is_valid_utf8(s);
    decode::lemma_content_facts(s);
}

/// A unit is a byte with every continuation byte behind it.
pub proof fn law_units_end_before_a_byte_that_continues_none(s: Seq<u8>, at: int)
    requires
        0 <= at < s.len(),
    ensures
        at < unit_end(s, at) <= s.len(),
        forall|k: int| at < k < unit_end(s, at) ==> 0x80 <= #[trigger] s[k] <= 0xBF,
        unit_end(s, at) < s.len() ==> !(0x80 <= s[unit_end(s, at)] <= 0xBF),
{
    lemma_conts_end(s, at + 1);
}

/// A block ends at the next multiple of its size, or with the content.
pub proof fn law_blocks_lie_on_a_grid(pos: nat, len: nat)
    requires
        pos < len,
    ensures
        pos < grid_end(pos, len) <= len,
        grid_end(pos, len) < len ==> grid_end(pos, len) % 16384 == 0 && grid_end(pos, len) <= pos + 16384,
{
}

} // verus!
