//! How scan knowledge moves: what an append keeps of it, and what a slice is born with.
use crate::classify;
use crate::classify::classify_full;
use crate::decode;
use crate::decode::is_continuation;
use crate::scan;
use crate::scan::{ScanState, Terminal, ValidRange};
use vstd::prelude::*;

verus! {

/// What is known about appended content.
#[derive(Clone, Copy, PartialEq, Eq, Structural)]
pub enum AppendKind {
    /// Known valid UTF-8, with its range class and character count, zero where the count was forfeited.
    Valid { class: ValidRange, chars: usize },
    /// Nothing known.
    Unknown,
}

impl AppendKind {
    /// What the kind asserts of the appended bytes.
    pub open spec fn describes(self, s: Seq<u8>) -> bool {
        match self {
            AppendKind::Valid { class, chars } => {
                &&& decode::rust_decodable(s)
                &&& class == classify::range_of(s)
                &&& chars == 0 || chars == decode::code_points(s).len()
            },
            AppendKind::Unknown => true,
        }
    }
}

/// The state after an append, from the prior state and the appended content's class.
pub open spec fn appended_state(prior: ScanState, class: ValidRange) -> ScanState {
    if class is Ascii {
        prior
    } else {
        match prior {
            ScanState::Ascii => class.state(),
            ScanState::Utf8NonLatin1 => ScanState::Utf8NonLatin1,
            ScanState::Utf8Latin1 | ScanState::MaybeUtf8Latin1 => class.state(),
            ScanState::ValidUtf8 | ScanState::Utf8NonAscii => if class is NonLatin1 {
                ScanState::Utf8NonLatin1
            } else {
                ScanState::Utf8NonAscii
            },
            ScanState::ExtendedUtf8 | ScanState::MaybeExtendedUtf8 | ScanState::PerlValidNonAscii => prior,
            ScanState::Unknown | ScanState::MalformedUtf8 | ScanState::NonAscii => ScanState::Unknown,
        }
    }
}

/// The state after an append.
pub open spec fn after_append(prior: ScanState, kind: AppendKind) -> ScanState {
    match kind {
        AppendKind::Valid { class, .. } => appended_state(prior, class),
        AppendKind::Unknown => ScanState::Unknown,
    }
}

/// The state of a buffer after an append, from the buffer's prior state and the appended content's kind.
pub fn append_transition_heap(prior: ScanState, kind: AppendKind) -> (r: ScanState)
    ensures
        r == after_append(prior, kind),
{
    match kind {
        // Appending pure ASCII cannot raise the range or affect validity.
        AppendKind::Valid { class: ValidRange::Ascii, .. } => prior,
        AppendKind::Valid { class, .. } => match prior {
            // Valid and valid: the range join.
            ScanState::Ascii => ValidRange::Ascii.join(class).widen(),
            ScanState::Utf8Latin1 => ValidRange::Latin1.join(class).widen(),
            ScanState::Utf8NonLatin1 => ValidRange::NonLatin1.join(class).widen(),

            // The range is unresolved: the addition can prove non-ASCII or beyond Latin-1, never below.
            ScanState::ValidUtf8 | ScanState::Utf8NonAscii => if class == ValidRange::NonLatin1 {
                ScanState::Utf8NonLatin1
            } else {
                ScanState::Utf8NonAscii
            },

            // The Rust-rejected code point is still there.
            ScanState::ExtendedUtf8 => ScanState::ExtendedUtf8,

            // The appended content supplies the witness that the prior state lacks.
            ScanState::MaybeUtf8Latin1 => if class == ValidRange::NonLatin1 {
                ScanState::Utf8NonLatin1
            } else {
                ScanState::Utf8Latin1
            },
            ScanState::MaybeExtendedUtf8 => ScanState::MaybeExtendedUtf8,
            ScanState::PerlValidNonAscii => ScanState::PerlValidNonAscii,

            // Prior validity unknown or invalid.
            ScanState::Unknown | ScanState::MalformedUtf8 | ScanState::NonAscii => ScanState::Unknown,
        },
        AppendKind::Unknown => ScanState::Unknown,
    }
}

/// A true state and a true description of what is appended give a true state.
pub proof fn law_append_keeps_certification(prior: ScanState, kind: AppendKind, old: Seq<u8>, added: Seq<u8>)
    requires
        prior.certifies(old),
        kind.describes(added),
    ensures
        after_append(prior, kind).certifies(old + added),
{
    let whole = old + added;
    decode::lemma_content_facts(old);
    decode::lemma_content_facts(added);
    decode::lemma_content_facts(whole);
    if decode::has_high_byte(old) {
        let i = choose|i: int| 0 <= i < old.len() && #[trigger] old[i] >= 0x80;
        assert(whole[i] >= 0x80);
    }
    if decode::all_ascii(old) && decode::all_ascii(added) {
        assert forall|i: int| 0 <= i < whole.len() implies #[trigger] whole[i] < 0x80 by {
            if i < old.len() {
                assert(old[i] < 0x80);
            } else {
                assert(added[i - old.len()] < 0x80);
            }
        }
    }
    if decode::perl_decodable(old) {
        decode::lemma_concat(old, added);
        classify::lemma_append_points(decode::code_points(old), decode::code_points(added));
        lemma_scalar_concat(decode::code_points(old), decode::code_points(added));
    } else if decode::all_ascii(added) && decode::perl_decodable(whole) {
        assert(decode::clean_cut(whole, old.len() as int)) by {
            if added.len() > 0 {
                assert(added[0] < 0x80);
            }
        }
        decode::lemma_split(whole, old.len() as int);
        assert(whole.take(old.len() as int) =~= old);
    }
}

proof fn lemma_scalar_concat(a: Seq<nat>, b: Seq<nat>)
    ensures
        decode::all_scalar(a + b) == (decode::all_scalar(a) && decode::all_scalar(b)),
{
    let c = a + b;
    if decode::all_scalar(c) {
        assert forall|i: int| 0 <= i < a.len() implies decode::is_scalar_value(#[trigger] a[i]) by {
            assert(decode::is_scalar_value(c[i]));
        }
        assert forall|i: int| 0 <= i < b.len() implies decode::is_scalar_value(#[trigger] b[i]) by {
            assert(decode::is_scalar_value(c[a.len() + i]));
        }
    }
}

/// The byte test of a cut at `p`: it stands at an end or beyond, or before a byte that continues no sequence.
pub open spec fn cut_test(s: Seq<u8>, p: int) -> bool {
    p <= 0 || p >= s.len() || !decode::is_cont(s[p])
}

/// A cut that splits no sequence: both ends pass the byte test, or nothing is cut out.
pub open spec fn cut_clean(parent: Seq<u8>, offset: int, len: int) -> bool {
    len == 0 || (cut_test(parent, offset) && cut_test(parent, offset + len))
}

/// Decodable content begins no sequence with a continuation byte, so there the byte test says which cuts are clean.
proof fn lemma_cut_test(s: Seq<u8>, p: int)
    requires
        decode::perl_decodable(s),
        0 <= p <= s.len(),
    ensures
        cut_test(s, p) == decode::clean_cut(s, p),
{
    if s.len() > 0 {
        assert(decode::sequence_at(s, 0) is Some);
        assert(!decode::is_cont(s[0]));
    }
}

/// Whether the cut at `offset..offset + len` of `parent` splits no sequence: two continuation-byte tests, valid for the
/// extended forms too.  The empty view and the whole-object cut are clean.
pub fn cut_is_clean(parent: &[u8], offset: usize, len: usize) -> (r: bool)
    requires
        offset + len <= usize::MAX,
    ensures
        r == cut_clean(parent@, offset as int, len as int),
{
    if len == 0 {
        return true;
    }
    let start_clean: bool = offset == 0 || offset >= parent.len() || !is_continuation(parent[offset]);
    let end: usize = offset + len;
    let end_clean: bool = end >= parent.len() || !is_continuation(parent[end]);
    start_clean && end_clean
}

/// What a clean or dirty cut leaves of a state.
pub open spec fn sliced_state(parent: ScanState, clean: bool) -> ScanState {
    match parent {
        ScanState::Ascii => ScanState::Ascii,
        ScanState::Unknown | ScanState::NonAscii | ScanState::MalformedUtf8 => ScanState::Unknown,
        ScanState::Utf8Latin1 | ScanState::MaybeUtf8Latin1 => if clean {
            ScanState::MaybeUtf8Latin1
        } else {
            ScanState::MalformedUtf8
        },
        ScanState::Utf8NonLatin1 | ScanState::Utf8NonAscii | ScanState::ValidUtf8 => if clean {
            ScanState::ValidUtf8
        } else {
            ScanState::MalformedUtf8
        },
        ScanState::ExtendedUtf8 | ScanState::MaybeExtendedUtf8 | ScanState::PerlValidNonAscii => if clean {
            ScanState::MaybeExtendedUtf8
        } else {
            ScanState::MalformedUtf8
        },
    }
}

/// The slice-birth state: what a clean cut provably keeps, and the malformedness that a dirty cut of decodable content
/// proves.
pub fn slice_birth(parent: ScanState, clean: bool) -> (r: ScanState)
    ensures
        r == sliced_state(parent, clean),
{
    if !clean {
        return match parent {
            ScanState::Utf8Latin1
            | ScanState::MaybeUtf8Latin1
            | ScanState::Utf8NonLatin1
            | ScanState::Utf8NonAscii
            | ScanState::ValidUtf8
            | ScanState::ExtendedUtf8
            | ScanState::MaybeExtendedUtf8
            | ScanState::PerlValidNonAscii => ScanState::MalformedUtf8,
            ScanState::Ascii => ScanState::Ascii,
            ScanState::Unknown | ScanState::NonAscii | ScanState::MalformedUtf8 => ScanState::Unknown,
        };
    }
    match parent {
        ScanState::Unknown => ScanState::Unknown,
        ScanState::Ascii => ScanState::Ascii,
        ScanState::Utf8Latin1 | ScanState::MaybeUtf8Latin1 => ScanState::MaybeUtf8Latin1,
        ScanState::Utf8NonLatin1 | ScanState::Utf8NonAscii | ScanState::ValidUtf8 => ScanState::ValidUtf8,
        ScanState::ExtendedUtf8 | ScanState::MaybeExtendedUtf8 | ScanState::PerlValidNonAscii => ScanState::MaybeExtendedUtf8,
        ScanState::MalformedUtf8 | ScanState::NonAscii => ScanState::Unknown,
    }
}

/// A true state of the whole gives a true state of the slice.
pub proof fn law_slice_keeps_certification(parent: ScanState, s: Seq<u8>, offset: int, len: int)
    requires
        parent.certifies(s),
        0 <= offset,
        0 <= len,
        offset + len <= s.len(),
    ensures
        sliced_state(parent, cut_clean(s, offset, len)).certifies(s.subrange(offset, offset + len)),
{
    let part = s.subrange(offset, offset + len);
    decode::lemma_content_facts(s);
    decode::lemma_content_facts(part);
    if decode::all_ascii(s) {
        assert forall|i: int| 0 <= i < part.len() implies #[trigger] part[i] < 0x80 by {
            assert(s[offset + i] < 0x80);
        }
    }
    if decode::perl_decodable(s) {
        lemma_cut_test(s, offset);
        lemma_cut_test(s, offset + len);
        if len == 0 {
            lemma_empty_facts(part);
        } else if cut_clean(s, offset, len) {
            decode::lemma_clean_slice(s, offset, offset + len);
        } else {
            lemma_dirty_cut(s, offset, len);
        }
    }
}

proof fn lemma_empty_facts(s: Seq<u8>)
    requires
        s.len() == 0,
    ensures
        decode::rust_decodable(s),
        decode::code_points(s).len() == 0,
        decode::all_ascii(s),
{
}

/// A dirty cut of decodable content is not decodable.
proof fn lemma_dirty_cut(s: Seq<u8>, offset: int, len: int)
    requires
        decode::perl_decodable(s),
        0 <= offset,
        0 < len,
        offset + len <= s.len(),
        !cut_clean(s, offset, len),
    ensures
        !decode::perl_decodable(s.subrange(offset, offset + len)),
{
    let part = s.subrange(offset, offset + len);
    lemma_cut_test(s, offset);
    lemma_cut_test(s, offset + len);
    if !decode::clean_cut(s, offset) {
        assert(decode::is_cont(part[0]));
        assert(decode::sequence_at(part, 0) is None);
    } else if decode::perl_decodable(part) {
        // The rest from `offset` on is decodable, and so is its front: then what follows the front begins a sequence.
        decode::lemma_split(s, offset);
        let rest = s.skip(offset);
        let tail = rest.skip(len);
        assert(part + tail =~= rest);
        decode::lemma_concat(part, tail);
        assert(tail[0] == s[offset + len]);
        assert(decode::is_cont(tail[0]));
        assert(decode::sequence_at(tail, 0) is None);
    }
}

/// The slice-eager floor: below it a view classifies at birth.
pub const SLICE_EAGER_FLOOR: usize = 4096;

/// The state that a view is born with: its class where it is short, and otherwise what the cut leaves of its parent's.
pub open spec fn view_state(parent: ScanState, s: Seq<u8>, offset: int, len: int) -> ScanState {
    if len < SLICE_EAGER_FLOOR {
        Terminal::of(s.subrange(offset, offset + len)).state()
    } else {
        sliced_state(parent, cut_clean(s, offset, len))
    }
}

/// The birth state a view of `parent_bytes[offset..offset + len]` carries: the table's answer, improved to a full
/// classification below the eager floor.
pub fn view_birth_state(parent: ScanState, parent_bytes: &[u8], offset: usize, len: usize) -> (r: ScanState)
    requires
        parent.certifies(parent_bytes@),
        offset + len <= parent_bytes@.len(),
    ensures
        r.certifies(parent_bytes@.subrange(offset as int, offset + len)),
        r == view_state(parent, parent_bytes@, offset as int, len as int),
{
    let ghost s = parent_bytes@;
    proof {
        decode::lemma_content_facts(s);
        scan::law_predicates_are_sound(parent, s);
        law_slice_keeps_certification(parent, s, offset as int, len as int);
    }
    assert(offset + len <= parent_bytes.len());
    let clean: bool = cut_is_clean(parent_bytes, offset, len);
    let table: ScanState = slice_birth(parent, clean);
    assert(table == sliced_state(parent, cut_clean(s, offset as int, len as int)));
    proof {
        scan::law_predicates_are_sound(table, s.subrange(offset as int, offset + len));
    }
    if len < SLICE_EAGER_FLOOR && !matches!(table, ScanState::Ascii | ScanState::MalformedUtf8) {
        let part = vstd::slice::slice_subrange(parent_bytes, offset, offset + len);
        let (terminal, _chars) = classify_full(part);
        proof {
            scan::law_terminals_are_exclusive(terminal, part@);
        }
        return terminal.widen();
    }
    table
}

/// An append keeps what it can: nothing is lost by appending ASCII, a settled class of decodable bytes stays settled,
/// and validity, decodability and a high bit stay known once they are.
pub proof fn law_append_keeps_what_is_known(prior: ScanState, class: ValidRange, chars: usize)
    ensures
        ({
            let kind = AppendKind::Valid { class, chars };
            let after = after_append(prior, kind);
            &&& class is Ascii ==> after == prior
            &&& prior.as_terminal() is Some && !(prior is MalformedUtf8) ==> after.as_terminal() is Some
            &&& scan::rust_valid_state(prior) ==> scan::rust_valid_state(after)
            &&& scan::perl_decodable_state(prior) ==> scan::perl_decodable_state(after)
            &&& scan::perl_decodable_state(prior) && scan::non_ascii_state(prior) ==> scan::non_ascii_state(after)
            &&& scan::rust_valid_state(prior) && !(class is Ascii) ==> scan::non_ascii_state(after)
            &&& scan::latin1_range_state(prior) && class is Latin1 ==> scan::latin1_range_state(after)
            &&& scan::rust_valid_state(prior) && class is NonLatin1 ==> scan::beyond_latin1_state(after)
        }),
        after_append(prior, AppendKind::Unknown) is Unknown,
{
}

/// A slice keeps what it can: ASCII stays ASCII, a clean cut keeps validity, decodability and the Latin-1 bound, and a cut
/// that splits a sequence of decodable bytes leaves them malformed.
pub proof fn law_slice_keeps_what_is_known(parent: ScanState)
    ensures
        parent is Ascii ==> sliced_state(parent, true) is Ascii && sliced_state(parent, false) is Ascii,
        scan::rust_valid_state(parent) ==> scan::rust_valid_state(sliced_state(parent, true)),
        scan::perl_decodable_state(parent) ==> scan::perl_decodable_state(sliced_state(parent, true)),
        scan::latin1_range_state(parent) ==> scan::latin1_range_state(sliced_state(parent, true)),
        scan::perl_decodable_state(parent) && !(parent is Ascii) ==> sliced_state(parent, false) is MalformedUtf8,
        !scan::perl_decodable_state(parent) ==> sliced_state(parent, true) is Unknown && sliced_state(parent, false)
            is Unknown,
{
}

/// A cut is clean where nothing is cut out, and otherwise where neither end stands before a continuation byte.
pub proof fn law_clean_cuts_split_no_sequence(s: Seq<u8>, offset: int, len: int)
    requires
        0 <= offset,
        0 <= len,
        offset + len <= s.len(),
    ensures
        len == 0 ==> cut_clean(s, offset, len),
        len > 0 ==> (cut_clean(s, offset, len) <==> (offset == 0 || !(0x80 <= s[offset] <= 0xBF)) && (offset + len
            == s.len() || !(0x80 <= s[offset + len] <= 0xBF))),
        offset == 0 && len == s.len() ==> cut_clean(s, offset, len),
{
}

/// A view below four kibibytes is classified when it is taken; from there on it has what the slice keeps.
pub proof fn law_short_views_are_settled(parent: ScanState, s: Seq<u8>, offset: int, len: int)
    requires
        0 <= offset,
        0 <= len,
        offset + len <= s.len(),
    ensures
        len < 4096 ==> view_state(parent, s, offset, len) == Terminal::of(s.subrange(offset, offset + len)).state(),
        len >= 4096 ==> view_state(parent, s, offset, len) == sliced_state(parent, cut_clean(s, offset, len)),
{
}

} // verus!
