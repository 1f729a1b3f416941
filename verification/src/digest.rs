//! The byte stream that a string is hashed by: equal strings have equal streams.
use crate::classify::append_span;
use crate::decode;
use crate::decode::decode_one;
use crate::latin1;
use crate::scan;
use crate::scan::{is_known_beyond_latin1, ScanState};
use crate::string::PString;
use std::hash::{Hash, Hasher};
use vstd::prelude::*;

verus! {

/// `Hasher::write`: the bytes go into the hash.  Nothing is said of the hasher's state, which is its own.
#[verifier::external_body]
fn feed<H: Hasher>(state: &mut H, bytes: &[u8])
{
    state.write(bytes);
}

/// `Hasher::write_usize`: a number goes into the hash.  Nothing is said of the hasher's state, which is its own.
#[verifier::external_body]
fn feed_length<H: Hasher>(state: &mut H, len: usize)
{
    state.write_usize(len);
}

impl Hash for PString {
    /// Feeds the canonical byte stream, so that equal strings hash alike; the taint bit is not part of a string's
    /// identity.  Its length goes first, so that what one string feeds never begins what another does.
    fn hash<H: Hasher>(&self, state: &mut H) {
        let stream = self.digest_bytes();
        feed_length(state, stream.len());
        feed(state, stream.as_slice());
    }
}

impl PString {
    /// The canonical byte stream: the downgraded bytes where there are any, and the raw bytes where there are not.
    pub open spec fn digest_form(self) -> Seq<u8> {
        if self.flagged() && latin1::is_latin1_text(self.data()) {
            latin1::narrowed(self.data())
        } else {
            self.data()
        }
    }

    /// The canonical byte stream that a digest of the string is taken over: unflagged strings give their bytes, flagged
    /// strings whose characters all fit a byte give those, and any other flagged string gives its raw bytes.
    pub fn digest_bytes(&self) -> (r: Vec<u8>)
        ensures
            r@ == self.digest_form(),
    {
        let known: ScanState = self.scan_state();
        proof {
            scan::law_predicates_are_sound(known, self.data());
            decode::lemma_content_facts(self.data());
            if decode::all_ascii(self.data()) {
                crate::inline_form::lemma_widened_ascii(self.data());
                latin1::law_narrow_undoes_widen(self.data());
            }
        }
        let mut scratch: [u8; 41] = [0u8; 41];
        let bytes = self.as_bytes(&mut scratch);
        let mut raw: Vec<u8> = Vec::new();
        let as_they_are: bool = !self.is_utf8() || known == ScanState::Ascii || is_known_beyond_latin1(known) || known
            == ScanState::MalformedUtf8;
        if !as_they_are {
            // Both candidates are one pass away: the downgraded one is given up at the first character beyond a byte,
            // or at a sequence that encodes none.
            if let Some(down) = downgraded_stream(bytes) {
                return down;
            }
        }
        append_span(&mut raw, bytes, 0, bytes.len());
        assert(raw@ =~= self.data());
        raw
    }
}

/// The characters of Latin-1 text, one byte each, or `None` where the bytes are not that.
fn downgraded_stream(bytes: &[u8]) -> (r: Option<Vec<u8>>)
    ensures
        r is Some <==> latin1::is_latin1_text(bytes@),
        r is Some ==> (r->0)@ == latin1::narrowed(bytes@),
{
    let ghost s = bytes@;
    let ghost points = decode::code_points(s);
    let mut down: Vec<u8> = Vec::new();
    let mut pos: usize = 0;
    assert(points.skip(0) =~= points);
    assert(latin1::narrowed(s).take(0) =~= seq![]);
    while pos < bytes.len()
        invariant
            s == bytes@,
            points == decode::code_points(s),
            pos <= s.len(),
            down@.len() <= points.len(),
            points.skip(down@.len() as int) == decode::code_points_from(s, pos as int),
            down@ == latin1::narrowed(s).take(down@.len() as int),
            decode::perl_decodable(s) == decode::decodable_from(s, pos as int),
            forall|k: int| 0 <= k < down@.len() ==> #[trigger] points[k] < 0x100,
        decreases s.len() - pos,
    {
        match decode_one(bytes, pos) {
            None => {
                return None;
            },
            Some((len, value)) => {
                let ghost n = down@.len() as int;
                proof {
                    let rest = decode::code_points_from(s, pos as int);
                    assert(rest.len() > 0 && rest[0] == value);
                    assert(points.skip(n).len() == points.len() - n);
                    assert(points.skip(n)[0] == points[n]);
                    assert(points.skip(n + 1) =~= points.skip(n).skip(1));
                    assert(rest.skip(1) =~= decode::code_points_from(s, pos + len));
                }
                if value > 0xFF {
                    assert(points[n] >= 0x100);
                    return None;
                }
                down.push(value as u8);
                assert(down@ =~= latin1::narrowed(s).take(n + 1));
                assert(pos + len <= bytes.len());
                pos = pos + len;
            },
        }
    }
    proof {
        assert(decode::code_points_from(s, pos as int) =~= seq![]);
        assert(points.skip(down@.len() as int).len() == 0);
        assert(latin1::narrowed(s).take(down@.len() as int) =~= latin1::narrowed(s));
    }
    Some(down)
}

/// Equal strings have equal digest streams, whatever their flags and storage.
pub proof fn law_equal_strings_digest_alike(a: PString, b: PString)
    requires
        a.encoding() == b.encoding(),
    ensures
        a.digest_form() == b.digest_form(),
{
    if a.flagged() && !b.flagged() {
        latin1::law_narrow_undoes_widen(b.data());
    } else if !a.flagged() && b.flagged() {
        latin1::law_narrow_undoes_widen(a.data());
    } else if !a.flagged() {
        latin1::law_widen_is_injective(a.data(), b.data());
    }
}

/// Strings that are not equal have different streams, unless one is flagged and cannot be downgraded: no two unflagged
/// strings, and no two flagged ones, are told apart by less than their bytes.
pub proof fn law_digest_stream_tells_strings_apart(a: PString, b: PString)
    requires
        a.encoding() != b.encoding(),
        a.flagged() == b.flagged(),
        a.flagged() ==> latin1::is_latin1_text(a.data()) == latin1::is_latin1_text(b.data()),
    ensures
        a.digest_form() != b.digest_form(),
{
    if a.flagged() && latin1::is_latin1_text(a.data()) {
        latin1::law_widen_undoes_narrow(a.data());
        latin1::law_widen_undoes_narrow(b.data());
    }
}

/// What the stream is: the bytes of an unflagged string; of a flagged one the byte of each character where all of them
/// are at most U+00FF, and otherwise its bytes as they are.
pub proof fn law_digest_stream_is_canonical(s: PString, chars: Seq<char>)
    ensures
        !s.flagged() ==> s.digest_form() == s.data(),
        s.flagged() && s.data() == vstd::utf8::encode_utf8(chars) ==> {
            let narrow = forall|i: int| 0 <= i < chars.len() ==> #[trigger] chars[i] as nat <= 0xFF;
            &&& narrow ==> s.digest_form().len() == chars.len() && forall|i: int|
                0 <= i < chars.len() ==> #[trigger] s.digest_form()[i] as nat == chars[i] as nat
            &&& !narrow ==> s.digest_form() == s.data()
        },
        s.flagged() && !vstd::utf8::valid_utf8(s.data()) ==> s.digest_form() == s.data(),
{
    latin1::law_downgrade_takes_characters_to_bytes(chars);
    if latin1::is_latin1_text(s.data()) {
        latin1::law_only_text_is_downgraded(s.data());
    }
}

} // verus!
