//! A plain heap string: bytes with a flag that says they are valid UTF-8.
use crate::classify::append_span;
use crate::decode;
use crate::numeric_text;
use crate::numeric_text::{float_stop, perl_atoi, skip_ascii_space, skip_white};
use crate::order::equal_bytes;
use crate::utf8;
use crate::utf8::str_of;
use vstd::prelude::*;
use vstd::slice::slice_subrange;
use vstd::string::*;

verus! {

/// What `String::from_utf8_lossy` makes of bytes: their text, with replacements for what is not valid UTF-8.
pub uninterp spec fn lossy_text(bytes: Seq<u8>) -> Seq<char>;

/// `String::from_utf8_lossy`, owned: the text of valid UTF-8, and of any other bytes the text with replacements that
/// the name stands for.
#[verifier::external_body]
fn text_with_replacements(bytes: &[u8]) -> (r: String)
    ensures
        r@ == lossy_text(bytes@),
        vstd::utf8::valid_utf8(bytes@) ==> r@ == vstd::utf8::decode_utf8(bytes@),
{
    String::from_utf8_lossy(bytes).into_owned()
}

/// `String::from_utf8`: the text of valid UTF-8, and the bytes back where they are not that.
#[verifier::external_body]
fn text_of(bytes: Vec<u8>) -> (r: Result<String, Vec<u8>>)
    ensures
        r is Ok <==> vstd::utf8::valid_utf8(bytes@),
        r is Ok ==> r->Ok_0@ == vstd::utf8::decode_utf8(bytes@),
        r is Err ==> r->Err_0 == bytes,
{
    String::from_utf8(bytes).map_err(|error| error.into_bytes())
}

/// An octet sequence with a UTF-8 flag.  With the flag the bytes are valid UTF-8.
#[derive(Debug, Hash)]
pub struct PerlString {
    buf: Vec<u8>,
    is_utf8: bool,
}

impl PerlString {
    /// The flag holds only of valid UTF-8.
    #[verifier::type_invariant]
    pub closed spec fn wf(self) -> bool {
        self.is_utf8 ==> vstd::utf8::valid_utf8(self.buf@)
    }

    /// The bytes.
    pub closed spec fn data(self) -> Seq<u8> {
        self.buf@
    }

    /// The flag.
    pub closed spec fn flagged(self) -> bool {
        self.is_utf8
    }

    /// The empty string, without the flag.
    pub fn new() -> (r: PerlString)
        ensures
            r.data() == Seq::<u8>::empty(),
            !r.flagged(),
    {
        PerlString { buf: Vec::new(), is_utf8: false }
    }

    /// The bytes of a `&str`, with the flag.
    pub fn from_str(s: &str) -> (r: PerlString)
        ensures
            r.data() == s.spec_bytes(),
            r.flagged(),
    {
        let bytes = s.as_bytes();
        let mut buf: Vec<u8> = Vec::new();
        append_span(&mut buf, bytes, 0, bytes.len());
        proof {
            utf8::lemma_str_decodable(s);
            assert(buf@ =~= bytes@);
        }
        PerlString { buf, is_utf8: true }
    }

    /// Raw bytes, without the flag.
    pub fn from_bytes(bytes: Vec<u8>) -> (r: PerlString)
        ensures
            r.data() == bytes@,
            !r.flagged(),
    {
        PerlString { buf: bytes, is_utf8: false }
    }

    /// Raw bytes with a flag that the caller vouches for.
    pub fn from_bytes_utf8_unchecked(bytes: Vec<u8>, is_utf8: bool) -> (r: PerlString)
        requires
            is_utf8 ==> vstd::utf8::valid_utf8(bytes@),
        ensures
            r.data() == bytes@,
            r.flagged() == is_utf8,
    {
        PerlString { buf: bytes, is_utf8 }
    }

    /// Raw bytes, flagged where they are valid UTF-8.
    pub fn from_bytes_detect_utf8(bytes: Vec<u8>) -> (r: PerlString)
        ensures
            r.data() == bytes@,
            r.flagged() == vstd::utf8::valid_utf8(bytes@),
    {
        let is_utf8: bool = str_of(bytes.as_slice()).is_some();
        PerlString { buf: bytes, is_utf8 }
    }

    /// The string as a `&str` where the flag is set.
    pub fn as_str(&self) -> (r: Option<&str>)
        ensures
            r is Some <==> self.flagged(),
            r is Some ==> (r->0).spec_bytes() == self.data(),
    {
        proof {
            use_type_invariant(self);
        }
        if self.is_utf8 {
            str_of(self.buf.as_slice())
        } else {
            None
        }
    }

    /// The bytes, whatever the flag.
    pub fn as_bytes(&self) -> (r: &[u8])
        ensures
            r@ == self.data(),
    {
        self.buf.as_slice()
    }

    /// Whether the flag is set.
    pub fn is_utf8(&self) -> (r: bool)
        ensures
            r == self.flagged(),
    {
        self.is_utf8
    }

    /// Length in bytes.
    pub fn len(&self) -> (r: usize)
        ensures
            r == self.data().len(),
    {
        self.buf.len()
    }

    /// Whether there are no bytes.
    pub fn is_empty(&self) -> (r: bool)
        ensures
            r == (self.data().len() == 0),
    {
        self.buf.len() == 0
    }

    fn take_buf(&mut self) -> (r: Vec<u8>)
        ensures
            r == old(self).buf,
            r@ == old(self).data(),
    {
        let mut taken = PerlString::new();
        std::mem::swap(self, &mut taken);
        taken.buf
    }

    /// Append the bytes of a `&str`.  The flag stays as it is.
    pub fn push_str(&mut self, s: &str)
        ensures
            final(self).data() == old(self).data() + s.spec_bytes(),
            final(self).flagged() == old(self).flagged(),
    {
        proof {
            use_type_invariant(&*self);
        }
        let is_utf8: bool = self.is_utf8;
        let bytes = s.as_bytes();
        let mut buf = self.take_buf();
        append_span(&mut buf, bytes, 0, bytes.len());
        proof {
            assert(bytes@.subrange(0, bytes@.len() as int) =~= bytes@);
            if is_utf8 {
                utf8::lemma_str_decodable(s);
                lemma_valid_concat(old(self).data(), s.spec_bytes());
            }
        }
        *self = PerlString { buf, is_utf8 };
    }

    /// Append raw bytes.  The flag is cleared.
    pub fn push_bytes(&mut self, bytes: &[u8])
        ensures
            final(self).data() == old(self).data() + bytes@,
            !final(self).flagged(),
    {
        let mut buf = self.take_buf();
        append_span(&mut buf, bytes, 0, bytes.len());
        assert(bytes@.subrange(0, bytes@.len() as int) =~= bytes@);
        *self = PerlString { buf, is_utf8: false };
    }

    /// Append another string.  The flag is set only if both have it.
    pub fn push_perl_string(&mut self, other: &PerlString)
        ensures
            final(self).data() == old(self).data() + other.data(),
            final(self).flagged() == (old(self).flagged() && other.flagged()),
    {
        proof {
            use_type_invariant(&*self);
            use_type_invariant(other);
        }
        let is_utf8: bool = self.is_utf8 && other.is_utf8;
        let mut buf = self.take_buf();
        append_span(&mut buf, other.buf.as_slice(), 0, other.buf.len());
        proof {
            assert(other.buf@.subrange(0, other.buf@.len() as int) =~= other.buf@);
            if is_utf8 {
                lemma_valid_concat(old(self).data(), other.data());
            }
        }
        *self = PerlString { buf, is_utf8 };
    }

    /// Drop the contents.  The flag stays as it is.
    pub fn clear(&mut self)
        ensures
            final(self).data() == Seq::<u8>::empty(),
            final(self).flagged() == old(self).flagged(),
    {
        let is_utf8: bool = self.is_utf8;
        let mut buf = self.take_buf();
        buf.clear();
        proof {
            utf8::law_rust_decodable_is_valid_utf8(buf@);
        }
        *self = PerlString { buf, is_utf8 };
    }

    /// Shorten to `len` bytes.  The flag is cleared where that splits a character.
    pub fn truncate(&mut self, len: usize)
        ensures
            final(self).data() == (if len < old(self).data().len() {
                old(self).data().take(len as int)
            } else {
                old(self).data()
            }),
            final(self).flagged() == (old(self).flagged() && vstd::utf8::valid_utf8(final(self).data())),
    {
        proof {
            use_type_invariant(&*self);
        }
        if len < self.buf.len() {
            let was: bool = self.is_utf8;
            let mut buf = self.take_buf();
            buf.truncate(len);
            let is_utf8: bool = was && str_of(buf.as_slice()).is_some();
            *self = PerlString { buf, is_utf8 };
            assert(self.data() =~= old(self).data().take(len as int));
        }
    }

    /// Set the flag where the bytes are valid UTF-8, and say whether they are.
    pub fn upgrade_to_utf8(&mut self) -> (r: bool)
        ensures
            final(self).data() == old(self).data(),
            r == vstd::utf8::valid_utf8(old(self).data()),
            final(self).flagged() == r,
    {
        proof {
            use_type_invariant(&*self);
        }
        if self.is_utf8 {
            return true;
        }
        if str_of(self.buf.as_slice()).is_some() {
            self.is_utf8 = true;
            true
        } else {
            false
        }
    }

    /// Clear the flag.
    pub fn downgrade_from_utf8(&mut self)
        ensures
            final(self).data() == old(self).data(),
            !final(self).flagged(),
    {
        self.is_utf8 = false;
    }

    /// The bytes, consuming the string.
    pub fn into_bytes(self) -> (r: Vec<u8>)
        ensures
            r@ == self.data(),
    {
        self.buf
    }

    /// The text, consuming the string, or the string without its flag where the bytes are not valid UTF-8.
    pub fn into_string(self) -> (r: Result<String, PerlString>)
        ensures
            r is Ok <==> vstd::utf8::valid_utf8(self.data()),
            r is Ok ==> r->Ok_0@ == vstd::utf8::decode_utf8(self.data()),
            r is Err ==> (r->Err_0).data() == self.data() && !(r->Err_0).flagged(),
    {
        match text_of(self.buf) {
            Ok(text) => Ok(text),
            Err(buf) => Err(PerlString { buf, is_utf8: false }),
        }
    }

    /// The text, with replacements for what is not valid UTF-8.
    pub fn display(&self) -> (r: String)
        ensures
            r@ == lossy_text(self.data()),
            vstd::utf8::valid_utf8(self.data()) ==> r@ == vstd::utf8::decode_utf8(self.data()),
    {
        text_with_replacements(self.buf.as_slice())
    }

    /// The bytes without their leading ASCII whitespace.
    pub fn trimmed_bytes(&self) -> (r: &[u8])
        ensures
            r@ == self.data().skip(numeric_text::ascii_space_end(self.data(), 0)),
    {
        let bytes = self.buf.as_slice();
        let start: usize = skip_ascii_space(bytes);
        let r = slice_subrange(bytes, start, bytes.len());
        assert(r@ =~= bytes@.skip(start as int));
        r
    }

    /// The integer at the front: leading whitespace is skipped, what follows the number is ignored, and a string without
    /// a number reads as zero.
    pub fn parse_iv(&self) -> (r: i64)
        ensures
            r == numeric_text::int_reading(
                self.data().skip(numeric_text::ascii_space_end(self.data(), 0)),
            ),
            r == numeric_text::parsed_int(self.data()),
    {
        let text = self.trimmed_bytes();
        perl_atoi(text, skip_white(text))
    }

    /// The part of the string that reads as a float when the whole does not: behind the whitespace at the front, the
    /// longest beginning that is one, or nothing where there is none.
    pub fn float_prefix(&self) -> (r: &[u8])
        ensures
            ({
                let text = self.data().skip(numeric_text::ascii_space_end(self.data(), 0));
                let start = numeric_text::white_end(text, 0);
                r@ == text.subrange(start, numeric_text::float_end(text, start))
            }),
            r@ == numeric_text::parsed_float(self.data()),
    {
        let text = self.trimmed_bytes();
        let start: usize = skip_white(text);
        let end: usize = float_stop(text, start);
        slice_subrange(text, start, end)
    }
}

proof fn lemma_valid_concat(a: Seq<u8>, b: Seq<u8>)
    requires
        vstd::utf8::valid_utf8(a),
        vstd::utf8::valid_utf8(b),
    ensures
        vstd::utf8::valid_utf8(a + b),
{
    utf8::law_rust_decodable_is_valid_utf8(a);
    utf8::law_rust_decodable_is_valid_utf8(b);
    utf8::law_rust_decodable_is_valid_utf8(a + b);
    decode::lemma_concat(a, b);
    let points = decode::code_points(a) + decode::code_points(b);
    assert forall|i: int| 0 <= i < points.len() implies decode::is_scalar_value(#[trigger] points[i]) by {
        if i < decode::code_points(a).len() {
            assert(points[i] == decode::code_points(a)[i]);
        } else {
            assert(points[i] == decode::code_points(b)[i - decode::code_points(a).len()]);
        }
    }
}

impl Clone for PerlString {
    fn clone(&self) -> (r: PerlString)
        ensures
            r.data() == self.data(),
            r.flagged() == self.flagged(),
    {
        proof {
            use_type_invariant(self);
        }
        let mut buf: Vec<u8> = Vec::new();
        append_span(&mut buf, self.buf.as_slice(), 0, self.buf.len());
        assert(buf@ =~= self.buf@);
        PerlString { buf, is_utf8: self.is_utf8 }
    }
}

impl PartialEq for PerlString {
    /// The same bytes under the same flag.
    fn eq(&self, other: &PerlString) -> (r: bool)
    {
        self.is_utf8 == other.is_utf8 && equal_bytes(self.buf.as_slice(), other.buf.as_slice())
    }
}

impl vstd::std_specs::cmp::PartialEqSpecImpl for PerlString {
    open spec fn obeys_eq_spec() -> bool {
        true
    }

    open spec fn eq_spec(&self, other: &PerlString) -> bool {
        self.flagged() == other.flagged() && self.data() == other.data()
    }
}

impl Eq for PerlString {

}

impl Default for PerlString {
    fn default() -> (r: PerlString)
        ensures
            r.data() == Seq::<u8>::empty(),
            !r.flagged(),
    {
        PerlString::new()
    }
}

impl From<&str> for PerlString {
    fn from(s: &str) -> (r: PerlString)
        ensures
            r.data() == s.spec_bytes(),
            r.flagged(),
    {
        PerlString::from_str(s)
    }
}

impl vstd::std_specs::convert::FromSpecImpl<&str> for PerlString {
    open spec fn obeys_from_spec() -> bool {
        false
    }

    open spec fn from_spec(s: &str) -> PerlString {
        arbitrary()
    }
}

impl From<Vec<u8>> for PerlString {
    fn from(bytes: Vec<u8>) -> (r: PerlString)
        ensures
            r.data() == bytes@,
            !r.flagged(),
    {
        PerlString::from_bytes(bytes)
    }
}

impl vstd::std_specs::convert::FromSpecImpl<Vec<u8>> for PerlString {
    open spec fn obeys_from_spec() -> bool {
        false
    }

    open spec fn from_spec(bytes: Vec<u8>) -> PerlString {
        arbitrary()
    }
}

impl From<String> for PerlString {
    fn from(s: String) -> (r: PerlString)
        ensures
            r.data() == vstd::utf8::encode_utf8(s@),
            r.flagged(),
    {
        PerlString::from_str(s.as_str())
    }
}

impl vstd::std_specs::convert::FromSpecImpl<String> for PerlString {
    open spec fn obeys_from_spec() -> bool {
        false
    }

    open spec fn from_spec(s: String) -> PerlString {
        arbitrary()
    }
}

/// Two strings are equal exactly where they have the same bytes and the same flag.
pub proof fn law_equality_is_of_bytes_and_flag(a: PerlString, b: PerlString)
    ensures
        vstd::std_specs::cmp::PartialEqSpec::eq_spec(&a, &b) <==> a.data() == b.data() && a.flagged() == b.flagged(),
{
}

} // verus!
