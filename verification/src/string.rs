//! `PString`: a perl string, an octet sequence with its utf8 flag and its taint bit.
//!
//! The utf8 flag is a claim about how to read the bytes, not a fact about them: with the flag the bytes are an encoding
//! in perl's extended UTF-8, without it each byte is one Latin-1 character.  What is known of the bytes themselves is a
//! scan state, and every recorded state is true of the bytes it is recorded for.
//!
//! Content is stored in the value itself where one of the inline, packed or identifier forms holds it, and otherwise in
//! a shared heap buffer, in a view of one, or in an image that outlives every value.
use crate::classify;
use crate::classify::{append_span, classify_full, classify_into, classify_known_valid, classify_known_valid_into};
use crate::cow_buffer::{allocate, provided, reserve_exact, AllocError, Tier};
use crate::decode;
use crate::hex;
use crate::hex::{classify_hex_bytes, decode_hex_bytes, hex_rendered_len};
use crate::inline_form;
use crate::inline_form::{classify_inline, empty_inline, inline_scan_to_heap, latin1_inline, Inline, InlineClass};
use crate::latin1;
use crate::packed;
use crate::order;
use crate::order::Order;
use crate::packed::{pack, Packed};
use crate::scan;
use crate::scan::{is_known_non_ascii, is_perl_decodable, is_rust_valid, is_terminal, ScanState, Terminal, ValidRange};
use crate::storage;
use crate::storage::{heap_storage, inline_storage, packed_storage, uuid_storage, StorageType};
use crate::transition;
use crate::transition::{append_transition_heap, view_birth_state, AppendKind};
use crate::utf8;
use crate::utf8::str_of;
use crate::uuid;
use crate::uuid::{classify_uuid, decode_uuid, UuidForm, UUID_LEN};
use std::sync::Arc;
use vstd::prelude::*;
use vstd::slice::slice_subrange;
use vstd::string::*;

verus! {

/// The widest byte sequence any envelope form decodes to, and so the size of the scratch buffer the borrowing accessors
/// take.
pub const DECODE_MAX: usize = 41;

/// The reach of the 24-bit view and image fields.
const SPAN: usize = 0xFF_FFFF;

/// `Arc::try_unwrap`: the buffer itself where this was the only handle to it, and the handle back where it was not.
/// Which of the two it is depends on who else holds the buffer.
#[verifier::external_body]
fn take_unshared(buffer: Arc<Vec<u8>>) -> (r: Result<Vec<u8>, Arc<Vec<u8>>>)
    ensures
        r is Ok ==> r->Ok_0 == *buffer,
        r is Err ==> r->Err_0 == buffer,
{
    Arc::try_unwrap(buffer)
}

/// `Arc::strong_count`: how many handles hold the buffer, this one among them.  Nothing more is said of the number,
/// which depends on who else holds it.
#[verifier::external_body]
fn holder_count(buffer: &Arc<Vec<u8>>) -> (n: usize)
    ensures
        n >= 1,
{
    Arc::strong_count(buffer)
}

/// A heap buffer with what is known of it.
struct HeapBuf {
    bytes: Arc<Vec<u8>>,
    /// The logical capacity: what the buffer may grow to without leaving its allocation.
    cap: usize,
    /// The character count, zero where it is not known.
    count: usize,
    scan: ScanState,
    tier: Tier,
}

impl HeapBuf {
    spec fn wf(self) -> bool {
        let s = self.bytes@;
        &&& s.len() <= self.cap <= self.tier.ceiling()
        &&& self.scan.certifies(s)
        &&& self.tier is Heap8 || self.tier is Heap16 ==> self.scan.as_terminal() is Some
        &&& counted(s, self.count)
    }
}

/// A recorded character count: none, or the true one.
spec fn counted(s: Seq<u8>, count: usize) -> bool {
    count == 0 || (decode::perl_decodable(s) && count == decode::code_points(s).len())
}

/// Who guarantees the life of an image.
#[derive(Clone, Copy, PartialEq, Eq, Structural, Debug)]
enum BorrowedForm {
    Immortal,
    Static,
}

/// Bytes that outlive every value, with their facts settled at construction.
#[derive(Clone, Copy)]
struct Image {
    form: BorrowedForm,
    bytes: &'static [u8],
    count: usize,
    scan: Terminal,
}

impl Image {
    spec fn wf(self) -> bool {
        &&& self.scan == Terminal::of(self.bytes@)
        &&& self.count == classify::char_count(self.bytes@)
    }
}

/// What a view is a view of, and so the widths its coordinates keep to.
#[derive(Clone, Copy, PartialEq, Eq, Structural, Debug)]
enum ViewBacking {
    Heap32Medium,
    Heap32Far,
    Small { cap: usize },
    /// A range of an adopted object; `whole` where it is all of it.
    Adopted { whole: bool },
    AdoptedFar,
}

/// A range of a shared buffer.  `base` is where the object that the coordinates are relative to begins in the buffer.
struct Window {
    backing: ViewBacking,
    bytes: Arc<Vec<u8>>,
    base: usize,
    offset: usize,
    len: usize,
    scan: ScanState,
}

impl Window {
    spec fn content(self) -> Seq<u8> {
        self.bytes@.subrange(self.base + self.offset, self.base + self.offset + self.len)
    }

    spec fn wf(self) -> bool {
        &&& self.base + self.offset + self.len <= self.bytes@.len()
        &&& self.scan.certifies(self.content())
        &&& match self.backing {
            ViewBacking::Heap32Medium => {
                &&& self.base == 0
                &&& self.offset < SPAN
                &&& self.len < SPAN
                &&& self.bytes@.len() <= u32::MAX
            },
            ViewBacking::Heap32Far => self.base == 0 && self.len <= u16::MAX && self.bytes@.len() <= u32::MAX,
            ViewBacking::Small { cap } => self.base == 0 && self.offset + self.len <= cap <= u16::MAX,
            ViewBacking::Adopted { whole } => if whole {
                self.offset == 0
            } else {
                self.offset < SPAN && self.len < SPAN
            },
            ViewBacking::AdoptedFar => self.offset <= u32::MAX && self.len <= u16::MAX,
        }
    }
}

/// The storage behind a string.
enum Repr {
    Inline(Inline),
    Packed(Packed),
    Uuid { form: UuidForm, payload: [u8; 15] },
    Hex { payload: [u8; 15] },
    Heap(HeapBuf),
    Image(Image),
    View(Window),
}

impl Repr {
    spec fn wf(self) -> bool {
        &&& match self {
            Repr::Inline(form) => form.wf(),
            Repr::Packed(form) => form.canonical(),
            Repr::Uuid { form, payload } => true,
            Repr::Hex { payload } => hex::hex_wf(payload@),
            Repr::Heap(buffer) => buffer.wf(),
            Repr::Image(image) => image.wf(),
            Repr::View(window) => window.wf(),
        }
        &&& self.in_envelope() ==> self.chosen()
    }

    /// Held in the value itself.
    spec fn in_envelope(self) -> bool {
        !(self is Heap || self is Image || self is View)
    }

    /// Held in the form that selection gives the content.
    spec fn chosen(self) -> bool {
        &&& storage::envelope_holds(self.content())
        &&& self.storage() == storage::envelope_storage(self.content())
    }

    spec fn content(self) -> Seq<u8> {
        match self {
            Repr::Inline(form) => form.content(),
            Repr::Packed(form) => form.content(),
            Repr::Uuid { form, payload } => uuid::uuid_spelling(form, payload@),
            Repr::Hex { payload } => hex::hex_spelling(payload@),
            Repr::Heap(buffer) => buffer.bytes@,
            Repr::Image(image) => image.bytes@,
            Repr::View(window) => window.content(),
        }
    }

    spec fn state(self) -> ScanState {
        match self {
            Repr::Inline(form) => form.class.terminal().state(),
            Repr::Packed(_) => ScanState::Ascii,
            Repr::Uuid { .. } => ScanState::Ascii,
            Repr::Hex { .. } => ScanState::Ascii,
            Repr::Heap(buffer) => buffer.scan,
            Repr::Image(image) => image.scan.state(),
            Repr::View(window) => window.scan,
        }
    }

    spec fn storage(self) -> StorageType {
        match self {
            Repr::Inline(form) => storage::of_inline(form.class, form.full),
            Repr::Packed(form) => storage::of_packed(form.alphabet, form.full),
            Repr::Uuid { form, .. } => storage::of_uuid(form),
            Repr::Hex { .. } => StorageType::PackedHexBytes,
            Repr::Heap(buffer) => storage::of_heap(buffer.tier, buffer.scan is Ascii),
            Repr::Image(image) => match (image.form, image.bytes@.len() > SPAN) {
                (BorrowedForm::Immortal, false) => StorageType::Immortal,
                (BorrowedForm::Immortal, true) => StorageType::LargeImmortal,
                (BorrowedForm::Static, false) => StorageType::Static,
                (BorrowedForm::Static, true) => StorageType::LargeStatic,
            },
            Repr::View(window) => match window.backing {
                ViewBacking::Heap32Medium => StorageType::MediumSlice,
                ViewBacking::Heap32Far => StorageType::FarSlice,
                ViewBacking::Small { .. } => StorageType::SmallSlice,
                ViewBacking::Adopted { .. } => StorageType::Adopted,
                ViewBacking::AdoptedFar => StorageType::FarAdopted,
            },
        }
    }
}

/// What holds of every well-formed storage: its state is true of its content.
proof fn lemma_repr_certified(repr: Repr)
    requires
        repr.wf(),
    ensures
        repr.state().certifies(repr.content()),
{
    let s = repr.content();
    decode::lemma_content_facts(s);
    match repr {
        Repr::Inline(form) => {
            scan::law_terminals_are_exclusive(form.class.terminal(), s);
        },
        Repr::Packed(form) => {
            packed::lemma_packed_ascii(form);
        },
        Repr::Uuid { form, payload } => {
            uuid::lemma_uuid_ascii(form, payload@);
        },
        Repr::Hex { payload } => {
            hex::lemma_hex_ascii(payload@);
        },
        Repr::Image(image) => {
            scan::law_terminals_are_exclusive(image.scan, s);
        },
        _ => {},
    }
}

/// The storage types of each kind of storage.
proof fn lemma_storage_kinds(repr: Repr)
    ensures
        repr.storage().heap_type() == (repr is Heap),
        repr.storage().view_type() == (repr is View),
        repr.storage().image_type() == (repr is Image),
        repr.storage().inline_type() == (repr is Inline),
        repr.storage().packed_type() == (repr is Packed || repr is Uuid || repr is Hex),
{
    if let Repr::Uuid { form, payload } = repr {
        assert(storage::of_uuid(form) == repr.storage());
    }
}

/// Packed content is ASCII, and each kind of storage has storage types of its own.
proof fn lemma_packed_is_ascii(s: PString)
    requires
        s.wf(),
    ensures
        s.storage().packed_type() ==> decode::all_ascii(s.data()),
        s.storage().heap_type() == (s.repr is Heap),
        s.storage().inline_type() == (s.repr is Inline),
        s.storage().view_type() == (s.repr is View),
{
    lemma_storage_kinds(s.repr);
    lemma_repr_certified(s.repr);
}

/// An inline form is the one that selection gives its content.
proof fn lemma_inline_chosen(form: Inline)
    requires
        form.wf(),
    ensures
        Repr::Inline(form).chosen(),
{
    let s = form.content();
    reveal(storage::envelope_holds);
    reveal(storage::envelope_storage);
    inline_form::lemma_inline_content_held(form);
    assert(form.class == storage::class_of(s));
    if form.class is Latin1 {
        latin1::law_narrow_undoes_widen(form.stored());
    } else if latin1::is_latin1_text(s) {
        inline_form::lemma_verbatim_latin1(form);
    }
    assert(form.stored().len() == form.stored_len());
}

/// A packed form is the one that selection gives its content.
proof fn lemma_packed_chosen(form: Packed)
    requires
        form.canonical(),
    ensures
        Repr::Packed(form).chosen(),
{
    let s = form.content();
    reveal(storage::envelope_holds);
    reveal(storage::envelope_storage);
    packed::lemma_packed_ascii(form);
    lemma_ascii_narrow(s);
    assert(s.len() == form.length());
}

/// A perl string.
pub struct PString {
    utf8: bool,
    tainted: bool,
    repr: Repr,
}

impl PString {
    /// A string as every exec value is: its storage is well-formed.
    #[verifier::type_invariant]
    pub closed spec fn wf(self) -> bool {
        self.repr.wf()
    }

    /// The string's bytes.
    pub closed spec fn data(self) -> Seq<u8> {
        self.repr.content()
    }

    /// The utf8 flag.
    pub closed spec fn flagged(self) -> bool {
        self.utf8
    }

    /// The taint bit.
    pub closed spec fn taint_bit(self) -> bool {
        self.tainted
    }

    /// What is recorded of the bytes.
    pub closed spec fn state(self) -> ScanState {
        self.repr.state()
    }

    /// How the bytes are stored.
    pub closed spec fn storage(self) -> StorageType {
        self.repr.storage()
    }

    /// The stored array of a string that is held in the value itself.
    pub closed spec fn envelope(self) -> Seq<u8> {
        match self.repr {
            Repr::Inline(form) => form.buf@,
            Repr::Packed(form) => form.nibbles@,
            Repr::Uuid { payload, .. } => payload@,
            Repr::Hex { payload } => payload@,
            _ => seq![],
        }
    }

    /// The characters of the string in perl's encoding: the bytes themselves with the utf8 flag, and their upgrade
    /// without it.  Two strings are the same to perl exactly when their encodings are.
    pub open spec fn encoding(self) -> Seq<u8> {
        if self.flagged() {
            self.data()
        } else {
            latin1::widened(self.data())
        }
    }
}

/// The bytes that perl takes for true.
pub open spec fn truthy(s: Seq<u8>) -> bool {
    s != Seq::<u8>::empty() && s != seq![0x30u8]
}

/// Only the empty string and the single digit zero are false, as bytes: longer strings are true whatever they hold.
pub proof fn law_only_empty_and_zero_are_false(s: Seq<u8>)
    ensures
        s.len() == 0 ==> !truthy(s),
        s.len() == 1 ==> (truthy(s) <==> s[0] != 0x30),
        s.len() > 1 ==> truthy(s),
{
    if s.len() == 0 {
        assert(s =~= Seq::<u8>::empty());
    }
    if s.len() == 1 {
        if s[0] == 0x30 {
            assert(s =~= seq![0x30u8]);
        } else {
            assert(seq![0x30u8][0] == 0x30);
        }
    }
    if s.len() > 1 {
        assert(seq![0x30u8].len() == 1);
    }
}

/// The recorded scan state of a string is true of its bytes.
pub proof fn law_state_certifies_data(s: PString)
    requires
        s.wf(),
    ensures
        s.state().certifies(s.data()),
{
    lemma_repr_certified(s.repr);
}

/// Every storage but the large heap tiers and the views knows the class of its bytes exactly.
pub proof fn law_small_storage_is_settled(s: PString)
    requires
        s.wf(),
        !(s.storage() is Heap32 || s.storage() is Heap || s.storage().view_type()),
    ensures
        s.state() == Terminal::of(s.data()).state(),
{
    lemma_repr_certified(s.repr);
    scan::law_predicates_are_sound(s.state(), s.data());
    decode::lemma_content_facts(s.data());
}

/// The stored form is canonical: strings that are held in the value itself with the same bytes have the same storage
/// type and the same stored array, whatever was done to them, and it is the type that selection gives those bytes.
pub proof fn law_envelope_form_is_canonical(a: PString, b: PString)
    requires
        a.wf(),
        b.wf(),
        a.data() == b.data(),
        a.storage().inline_type() || a.storage().packed_type(),
        b.storage().inline_type() || b.storage().packed_type(),
    ensures
        a.storage() == storage::canonical_storage(a.data()),
        a.storage() == b.storage(),
        a.envelope() == b.envelope(),
{
    match (a.repr, b.repr) {
        (Repr::Inline(x), Repr::Inline(y)) => {
            inline_form::law_inline_representation_is_canonical(x, y);
        },
        (Repr::Packed(x), Repr::Packed(y)) => {
            packed::law_packed_representation_is_canonical(x, y);
        },
        (Repr::Uuid { form: fx, payload: x }, Repr::Uuid { form: fy, payload: y }) => {
            uuid::law_uuid_representation_is_canonical(fx, x@, fy, y@);
        },
        (Repr::Hex { payload: x }, Repr::Hex { payload: y }) => {
            hex::law_hex_representation_is_canonical(x@, y@);
        },
        _ => {},
    }
}

impl Window {
    fn as_slice(&self) -> (r: &[u8])
        requires
            self.wf(),
        ensures
            r@ == self.content(),
    {
        let whole = self.bytes.as_slice();
        assert(self.base + self.offset + self.len <= whole.len());
        slice_subrange(whole, self.base + self.offset, self.base + self.offset + self.len)
    }
}

impl Clone for HeapBuf {
    fn clone(&self) -> (r: HeapBuf)
        ensures
            r == *self,
    {
        HeapBuf { bytes: self.bytes.clone(), cap: self.cap, count: self.count, scan: self.scan, tier: self.tier }
    }
}

impl Clone for Window {
    fn clone(&self) -> (r: Window)
        ensures
            r == *self,
    {
        Window {
            backing: self.backing,
            bytes: self.bytes.clone(),
            base: self.base,
            offset: self.offset,
            len: self.len,
            scan: self.scan,
        }
    }
}

impl Clone for Repr {
    fn clone(&self) -> (r: Repr)
        ensures
            r == *self,
    {
        match self {
            Repr::Inline(form) => Repr::Inline(*form),
            Repr::Packed(form) => Repr::Packed(*form),
            Repr::Uuid { form, payload } => Repr::Uuid { form: *form, payload: *payload },
            Repr::Hex { payload } => Repr::Hex { payload: *payload },
            Repr::Heap(buffer) => Repr::Heap(buffer.clone()),
            Repr::Image(image) => Repr::Image(*image),
            Repr::View(window) => Repr::View(window.clone()),
        }
    }
}

impl Clone for PString {
    /// The same string over the same storage: a shared buffer gains a holder, nothing is copied.
    fn clone(&self) -> (r: PString)
        ensures
            r == *self,
    {
        proof {
            use_type_invariant(self);
        }
        PString { utf8: self.utf8, tainted: self.tainted, repr: self.repr.clone() }
    }
}

impl std::str::FromStr for PString {
    type Err = AllocError;

    /// The same construction as [`PString::new`].
    fn from_str(s: &str) -> (r: Result<PString, AllocError>)
        ensures
            r is Ok ==> (r->Ok_0).data() == s.spec_bytes() && (r->Ok_0).flagged() == !decode::all_ascii(s.spec_bytes()),
            r is Ok ==> !(r->Ok_0).taint_bit() && (r->Ok_0).storage() == storage::canonical_storage(s.spec_bytes()),
            r is Err ==> !storage::envelope_holds(s.spec_bytes()) && (r->Err_0).requested == birth(s.spec_bytes()),
    {
        PString::new(s)
    }
}

impl Default for PString {
    /// The empty string, per [`PString::empty`].
    fn default() -> (r: PString)
        ensures
            r.data() == Seq::<u8>::empty(),
            !r.flagged(),
            !r.taint_bit(),
            r.storage() is InlineAscii,
    {
        PString::empty()
    }
}

impl PString {
    /// The storage type.
    pub fn storage_type(&self) -> (r: StorageType)
        ensures
            r == self.storage(),
    {
        match &self.repr {
            Repr::Inline(form) => inline_storage(form.class, form.full),
            Repr::Packed(form) => packed_storage(form.alphabet, form.full),
            Repr::Uuid { form, payload: _ } => uuid_storage(*form),
            Repr::Hex { payload: _ } => StorageType::PackedHexBytes,
            Repr::Heap(buffer) => heap_storage(buffer.tier, buffer.scan == ScanState::Ascii),
            Repr::Image(image) => {
                let large: bool = image.bytes.len() > SPAN;
                match image.form {
                    BorrowedForm::Immortal => if large { StorageType::LargeImmortal } else { StorageType::Immortal },
                    BorrowedForm::Static => if large { StorageType::LargeStatic } else { StorageType::Static },
                }
            },
            Repr::View(window) => match window.backing {
                ViewBacking::Heap32Medium => StorageType::MediumSlice,
                ViewBacking::Heap32Far => StorageType::FarSlice,
                ViewBacking::Small { cap: _ } => StorageType::SmallSlice,
                ViewBacking::Adopted { whole: _ } => StorageType::Adopted,
                ViewBacking::AdoptedFar => StorageType::FarAdopted,
            },
        }
    }

    /// The perl utf8 flag: a claim about how to read the bytes, not about their validity.
    pub fn is_utf8(&self) -> (r: bool)
        ensures
            r == self.flagged(),
    {
        self.utf8
    }

    /// Whether this value is tainted.
    pub fn is_tainted(&self) -> (r: bool)
        ensures
            r == self.taint_bit(),
    {
        self.tainted
    }

    /// The empty string: inline, unflagged, trivially ASCII.
    pub fn empty() -> (r: PString)
        ensures
            r.data() == Seq::<u8>::empty(),
            !r.flagged(),
            !r.taint_bit(),
            r.storage() is InlineAscii,
    {
        let form = empty_inline();
        proof {
            lemma_inline_chosen(form);
            decode::lemma_content_facts(form.content());
            assert(form.stored_len() == 0);
        }
        PString { utf8: false, tainted: false, repr: Repr::Inline(form) }
    }

    /// Perl truthiness: every string is true but `""` and `"0"`.
    pub fn to_bool(&self) -> (r: bool)
        ensures
            r == truthy(self.data()),
            r <==> self.data().len() > 1 || (self.data().len() == 1 && self.data()[0] != 0x30),
    {
        let mut scratch: [u8; 41] = [0u8; 41];
        let bytes = self.as_bytes(&mut scratch);
        let falsy: bool = bytes.len() == 0 || (bytes.len() == 1 && bytes[0] == 0x30);
        proof {
            if falsy {
                assert(bytes@ =~= seq![] || bytes@ =~= seq![0x30u8]);
            }
        }
        !falsy
    }

    /// The stored array of a string that is held in the value itself, padding and auxiliary nibbles included.
    pub fn envelope_bytes(&self) -> (r: Option<&[u8; 15]>)
        ensures
            r is Some <==> self.storage().inline_type() || self.storage().packed_type(),
            r is Some ==> (r->0)@ == self.envelope(),
    {
        match &self.repr {
            Repr::Inline(form) => Some(&form.buf),
            Repr::Packed(form) => Some(&form.nibbles),
            Repr::Uuid { form: _, payload } => Some(payload),
            Repr::Hex { payload } => Some(payload),
            _ => None,
        }
    }

    /// Length in bytes.
    pub fn len(&self) -> (r: usize)
        ensures
            r == self.data().len(),
    {
        proof {
            use_type_invariant(self);
        }
        match &self.repr {
            Repr::Inline(form) => form.internal_len(),
            Repr::Packed(form) => form.len(),
            Repr::Uuid { form: _, payload: _ } => UUID_LEN,
            Repr::Hex { payload } => hex_rendered_len(payload),
            Repr::Heap(buffer) => buffer.bytes.len(),
            Repr::Image(image) => image.bytes.len(),
            Repr::View(window) => window.len,
        }
    }

    /// Whether the string is empty.
    pub fn is_empty(&self) -> (r: bool)
        ensures
            r == (self.data().len() == 0),
    {
        self.len() == 0
    }

    /// The string's bytes, whatever form this value stores them in: borrowed from the string where they exist in that
    /// form, and from `scratch` where they have to be decoded.
    pub fn as_bytes<'a>(&'a self, scratch: &'a mut [u8; 41]) -> (r: &'a [u8])
        ensures
            r@ == self.data(),
    {
        proof {
            use_type_invariant(self);
        }
        match &self.repr {
            Repr::Inline(form) => {
                let n: usize = form.expand(scratch);
                let r = slice_subrange(scratch.as_slice(), 0, n);
                assert(r@ =~= form.content());
                r
            },
            Repr::Packed(form) => {
                let n: usize = form.unpack(scratch);
                let r = slice_subrange(scratch.as_slice(), 0, n);
                assert(r@ =~= form.content());
                r
            },
            Repr::Uuid { form, payload } => {
                let n: usize = decode_uuid(*form, payload, scratch);
                let r = slice_subrange(scratch.as_slice(), 0, n);
                assert(r@ =~= uuid::uuid_spelling(*form, payload@));
                r
            },
            Repr::Hex { payload } => {
                let n: usize = decode_hex_bytes(payload, scratch);
                let r = slice_subrange(scratch.as_slice(), 0, n);
                assert(r@ =~= hex::hex_spelling(payload@));
                r
            },
            Repr::Heap(buffer) => buffer.bytes.as_slice(),
            Repr::Image(image) => image.bytes,
            Repr::View(window) => window.as_slice(),
        }
    }

    /// The current scan state.  Reads existing knowledge only; performs no scan.
    pub fn scan_state(&self) -> (r: ScanState)
        ensures
            r == self.state(),
            r.certifies(self.data()),
    {
        proof {
            use_type_invariant(self);
            lemma_repr_certified(self.repr);
        }
        match &self.repr {
            Repr::Inline(form) => inline_scan_to_heap(form.class),
            Repr::Packed(_) => ScanState::Ascii,
            Repr::Uuid { form: _, payload: _ } => ScanState::Ascii,
            Repr::Hex { payload: _ } => ScanState::Ascii,
            Repr::Heap(buffer) => buffer.scan,
            Repr::Image(image) => image.scan.widen(),
            Repr::View(window) => window.scan,
        }
    }
}

/// Whether every byte is ASCII.
pub fn all_bytes_ascii(bytes: &[u8]) -> (r: bool)
    ensures
        r == decode::all_ascii(bytes@),
{
    latin1::first_variant(bytes).is_none()
}

impl PString {
    /// View as a Rust `&str` if the bytes are valid UTF-8, a question of fact independent of the perl flag.
    pub fn as_str<'a>(&'a self, scratch: &'a mut [u8; 41]) -> (r: Option<&'a str>)
        ensures
            r is Some <==> vstd::utf8::valid_utf8(self.data()),
            r is Some ==> (r->0).spec_bytes() == self.data(),
    {
        let known: ScanState = self.scan_state();
        proof {
            utf8::law_rust_decodable_is_valid_utf8(self.data());
            scan::law_predicates_are_sound(known, self.data());
        }
        let bytes = self.as_bytes(scratch);
        if is_rust_valid(known) {
            return str_of(bytes);
        }
        match known {
            ScanState::MalformedUtf8 | ScanState::ExtendedUtf8 => None,
            _ => {
                // Undecided: classify, and answer.
                let (settled, _chars) = classify_full(bytes);
                proof {
                    scan::law_terminals_are_exclusive(settled, bytes@);
                    scan::law_predicates_are_sound(settled.state(), bytes@);
                }
                if is_rust_valid(settled.widen()) {
                    str_of(bytes)
                } else {
                    None
                }
            },
        }
    }

    /// Whether the content is pure 7-bit ASCII.
    pub fn is_ascii(&self) -> (r: bool)
        ensures
            r == decode::all_ascii(self.data()),
    {
        let known: ScanState = self.scan_state();
        proof {
            decode::lemma_content_facts(self.data());
            scan::law_predicates_are_sound(known, self.data());
        }
        if known == ScanState::Ascii {
            true
        } else if is_known_non_ascii(known) {
            false
        } else {
            // Undecided: probe.
            let mut scratch: [u8; 41] = [0u8; 41];
            all_bytes_ascii(self.as_bytes(&mut scratch))
        }
    }

    /// Whether the bytes are shared with another holder: a heap buffer with more than one, or a view, which pins bytes
    /// it does not own.
    pub fn is_shared(&self) -> (r: bool)
        ensures
            self.storage().inline_type() || self.storage().packed_type() || self.storage().image_type() ==> !r,
            self.storage().view_type() ==> r,
    {
        proof {
            lemma_storage_kinds(self.repr);
        }
        self.shared_among(self.holders())
    }

    /// Whether the bytes are shared, given how many handles hold the heap buffer, where there is one.
    pub fn shared_among(&self, holders: usize) -> (r: bool)
        ensures
            r == (self.storage().view_type() || (self.storage().heap_type() && holders > 1)),
    {
        proof {
            lemma_storage_kinds(self.repr);
        }
        match &self.repr {
            Repr::Heap(_) => holders > 1,
            Repr::View(_) => true,
            _ => false,
        }
    }

    /// How many handles hold the heap buffer; storage of another kind has this value for its holder.
    fn holders(&self) -> (n: usize)
        ensures
            n >= 1,
            !(self.repr is Heap) ==> n == 1,
    {
        match &self.repr {
            Repr::Heap(buffer) => holder_count(&buffer.bytes),
            _ => 1,
        }
    }

    /// Whether the bytes are valid under perl's extended UTF-8 rules.
    pub fn is_perl_utf8_valid(&self) -> (r: bool)
        ensures
            r == decode::perl_decodable(self.data()),
    {
        let known: ScanState = self.scan_state();
        proof {
            scan::law_predicates_are_sound(known, self.data());
        }
        if is_perl_decodable(known) {
            return true;
        }
        if known == ScanState::MalformedUtf8 {
            return false;
        }
        let mut scratch: [u8; 41] = [0u8; 41];
        let (settled, _chars) = classify_full(self.as_bytes(&mut scratch));
        is_perl_decodable(settled.widen())
    }

    /// Character length under perl's flagged semantics: the character count of the decoded content, or `None` where the
    /// content is malformed under perl's extended rules.
    pub fn char_len(&self) -> (r: Option<usize>)
        ensures
            r is Some <==> decode::perl_decodable(self.data()),
            r is Some ==> r->0 == decode::code_points(self.data()).len(),
    {
        proof {
            use_type_invariant(self);
            lemma_repr_certified(self.repr);
            decode::lemma_content_facts(self.data());
            scan::law_predicates_are_sound(self.state(), self.data());
            if decode::all_ascii(self.data()) {
                lemma_ascii_count(self.data());
            }
        }
        match &self.repr {
            Repr::Packed(form) => Some(form.len()),
            Repr::Uuid { form: _, payload: _ } => Some(UUID_LEN),
            Repr::Hex { payload } => Some(hex_rendered_len(payload)),
            Repr::Inline(form) => {
                proof {
                    if form.class is Latin1 {
                        latin1::lemma_widened_decodes(form.stored());
                    }
                }
                match form.class {
                    // The transcoded units are the characters.
                    InlineClass::Ascii | InlineClass::Latin1 => Some(form.stored_count()),
                    InlineClass::Bytes => None,
                    InlineClass::NonLatin1 | InlineClass::Extended => Some(form.derived_aux()),
                }
            },
            Repr::View(window) => chars_of(window.as_slice(), window.scan, 0),
            Repr::Image(image) => if image.scan == Terminal::MalformedUtf8 {
                None
            } else {
                Some(image.count)
            },
            Repr::Heap(buffer) => chars_of(buffer.bytes.as_slice(), buffer.scan, buffer.count),
        }
    }
}

proof fn lemma_ascii_count(s: Seq<u8>)
    requires
        decode::all_ascii(s),
    ensures
        decode::perl_decodable(s),
        decode::code_points(s).len() == s.len(),
{
    classify::lemma_ascii_run(s, 0, s.len() as int);
}

/// The character count of bytes of which a state and perhaps a count is known.
fn chars_of(bytes: &[u8], known: ScanState, cached: usize) -> (r: Option<usize>)
    requires
        known.certifies(bytes@),
        counted(bytes@, cached),
    ensures
        r is Some <==> decode::perl_decodable(bytes@),
        r is Some ==> r->0 == decode::code_points(bytes@).len(),
{
    if bytes.len() == 0 {
        return Some(0);
    }
    match known {
        ScanState::Ascii => {
            proof {
                lemma_ascii_count(bytes@);
            }
            Some(bytes.len())
        },
        ScanState::MalformedUtf8 => None,
        _ => {
            if cached > 0 {
                return Some(cached);
            }
            let (settled, chars) = classify_full(bytes);
            if settled == Terminal::MalformedUtf8 {
                None
            } else {
                Some(chars)
            }
        },
    }
}

/// A heap buffer holding `bytes`, in the smallest tier that can, with facts the caller knows.
fn heap_from_slice(bytes: &[u8], scan: ScanState, count: usize) -> (r: Result<HeapBuf, AllocError>)
    requires
        scan.as_terminal() is Some,
        scan.certifies(bytes@),
        counted(bytes@, count),
    ensures
        r is Ok ==> (r->Ok_0).wf() && (r->Ok_0).bytes@ == bytes@ && (r->Ok_0).scan == scan && (r->Ok_0).tier
            == Tier::of_length(bytes@.len()),
        r is Err ==> (r->Err_0).requested == birth(bytes@),
{
    let tier = Tier::for_length(bytes.len());
    let cap: usize = tier.class_capacity(bytes.len());
    match allocate(tier, cap) {
        Err(error) => Err(error),
        Ok(mut buffer) => {
            append_span(&mut buffer, bytes, 0, bytes.len());
            assert(buffer@ =~= bytes@);
            Ok(HeapBuf { bytes: Arc::new(buffer), cap, count, scan, tier })
        },
    }
}

/// The capacity that a buffer for the content is asked for with.
pub open spec fn birth(s: Seq<u8>) -> nat {
    Tier::of_length(s.len()).birth_capacity(s.len())
}

/// A heap buffer holding `bytes`, classified while they are copied.
fn heap_parts_classified(bytes: &[u8]) -> (r: Result<HeapBuf, AllocError>)
    ensures
        r is Ok ==> (r->Ok_0).wf() && (r->Ok_0).bytes@ == bytes@ && (r->Ok_0).scan == Terminal::of(bytes@).state()
            && (r->Ok_0).tier == Tier::of_length(bytes@.len()),
        r is Err ==> (r->Err_0).requested == birth(bytes@),
{
    let tier = Tier::for_length(bytes.len());
    let cap: usize = tier.class_capacity(bytes.len());
    match allocate(tier, cap) {
        Err(error) => Err(error),
        Ok(mut buffer) => {
            let (terminal, count) = classify_into(&mut buffer, bytes);
            proof {
                assert(buffer@ =~= bytes@);
                scan::law_terminals_are_exclusive(terminal, bytes@);
            }
            Ok(HeapBuf { bytes: Arc::new(buffer), cap, count, scan: terminal.widen(), tier })
        },
    }
}

/// A heap buffer holding appended content, classified by the transition where that suffices.
fn heap_parts_transitioned(bytes: &[u8], state: ScanState, chars: usize) -> (r: Result<HeapBuf, AllocError>)
    requires
        state.certifies(bytes@),
        counted(bytes@, chars),
    ensures
        r is Ok ==> (r->Ok_0).wf() && (r->Ok_0).bytes@ == bytes@ && (r->Ok_0).scan == Terminal::of(bytes@).state()
            && (r->Ok_0).tier == Tier::of_length(bytes@.len()),
        r is Err ==> (r->Err_0).requested == birth(bytes@),
{
    if !is_terminal(state) {
        return heap_parts_classified(bytes);
    }
    proof {
        scan::law_predicates_are_sound(state, bytes@);
    }
    heap_from_slice(bytes, state, chars)
}

/// The storage of the envelope form that holds the bytes, or `None` where none does: inline, then the alphabets, then
/// the identifier families.
fn envelope(bytes: &[u8]) -> (r: Option<Repr>)
    ensures
        r is Some <==> storage::envelope_holds(bytes@),
        r is Some ==> (r->0).wf() && (r->0).content() == bytes@ && (r->0).storage() == storage::envelope_storage(bytes@),
        r is Some ==> !(r->0 is Heap || r->0 is Image || r->0 is View),
        r is Some ==> (r->0).state() == Terminal::of(bytes@).state(),
{
    proof {
        reveal(storage::envelope_holds);
        reveal(storage::envelope_storage);
        decode::lemma_content_facts(bytes@);
    }
    if let Some(form) = classify_inline(bytes) {
        proof {
            lemma_inline_chosen(form);
        }
        return Some(Repr::Inline(form));
    }
    if 16 <= bytes.len() && bytes.len() <= 30 {
        if let Some(form) = pack(bytes) {
            proof {
                lemma_packed_chosen(form);
                packed::lemma_packed_ascii(form);
            }
            return Some(Repr::Packed(form));
        }
    }
    if let Some((form, payload)) = classify_uuid(bytes) {
        proof {
            uuid::lemma_uuid_ascii(form, payload@);
        }
        return Some(Repr::Uuid { form, payload });
    }
    match classify_hex_bytes(bytes) {
        Some(payload) => {
            proof {
                hex::lemma_hex_ascii(payload@);
            }
            Some(Repr::Hex { payload })
        },
        None => None,
    }
}

impl PString {
    /// Construct from a Rust `&str`.  ASCII content is stored unflagged; other content is stored with the utf8 flag.
    /// Allocation failure is the only error.
    pub fn new(s: &str) -> (r: Result<PString, AllocError>)
        ensures
            r is Ok ==> {
                let string = r->Ok_0;
                &&& string.data() == s.spec_bytes()
                &&& string.flagged() == !decode::all_ascii(s.spec_bytes())
                &&& !string.taint_bit()
                &&& string.storage() == storage::canonical_storage(s.spec_bytes())
                &&& string.state() == Terminal::of(s.spec_bytes()).state()
            },
            r is Err ==> !storage::envelope_holds(s.spec_bytes()) && (r->Err_0).requested == birth(s.spec_bytes()),
    {
        if let Some(string) = PString::inline(s) {
            return Ok(string);
        }
        let bytes = s.as_bytes();
        proof {
            utf8::lemma_str_decodable(s);
            decode::lemma_content_facts(bytes@);
        }
        let tier = Tier::for_length(bytes.len());
        let cap: usize = tier.class_capacity(bytes.len());
        match allocate(tier, cap) {
            Err(error) => Err(error),
            Ok(mut buffer) => {
                let (class, count) = classify_known_valid_into(&mut buffer, bytes);
                assert(buffer@ =~= bytes@);
                let scan: ScanState = class.widen();
                let ascii: bool = scan == ScanState::Ascii;
                let parts = HeapBuf { bytes: Arc::new(buffer), cap, count, scan, tier };
                Ok(PString { utf8: !ascii, tainted: false, repr: Repr::Heap(parts) })
            },
        }
    }

    /// Construct from raw bytes.  Unflagged.
    pub fn from_bytes(bytes: &[u8]) -> (r: Result<PString, AllocError>)
        ensures
            r is Ok ==> {
                let string = r->Ok_0;
                &&& string.data() == bytes@
                &&& !string.flagged()
                &&& !string.taint_bit()
                &&& string.storage() == storage::canonical_storage(bytes@)
                &&& string.state() == Terminal::of(bytes@).state()
            },
            r is Err ==> !storage::envelope_holds(bytes@) && (r->Err_0).requested == birth(bytes@),
    {
        match PString::inline_bytes(bytes) {
            Some(string) => Ok(string),
            None => match heap_parts_classified(bytes) {
                Ok(parts) => {
                    proof {
                        decode::lemma_content_facts(bytes@);
                    }
                    Ok(PString { utf8: false, tainted: false, repr: Repr::Heap(parts) })
                },
                Err(error) => Err(error),
            },
        }
    }

    /// Construct from a Rust `&str` without allocating, or `None` if the content cannot be stored in the value itself.
    /// ASCII stores unflagged, non-ASCII flagged.
    pub fn inline(s: &str) -> (r: Option<PString>)
        ensures
            r is Some <==> storage::envelope_holds(s.spec_bytes()),
            r is Some ==> {
                let string = r->0;
                &&& string.data() == s.spec_bytes()
                &&& string.flagged() == !decode::all_ascii(s.spec_bytes())
                &&& !string.taint_bit()
                &&& string.storage() == storage::canonical_storage(s.spec_bytes())
                &&& string.state() == Terminal::of(s.spec_bytes()).state()
            },
    {
        let bytes = s.as_bytes();
        match envelope(bytes) {
            None => None,
            Some(repr) => {
                proof {
                    lemma_repr_certified(repr);
                    decode::lemma_content_facts(bytes@);
                }
                let ascii: bool = match &repr {
                    Repr::Inline(form) => form.class == InlineClass::Ascii,
                    _ => true,
                };
                Some(PString { utf8: !ascii, tainted: false, repr })
            },
        }
    }

    /// Construct from raw bytes without allocating, or `None` if the content cannot be stored in the value itself.
    /// Unflagged.
    pub fn inline_bytes(bytes: &[u8]) -> (r: Option<PString>)
        ensures
            r is Some <==> storage::envelope_holds(bytes@),
            r is Some ==> {
                let string = r->0;
                &&& string.data() == bytes@
                &&& !string.flagged()
                &&& !string.taint_bit()
                &&& string.storage() == storage::canonical_storage(bytes@)
                &&& string.state() == Terminal::of(bytes@).state()
            },
    {
        match envelope(bytes) {
            None => None,
            Some(repr) => Some(PString { utf8: false, tainted: false, repr }),
        }
    }

    /// A string over `'static` UTF-8: zero-copy, never freed, unflagged.
    pub fn from_static_str(s: &'static str) -> (r: Result<PString, AllocError>)
        ensures
            r is Ok,
            ({
                let string = r->Ok_0;
                &&& string.data() == s.spec_bytes()
                &&& !string.flagged()
                &&& !string.taint_bit()
                &&& string.state() == Terminal::of(s.spec_bytes()).state()
                &&& string.storage() == image_storage(s.spec_bytes())
            }),
    {
        PString::from_static_bytes(s.as_bytes())
    }

    /// A string over `'static` bytes: zero-copy, never freed, unflagged.  Classification is eager and terminal at any
    /// size, malformed content included.
    pub fn from_static_bytes(bytes: &'static [u8]) -> (r: Result<PString, AllocError>)
        ensures
            r is Ok,
            ({
                let string = r->Ok_0;
                &&& string.data() == bytes@
                &&& !string.flagged()
                &&& !string.taint_bit()
                &&& string.state() == Terminal::of(bytes@).state()
                &&& string.storage() == image_storage(bytes@)
            }),
    {
        let (scan, count) = classify_full(bytes);
        let image = Image { form: BorrowedForm::Static, bytes, count, scan };
        Ok(PString { utf8: false, tainted: false, repr: Repr::Image(image) })
    }

    /// A string over an immortal image: bytes that some owner keeps alive longer than every handle.
    pub fn from_immortal_bytes(bytes: &'static [u8]) -> (r: Result<PString, AllocError>)
        ensures
            r is Ok,
            ({
                let string = r->Ok_0;
                &&& string.data() == bytes@
                &&& !string.flagged()
                &&& !string.taint_bit()
                &&& string.state() == Terminal::of(bytes@).state()
                &&& string.storage() == if bytes@.len() > 0xFF_FFFF {
                    StorageType::LargeImmortal
                } else {
                    StorageType::Immortal
                }
            }),
    {
        let (scan, count) = classify_full(bytes);
        let image = Image { form: BorrowedForm::Immortal, bytes, count, scan };
        Ok(PString { utf8: false, tainted: false, repr: Repr::Image(image) })
    }

    /// The full ladder with every tag supplied: the envelope forms in their order, then the heap.
    fn tiered(bytes: &[u8], utf8: bool, tainted: bool) -> (r: Result<PString, AllocError>)
        ensures
            r is Ok ==> {
                let string = r->Ok_0;
                &&& string.data() == bytes@
                &&& string.flagged() == utf8
                &&& string.taint_bit() == tainted
                &&& string.storage() == storage::canonical_storage(bytes@)
                &&& string.state() == Terminal::of(bytes@).state()
            },
            r is Err ==> !storage::envelope_holds(bytes@) && (r->Err_0).requested == birth(bytes@),
    {
        match envelope(bytes) {
            Some(repr) => Ok(PString { utf8, tainted, repr }),
            None => PString::on_heap(bytes, utf8, tainted),
        }
    }

    /// The bytes in a heap buffer, with every tag supplied.
    fn on_heap(bytes: &[u8], utf8: bool, tainted: bool) -> (r: Result<PString, AllocError>)
        ensures
            r is Ok ==> {
                let string = r->Ok_0;
                &&& string.data() == bytes@
                &&& string.flagged() == utf8
                &&& string.taint_bit() == tainted
                &&& string.storage() == storage::heap_storage_of(bytes@)
                &&& string.state() == Terminal::of(bytes@).state()
            },
            r is Err ==> (r->Err_0).requested == birth(bytes@),
    {
        match heap_parts_classified(bytes) {
            Ok(parts) => {
                proof {
                    decode::lemma_content_facts(bytes@);
                }
                Ok(PString { utf8, tainted, repr: Repr::Heap(parts) })
            },
            Err(error) => Err(error),
        }
    }
}

/// The storage type of a `'static` image of the content.
pub open spec fn image_storage(s: Seq<u8>) -> StorageType {
    if s.len() > 0xFF_FFFF {
        StorageType::LargeStatic
    } else {
        StorageType::Static
    }
}

impl PString {
    /// The same storage under the given tags.
    fn rebuild_tag(&mut self, utf8: bool, tainted: bool)
        ensures
            final(self).data() == old(self).data(),
            final(self).storage() == old(self).storage(),
            final(self).state() == old(self).state(),
            final(self).flagged() == utf8,
            final(self).taint_bit() == tainted,
    {
        proof {
            use_type_invariant(&*self);
        }
        self.utf8 = utf8;
        self.tainted = tainted;
    }

    /// Read the same bytes with or without the utf8 flag: a pure flag flip.
    pub fn reinterpret_utf8(&mut self, utf8: bool)
        ensures
            final(self).data() == old(self).data(),
            final(self).storage() == old(self).storage(),
            final(self).state() == old(self).state(),
            final(self).flagged() == utf8,
            final(self).taint_bit() == old(self).taint_bit(),
    {
        let tainted: bool = self.is_tainted();
        self.rebuild_tag(utf8, tainted);
    }

    /// Set or propagate the taint bit.  It is only raised here.
    pub fn taint(&mut self)
        ensures
            final(self).data() == old(self).data(),
            final(self).storage() == old(self).storage(),
            final(self).state() == old(self).state(),
            final(self).flagged() == old(self).flagged(),
            final(self).taint_bit(),
    {
        let utf8: bool = self.is_utf8();
        self.rebuild_tag(utf8, true);
    }

    /// Clear the taint bit, for the sanctioned laundering paths.
    pub(crate) fn untaint_for_sanctioned_path(&mut self)
        ensures
            final(self).data() == old(self).data(),
            final(self).storage() == old(self).storage(),
            final(self).state() == old(self).state(),
            final(self).flagged() == old(self).flagged(),
            !final(self).taint_bit(),
    {
        let utf8: bool = self.is_utf8();
        self.rebuild_tag(utf8, false);
    }

    /// Whether the string is its own upgrade but for the flag.
    pub open spec fn upgrades_untouched(self) -> bool {
        self.flagged() || decode::all_ascii(self.data())
    }

    /// The storage of the upgraded string.
    pub open spec fn upgraded_storage(self) -> StorageType {
        if self.upgrades_untouched() {
            self.storage()
        } else if self.data().len() <= 15 {
            storage::canonical_storage(self.encoding())
        } else {
            storage::heap_storage_of(self.encoding())
        }
    }

    /// What is known of the upgraded string's bytes: what was known, or that they are Latin-1 text.
    pub open spec fn upgraded_state(self) -> ScanState {
        if self.upgrades_untouched() {
            self.state()
        } else {
            ScanState::Utf8Latin1
        }
    }

    /// A failure to upgrade the string: the memory for its encoding is not to be had.
    pub open spec fn upgrade_failure(self, error: AllocError) -> bool {
        error.requested == latin1::upgrade_request(self.data()) || error.requested == birth(self.encoding())
    }

    /// The same characters, flagged.  Flagged content is untouched.
    pub fn upgraded(&self) -> (r: Result<PString, AllocError>)
        ensures
            r is Ok ==> {
                let string = r->Ok_0;
                &&& string.flagged()
                &&& string.data() == self.encoding()
                &&& string.taint_bit() == self.taint_bit()
                &&& string.storage() == self.upgraded_storage()
                &&& string.state() == self.upgraded_state()
            },
            self.upgrades_untouched() || self.data().len() <= 15 || self.storage().packed_type() ==> r is Ok,
            r is Err ==> self.upgrade_failure(r->Err_0),
    {
        proof {
            use_type_invariant(self);
            lemma_packed_is_ascii(*self);
        }
        if self.is_utf8() {
            return Ok(self.clone());
        }
        if self.is_ascii() {
            // Characters, bytes and encoding all coincide.
            proof {
                inline_form::lemma_widened_ascii(self.data());
            }
            let mut string = self.clone();
            string.reinterpret_utf8(true);
            return Ok(string);
        }
        let tainted: bool = self.is_tainted();
        let mut scratch: [u8; 41] = [0u8; 41];
        let internal = self.as_bytes(&mut scratch);
        if internal.len() <= 15 {
            // The characters are the internal bytes, and the compressed form stores exactly those.
            let form = latin1_inline(internal);
            proof {
                lemma_inline_chosen(form);
            }
            return Ok(PString { utf8: true, tainted, repr: Repr::Inline(form) });
        }
        proof {
            lemma_upgrade_facts(internal@);
        }
        match latin1::upgraded_bytes(internal) {
            Err(error) => Err(error),
            Ok(upgraded) => match heap_from_slice(upgraded.as_slice(), ScanState::Utf8Latin1, internal.len()) {
                Err(error) => Err(error),
                Ok(parts) => Ok(PString { utf8: true, tainted, repr: Repr::Heap(parts) }),
            },
        }
    }

    /// A heap buffer whose capacity has room for the upgrade of its content.
    spec fn upgrade_fits(self) -> bool {
        self.repr matches Repr::Heap(buffer) && latin1::widened(buffer.bytes@).len() <= buffer.cap
    }

    /// Rewrite an unshared heap buffer as the upgrade of its content, where that fits the capacity it has.  Returns
    /// whether it did; the value is untouched where it did not.  Whether a buffer that has the room is shared depends
    /// on who else holds it.
    fn upgrade_heap_in_place(&mut self) -> (done: bool)
        requires
            !decode::all_ascii(old(self).data()),
        ensures
            final(self).flagged() == old(self).flagged(),
            final(self).taint_bit() == old(self).taint_bit(),
            !old(self).upgrade_fits() ==> !done,
            done ==> {
                let before = old(self).repr->Heap_0;
                &&& final(self).data() == latin1::widened(old(self).data())
                &&& final(self).repr matches Repr::Heap(after) && after.upgrade_of(
                    before.bytes@,
                    before.cap,
                    before.tier,
                )
            },
            !done ==> *final(self) == *old(self),
    {
        let mut taken = PString::empty();
        std::mem::swap(self, &mut taken);
        proof {
            use_type_invariant(&taken);
        }
        let PString { utf8, tainted, repr } = taken;
        let (next, done): (Repr, bool) = match repr {
            Repr::Heap(buffer) => {
                let HeapBuf { bytes, cap, count, scan, tier } = buffer;
                let first: Option<usize> = latin1::first_variant(bytes.as_slice());
                let old_len: usize = bytes.len();
                let expansion: usize = latin1::variant_count(bytes.as_slice());
                proof {
                    latin1::lemma_widened_len(bytes@);
                }
                match first {
                    Some(first) if expansion <= cap - old_len => {
                        let (after, done) = upgrade_taken(
                            take_unshared(bytes),
                            cap,
                            count,
                            scan,
                            tier,
                            first,
                            old_len + expansion,
                        );
                        (Repr::Heap(after), done)
                    },
                    _ => (Repr::Heap(HeapBuf { bytes, cap, count, scan, tier }), false),
                }
            },
            other => (other, false),
        };
        *self = PString { utf8, tainted, repr: next };
        done
    }

    /// The in-place form of [`PString::upgraded`]: the same characters, flagged, rewriting an unshared heap buffer
    /// where the expansion fits it.
    pub fn upgrade_in_place(&mut self) -> (r: Result<(), AllocError>)
        ensures
            r is Ok ==> {
                &&& final(self).flagged()
                &&& final(self).data() == old(self).encoding()
                &&& final(self).taint_bit() == old(self).taint_bit()
                &&& final(self).state() == old(self).upgraded_state()
                &&& final(self).storage() == old(self).upgraded_storage() || (old(self).storage().heap_type()
                    && final(self).storage() == old(self).storage())
            },
            old(self).flagged() ==> *final(self) == *old(self),
            r is Err ==> *final(self) == *old(self) && old(self).upgrade_failure(r->Err_0),
            old(self).upgrades_untouched() || old(self).data().len() <= 15 || old(self).storage().packed_type()
                ==> r is Ok,
    {
        proof {
            use_type_invariant(&*self);
            lemma_packed_is_ascii(*self);
        }
        if self.is_utf8() {
            return Ok(());
        }
        if self.is_ascii() {
            proof {
                inline_form::lemma_widened_ascii(self.data());
            }
            self.reinterpret_utf8(true);
            return Ok(());
        }
        if !self.upgrade_heap_in_place() {
            match self.upgraded() {
                Ok(string) => {
                    *self = string;
                    return Ok(());
                },
                Err(error) => {
                    return Err(error);
                },
            }
        }
        self.reinterpret_utf8(true);
        Ok(())
    }
}

proof fn lemma_upgrade_facts(s: Seq<u8>)
    requires
        !decode::all_ascii(s),
    ensures
        ScanState::Utf8Latin1.certifies(latin1::widened(s)),
        decode::perl_decodable(latin1::widened(s)),
        decode::code_points(latin1::widened(s)).len() == s.len(),
        !decode::all_ascii(latin1::widened(s)),
{
    let text = latin1::widened(s);
    decode::lemma_content_facts(text);
    latin1::lemma_widened_decodes(s);
    let points = decode::code_points(text);
    let i = choose|i: int| 0 <= i < s.len() && #[trigger] s[i] >= 0x80;
    assert(points[i] >= 0x80);
    assert forall|k: int| 0 <= k < points.len() implies decode::is_scalar_value(#[trigger] points[k]) by {
        assert(points[k] == s[k]);
    }
}

/// What an attempt to contract a heap buffer in place came to.
enum Contraction {
    /// The buffer holds the contracted bytes.
    Done,
    /// A character past U+00FF, or no encoding at all: there is no contraction.
    Refused,
    /// The buffer is shared, or the storage is no heap buffer: a copy has to be made.
    NotInPlace,
}

/// The bytes that came back from asking for a buffer as its only holder.
spec fn handed_back(taken: Result<Vec<u8>, Arc<Vec<u8>>>) -> Seq<u8> {
    match taken {
        Ok(owned) => owned@,
        Err(shared) => shared@,
    }
}

impl HeapBuf {
    /// A buffer of the same allocation that holds the upgrade of the bytes: each of them is one character.
    spec fn upgrade_of(self, s: Seq<u8>, cap: usize, tier: Tier) -> bool {
        &&& self.bytes@ == latin1::widened(s)
        &&& self.count == s.len()
        &&& self.scan is Utf8Latin1
        &&& self.cap == cap
        &&& self.tier == tier
    }

    /// A buffer of the same allocation that holds the contraction of the bytes.  A small tier has its class settled; a
    /// large one records that nothing is known.
    spec fn contraction_of(self, s: Seq<u8>, cap: usize, tier: Tier) -> bool {
        &&& self.bytes@ == latin1::narrowed(s)
        &&& self.scan == if tier is Heap8 || tier is Heap16 {
            Terminal::of(latin1::narrowed(s)).state()
        } else {
            ScanState::Unknown
        }
        &&& self.cap == cap
        &&& self.tier == tier
    }
}

/// The buffer once its bytes were asked for to be upgraded where they stand, and whether they were: they are where this
/// was their only holder, and otherwise the buffer is as it was.
fn upgrade_taken(
    taken: Result<Vec<u8>, Arc<Vec<u8>>>,
    cap: usize,
    count: usize,
    scan: ScanState,
    tier: Tier,
    first: usize,
    new_len: usize,
) -> (r: (HeapBuf, bool))
    requires
        !decode::all_ascii(handed_back(taken)),
        first <= handed_back(taken).len(),
        forall|k: int| 0 <= k < first ==> #[trigger] handed_back(taken)[k] < 0x80,
        new_len == latin1::widened(handed_back(taken)).len(),
        new_len <= cap <= tier.ceiling(),
    ensures
        r.1 == (taken is Ok),
        taken is Ok ==> r.0.wf() && r.0.upgrade_of(handed_back(taken), cap, tier),
        taken is Err ==> r.0 == (HeapBuf { bytes: taken->Err_0, cap, count, scan, tier }),
{
    match taken {
        Err(bytes) => (HeapBuf { bytes, cap, count, scan, tier }, false),
        Ok(mut owned) => {
            let old_len: usize = owned.len();
            proof {
                lemma_upgrade_facts(owned@);
            }
            latin1::expand_latin1_in_place(&mut owned, first, new_len);
            (HeapBuf { bytes: Arc::new(owned), cap, count: old_len, scan: ScanState::Utf8Latin1, tier }, true)
        },
    }
}

/// The buffer once its bytes were asked for to be contracted where they stand, and what came of it: `contracts` says
/// whether they have a contraction.
fn contract_taken(
    taken: Result<Vec<u8>, Arc<Vec<u8>>>,
    cap: usize,
    count: usize,
    scan: ScanState,
    tier: Tier,
    contracts: bool,
) -> (r: (HeapBuf, Contraction))
    requires
        contracts == latin1::is_latin1_text(handed_back(taken)),
        handed_back(taken).len() <= cap <= tier.ceiling(),
    ensures
        r.1 == match taken {
            Err(_) => Contraction::NotInPlace,
            Ok(_) => if contracts {
                Contraction::Done
            } else {
                Contraction::Refused
            },
        },
        r.1 is Done ==> r.0.wf() && r.0.contraction_of(handed_back(taken), cap, tier),
        r.1 is Refused ==> r.0 == (HeapBuf { bytes: Arc::new(taken->Ok_0), cap, count, scan, tier }),
        r.1 is NotInPlace ==> r.0 == (HeapBuf { bytes: taken->Err_0, cap, count, scan, tier }),
{
    match taken {
        Err(bytes) => (HeapBuf { bytes, cap, count, scan, tier }, Contraction::NotInPlace),
        Ok(mut owned) => {
            if !contracts {
                return (HeapBuf { bytes: Arc::new(owned), cap, count, scan, tier }, Contraction::Refused);
            }
            proof {
                latin1::law_widen_undoes_narrow(owned@);
                latin1::lemma_widened_len(latin1::narrowed(owned@));
            }
            latin1::contract_latin1_in_place(&mut owned);
            // The contracted octets can themselves be an encoding.  A small tier keeps only settled states, so it
            // classifies; a large one records that nothing is known.
            let (settled, chars): (ScanState, usize) = if tier.is_small() {
                let (terminal, chars) = classify_full(owned.as_slice());
                proof {
                    scan::law_terminals_are_exclusive(terminal, owned@);
                }
                (terminal.widen(), chars)
            } else {
                (ScanState::Unknown, 0)
            };
            (HeapBuf { bytes: Arc::new(owned), cap, count: chars, scan: settled, tier }, Contraction::Done)
        },
    }
}

impl PString {
    /// A failure to downgrade the string: the memory for its characters is not to be had.
    pub open spec fn downgrade_failure(self, error: AllocError) -> bool {
        let narrow = latin1::narrowed(self.data());
        error.requested == narrow.len() || error.requested == birth(narrow)
    }

    /// The same characters, unflagged, or `None` where a character exceeds U+00FF or the content is no encoding.
    /// Unflagged content is untouched.
    pub fn downgraded(&self) -> (r: Result<Option<PString>, AllocError>)
        ensures
            r is Ok ==> (r->Ok_0 is Some <==> !self.flagged() || latin1::is_latin1_text(self.data())),
            r is Ok && r->Ok_0 is Some ==> {
                let string = r->Ok_0->0;
                &&& !string.flagged()
                &&& string.encoding() == self.encoding()
                &&& self.flagged() ==> string.data() == latin1::narrowed(self.data())
                &&& !self.flagged() ==> string.data() == self.data()
                &&& string.taint_bit() == self.taint_bit()
                &&& string.storage() == if !self.flagged() || decode::all_ascii(self.data()) {
                    self.storage()
                } else {
                    storage::canonical_storage(string.data())
                }
            },
            !self.flagged() || decode::all_ascii(self.data()) || !latin1::is_latin1_text(self.data()) ==> r is Ok,
            self.storage().inline_type() || self.storage().packed_type() ==> r is Ok,
            r is Err ==> self.downgrade_failure(r->Err_0),
    {
        if !self.is_utf8() {
            return Ok(Some(self.clone()));
        }
        if self.is_ascii() {
            proof {
                lemma_ascii_narrow(self.data());
            }
            let mut string = self.clone();
            string.reinterpret_utf8(false);
            return Ok(Some(string));
        }
        let tainted: bool = self.is_tainted();
        proof {
            use_type_invariant(self);
            lemma_packed_is_ascii(*self);
            if latin1::is_latin1_text(self.data()) {
                latin1::law_widen_undoes_narrow(self.data());
            }
        }
        match &self.repr {
            Repr::Inline(form) => {
                if form.class != InlineClass::Latin1 {
                    proof {
                        if latin1::is_latin1_text(self.data()) {
                            inline_form::lemma_latin1_class(*form);
                        }
                    }
                    return Ok(None);
                }
                // The stored bytes are the characters.
                let stored = slice_subrange(form.buf.as_slice(), 0, form.stored_count());
                proof {
                    assert(stored@ =~= form.stored());
                    latin1::law_narrow_undoes_widen(form.stored());
                    reveal(storage::envelope_holds);
                }
                match PString::tiered(stored, false, tainted) {
                    Ok(string) => Ok(Some(string)),
                    Err(error) => Err(error),
                }
            },
            _ => {
                let mut scratch: [u8; 41] = [0u8; 41];
                let bytes = self.as_bytes(&mut scratch);
                match latin1::downgraded_bytes(bytes) {
                    Err(error) => Err(error),
                    Ok(None) => Ok(None),
                    Ok(Some(out)) => {
                        proof {
                            if out.len() > DECODE_MAX {
                                law_envelope_forms_are_bounded(out@);
                            }
                        }
                        let made: Result<PString, AllocError> = if out.len() <= DECODE_MAX {
                            PString::tiered(out.as_slice(), false, tainted)
                        } else {
                            PString::on_heap(out.as_slice(), false, tainted)
                        };
                        match made {
                            Ok(string) => Ok(Some(string)),
                            Err(error) => Err(error),
                        }
                    },
                }
            },
        }
    }

    /// Rewrite an unshared heap buffer as the contraction of its content.  Only a heap buffer is contracted or refused
    /// here, and whether one is shared depends on who else holds it.
    fn downgrade_heap_in_place(&mut self) -> (r: Contraction)
        requires
            !decode::all_ascii(old(self).data()),
        ensures
            final(self).flagged() == old(self).flagged(),
            final(self).taint_bit() == old(self).taint_bit(),
            !(old(self).repr is Heap) ==> r is NotInPlace,
            r is Done ==> {
                let before = old(self).repr->Heap_0;
                &&& latin1::is_latin1_text(old(self).data())
                &&& final(self).data() == latin1::narrowed(old(self).data())
                &&& final(self).storage() == old(self).storage()
                &&& final(self).repr matches Repr::Heap(after) && after.contraction_of(
                    before.bytes@,
                    before.cap,
                    before.tier,
                )
            },
            r is Refused ==> !latin1::is_latin1_text(old(self).data()),
            !(r is Done) ==> *final(self) == *old(self),
    {
        let mut taken = PString::empty();
        std::mem::swap(self, &mut taken);
        proof {
            use_type_invariant(&taken);
        }
        let PString { utf8, tainted, repr } = taken;
        let (next, outcome): (Repr, Contraction) = match repr {
            Repr::Heap(buffer) => {
                let HeapBuf { bytes, cap, count, scan, tier } = buffer;
                let contracts: bool = latin1::latin1_contractions(bytes.as_slice()).is_some();
                proof {
                    let s = bytes@;
                    decode::lemma_content_facts(s);
                    decode::lemma_content_facts(latin1::narrowed(s));
                    if latin1::is_latin1_text(s) {
                        latin1::law_widen_undoes_narrow(s);
                        if decode::all_ascii(latin1::narrowed(s)) {
                            inline_form::lemma_widened_ascii(latin1::narrowed(s));
                        }
                    }
                }
                let (after, outcome) = contract_taken(take_unshared(bytes), cap, count, scan, tier, contracts);
                (Repr::Heap(after), outcome)
            },
            other => (other, Contraction::NotInPlace),
        };
        *self = PString { utf8, tainted, repr: next };
        outcome
    }

    /// The in-place form of [`PString::downgraded`].  `false` means that the content refuses to downgrade, and leaves
    /// this value untouched.
    pub fn downgrade_in_place(&mut self) -> (r: Result<bool, AllocError>)
        ensures
            r is Ok ==> (r->Ok_0 <==> !old(self).flagged() || latin1::is_latin1_text(old(self).data())),
            r is Ok && r->Ok_0 ==> {
                &&& !final(self).flagged()
                &&& final(self).encoding() == old(self).encoding()
                &&& old(self).flagged() ==> final(self).data() == latin1::narrowed(old(self).data())
                &&& !old(self).flagged() ==> *final(self) == *old(self)
                &&& final(self).taint_bit() == old(self).taint_bit()
                &&& final(self).storage() == old(self).storage() || (!decode::all_ascii(old(self).data())
                    && final(self).storage() == storage::canonical_storage(final(self).data()))
                &&& !decode::all_ascii(old(self).data()) && old(self).flagged() && !old(self).storage().heap_type()
                    ==> final(self).storage() == storage::canonical_storage(final(self).data())
            },
            r is Ok && !r->Ok_0 ==> *final(self) == *old(self),
            old(self).storage().inline_type() || old(self).storage().packed_type() ==> r is Ok,
            r is Err ==> *final(self) == *old(self) && old(self).downgrade_failure(r->Err_0),
            !old(self).flagged() || decode::all_ascii(old(self).data()) || !latin1::is_latin1_text(
                old(self).data(),
            ) ==> r is Ok,
    {
        if !self.is_utf8() {
            return Ok(true);
        }
        proof {
            use_type_invariant(&*self);
            lemma_packed_is_ascii(*self);
        }
        if self.is_ascii() {
            proof {
                lemma_ascii_narrow(self.data());
            }
            self.reinterpret_utf8(false);
            return Ok(true);
        }
        let ghost before = self.data();
        match self.downgrade_heap_in_place() {
            Contraction::Refused => Ok(false),
            Contraction::Done => {
                proof {
                    latin1::law_widen_undoes_narrow(before);
                }
                self.reinterpret_utf8(false);
                Ok(true)
            },
            Contraction::NotInPlace => match self.downgraded() {
                Ok(Some(string)) => {
                    *self = string;
                    Ok(true)
                },
                Ok(None) => Ok(false),
                Err(error) => Err(error),
            },
        }
    }
}

/// Downgrading undoes upgrading: the upgrade of an unflagged string is the same string to perl, and its downgrade has
/// the bytes it came from.
pub proof fn law_downgrade_undoes_upgrade(plain: PString, upgraded: PString)
    requires
        !plain.flagged(),
        upgraded.flagged(),
        upgraded.data() == plain.encoding(),
    ensures
        upgraded.encoding() == plain.encoding(),
        latin1::is_latin1_text(upgraded.data()),
        latin1::narrowed(upgraded.data()) == plain.data(),
{
    latin1::law_narrow_undoes_widen(plain.data());
}

/// Upgrading undoes downgrading.
pub proof fn law_upgrade_undoes_downgrade(flagged: PString, downgraded: PString)
    requires
        flagged.flagged(),
        latin1::is_latin1_text(flagged.data()),
        !downgraded.flagged(),
        downgraded.data() == latin1::narrowed(flagged.data()),
    ensures
        downgraded.encoding() == flagged.data(),
{
    latin1::law_widen_undoes_narrow(flagged.data());
}

/// A range of a range is a range of the whole.
pub proof fn law_ranges_compose(whole: PString, part: PString, offset: nat, len: nat, inner_offset: nat, inner_len: nat)
    requires
        part.data() == whole.range(offset, len),
    ensures
        part.range(inner_offset, inner_len) == whole.range(
            offset + inner_offset,
            if inner_offset >= len {
                0
            } else if inner_len <= len - inner_offset {
                inner_len
            } else {
                (len - inner_offset) as nat
            },
        ),
{
    let cut: nat = if inner_offset >= len {
        0
    } else if inner_len <= len - inner_offset {
        inner_len
    } else {
        (len - inner_offset) as nat
    };
    assert(part.range(inner_offset, inner_len) =~= whole.range(offset + inner_offset, cut));
}

/// ASCII is its own upgrade and its own downgrade.
proof fn lemma_ascii_narrow(s: Seq<u8>)
    requires
        decode::all_ascii(s),
    ensures
        latin1::widened(s) == s,
        latin1::is_latin1_text(s),
        latin1::narrowed(s) == s,
{
    inline_form::lemma_widened_ascii(s);
    latin1::law_narrow_undoes_widen(s);
}

/// A view of a Heap32 buffer: far while the length fits sixteen bits, medium for the band only it serves, and past both
/// an adopted object of its own.
fn heap32_view(bytes: Arc<Vec<u8>>, offset: usize, len: usize, scan: ScanState) -> (r: Window)
    requires
        offset + len <= bytes@.len() <= u32::MAX,
        scan.certifies(bytes@.subrange(offset as int, offset + len)),
    ensures
        r.wf(),
        r.content() == bytes@.subrange(offset as int, offset + len),
        r.scan == scan,
        r.backing == if len <= 0xFFFF {
            ViewBacking::Heap32Far
        } else if offset < SPAN && len < SPAN {
            ViewBacking::Heap32Medium
        } else {
            ViewBacking::Adopted { whole: true }
        },
{
    if len <= 0xFFFF {
        Window { backing: ViewBacking::Heap32Far, bytes, base: 0, offset, len, scan }
    } else if offset < SPAN && len < SPAN {
        Window { backing: ViewBacking::Heap32Medium, bytes, base: 0, offset, len, scan }
    } else {
        Window { backing: ViewBacking::Adopted { whole: true }, bytes, base: offset, offset: 0, len, scan }
    }
}

/// A view of an adopted object under the same selection.
fn adopted_view(bytes: Arc<Vec<u8>>, base: usize, offset: usize, len: usize, scan: ScanState) -> (r: Window)
    requires
        base + offset + len <= bytes@.len(),
        scan.certifies(bytes@.subrange(base + offset, base + offset + len)),
    ensures
        r.wf(),
        r.content() == bytes@.subrange(base + offset, base + offset + len),
        r.scan == scan,
        r.backing == if len <= 0xFFFF && offset <= 0xFFFF_FFFF {
            ViewBacking::AdoptedFar
        } else {
            ViewBacking::Adopted { whole: !(offset < SPAN && len < SPAN) }
        },
{
    if len <= 0xFFFF && offset <= 0xFFFF_FFFF {
        Window { backing: ViewBacking::AdoptedFar, bytes, base, offset, len, scan }
    } else if offset < SPAN && len < SPAN {
        Window { backing: ViewBacking::Adopted { whole: false }, bytes, base, offset, len, scan }
    } else {
        assert(base + offset <= bytes.len());
        Window { backing: ViewBacking::Adopted { whole: true }, bytes, base: base + offset, offset: 0, len, scan }
    }
}

/// A view of a range of a view: the same buffer, composed coordinates.
fn reslice(window: &Window, offset: usize, len: usize) -> (r: Window)
    requires
        window.wf(),
        offset + len <= window.len,
    ensures
        r.wf(),
        r.content() == window.content().subrange(offset as int, offset + len),
        slice_form(Repr::View(*window).storage(), offset as nat, len as nat, Repr::View(r).storage()),
        r.scan == transition::view_state(window.scan, window.content(), offset as int, len as int),
{
    let scan: ScanState = view_birth_state(window.scan, window.as_slice(), offset, len);
    assert(window.bytes@.subrange(window.base + window.offset + offset, window.base + window.offset + offset + len)
        =~= window.content().subrange(offset as int, offset + len));
    assert(window.base + window.offset + window.len <= window.bytes.len());
    let bytes = window.bytes.clone();
    match window.backing {
        ViewBacking::Heap32Medium | ViewBacking::Heap32Far => heap32_view(bytes, window.offset + offset, len, scan),
        ViewBacking::Small { cap } => Window {
            backing: ViewBacking::Small { cap },
            bytes,
            base: 0,
            offset: window.offset + offset,
            len,
            scan,
        },
        ViewBacking::Adopted { whole: _ } | ViewBacking::AdoptedFar => adopted_view(
            bytes,
            window.base,
            window.offset + offset,
            len,
            scan,
        ),
    }
}

/// A view of a range of a heap buffer.
fn heap_window(buffer: &HeapBuf, offset: usize, len: usize) -> (r: Window)
    requires
        buffer.wf(),
        offset + len <= buffer.bytes@.len(),
    ensures
        r.wf(),
        r.content() == buffer.bytes@.subrange(offset as int, offset + len),
        slice_form(Repr::Heap(*buffer).storage(), offset as nat, len as nat, Repr::View(r).storage()),
        r.scan == transition::view_state(buffer.scan, buffer.bytes@, offset as int, len as int),
{
    let scan: ScanState = view_birth_state(buffer.scan, buffer.bytes.as_slice(), offset, len);
    let bytes = buffer.bytes.clone();
    match buffer.tier {
        Tier::Heap8 | Tier::Heap16 => Window {
            backing: ViewBacking::Small { cap: buffer.cap },
            bytes,
            base: 0,
            offset,
            len,
            scan,
        },
        Tier::Heap32 => heap32_view(bytes, offset, len, scan),
        // The word tier lies past every compact reach.
        Tier::Heap => Window {
            backing: ViewBacking::Adopted { whole: true },
            bytes,
            base: offset,
            offset: 0,
            len,
            scan,
        },
    }
}

/// Whether `r` is the storage of a slice, past the envelope forms, of storage that can be shared: a view by the reach
/// that its buffer and its coordinates need, and of an image another image.  The coordinates of a slice of a view are
/// relative to what the view is itself a range of, so there its own offset does not decide.
pub open spec fn slice_form(source: StorageType, offset: nat, len: nat, r: StorageType) -> bool {
    match source {
        StorageType::Heap8
        | StorageType::Heap8Ascii
        | StorageType::Heap16
        | StorageType::Heap16Ascii
        | StorageType::SmallSlice => r is SmallSlice,
        StorageType::Heap32 => r == if len <= 0xFFFF {
            StorageType::FarSlice
        } else if offset < 0xFF_FFFF && len < 0xFF_FFFF {
            StorageType::MediumSlice
        } else {
            StorageType::Adopted
        },
        StorageType::MediumSlice | StorageType::FarSlice => if len <= 0xFFFF {
            r is FarSlice
        } else {
            r is MediumSlice || r is Adopted
        },
        StorageType::Heap => r is Adopted,
        StorageType::Adopted | StorageType::FarAdopted => if len <= 0xFFFF {
            r is FarAdopted || r is Adopted
        } else {
            r is Adopted
        },
        StorageType::Immortal | StorageType::LargeImmortal => r is Immortal,
        StorageType::Static | StorageType::LargeStatic => r is Static,
        _ => false,
    }
}

/// Where a range starts once it is clamped to the content.
pub open spec fn clamped_start(total: nat, offset: nat) -> nat {
    if offset <= total {
        offset
    } else {
        total
    }
}

/// Where a range ends once it is clamped to the content.
pub open spec fn clamped_end(total: nat, offset: nat, len: nat) -> nat {
    let start = clamped_start(total, offset);
    if len <= total - start {
        start + len
    } else {
        total
    }
}

impl PString {
    /// The bytes of a range clamped as perl's `substr` clamps: an offset past the end is the empty string, and a length
    /// past the end truncates.
    pub open spec fn range(self, offset: nat, len: nat) -> Seq<u8> {
        let total = self.data().len();
        self.data().subrange(clamped_start(total, offset) as int, clamped_end(total, offset, len) as int)
    }

    /// A zero-copy view of a range of a heap buffer of one of the three compact tiers, or `None` where the storage has
    /// no compact view form, the range escapes the value, or a coordinate is too wide.
    pub fn view_range(&self, offset: usize, len: usize) -> (r: Option<PString>)
        ensures
            r is Some ==> {
                let view = r->0;
                &&& offset + len <= self.data().len()
                &&& view.data() == self.data().subrange(offset as int, offset + len)
                &&& view.flagged() == self.flagged()
                &&& view.taint_bit() == self.taint_bit()
                &&& view.state() == transition::view_state(self.state(), self.data(), offset as int, len as int)
                &&& view.storage() == match self.storage() {
                    StorageType::Heap32 => if len <= 0xFFFF {
                        StorageType::FarSlice
                    } else {
                        StorageType::MediumSlice
                    },
                    _ => StorageType::SmallSlice,
                }
            },
            r is Some <==> {
                &&& offset + len <= self.data().len()
                &&& match self.storage() {
                    StorageType::Heap8
                    | StorageType::Heap8Ascii
                    | StorageType::Heap16
                    | StorageType::Heap16Ascii => true,
                    StorageType::Heap32 => len <= 0xFFFF || (offset < 0xFF_FFFF && len < 0xFF_FFFF),
                    _ => false,
                }
            },
    {
        proof {
            use_type_invariant(self);
        }
        match &self.repr {
            Repr::Heap(buffer) => {
                let bytes = buffer.bytes.as_slice();
                match offset.checked_add(len) {
                    None => {
                        return None;
                    },
                    Some(end) => {
                        if end > bytes.len() {
                            return None;
                        }
                    },
                }
                let scan: ScanState = match buffer.tier {
                    Tier::Heap => {
                        return None;
                    },
                    _ => view_birth_state(buffer.scan, bytes, offset, len),
                };
                let window = match buffer.tier {
                    Tier::Heap32 => {
                        if len <= 0xFFFF {
                            Window {
                                backing: ViewBacking::Heap32Far,
                                bytes: buffer.bytes.clone(),
                                base: 0,
                                offset,
                                len,
                                scan,
                            }
                        } else if offset < SPAN && len < SPAN {
                            Window {
                                backing: ViewBacking::Heap32Medium,
                                bytes: buffer.bytes.clone(),
                                base: 0,
                                offset,
                                len,
                                scan,
                            }
                        } else {
                            return None;
                        }
                    },
                    _ => Window {
                        backing: ViewBacking::Small { cap: buffer.cap },
                        bytes: buffer.bytes.clone(),
                        base: 0,
                        offset,
                        len,
                        scan,
                    },
                };
                Some(PString { utf8: self.utf8, tainted: self.tainted, repr: Repr::View(window) })
            },
            _ => None,
        }
    }

    /// The sharing verb: a zero-copy view of a clamped range, except that content which an envelope form holds returns
    /// that form.  Sources with no shareable buffer answer in kind: envelope content is copied out, and an image yields
    /// another image.
    pub fn slice(&self, offset: usize, len: usize) -> (r: Result<PString, AllocError>)
        ensures
            r is Ok ==> {
                let part = r->Ok_0;
                let bytes = self.range(offset as nat, len as nat);
                &&& part.data() == bytes
                &&& part.flagged() == self.flagged()
                &&& part.taint_bit() == self.taint_bit()
                &&& part.state() == if part.storage().view_type() {
                    let start = clamped_start(self.data().len(), offset as nat);
                    transition::view_state(self.state(), self.data(), start as int, bytes.len() as int)
                } else {
                    Terminal::of(bytes).state()
                }
                &&& storage::envelope_holds(bytes) ==> part.storage() == storage::envelope_storage(bytes)
                &&& !storage::envelope_holds(bytes) ==> {
                    let start = clamped_start(self.data().len(), offset as nat);
                    &&& self.storage().heap_type() || self.storage().view_type() ==> slice_form(
                        self.storage(),
                        start,
                        bytes.len(),
                        part.storage(),
                    )
                    &&& self.storage().image_type() && bytes.len() <= 0xFF_FFFF ==> slice_form(
                        self.storage(),
                        start,
                        bytes.len(),
                        part.storage(),
                    )
                    &&& self.storage().image_type() && bytes.len() > 0xFF_FFFF ==> part.storage()
                        == storage::heap_storage_of(bytes)
                    &&& self.storage().inline_type() || self.storage().packed_type() ==> part.storage()
                        == storage::heap_storage_of(bytes)
                }
            },
            storage::envelope_holds(self.range(offset as nat, len as nat)) ==> r is Ok,
            self.storage().heap_type() || self.storage().view_type() ==> r is Ok,
            self.storage().image_type() && self.range(offset as nat, len as nat).len() <= 0xFF_FFFF ==> r is Ok,
            r is Err ==> (r->Err_0).requested == birth(self.range(offset as nat, len as nat)),
    {
        let (utf8, tainted): (bool, bool) = (self.utf8, self.tainted);
        let total: usize = self.len();
        let offset: usize = if offset <= total { offset } else { total };
        let len: usize = if len <= total - offset { len } else { total - offset };
        let ghost part = self.data().subrange(offset as int, offset + len);
        if len <= DECODE_MAX {
            let mut scratch: [u8; 41] = [0u8; 41];
            let bytes = slice_subrange(self.as_bytes(&mut scratch), offset, offset + len);
            if let Some(repr) = envelope(bytes) {
                return Ok(PString { utf8, tainted, repr });
            }
        }
        proof {
            lemma_storage_kinds(self.repr);
            if len > DECODE_MAX {
                law_envelope_forms_are_bounded(part);
            }
        }
        self.slice_storage(offset, len)
    }

    /// The slice of a range that no envelope form holds.
    fn slice_storage(&self, offset: usize, len: usize) -> (r: Result<PString, AllocError>)
        requires
            offset + len <= self.data().len(),
            offset + len <= usize::MAX,
        ensures
            r is Ok ==> {
                let part = r->Ok_0;
                let bytes = self.data().subrange(offset as int, offset + len);
                &&& part.data() == bytes
                &&& part.flagged() == self.flagged()
                &&& part.taint_bit() == self.taint_bit()
                &&& part.state() == if part.storage().view_type() {
                    transition::view_state(self.state(), self.data(), offset as int, len as int)
                } else {
                    Terminal::of(bytes).state()
                }
                &&& self.repr is Heap || self.repr is View || (self.repr is Image && len <= 0xFF_FFFF) ==> slice_form(
                    self.storage(),
                    offset as nat,
                    len as nat,
                    part.storage(),
                )
                &&& self.repr is Image && len > 0xFF_FFFF ==> part.storage() == storage::heap_storage_of(bytes)
                &&& !(self.repr is Heap || self.repr is View || self.repr is Image) ==> part.storage()
                    == storage::heap_storage_of(bytes)
            },
            self.repr is Heap || self.repr is View ==> r is Ok,
            self.repr is Image && len <= 0xFF_FFFF ==> r is Ok,
            r is Err ==> (r->Err_0).requested == birth(self.data().subrange(offset as int, offset + len)),
    {
        proof {
            use_type_invariant(self);
        }
        let (utf8, tainted): (bool, bool) = (self.utf8, self.tainted);
        match &self.repr {
            Repr::View(window) => {
                let next = reslice(window, offset, len);
                Ok(PString { utf8, tainted, repr: Repr::View(next) })
            },
            Repr::Heap(buffer) => {
                let next = heap_window(buffer, offset, len);
                Ok(PString { utf8, tainted, repr: Repr::View(next) })
            },
            Repr::Image(image) => {
                let sub = static_subrange(image.bytes, offset, offset + len);
                if len <= SPAN {
                    let (scan, count) = classify_full(sub);
                    let next = Image { form: image.form, bytes: sub, count, scan };
                    return Ok(PString { utf8, tainted, repr: Repr::Image(next) });
                }
                // Past the compact image reach the owned copy is total.
                PString::on_heap(sub, utf8, tainted)
            },
            _ => {
                // No buffer to share.
                let mut scratch: [u8; 41] = [0u8; 41];
                let bytes = slice_subrange(self.as_bytes(&mut scratch), offset, offset + len);
                PString::on_heap(bytes, utf8, tainted)
            },
        }
    }

    /// The copying verb: an unshared copy of a clamped range, in the storage that canonical selection gives it.
    pub fn substr(&self, offset: usize, len: usize) -> (r: Result<PString, AllocError>)
        ensures
            r is Ok ==> {
                let part = r->Ok_0;
                let bytes = self.range(offset as nat, len as nat);
                &&& part.data() == bytes
                &&& part.flagged() == self.flagged()
                &&& part.taint_bit() == self.taint_bit()
                &&& part.storage() == storage::canonical_storage(bytes)
                &&& part.state() == Terminal::of(bytes).state()
            },
            r is Err ==> !storage::envelope_holds(self.range(offset as nat, len as nat)) && (r->Err_0).requested
                == birth(self.range(offset as nat, len as nat)),
    {
        let total: usize = self.len();
        let offset: usize = if offset <= total { offset } else { total };
        let len: usize = if len <= total - offset { len } else { total - offset };
        let mut scratch: [u8; 41] = [0u8; 41];
        let bytes = slice_subrange(self.as_bytes(&mut scratch), offset, offset + len);
        if len <= DECODE_MAX {
            return PString::tiered(bytes, self.utf8, self.tainted);
        }
        proof {
            law_envelope_forms_are_bounded(bytes@);
        }
        PString::on_heap(bytes, self.utf8, self.tainted)
    }

    /// This value is an unshared copy of `before`: in the heap storage that its bytes take, with their class settled.
    pub open spec fn copied_out(self, before: PString) -> bool {
        &&& self.data() == before.data()
        &&& self.flagged() == before.flagged()
        &&& self.taint_bit() == before.taint_bit()
        &&& self.storage() == storage::heap_storage_of(before.data())
        &&& self.state() == Terminal::of(before.data()).state()
    }

    /// Break any sharing: a shared heap buffer and a view are copied out, any other storage is untouched.  The flag and
    /// the taint bit stay, and what is known of the bytes comes out settled.
    pub fn unshare(&mut self) -> (r: Result<(), AllocError>)
        ensures
            final(self).data() == old(self).data(),
            final(self).flagged() == old(self).flagged(),
            final(self).taint_bit() == old(self).taint_bit(),
            r is Ok && old(self).storage().view_type() ==> final(self).copied_out(*old(self)),
            r is Ok && old(self).storage().heap_type() ==> *final(self) == *old(self) || final(self).copied_out(
                *old(self),
            ),
            r is Err ==> *final(self) == *old(self) && (r->Err_0).requested == birth(old(self).data()),
            !(old(self).storage().heap_type() || old(self).storage().view_type()) ==> r is Ok && *final(self) == *old(
                self,
            ),
    {
        proof {
            lemma_storage_kinds(self.repr);
        }
        let holders: usize = self.holders();
        self.unshare_among(holders)
    }

    /// Break any sharing, given how many handles hold the heap buffer, where there is one: with one holder the value
    /// stays as it is, and with more it is copied out.
    pub fn unshare_among(&mut self, holders: usize) -> (r: Result<(), AllocError>)
        ensures
            old(self).storage().view_type() || (old(self).storage().heap_type() && holders > 1) ==> {
                &&& r is Ok ==> final(self).copied_out(*old(self))
                &&& r is Err ==> *final(self) == *old(self) && (r->Err_0).requested == birth(old(self).data())
            },
            !(old(self).storage().view_type() || (old(self).storage().heap_type() && holders > 1)) ==> r is Ok
                && *final(self) == *old(self),
    {
        proof {
            use_type_invariant(&*self);
            lemma_storage_kinds(self.repr);
            decode::lemma_content_facts(self.data());
        }
        let made: Result<HeapBuf, AllocError> = match &self.repr {
            Repr::Heap(buffer) => {
                if holders <= 1 {
                    return Ok(());
                }
                heap_parts_transitioned(buffer.bytes.as_slice(), buffer.scan, buffer.count)
            },
            Repr::View(window) => heap_parts_transitioned(window.as_slice(), window.scan, 0),
            _ => {
                return Ok(());
            },
        };
        match made {
            Ok(parts) => {
                let (utf8, tainted): (bool, bool) = (self.utf8, self.tainted);
                *self = PString { utf8, tainted, repr: Repr::Heap(parts) };
                Ok(())
            },
            Err(error) => Err(error),
        }
    }
}

/// A range of a `'static` slice.
fn static_subrange(bytes: &'static [u8], from: usize, to: usize) -> (r: &'static [u8])
    requires
        from <= to <= bytes@.len(),
    ensures
        r@ == bytes@.subrange(from as int, to as int),
{
    slice_subrange(bytes, from, to)
}

/// No form that is held in the value itself decodes to more than [`DECODE_MAX`] bytes.
pub proof fn law_envelope_forms_are_bounded(s: Seq<u8>)
    requires
        s.len() > DECODE_MAX,
    ensures
        !storage::envelope_holds(s),
{
    reveal(storage::envelope_holds);
    if latin1::is_latin1_text(s) {
        latin1::law_widen_undoes_narrow(s);
        latin1::lemma_widened_len(latin1::narrowed(s));
    }
}

/// Text of up to thirty characters of the numeric alphabet, as every rendering of an integer is, needs no allocation.
pub proof fn law_numeric_text_needs_no_allocation(s: Seq<u8>)
    requires
        s.len() <= 30,
        packed::PackedAlphabet::Numeric.holds_all(s),
    ensures
        storage::envelope_holds(s),
{
    reveal(storage::envelope_holds);
}

/// The number of bytes that joining two contents asks for.
pub open spec fn join_request(a: Seq<u8>, b: Seq<u8>) -> nat {
    if a.len() + b.len() <= usize::MAX {
        a.len() + b.len()
    } else {
        usize::MAX as nat
    }
}

/// A fresh buffer holding one content after the other.
fn join(a: &[u8], b: &[u8]) -> (r: Result<Vec<u8>, AllocError>)
    ensures
        r is Ok ==> (r->Ok_0)@ == a@ + b@,
        r is Err ==> (r->Err_0).requested == join_request(a@, b@),
{
    let total: usize = match a.len().checked_add(b.len()) {
        Some(total) => total,
        None => {
            return Err(AllocError { requested: usize::MAX });
        },
    };
    let mut joined: Vec<u8> = Vec::new();
    let granted: bool = reserve_exact(&mut joined, total);
    match provided(granted, joined, total) {
        Err(error) => Err(error),
        Ok(mut joined) => {
            append_span(&mut joined, a, 0, a.len());
            append_span(&mut joined, b, 0, b.len());
            assert(joined@ =~= a@ + b@);
            Ok(joined)
        },
    }
}

proof fn lemma_count_bound(s: Seq<u8>)
    requires
        decode::perl_decodable(s),
    ensures
        decode::code_points(s).len() <= s.len(),
{
    classify::lemma_leads(s, 0);
    classify::lemma_lead_count_split(s, 0, s.len() as int, s.len() as int);
}

/// The character count recorded for an append that leaves `state`: the sum where both sides know theirs and the whole
/// is known to decode, and none otherwise.
spec fn joined_count(prior_chars: usize, state: ScanState, kind: AppendKind) -> int {
    match kind {
        AppendKind::Valid { class: _, chars } => if prior_chars > 0 && chars > 0 && scan::perl_decodable_state(state) {
            prior_chars + chars
        } else {
            0
        },
        AppendKind::Unknown => 0,
    }
}

/// The character count of an append, where both sides know theirs.
fn appended_chars(prior_chars: usize, state: ScanState, kind: AppendKind, Ghost(old): Ghost<Seq<u8>>, added: &[u8]) -> (r: usize)
    requires
        counted(old, prior_chars),
        kind.describes(added@),
        old.len() + added@.len() <= usize::MAX,
    ensures
        r == joined_count(prior_chars, state, kind),
        counted(old + added@, r),
{
    match kind {
        AppendKind::Valid { class: _, chars } => {
            if prior_chars > 0 && chars > 0 && is_perl_decodable(state) {
                proof {
                    decode::lemma_concat(old, added@);
                    lemma_count_bound(old);
                    lemma_count_bound(added@);
                }
                prior_chars + chars
            } else {
                0
            }
        },
        AppendKind::Unknown => 0,
    }
}

/// A fresh heap buffer holding an append, its facts from the transition where that suffices.
fn appended_copy(old: &[u8], prior: ScanState, prior_chars: usize, bytes: &[u8], kind: AppendKind) -> (r: Result<
    HeapBuf,
    AllocError,
>)
    requires
        prior.certifies(old@),
        counted(old@, prior_chars),
        kind.describes(bytes@),
    ensures
        r is Ok ==> {
            let whole = old@ + bytes@;
            &&& (r->Ok_0).wf()
            &&& (r->Ok_0).bytes@ == whole
            &&& (r->Ok_0).scan == Terminal::of(whole).state()
            &&& (r->Ok_0).tier == Tier::of_length(whole.len())
        },
        r is Err ==> (r->Err_0).requested == join_request(old@, bytes@) || (r->Err_0).requested == birth(
            old@ + bytes@,
        ),
{
    let joined: Vec<u8> = match join(old, bytes) {
        Ok(joined) => joined,
        Err(error) => {
            return Err(error);
        },
    };
    let state: ScanState = append_transition_heap(prior, kind);
    proof {
        transition::law_append_keeps_certification(prior, kind, old@, bytes@);
        assert(joined@.len() == joined.len());
    }
    let chars: usize = appended_chars(prior_chars, state, kind, Ghost(old@), bytes);
    heap_parts_transitioned(joined.as_slice(), state, chars)
}

impl HeapBuf {
    /// Whether an append can stay in the buffer: there is room for it, and an ASCII twin stays one.
    spec fn append_fits(self, added: Seq<u8>, kind: AppendKind) -> bool {
        &&& self.bytes@.len() + added.len() <= self.cap
        &&& (self.tier is Heap8 || self.tier is Heap16) && self.scan is Ascii ==> transition::after_append(
            self.scan,
            kind,
        ) is Ascii
    }

    /// A buffer of the same allocation that holds the whole of an append.  A small tier has its class settled; a large
    /// one records what the append leaves known.
    spec fn append_of(self, whole: Seq<u8>, state: ScanState, cap: usize, tier: Tier) -> bool {
        &&& self.bytes@ == whole
        &&& self.scan == if tier is Heap8 || tier is Heap16 {
            Terminal::of(whole).state()
        } else {
            state
        }
        &&& self.cap == cap
        &&& self.tier == tier
    }
}

/// The buffer once its bytes were asked for to be appended to where they stand: they are where this was their only
/// holder, and otherwise the buffer comes back as it was.  `state` and `chars` are what the append leaves known.
fn append_taken(
    taken: Result<Vec<u8>, Arc<Vec<u8>>>,
    cap: usize,
    count: usize,
    scan: ScanState,
    tier: Tier,
    bytes: &[u8],
    state: ScanState,
    chars: usize,
) -> (r: Result<HeapBuf, HeapBuf>)
    requires
        handed_back(taken).len() + bytes@.len() <= cap <= tier.ceiling(),
        state.certifies(handed_back(taken) + bytes@),
        counted(handed_back(taken) + bytes@, chars),
    ensures
        r is Ok == taken is Ok,
        r is Ok ==> (r->Ok_0).wf() && (r->Ok_0).append_of(handed_back(taken) + bytes@, state, cap, tier),
        r is Err ==> r->Err_0 == (HeapBuf { bytes: taken->Err_0, cap, count, scan, tier }),
{
    let ghost whole = handed_back(taken) + bytes@;
    proof {
        scan::law_predicates_are_sound(state, whole);
    }
    match taken {
        Err(shared) => Err(HeapBuf { bytes: shared, cap, count, scan, tier }),
        Ok(mut owned) => {
            append_span(&mut owned, bytes, 0, bytes.len());
            assert(owned@ =~= whole);
            let (settled, counted_chars): (ScanState, usize) = if !tier.is_small() || (is_terminal(state) && (chars > 0
                || state == ScanState::Ascii)) {
                (state, chars)
            } else {
                let (terminal, chars) = classify_full(owned.as_slice());
                proof {
                    scan::law_terminals_are_exclusive(terminal, owned@);
                }
                (terminal.widen(), chars)
            };
            Ok(HeapBuf { bytes: Arc::new(owned), cap, count: counted_chars, scan: settled, tier })
        },
    }
}

/// A buffer that grew in place keeps its storage type: ASCII content stays so, and other content never becomes ASCII.
proof fn lemma_append_keeps_type(buffer: HeapBuf, next: HeapBuf, added: Seq<u8>, kind: AppendKind)
    requires
        buffer.wf(),
        kind.describes(added),
        buffer.append_fits(added, kind),
        next.append_of(
            buffer.bytes@ + added,
            transition::after_append(buffer.scan, kind),
            buffer.cap,
            buffer.tier,
        ),
    ensures
        storage::of_heap(next.tier, next.scan is Ascii) == storage::of_heap(buffer.tier, buffer.scan is Ascii),
{
    let old = buffer.bytes@;
    let whole = old + added;
    if buffer.tier is Heap8 || buffer.tier is Heap16 {
        let state = transition::after_append(buffer.scan, kind);
        transition::law_append_keeps_certification(buffer.scan, kind, old, added);
        scan::law_predicates_are_sound(state, whole);
        scan::law_predicates_are_sound(buffer.scan, old);
        decode::lemma_content_facts(old);
        decode::lemma_content_facts(whole);
        if !(buffer.scan is Ascii) {
            let i = choose|i: int| 0 <= i < old.len() && #[trigger] old[i] >= 0x80;
            assert(whole[i] == old[i]);
        }
    }
}

/// Extend an unshared heap buffer in place when the result fits its capacity.  The buffer comes back unchanged where
/// it is shared, is full, or is an ASCII twin that would cease to be ASCII.
fn append_heap_in_place(buffer: HeapBuf, bytes: &[u8], kind: AppendKind) -> (r: Result<HeapBuf, HeapBuf>)
    requires
        buffer.wf(),
        kind.describes(bytes@),
    ensures
        r is Ok ==> buffer.append_fits(bytes@, kind),
        r is Ok ==> (r->Ok_0).wf() && (r->Ok_0).append_of(
            buffer.bytes@ + bytes@,
            transition::after_append(buffer.scan, kind),
            buffer.cap,
            buffer.tier,
        ),
        r is Err ==> r->Err_0 == buffer,
{
    let old_len: usize = buffer.bytes.len();
    if bytes.len() > buffer.cap - old_len {
        return Err(buffer);
    }
    let state: ScanState = append_transition_heap(buffer.scan, kind);
    if buffer.tier.is_small() && buffer.scan == ScanState::Ascii && state != ScanState::Ascii {
        return Err(buffer);
    }
    proof {
        transition::law_append_keeps_certification(buffer.scan, kind, buffer.bytes@, bytes@);
    }
    let chars: usize = appended_chars(buffer.count, state, kind, Ghost(buffer.bytes@), bytes);
    let HeapBuf { bytes: shared, cap, count, scan, tier } = buffer;
    append_taken(take_unshared(shared), cap, count, scan, tier, bytes, state, chars)
}

/// The canonical envelope form of an append that stays within reach of one, or `None`.
fn appended_envelope(old: &[u8], bytes: &[u8]) -> (r: Option<Repr>)
    requires
        old@.len() <= 41,
    ensures
        r is Some <==> storage::envelope_holds(old@ + bytes@),
        r is Some ==> {
            &&& (r->0).wf()
            &&& (r->0).content() == old@ + bytes@
            &&& (r->0).storage() == storage::envelope_storage(old@ + bytes@)
            &&& (r->0).state() == Terminal::of(old@ + bytes@).state()
        },
{
    if bytes.len() > DECODE_MAX - old.len() {
        proof {
            law_envelope_forms_are_bounded(old@ + bytes@);
        }
        return None;
    }
    let total: usize = old.len() + bytes.len();
    let mut combined: [u8; 41] = [0u8; 41];
    place(&mut combined, 0, old);
    place(&mut combined, old.len(), bytes);
    let whole = slice_subrange(combined.as_slice(), 0, total);
    assert(whole@ =~= old@ + bytes@);
    envelope(whole)
}

/// Copy bytes into a scratch buffer at an offset.
fn place(out: &mut [u8; 41], at: usize, bytes: &[u8])
    requires
        at + bytes@.len() <= 41,
    ensures
        forall|k: int| 0 <= k < at ==> #[trigger] final(out)@[k] == old(out)@[k],
        forall|k: int| at <= k < at + bytes@.len() ==> #[trigger] final(out)@[k] == bytes@[k - at],
{
    let mut i: usize = 0;
    while i < bytes.len()
        invariant
            i <= bytes@.len(),
            at + bytes@.len() <= 41,
            forall|k: int| 0 <= k < at ==> #[trigger] out@[k] == old(out)@[k],
            forall|k: int| at <= k < at + i ==> #[trigger] out@[k] == bytes@[k - at],
        decreases bytes@.len() - i,
    {
        out[at + i] = bytes[i];
        i = i + 1;
    }
}

/// Extend a short ASCII payload in place: the class and the length family stay.
fn append_short_ascii(form: &Inline, bytes: &[u8]) -> (r: Option<Inline>)
    requires
        form.wf(),
        decode::all_ascii(bytes@),
    ensures
        r is Some <==> form.class is Ascii && !form.full && form.stored_len() + bytes@.len() < 15,
        r is Some ==> (r->0).wf() && (r->0).content() == form.content() + bytes@ && (r->0).class is Ascii
            && !(r->0).full,
{
    if form.class != InlineClass::Ascii || form.full {
        return None;
    }
    let len: usize = form.stored_count();
    if bytes.len() >= 15 - len {
        return None;
    }
    let new_len: usize = len + bytes.len();
    let mut buf: [u8; 15] = form.buf;
    let ghost old = form.stored();
    let mut i: usize = 0;
    while i < bytes.len()
        invariant
            i <= bytes@.len(),
            len == form.stored_len(),
            len + bytes@.len() == new_len < 15,
            form.wf(),
            !form.full,
            forall|k: int| 0 <= k < len ==> #[trigger] buf@[k] == form.buf@[k],
            forall|k: int| len <= k < len + i ==> #[trigger] buf@[k] == bytes@[k - len],
            forall|k: int| len + i <= k < 14 ==> #[trigger] buf@[k] == 0,
        decreases bytes@.len() - i,
    {
        buf[len + i] = bytes[i];
        i = i + 1;
    }
    buf[14] = new_len as u8;
    let next = Inline { class: InlineClass::Ascii, full: false, buf };
    proof {
        let whole = old + bytes@;
        assert(next.stored_len() == new_len);
        assert(next.stored() =~= whole);
        decode::lemma_content_facts(form.content());
        decode::lemma_content_facts(whole);
        assert forall|k: int| 0 <= k < whole.len() implies #[trigger] whole[k] < 0x80 by {
            if k < old.len() {
                assert(old[k] < 0x80);
            } else {
                assert(bytes@[k - old.len()] < 0x80);
            }
        }
        assert(next.content() =~= form.content() + bytes@);
    }
    Some(next)
}

impl PString {
    /// Append the bytes of a Rust `&str`.  A string that is not in an inline form is left empty where the memory for
    /// the result is not to be had.
    pub fn push_str(&mut self, s: &str) -> (r: Result<(), AllocError>)
        ensures
            pushed(
                *old(self),
                *final(self),
                s.spec_bytes(),
                transition::appended_state(old(self).state(), classify::range_of(s.spec_bytes())),
                r,
            ),
    {
        let bytes = s.as_bytes();
        proof {
            utf8::lemma_str_decodable(s);
        }
        let (class, chars): (ValidRange, usize) = classify_known_valid(bytes);
        self.push_raw(bytes, AppendKind::Valid { class, chars })
    }

    /// Append raw bytes.  A string that is not in an inline form is left empty where the memory for the result is not
    /// to be had.
    pub fn push_bytes(&mut self, bytes: &[u8]) -> (r: Result<(), AllocError>)
        ensures
            pushed(
                *old(self),
                *final(self),
                bytes@,
                if decode::all_ascii(bytes@) {
                    old(self).state()
                } else {
                    ScanState::Unknown
                },
                r,
            ),
    {
        let kind = if all_bytes_ascii(bytes) {
            proof {
                decode::lemma_content_facts(bytes@);
                lemma_ascii_count(bytes@);
            }
            AppendKind::Valid { class: ValidRange::Ascii, chars: bytes.len() }
        } else {
            AppendKind::Unknown
        };
        self.push_raw(bytes, kind)
    }

    fn push_raw(&mut self, bytes: &[u8], kind: AppendKind) -> (r: Result<(), AllocError>)
        requires
            kind.describes(bytes@),
        ensures
            pushed(*old(self), *final(self), bytes@, transition::after_append(old(self).state(), kind), r),
    {
        if bytes.len() == 0 {
            assert(self.data() + bytes@ =~= self.data());
            return Ok(());
        }
        if let Repr::Inline(form) = &self.repr {
            let form: Inline = *form;
            return self.push_inline(form, bytes, kind);
        }
        let mut taken = PString::empty();
        std::mem::swap(self, &mut taken);
        proof {
            use_type_invariant(&taken);
            lemma_repr_certified(taken.repr);
        }
        let PString { utf8, tainted, repr } = taken;
        match push_repr(repr, bytes, kind) {
            Ok(next) => {
                *self = PString { utf8, tainted, repr: next };
                Ok(())
            },
            Err(error) => Err(error),
        }
    }

    /// Append to an inline value: the result runs canonical selection over the whole content.
    fn push_inline(&mut self, form: Inline, bytes: &[u8], kind: AppendKind) -> (r: Result<(), AllocError>)
        requires
            old(self).repr == Repr::Inline(form),
            kind.describes(bytes@),
            bytes@.len() > 0,
        ensures
            pushed(*old(self), *final(self), bytes@, transition::after_append(old(self).state(), kind), r),
    {
        proof {
            use_type_invariant(&*self);
            decode::lemma_content_facts(bytes@);
        }
        let (utf8, tainted): (bool, bool) = (self.utf8, self.tainted);
        if let AppendKind::Valid { class: ValidRange::Ascii, chars: _ } = kind {
            if let Some(next) = append_short_ascii(&form, bytes) {
                proof {
                    lemma_inline_chosen(next);
                }
                *self = PString { utf8, tainted, repr: Repr::Inline(next) };
                return Ok(());
            }
        }
        let mut scratch: [u8; 41] = [0u8; 41];
        let n: usize = form.expand(&mut scratch);
        let internal = slice_subrange(scratch.as_slice(), 0, n);
        assert(internal@ =~= form.content());
        if let Some(next) = appended_envelope(internal, bytes) {
            *self = PString { utf8, tainted, repr: next };
            return Ok(());
        }
        proof {
            scan::law_terminals_are_exclusive(form.class.terminal(), form.content());
            decode::lemma_content_facts(internal@ + bytes@);
        }
        match appended_copy(internal, inline_scan_to_heap(form.class), 0, bytes, kind) {
            Ok(parts) => {
                *self = PString { utf8, tainted, repr: Repr::Heap(parts) };
                Ok(())
            },
            Err(error) => Err(error),
        }
    }
}

/// The storage of an append to storage that is not inline.
#[verifier::rlimit(40)]
fn push_repr(repr: Repr, bytes: &[u8], kind: AppendKind) -> (r: Result<Repr, AllocError>)
    requires
        repr.wf(),
        !(repr is Inline),
        kind.describes(bytes@),
    ensures
        r is Ok ==> (r->Ok_0).wf() && (r->Ok_0).content() == repr.content() + bytes@,
        repr is Packed && storage::alphabet_holds(repr.content() + bytes@) ==> r is Ok && r->Ok_0 is Packed,
        repr is Hex && storage::envelope_holds(repr.content() + bytes@) ==> r is Ok && (r->Ok_0).storage()
            == storage::envelope_storage(repr.content() + bytes@),
        r is Ok ==> push_form(
            repr.storage(),
            repr.content() + bytes@,
            transition::after_append(repr.state(), kind),
            (r->Ok_0).storage(),
            (r->Ok_0).state(),
        ),
        r is Err ==> (r->Err_0).requested == join_request(repr.content(), bytes@) || (r->Err_0).requested == birth(
            repr.content() + bytes@,
        ),
{
    proof {
        lemma_storage_kinds(repr);
        lemma_repr_certified(repr);
        decode::lemma_content_facts(repr.content() + bytes@);
    }
    let made: Result<HeapBuf, AllocError> = match repr {
        Repr::Inline(_) => {
            return Ok(repr);
        },
        Repr::Packed(form) => {
            if let Some(next) = form.push(bytes) {
                proof {
                    lemma_packed_chosen(next);
                }
                return Ok(Repr::Packed(next));
            }
            // Past the band, or no longer alphabet-conformant: decode once, on the way out of the tier.
            let mut scratch: [u8; 41] = [0u8; 41];
            let n: usize = form.unpack(&mut scratch);
            let old = slice_subrange(scratch.as_slice(), 0, n);
            assert(old@ =~= form.content());
            appended_copy(old, ScanState::Ascii, 0, bytes, kind)
        },
        Repr::Uuid { form, payload } => {
            // An append leaves the canonical spelling, so the value always exits the family.
            let mut scratch: [u8; 41] = [0u8; 41];
            let n: usize = decode_uuid(form, &payload, &mut scratch);
            let old = slice_subrange(scratch.as_slice(), 0, n);
            assert(old@ =~= uuid::uuid_spelling(form, payload@));
            appended_copy(old, ScanState::Ascii, 0, bytes, kind)
        },
        Repr::Hex { payload } => {
            // An append may or may not leave a hex spelling: the ladder says.
            let mut scratch: [u8; 41] = [0u8; 41];
            let n: usize = decode_hex_bytes(&payload, &mut scratch);
            let old = slice_subrange(scratch.as_slice(), 0, n);
            assert(old@ =~= hex::hex_spelling(payload@));
            if let Some(next) = appended_envelope(old, bytes) {
                return Ok(next);
            }
            appended_copy(old, ScanState::Ascii, 0, bytes, kind)
        },
        // The image and the view are readonly: copy out on write.
        Repr::Image(image) => appended_copy(image.bytes, image.scan.widen(), 0, bytes, kind),
        Repr::View(window) => appended_copy(window.as_slice(), window.scan, 0, bytes, kind),
        Repr::Heap(buffer) => match append_heap_in_place(buffer, bytes, kind) {
            Ok(next) => {
                proof {
                    lemma_append_keeps_type(buffer, next, bytes@, kind);
                }
                Ok(next)
            },
            // Shared, or over capacity: the buffer is rebuilt, in the tier that the result takes.
            Err(buffer) => appended_copy(buffer.bytes.as_slice(), buffer.scan, buffer.count, bytes, kind),
        },
    };
    match made {
        Ok(parts) => Ok(Repr::Heap(parts)),
        Err(error) => Err(error),
    }
}

/// Whether storage that is not inline has the type `r` and the state `known` after an append that gives `whole`: the
/// alphabets keep what they hold, hexadecimal text takes any envelope form that holds the result, a heap buffer may have
/// grown in place, and everything else is copied out to the heap, classified.
///
/// `moved` is what the append leaves known of bytes that are not classified anew, as those of a large buffer that grew
/// in place are not.
pub open spec fn push_form(
    source: StorageType,
    whole: Seq<u8>,
    moved: ScanState,
    r: StorageType,
    known: ScanState,
) -> bool {
    let settled = Terminal::of(whole).state();
    if (source.alphabet_type() && storage::alphabet_holds(whole)) || (source is PackedHexBytes
        && storage::envelope_holds(whole)) {
        r == storage::envelope_storage(whole) && known == settled
    } else {
        ||| r == storage::heap_storage_of(whole) && known == settled
        ||| {
            &&& source.heap_type()
            &&& whole.len() <= source.heap_ceiling()
            &&& r == source
            &&& known == if source is Heap32 || source is Heap {
                moved
            } else {
                settled
            }
        }
    }
}

/// What an append of `added` did: the bytes are joined and the tags stay, or the memory was not to be had.
///
/// `moved` is what the append leaves known of bytes that are not classified anew.
///
/// An inline value runs canonical selection over the whole, and is unchanged on failure; any other value is left empty
/// on failure.  No memory is asked for where an envelope form of the same family holds the result.
pub open spec fn pushed(
    before: PString,
    after: PString,
    added: Seq<u8>,
    moved: ScanState,
    r: Result<(), AllocError>,
) -> bool {
    let whole = before.data() + added;
    &&& r is Ok ==> {
        &&& after.data() == whole
        &&& after.flagged() == before.flagged()
        &&& after.taint_bit() == before.taint_bit()
        &&& before.storage().inline_type() && added.len() > 0 ==> {
            &&& after.storage() == storage::canonical_storage(whole)
            &&& after.state() == Terminal::of(whole).state()
        }
        &&& !before.storage().inline_type() && added.len() > 0 ==> push_form(
            before.storage(),
            whole,
            moved,
            after.storage(),
            after.state(),
        )
    }
    &&& added.len() == 0 ==> r is Ok && after == before
    &&& before.storage().inline_type() && storage::envelope_holds(whole) ==> r is Ok
    &&& before.storage().alphabet_type() && storage::alphabet_holds(whole) ==> r is Ok && after.storage().alphabet_type()
    &&& before.storage() is PackedHexBytes && storage::envelope_holds(whole) ==> r is Ok
    &&& r is Err ==> {
        &&& (r->Err_0).requested == join_request(before.data(), added) || (r->Err_0).requested == birth(whole)
        &&& before.storage().inline_type() ==> after == before
        &&& !before.storage().inline_type() ==> {
            &&& after.data() == Seq::<u8>::empty()
            &&& !after.flagged()
            &&& !after.taint_bit()
        }
    }
}

impl PString {
    /// Whether two strings have the same bytes.  Existing scan knowledge and representations answer where they can.
    pub(crate) fn same_bytes(&self, other: &PString) -> (r: bool)
        ensures
            r == (self.data() == other.data()),
    {
        let (sa, sb): (ScanState, ScanState) = (self.scan_state(), other.scan_state());
        proof {
            use_type_invariant(self);
            use_type_invariant(other);
            scan::law_predicates_are_sound(sa, self.data());
            scan::law_predicates_are_sound(sb, other.data());
            decode::lemma_content_facts(self.data());
        }
        // Terminal states exclude one another, so different ones belong to different contents.
        if is_terminal(sa) && is_terminal(sb) && sa != sb {
            return false;
        }
        // Valid bytes never equal invalid bytes.
        if (is_terminal(sa) && !is_rust_valid(sa) && is_rust_valid(sb)) || (is_terminal(sb) && !is_rust_valid(sb)
            && is_rust_valid(sa)) {
            return false;
        }
        let mut left: [u8; 41] = [0u8; 41];
        let mut right: [u8; 41] = [0u8; 41];
        match (&self.repr, &other.repr) {
            (Repr::Inline(a), Repr::Inline(b)) => {
                // Content determines representation.
                proof {
                    if a.content() == b.content() {
                        inline_form::law_inline_representation_is_canonical(*a, *b);
                    }
                }
                a.same(b)
            },
            (Repr::Packed(a), Repr::Packed(b)) => {
                proof {
                    if a.content() == b.content() {
                        packed::law_packed_representation_is_canonical(*a, *b);
                    }
                }
                a.same(b)
            },
            (Repr::Packed(a), _) => a.eq_bytes(other.as_bytes(&mut right)),
            (_, Repr::Packed(b)) => b.eq_bytes(self.as_bytes(&mut left)),
            _ => order::equal_bytes(self.as_bytes(&mut left), other.as_bytes(&mut right)),
        }
    }

    /// The order of the bytes of two strings.  Two packed strings of one alphabet compare without decoding.
    pub(crate) fn order_raw_bytes(&self, other: &PString) -> (r: Order)
        ensures
            r == order::byte_order(self.data(), other.data()),
    {
        proof {
            use_type_invariant(self);
            use_type_invariant(other);
            order::law_order_is_antisymmetric(other.data(), self.data());
        }
        let mut left: [u8; 41] = [0u8; 41];
        let mut right: [u8; 41] = [0u8; 41];
        match (&self.repr, &other.repr) {
            (Repr::Packed(a), Repr::Packed(b)) if a.alphabet == b.alphabet => a.order_same_alphabet(b),
            (Repr::Packed(a), _) => a.order_bytes(other.as_bytes(&mut right)),
            (_, Repr::Packed(b)) => b.order_bytes(self.as_bytes(&mut left)).reverse(),
            _ => order::compare_bytes(self.as_bytes(&mut left), other.as_bytes(&mut right)),
        }
    }
}

/// A range is what perl's `substr` takes: from the offset on, as many bytes as are asked for and as there are, and nothing
/// from beyond the end.
pub proof fn law_ranges_are_clamped(s: PString, offset: nat, len: nat)
    ensures
        offset >= s.data().len() ==> s.range(offset, len).len() == 0,
        offset < s.data().len() ==> {
            let r = s.range(offset, len);
            &&& r.len() == if offset + len <= s.data().len() { len } else { (s.data().len() - offset) as nat }
            &&& forall|i: int| 0 <= i < r.len() ==> #[trigger] r[i] == s.data()[offset + i]
        },
{
}

/// An append that succeeds puts the bytes behind those that were there, and keeps the flag and the taint.
pub proof fn law_append_puts_the_bytes_behind(
    before: PString,
    after: PString,
    added: Seq<u8>,
    moved: ScanState,
    r: Result<(), AllocError>,
)
    requires
        pushed(before, after, added, moved, r),
        r is Ok,
    ensures
        after.data().len() == before.data().len() + added.len(),
        after.data().take(before.data().len() as int) == before.data(),
        after.data().skip(before.data().len() as int) == added,
        after.flagged() == before.flagged(),
        after.taint_bit() == before.taint_bit(),
        added.len() == 0 ==> after == before,
{
    assert(after.data().take(before.data().len() as int) =~= before.data());
    assert(after.data().skip(before.data().len() as int) =~= added);
}

/// An append asks for no memory where the result needs none, and otherwise for the joined bytes or the capacity that they
/// are born with.
pub proof fn law_append_fails_for_want_of_memory_alone(
    before: PString,
    after: PString,
    added: Seq<u8>,
    moved: ScanState,
    r: Result<(), AllocError>,
)
    requires
        pushed(before, after, added, moved, r),
        r is Err,
        before.data().len() + added.len() <= usize::MAX,
    ensures
        added.len() > 0,
        (r->Err_0).requested == before.data().len() + added.len() || (r->Err_0).requested == birth(
            before.data() + added,
        ),
        before.storage().inline_type() ==> after == before && before.data().len() + added.len() > 15,
        !before.storage().inline_type() ==> after.data().len() == 0,
{
    if before.storage().inline_type() && before.data().len() + added.len() <= 15 {
        storage::law_short_content_needs_no_allocation(before.data() + added);
    }
}

/// The characters of a string: the bytes themselves where it is flagged, and where it is not the UTF-8 encoding of the
/// characters that its bytes number.
pub proof fn law_encoding_is_the_characters(s: PString)
    ensures
        s.flagged() ==> s.encoding() == s.data(),
        !s.flagged() ==> s.encoding() == vstd::utf8::encode_utf8(s.data().map_values(|b: u8| b as char)),
{
    latin1::law_upgrade_is_the_utf8_encoding(s.data());
}

/// A view takes the form whose coordinates reach: of a large buffer the far form up to 65535 bytes, the medium one while
/// offset and length stay below 16 mebibytes less one, and an adopted range beyond.
pub proof fn law_slices_take_the_form_that_reaches(offset: nat, len: nat, r: StorageType)
    ensures
        slice_form(StorageType::Heap32, offset, len, r) && len <= 65535 ==> r is FarSlice,
        slice_form(StorageType::Heap32, offset, len, r) && len > 65535 && offset < 16777215 && len < 16777215 ==> r
            is MediumSlice,
        slice_form(StorageType::Heap32, offset, len, r) && len > 65535 && !(offset < 16777215 && len < 16777215) ==> r
            is Adopted,
        slice_form(StorageType::Heap8, offset, len, r) || slice_form(StorageType::Heap8Ascii, offset, len, r)
            || slice_form(StorageType::Heap16, offset, len, r) || slice_form(StorageType::Heap16Ascii, offset, len, r)
            ==> r is SmallSlice,
        slice_form(StorageType::Heap, offset, len, r) ==> r is Adopted,
        slice_form(StorageType::Static, offset, len, r) ==> r is Static,
        slice_form(StorageType::Immortal, offset, len, r) ==> r is Immortal,
{
}

/// An upgrade leaves flagged and ASCII content where it is, and what it has to widen it stores anew as what it became.
pub proof fn law_upgrade_storage(s: PString)
    ensures
        s.flagged() ==> s.upgraded_storage() == s.storage() && s.upgraded_state() == s.state(),
        decode::all_ascii(s.data()) ==> s.upgraded_storage() == s.storage() && s.upgraded_state() == s.state(),
        !s.flagged() && !decode::all_ascii(s.data()) ==> s.upgraded_state() is Utf8Latin1,
        !s.flagged() && !decode::all_ascii(s.data()) && s.data().len() <= 15 ==> s.upgraded_storage()
            == storage::canonical_storage(latin1::widened(s.data())),
        !s.flagged() && !decode::all_ascii(s.data()) && s.data().len() > 15 ==> s.upgraded_storage().heap_type(),
{
}

/// An image past 16 mebibytes less one has a type of its own.
pub proof fn law_large_images_have_their_own_type(s: Seq<u8>)
    ensures
        s.len() <= 16777215 ==> image_storage(s) is Static,
        s.len() > 16777215 ==> image_storage(s) is LargeStatic,
{
}

/// A string that broke its sharing is the same string, settled in a buffer of its own.
pub proof fn law_breaking_the_sharing_keeps_the_string(before: PString, after: PString)
    requires
        after.copied_out(before),
    ensures
        after.data() == before.data(),
        after.flagged() == before.flagged(),
        after.taint_bit() == before.taint_bit(),
        after.encoding() == before.encoding(),
        after.storage().heap_type(),
        after.state().as_terminal() is Some,
{
}

/// Joining asks for the bytes of both, or for the largest number where they are more; a failed upgrade or downgrade asked
/// for the bytes it would have made, or for the capacity that they are born with.
pub proof fn law_requests_are_for_what_is_made(s: PString, a: Seq<u8>, b: Seq<u8>, error: AllocError)
    ensures
        a.len() + b.len() <= usize::MAX ==> join_request(a, b) == a.len() + b.len(),
        a.len() + b.len() > usize::MAX ==> join_request(a, b) == usize::MAX,
        s.downgrade_failure(error) ==> error.requested == decode::code_points(s.data()).len() || error.requested == birth(
            latin1::narrowed(s.data()),
        ),
        s.upgrade_failure(error) && latin1::widened(s.data()).len() <= usize::MAX ==> error.requested == latin1::widened(
            s.data(),
        ).len() || error.requested == birth(s.encoding()),
        birth(a) == Tier::of_length(a.len()).birth_capacity(a.len()),
{
}

} // verus!
