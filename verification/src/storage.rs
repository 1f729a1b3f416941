//! The vocabulary of storage types, and which of them content takes.
use crate::cow_buffer::Tier;
use crate::decode;
use crate::hex;
use crate::inline_form;
use crate::inline_form::InlineClass;
use crate::latin1;
use crate::packed;
use crate::packed::PackedAlphabet;
use crate::scan::Terminal;
use crate::uuid;
use crate::uuid::UuidForm;
use vstd::prelude::*;

verus! {

/// How a string is stored.  Canonical selection takes the first type able to represent the content: inline, then the
/// nibble alphabets, then the identifier families, then the heap.
#[derive(Clone, Copy, PartialEq, Eq, Structural, PartialOrd, Ord, Hash, Debug)]
pub enum StorageType {
    /// Inline, ASCII content.
    InlineAscii,
    /// ASCII at full capacity, the stored length implied.
    InlineAsciiFull,
    /// Latin-1-range content, stored as its Latin-1 transcoding.
    InlineLatin1,
    /// Latin-1-range content at full capacity.
    InlineLatin1Full,
    /// Rust-valid UTF-8 containing a character at or above U+0100.
    InlineNonLatin1,
    /// Non-Latin-1 content at full capacity.
    InlineNonLatin1Full,
    /// Perl-decodable, Rust-invalid.
    InlineExtended,
    /// Extended content at full capacity.
    InlineExtendedFull,
    /// Bytes neither UTF-8 reader accepts.
    InlineBytes,
    /// Bytes-class content at full capacity.
    InlineBytesFull,
    /// Nibble-packed, 16-29 characters of the numeric alphabet.
    PackedNumeric,
    /// Numeric-alphabet content at the full thirty characters.
    PackedNumericFull,
    /// Nibble-packed datetime content whose sixteenth symbol is `T`.
    PackedDateTimePlus,
    /// DateTimePlus content at the full thirty characters.
    PackedDateTimePlusFull,
    /// Nibble-packed datetime content whose alphabet carries `Z`.
    PackedDateTimeZulu,
    /// DateTimeZulu content at the full thirty characters.
    PackedDateTimeZuluFull,
    /// Heap, content of 255 bytes or fewer, ASCII.
    Heap8Ascii,
    /// Heap, content of 255 bytes or fewer.
    Heap8,
    /// Heap, content through 64 KiB, ASCII.
    Heap16Ascii,
    /// Heap, content through 64 KiB.
    Heap16,
    /// Heap, content through 4 GiB.
    Heap32,
    /// Heap, content beyond 4 GiB.
    Heap,
    /// An immortal image.  Constructed explicitly, never canonically selected.
    Immortal,
    /// A `'static` image.  Constructed explicitly, never canonically selected.
    Static,
    /// An immortal image past the compact ceiling.
    LargeImmortal,
    /// A `'static` image past the compact ceiling.
    LargeStatic,
    /// A sub-range of a Heap32 buffer.
    MediumSlice,
    /// A sub-range of a Heap8 or Heap16 buffer.
    SmallSlice,
    /// A short sub-range at any offset of a Heap32 buffer.
    FarSlice,
    /// A short sub-range at any offset of an adopted object.
    FarAdopted,
    /// A range of an adopted object: an oversized view's own object.
    Adopted,
    /// A packed UUID, version 1.
    PackedUuidV1,
    /// A packed UUID, version 3, by the variant's two data bits.
    PackedUuidV3S0,
    /// A packed UUID, version 3.
    PackedUuidV3S1,
    /// A packed UUID, version 3.
    PackedUuidV3S2,
    /// A packed UUID, version 3.
    PackedUuidV3S3,
    /// A packed UUID, version 4, by the variant's two data bits.
    PackedUuidV4S0,
    /// A packed UUID, version 4.
    PackedUuidV4S1,
    /// A packed UUID, version 4.
    PackedUuidV4S2,
    /// A packed UUID, version 4.
    PackedUuidV4S3,
    /// A packed UUID, version 5, by the variant's two data bits.
    PackedUuidV5S0,
    /// A packed UUID, version 5.
    PackedUuidV5S1,
    /// A packed UUID, version 5.
    PackedUuidV5S2,
    /// A packed UUID, version 5.
    PackedUuidV5S3,
    /// A packed UUID, version 6.
    PackedUuidV6,
    /// A packed UUID, version 7.
    PackedUuidV7,
    /// Packed hexadecimal text.
    PackedHexBytes,
}

impl StorageType {
    /// The ten inline types.
    pub open spec fn inline_type(self) -> bool {
        ||| self is InlineAscii
        ||| self is InlineAsciiFull
        ||| self is InlineLatin1
        ||| self is InlineLatin1Full
        ||| self is InlineNonLatin1
        ||| self is InlineNonLatin1Full
        ||| self is InlineExtended
        ||| self is InlineExtendedFull
        ||| self is InlineBytes
        ||| self is InlineBytesFull
    }

    /// The types of the packed UUID forms.
    pub open spec fn uuid_type(self) -> bool {
        exists|form: UuidForm| #[trigger] of_uuid(form) == self
    }

    /// The types of the nibble alphabets.
    pub open spec fn alphabet_type(self) -> bool {
        ||| self is PackedNumeric
        ||| self is PackedNumericFull
        ||| self is PackedDateTimePlus
        ||| self is PackedDateTimePlusFull
        ||| self is PackedDateTimeZulu
        ||| self is PackedDateTimeZuluFull
    }

    /// The twenty-two packed types.
    pub open spec fn packed_type(self) -> bool {
        self.alphabet_type() || self.uuid_type() || self is PackedHexBytes
    }

    /// The heap tiers, ASCII twins included.
    pub open spec fn heap_type(self) -> bool {
        ||| self is Heap8
        ||| self is Heap8Ascii
        ||| self is Heap16
        ||| self is Heap16Ascii
        ||| self is Heap32
        ||| self is Heap
    }

    /// The longest content that the heap type holds.
    pub open spec fn heap_ceiling(self) -> nat {
        match self {
            StorageType::Heap8 | StorageType::Heap8Ascii => Tier::Heap8.ceiling(),
            StorageType::Heap16 | StorageType::Heap16Ascii => Tier::Heap16.ceiling(),
            StorageType::Heap32 => Tier::Heap32.ceiling(),
            _ => Tier::Heap.ceiling(),
        }
    }

    /// The types that share another value's buffer.
    pub open spec fn view_type(self) -> bool {
        ||| self is MediumSlice
        ||| self is SmallSlice
        ||| self is FarSlice
        ||| self is FarAdopted
        ||| self is Adopted
    }

    /// The types that borrow an image which outlives every value.
    pub open spec fn image_type(self) -> bool {
        ||| self is Immortal
        ||| self is Static
        ||| self is LargeImmortal
        ||| self is LargeStatic
    }

    /// Any of the ten inline types: content the payload carries verbatim or Latin-1-compressed.
    pub fn is_inline(self) -> (r: bool)
        ensures
            r == self.inline_type(),
    {
        matches!(
            self,
            StorageType::InlineAscii
            | StorageType::InlineAsciiFull
            | StorageType::InlineLatin1
            | StorageType::InlineLatin1Full
            | StorageType::InlineNonLatin1
            | StorageType::InlineNonLatin1Full
            | StorageType::InlineExtended
            | StorageType::InlineExtendedFull
            | StorageType::InlineBytes
            | StorageType::InlineBytesFull
        )
    }

    /// Any of the packed types: the nibble alphabets and the identifier families, whose content is encoded into the
    /// payload rather than stored there.
    pub fn is_packed(self) -> (r: bool)
        ensures
            r == self.packed_type(),
    {
        proof {
            assert(of_uuid(UuidForm::V1) is PackedUuidV1);
            assert(of_uuid(UuidForm::V3S0) is PackedUuidV3S0);
            assert(of_uuid(UuidForm::V3S1) is PackedUuidV3S1);
            assert(of_uuid(UuidForm::V3S2) is PackedUuidV3S2);
            assert(of_uuid(UuidForm::V3S3) is PackedUuidV3S3);
            assert(of_uuid(UuidForm::V4S0) is PackedUuidV4S0);
            assert(of_uuid(UuidForm::V4S1) is PackedUuidV4S1);
            assert(of_uuid(UuidForm::V4S2) is PackedUuidV4S2);
            assert(of_uuid(UuidForm::V4S3) is PackedUuidV4S3);
            assert(of_uuid(UuidForm::V5S0) is PackedUuidV5S0);
            assert(of_uuid(UuidForm::V5S1) is PackedUuidV5S1);
            assert(of_uuid(UuidForm::V5S2) is PackedUuidV5S2);
            assert(of_uuid(UuidForm::V5S3) is PackedUuidV5S3);
            assert(of_uuid(UuidForm::V6) is PackedUuidV6);
            assert(of_uuid(UuidForm::V7) is PackedUuidV7);
        }
        matches!(
            self,
            StorageType::PackedNumeric
            | StorageType::PackedNumericFull
            | StorageType::PackedDateTimePlus
            | StorageType::PackedDateTimePlusFull
            | StorageType::PackedDateTimeZulu
            | StorageType::PackedDateTimeZuluFull
            | StorageType::PackedUuidV1
            | StorageType::PackedUuidV3S0
            | StorageType::PackedUuidV3S1
            | StorageType::PackedUuidV3S2
            | StorageType::PackedUuidV3S3
            | StorageType::PackedUuidV4S0
            | StorageType::PackedUuidV4S1
            | StorageType::PackedUuidV4S2
            | StorageType::PackedUuidV4S3
            | StorageType::PackedUuidV5S0
            | StorageType::PackedUuidV5S1
            | StorageType::PackedUuidV5S2
            | StorageType::PackedUuidV5S3
            | StorageType::PackedUuidV6
            | StorageType::PackedUuidV7
            | StorageType::PackedHexBytes
        )
    }

    /// The heap tiers that classify eagerly.
    pub fn is_small_heap_tier(self) -> (r: bool)
        ensures
            r == (self is Heap8 || self is Heap8Ascii || self is Heap16 || self is Heap16Ascii),
    {
        matches!(
            self,
            StorageType::Heap8 | StorageType::Heap8Ascii | StorageType::Heap16 | StorageType::Heap16Ascii
        )
    }

    /// Any of the four heap tiers, ASCII twins included.
    pub fn is_heap(self) -> (r: bool)
        ensures
            r == self.heap_type(),
    {
        matches!(
            self,
            StorageType::Heap8
            | StorageType::Heap8Ascii
            | StorageType::Heap16
            | StorageType::Heap16Ascii
            | StorageType::Heap32
            | StorageType::Heap
        )
    }
}

/// The storage type of an inline class and length family.
pub open spec fn of_inline(class: InlineClass, full: bool) -> StorageType {
    match class {
        InlineClass::Ascii => if full { StorageType::InlineAsciiFull } else { StorageType::InlineAscii },
        InlineClass::Latin1 => if full { StorageType::InlineLatin1Full } else { StorageType::InlineLatin1 },
        InlineClass::NonLatin1 => if full { StorageType::InlineNonLatin1Full } else { StorageType::InlineNonLatin1 },
        InlineClass::Extended => if full { StorageType::InlineExtendedFull } else { StorageType::InlineExtended },
        InlineClass::Bytes => if full { StorageType::InlineBytesFull } else { StorageType::InlineBytes },
    }
}

/// The storage type of an inline class and length family.
pub fn inline_storage(class: InlineClass, full: bool) -> (r: StorageType)
    ensures
        r == of_inline(class, full),
{
    match class {
        InlineClass::Ascii => if full { StorageType::InlineAsciiFull } else { StorageType::InlineAscii },
        InlineClass::Latin1 => if full { StorageType::InlineLatin1Full } else { StorageType::InlineLatin1 },
        InlineClass::NonLatin1 => if full { StorageType::InlineNonLatin1Full } else { StorageType::InlineNonLatin1 },
        InlineClass::Extended => if full { StorageType::InlineExtendedFull } else { StorageType::InlineExtended },
        InlineClass::Bytes => if full { StorageType::InlineBytesFull } else { StorageType::InlineBytes },
    }
}

/// The storage type of a packed alphabet and length family.
pub open spec fn of_packed(alphabet: PackedAlphabet, full: bool) -> StorageType {
    match alphabet {
        PackedAlphabet::Numeric => if full { StorageType::PackedNumericFull } else { StorageType::PackedNumeric },
        PackedAlphabet::DateTimePlus => if full {
            StorageType::PackedDateTimePlusFull
        } else {
            StorageType::PackedDateTimePlus
        },
        PackedAlphabet::DateTimeZulu => if full {
            StorageType::PackedDateTimeZuluFull
        } else {
            StorageType::PackedDateTimeZulu
        },
    }
}

/// The storage type of a packed alphabet and length family.
pub fn packed_storage(alphabet: PackedAlphabet, full: bool) -> (r: StorageType)
    ensures
        r == of_packed(alphabet, full),
{
    match alphabet {
        PackedAlphabet::Numeric => if full { StorageType::PackedNumericFull } else { StorageType::PackedNumeric },
        PackedAlphabet::DateTimePlus => if full {
            StorageType::PackedDateTimePlusFull
        } else {
            StorageType::PackedDateTimePlus
        },
        PackedAlphabet::DateTimeZulu => if full {
            StorageType::PackedDateTimeZuluFull
        } else {
            StorageType::PackedDateTimeZulu
        },
    }
}

/// The storage type of a packed UUID form.
pub open spec fn of_uuid(form: UuidForm) -> StorageType {
    match form {
        UuidForm::V1 => StorageType::PackedUuidV1,
        UuidForm::V3S0 => StorageType::PackedUuidV3S0,
        UuidForm::V3S1 => StorageType::PackedUuidV3S1,
        UuidForm::V3S2 => StorageType::PackedUuidV3S2,
        UuidForm::V3S3 => StorageType::PackedUuidV3S3,
        UuidForm::V4S0 => StorageType::PackedUuidV4S0,
        UuidForm::V4S1 => StorageType::PackedUuidV4S1,
        UuidForm::V4S2 => StorageType::PackedUuidV4S2,
        UuidForm::V4S3 => StorageType::PackedUuidV4S3,
        UuidForm::V5S0 => StorageType::PackedUuidV5S0,
        UuidForm::V5S1 => StorageType::PackedUuidV5S1,
        UuidForm::V5S2 => StorageType::PackedUuidV5S2,
        UuidForm::V5S3 => StorageType::PackedUuidV5S3,
        UuidForm::V6 => StorageType::PackedUuidV6,
        UuidForm::V7 => StorageType::PackedUuidV7,
    }
}

/// The storage type of a packed UUID form.
pub fn uuid_storage(form: UuidForm) -> (r: StorageType)
    ensures
        r == of_uuid(form),
{
    match form {
        UuidForm::V1 => StorageType::PackedUuidV1,
        UuidForm::V3S0 => StorageType::PackedUuidV3S0,
        UuidForm::V3S1 => StorageType::PackedUuidV3S1,
        UuidForm::V3S2 => StorageType::PackedUuidV3S2,
        UuidForm::V3S3 => StorageType::PackedUuidV3S3,
        UuidForm::V4S0 => StorageType::PackedUuidV4S0,
        UuidForm::V4S1 => StorageType::PackedUuidV4S1,
        UuidForm::V4S2 => StorageType::PackedUuidV4S2,
        UuidForm::V4S3 => StorageType::PackedUuidV4S3,
        UuidForm::V5S0 => StorageType::PackedUuidV5S0,
        UuidForm::V5S1 => StorageType::PackedUuidV5S1,
        UuidForm::V5S2 => StorageType::PackedUuidV5S2,
        UuidForm::V5S3 => StorageType::PackedUuidV5S3,
        UuidForm::V6 => StorageType::PackedUuidV6,
        UuidForm::V7 => StorageType::PackedUuidV7,
    }
}

/// The storage type of a heap tier, with a twin for ASCII content in the small ones.
pub open spec fn of_heap(tier: Tier, ascii: bool) -> StorageType {
    match tier {
        Tier::Heap8 => if ascii { StorageType::Heap8Ascii } else { StorageType::Heap8 },
        Tier::Heap16 => if ascii { StorageType::Heap16Ascii } else { StorageType::Heap16 },
        Tier::Heap32 => StorageType::Heap32,
        Tier::Heap => StorageType::Heap,
    }
}

/// The storage type of a heap tier, with a twin for ASCII content in the small ones.
pub fn heap_storage(tier: Tier, ascii: bool) -> (r: StorageType)
    ensures
        r == of_heap(tier, ascii),
{
    match tier {
        Tier::Heap8 => if ascii { StorageType::Heap8Ascii } else { StorageType::Heap8 },
        Tier::Heap16 => if ascii { StorageType::Heap16Ascii } else { StorageType::Heap16 },
        Tier::Heap32 => StorageType::Heap32,
        Tier::Heap => StorageType::Heap,
    }
}

/// The inline class of content.
pub open spec fn class_of(s: Seq<u8>) -> InlineClass {
    match Terminal::of(s) {
        Terminal::Ascii => InlineClass::Ascii,
        Terminal::Utf8Latin1 => InlineClass::Latin1,
        Terminal::Utf8NonLatin1 => InlineClass::NonLatin1,
        Terminal::ExtendedUtf8 => InlineClass::Extended,
        Terminal::MalformedUtf8 => InlineClass::Bytes,
    }
}

/// Content of sixteen to thirty characters that one of the alphabets holds.
pub open spec fn alphabet_holds(s: Seq<u8>) -> bool {
    16 <= s.len() <= 30 && packed::alphabet_of(s) is Some
}

/// Content that needs no allocation: one of the inline, packed or identifier forms holds it.
#[verifier::opaque]
pub open spec fn envelope_holds(s: Seq<u8>) -> bool {
    inline_form::inline_holds(s) || alphabet_holds(s) || uuid::is_uuid(s) || hex::is_hex_text(s)
}

/// The storage type that content of an envelope form takes: the first, in selection order, that holds it.
#[verifier::opaque]
pub open spec fn envelope_storage(s: Seq<u8>) -> StorageType {
    if inline_form::inline_holds(s) {
        let stored = if latin1::is_latin1_text(s) { latin1::narrowed(s).len() } else { s.len() };
        of_inline(class_of(s), stored == 15)
    } else if alphabet_holds(s) {
        of_packed(packed::alphabet_of(s)->0, s.len() == 30)
    } else if uuid::is_uuid(s) {
        of_uuid(uuid::form_of(s))
    } else {
        StorageType::PackedHexBytes
    }
}

/// The storage type that the heap gives content.
pub open spec fn heap_storage_of(s: Seq<u8>) -> StorageType {
    of_heap(Tier::of_length(s.len()), decode::all_ascii(s))
}

/// The storage type that canonical selection gives content.
pub open spec fn canonical_storage(s: Seq<u8>) -> StorageType {
    if envelope_holds(s) {
        envelope_storage(s)
    } else {
        heap_storage_of(s)
    }
}

/// Short content needs no allocation: up to fifteen bytes of any kind, up to fifteen characters that fit a byte each, and
/// sixteen to thirty characters of one of the alphabets.
pub proof fn law_short_content_needs_no_allocation(s: Seq<u8>)
    ensures
        s.len() <= 15 ==> envelope_holds(s) && canonical_storage(s).inline_type(),
        latin1::is_latin1_text(s) && decode::code_points(s).len() <= 15 ==> envelope_holds(s),
        16 <= s.len() <= 30 && packed::alphabet_of(s) is Some ==> envelope_holds(s),
        uuid::is_uuid(s) || hex::is_hex_text(s) ==> envelope_holds(s),
        s.len() > 15 && !(latin1::is_latin1_text(s) && decode::code_points(s).len() <= 15) && !(s.len() <= 30
            && packed::alphabet_of(s) is Some) && !uuid::is_uuid(s) && !hex::is_hex_text(s) ==> !envelope_holds(s)
            && canonical_storage(s).heap_type(),
{
    reveal(envelope_holds);
    reveal(envelope_storage);
}

/// The storage that content takes, by kind and length: inline by its class, with a type of its own at fifteen stored
/// bytes; then the alphabets, with one of its own at thirty characters.
pub proof fn law_storage_goes_by_class_and_length(s: Seq<u8>)
    ensures
        s.len() <= 15 ==> {
            let stored = if latin1::is_latin1_text(s) { decode::code_points(s).len() } else { s.len() };
            let full = stored == 15;
            &&& Terminal::of(s) is Ascii ==> canonical_storage(s) == if full {
                StorageType::InlineAsciiFull
            } else {
                StorageType::InlineAscii
            }
            &&& Terminal::of(s) is Utf8Latin1 ==> canonical_storage(s) == if full {
                StorageType::InlineLatin1Full
            } else {
                StorageType::InlineLatin1
            }
            &&& Terminal::of(s) is Utf8NonLatin1 ==> canonical_storage(s) == if full {
                StorageType::InlineNonLatin1Full
            } else {
                StorageType::InlineNonLatin1
            }
            &&& Terminal::of(s) is ExtendedUtf8 ==> canonical_storage(s) == if full {
                StorageType::InlineExtendedFull
            } else {
                StorageType::InlineExtended
            }
            &&& Terminal::of(s) is MalformedUtf8 ==> canonical_storage(s) == if full {
                StorageType::InlineBytesFull
            } else {
                StorageType::InlineBytes
            }
        },
        16 <= s.len() <= 30 && PackedAlphabet::Numeric.holds_all(s) ==> canonical_storage(s) == if s.len() == 30 {
            StorageType::PackedNumericFull
        } else {
            StorageType::PackedNumeric
        },
        16 <= s.len() <= 30 && !PackedAlphabet::Numeric.holds_all(s) && PackedAlphabet::DateTimePlus.holds_all(s)
            ==> canonical_storage(s) == if s.len() == 30 {
            StorageType::PackedDateTimePlusFull
        } else {
            StorageType::PackedDateTimePlus
        },
        16 <= s.len() <= 30 && !PackedAlphabet::Numeric.holds_all(s) && !PackedAlphabet::DateTimePlus.holds_all(s)
            && PackedAlphabet::DateTimeZulu.holds_all(s) ==> canonical_storage(s) == if s.len() == 30 {
            StorageType::PackedDateTimeZuluFull
        } else {
            StorageType::PackedDateTimeZulu
        },
{
    reveal(envelope_holds);
    reveal(envelope_storage);
    if s.len() >= 16 && packed::alphabet_of(s) is Some {
        lemma_alphabets_are_ascii(s, packed::alphabet_of(s)->0);
    }
    assert(latin1::narrowed(s).len() == decode::code_points(s).len());
}

proof fn lemma_alphabets_are_ascii(s: Seq<u8>, a: PackedAlphabet)
    requires
        a.holds_all(s),
        s.len() >= 16,
    ensures
        !inline_form::inline_holds(s),
{
    assert forall|i: int| 0 <= i < s.len() implies #[trigger] s[i] < 0x80 by {
        packed::law_alphabets_hold_their_symbols(s[i]);
        assert(a.holds(s[i]));
    }
    if latin1::is_latin1_text(s) {
        inline_form::lemma_widened_ascii(s);
        latin1::law_narrow_undoes_widen(s);
    }
}

/// On the heap content takes the tier of its length, and in the two small ones a type of its own where it is ASCII.
pub proof fn law_heap_storage_goes_by_length(s: Seq<u8>)
    requires
        s.len() <= usize::MAX,
    ensures
        ({
            let ascii = forall|i: int| 0 <= i < s.len() ==> #[trigger] s[i] < 0x80;
            &&& s.len() <= 0xFF ==> heap_storage_of(s) == if ascii { StorageType::Heap8Ascii } else { StorageType::Heap8 }
            &&& 0xFF < s.len() <= 0xFFFF ==> heap_storage_of(s) == if ascii {
                StorageType::Heap16Ascii
            } else {
                StorageType::Heap16
            }
            &&& 0xFFFF < s.len() <= 0xFFFF_FFFF ==> heap_storage_of(s) is Heap32
            &&& s.len() > 0xFFFF_FFFF ==> heap_storage_of(s) is Heap
        }),
{
    crate::cow_buffer::law_tiers_are_first_fit(s.len());
}

/// The families of storage exclude one another, and each form's type is of its family.
pub proof fn law_storage_families_exclude_one_another(t: StorageType, class: InlineClass, full: bool, tier: Tier, ascii: bool)
    ensures
        t.inline_type() ==> !t.packed_type() && !t.heap_type() && !t.view_type() && !t.image_type(),
        t.heap_type() ==> !t.packed_type() && !t.view_type() && !t.image_type(),
        t.view_type() ==> !t.packed_type() && !t.image_type(),
        t.image_type() ==> !t.packed_type(),
        t.inline_type() || t.packed_type() || t.heap_type() || t.view_type() || t.image_type(),
        of_inline(class, full).inline_type(),
        of_heap(tier, ascii).heap_type(),
{
    assert(t is PackedUuidV1 ==> of_uuid(UuidForm::V1) == t);
    assert(t is PackedUuidV3S0 ==> of_uuid(UuidForm::V3S0) == t);
    assert(t is PackedUuidV3S1 ==> of_uuid(UuidForm::V3S1) == t);
    assert(t is PackedUuidV3S2 ==> of_uuid(UuidForm::V3S2) == t);
    assert(t is PackedUuidV3S3 ==> of_uuid(UuidForm::V3S3) == t);
    assert(t is PackedUuidV4S0 ==> of_uuid(UuidForm::V4S0) == t);
    assert(t is PackedUuidV4S1 ==> of_uuid(UuidForm::V4S1) == t);
    assert(t is PackedUuidV4S2 ==> of_uuid(UuidForm::V4S2) == t);
    assert(t is PackedUuidV4S3 ==> of_uuid(UuidForm::V4S3) == t);
    assert(t is PackedUuidV5S0 ==> of_uuid(UuidForm::V5S0) == t);
    assert(t is PackedUuidV5S1 ==> of_uuid(UuidForm::V5S1) == t);
    assert(t is PackedUuidV5S2 ==> of_uuid(UuidForm::V5S2) == t);
    assert(t is PackedUuidV5S3 ==> of_uuid(UuidForm::V5S3) == t);
    assert(t is PackedUuidV6 ==> of_uuid(UuidForm::V6) == t);
    assert(t is PackedUuidV7 ==> of_uuid(UuidForm::V7) == t);
}

/// A packed UUID has the type of its form, and other hexadecimal text the one type of its family.
pub proof fn law_identifier_storage_names_the_form(s: Seq<u8>, f: UuidForm, g: UuidForm)
    ensures
        of_uuid(f) == of_uuid(g) ==> f == g,
        of_uuid(UuidForm::V1) is PackedUuidV1 && of_uuid(UuidForm::V6) is PackedUuidV6 && of_uuid(UuidForm::V7)
            is PackedUuidV7,
        of_uuid(UuidForm::V3S0) is PackedUuidV3S0 && of_uuid(UuidForm::V3S1) is PackedUuidV3S1 && of_uuid(UuidForm::V3S2)
            is PackedUuidV3S2 && of_uuid(UuidForm::V3S3) is PackedUuidV3S3,
        of_uuid(UuidForm::V4S0) is PackedUuidV4S0 && of_uuid(UuidForm::V4S1) is PackedUuidV4S1 && of_uuid(UuidForm::V4S2)
            is PackedUuidV4S2 && of_uuid(UuidForm::V4S3) is PackedUuidV4S3,
        of_uuid(UuidForm::V5S0) is PackedUuidV5S0 && of_uuid(UuidForm::V5S1) is PackedUuidV5S1 && of_uuid(UuidForm::V5S2)
            is PackedUuidV5S2 && of_uuid(UuidForm::V5S3) is PackedUuidV5S3,
        !inline_form::inline_holds(s) && !alphabet_holds(s) && uuid::is_uuid(s) ==> canonical_storage(s) == of_uuid(
            uuid::form_of(s),
        ),
        !inline_form::inline_holds(s) && !alphabet_holds(s) && !uuid::is_uuid(s) && hex::is_hex_text(s)
            ==> canonical_storage(s) is PackedHexBytes,
{
    reveal(envelope_holds);
    reveal(envelope_storage);
}

/// The families by name: the alphabets are packed, a view shares a buffer, and an image borrows one.
pub proof fn law_storage_families_by_name(alphabet: PackedAlphabet, form: UuidForm, full: bool)
    ensures
        of_packed(alphabet, full).alphabet_type() && of_packed(alphabet, full).packed_type(),
        of_uuid(form).packed_type() && !of_uuid(form).alphabet_type(),
        StorageType::PackedHexBytes.packed_type() && !StorageType::PackedHexBytes.alphabet_type(),
        StorageType::SmallSlice.view_type() && StorageType::MediumSlice.view_type() && StorageType::FarSlice.view_type(),
        StorageType::Adopted.view_type() && StorageType::FarAdopted.view_type(),
        StorageType::Static.image_type() && StorageType::LargeStatic.image_type(),
        StorageType::Immortal.image_type() && StorageType::LargeImmortal.image_type(),
        of_packed(PackedAlphabet::Numeric, false) is PackedNumeric && of_packed(PackedAlphabet::Numeric, true)
            is PackedNumericFull,
{
    assert(of_uuid(form).uuid_type());
}

} // verus!
