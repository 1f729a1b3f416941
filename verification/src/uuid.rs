//! The packed-UUID codec: a canonical lowercase UUID spelling of thirty-six characters in a fifteen-byte payload.
//!
//! Of the thirty-two digits, the version digit and the high two bits of the variant digit are implied by the form.
//! The hash forms carry the variant's two data bits as the form's shard.  The time forms require the top two bits of
//! their most significant time digit to be zero and fuse its low two bits with the variant's two data bits into one
//! nibble.  What is left is exactly thirty nibbles.
use crate::nibble;
use crate::nibble::{nibble_at, set_nibble};
use vstd::prelude::*;

verus! {

/// The canonical spelling's length.
pub const UUID_LEN: usize = 36;

/// A recognized packed-UUID form: the version, the hash versions with the variant's two data bits as their shard.
#[derive(Clone, Copy, PartialEq, Eq, Structural, Debug)]
pub enum UuidForm {
    V1,
    V3S0,
    V3S1,
    V3S2,
    V3S3,
    V4S0,
    V4S1,
    V4S2,
    V4S3,
    V5S0,
    V5S1,
    V5S2,
    V5S3,
    V6,
    V7,
}

impl UuidForm {
    /// The version digit.
    pub open spec fn version(self) -> u8 {
        match self {
            UuidForm::V1 => 1,
            UuidForm::V3S0 | UuidForm::V3S1 | UuidForm::V3S2 | UuidForm::V3S3 => 3,
            UuidForm::V4S0 | UuidForm::V4S1 | UuidForm::V4S2 | UuidForm::V4S3 => 4,
            UuidForm::V5S0 | UuidForm::V5S1 | UuidForm::V5S2 | UuidForm::V5S3 => 5,
            UuidForm::V6 => 6,
            UuidForm::V7 => 7,
        }
    }

    /// The variant's data bits, where the form carries them.
    pub open spec fn shard(self) -> u8 {
        match self {
            UuidForm::V3S1 | UuidForm::V4S1 | UuidForm::V5S1 => 1,
            UuidForm::V3S2 | UuidForm::V4S2 | UuidForm::V5S2 => 2,
            UuidForm::V3S3 | UuidForm::V4S3 | UuidForm::V5S3 => 3,
            _ => 0,
        }
    }

    /// The digit that is fused with the variant's data bits, for the time forms.
    pub open spec fn fused_digit(self) -> Option<int> {
        match self {
            UuidForm::V1 => Some(13int),
            UuidForm::V6 | UuidForm::V7 => Some(0int),
            _ => None,
        }
    }
}

/// The positions of the hyphens in the spelling.
pub open spec fn is_hyphen(i: int) -> bool {
    i == 8 || i == 13 || i == 18 || i == 23
}

/// How many digits stand before a position of the spelling.
pub open spec fn digits_before(i: int) -> int {
    if i <= 8 {
        i
    } else if i <= 13 {
        i - 1
    } else if i <= 18 {
        i - 2
    } else if i <= 23 {
        i - 3
    } else {
        i - 4
    }
}

/// The position of a digit in the spelling.
pub open spec fn place(d: int) -> int {
    if d < 8 {
        d
    } else if d < 12 {
        d + 1
    } else if d < 16 {
        d + 2
    } else if d < 20 {
        d + 3
    } else {
        d + 4
    }
}

/// The nibble of the payload that stores a digit, for every digit but the version and the variant.
pub open spec fn slot(d: int) -> int {
    if d < 12 {
        d
    } else if d < 16 {
        d - 1
    } else {
        d - 2
    }
}

/// A lowercase hexadecimal digit.
pub open spec fn is_lower_hex(b: u8) -> bool {
    0x30 <= b <= 0x39 || 0x61 <= b <= 0x66
}

/// The value of a lowercase hexadecimal digit.
pub open spec fn lower_hex_value(b: u8) -> u8 {
    if b <= 0x39 {
        (b - 0x30) as u8
    } else {
        (b - 0x61 + 10) as u8
    }
}

/// The lowercase hexadecimal digit of a value.
pub open spec fn lower_hex(n: u8) -> u8 {
    if n < 10 {
        (0x30 + n) as u8
    } else {
        (0x61 + (n - 10)) as u8
    }
}

/// Thirty-two lowercase digits with hyphens in their places.
pub open spec fn well_spelled(s: Seq<u8>) -> bool {
    &&& s.len() == 36
    &&& forall|i: int| 0 <= i < 36 ==> if is_hyphen(i) {
        #[trigger] s[i] == 0x2D
    } else {
        is_lower_hex(s[i])
    }
}

/// The value of a digit of a spelling.
pub open spec fn digit(s: Seq<u8>, d: int) -> u8 {
    lower_hex_value(s[place(d)])
}

/// The canonical spelling of a UUID that one of the forms can carry.
pub open spec fn is_uuid(s: Seq<u8>) -> bool {
    &&& well_spelled(s)
    &&& 8 <= digit(s, 16) < 12
    &&& {
        ||| 3 <= digit(s, 12) <= 5
        ||| digit(s, 12) == 1 && digit(s, 13) < 4
        ||| (digit(s, 12) == 6 || digit(s, 12) == 7) && digit(s, 0) < 4
    }
}

/// The variant's two data bits, from wherever the form carries them.
pub open spec fn variant_bits(form: UuidForm, payload: Seq<u8>) -> u8 {
    match form.fused_digit() {
        Some(d) => nibble::nibble(payload, slot(d)) / 4,
        None => form.shard(),
    }
}

/// A digit of the UUID that a form and a payload carry.
pub open spec fn carried_digit(form: UuidForm, payload: Seq<u8>, d: int) -> u8 {
    if d == 12 {
        form.version()
    } else if d == 16 {
        (8 + variant_bits(form, payload)) as u8
    } else if form.fused_digit() == Some(d) {
        nibble::nibble(payload, slot(d)) % 4
    } else {
        nibble::nibble(payload, slot(d))
    }
}

/// The spelling that a form and a payload carry.
pub open spec fn uuid_spelling(form: UuidForm, payload: Seq<u8>) -> Seq<u8> {
    Seq::new(
        36,
        |i: int|
            if is_hyphen(i) {
                0x2Du8
            } else {
                lower_hex(carried_digit(form, payload, digits_before(i)))
            },
    )
}

/// The hash form of a version with the given data bits.
pub open spec fn hash_form(version: u8, bits: u8) -> UuidForm {
    if version == 3 {
        if bits == 0 {
            UuidForm::V3S0
        } else if bits == 1 {
            UuidForm::V3S1
        } else if bits == 2 {
            UuidForm::V3S2
        } else {
            UuidForm::V3S3
        }
    } else if version == 4 {
        if bits == 0 {
            UuidForm::V4S0
        } else if bits == 1 {
            UuidForm::V4S1
        } else if bits == 2 {
            UuidForm::V4S2
        } else {
            UuidForm::V4S3
        }
    } else {
        if bits == 0 {
            UuidForm::V5S0
        } else if bits == 1 {
            UuidForm::V5S1
        } else if bits == 2 {
            UuidForm::V5S2
        } else {
            UuidForm::V5S3
        }
    }
}

/// The form of a UUID spelling.
pub open spec fn form_of(s: Seq<u8>) -> UuidForm {
    if digit(s, 12) == 1 {
        UuidForm::V1
    } else if digit(s, 12) == 6 {
        UuidForm::V6
    } else if digit(s, 12) == 7 {
        UuidForm::V7
    } else {
        hash_form(digit(s, 12), (digit(s, 16) - 8) as u8)
    }
}

/// The hash form of a version with the given data bits.
fn uuid_shard(version: u8, bits: u8) -> (r: UuidForm)
    requires
        3 <= version <= 5,
        bits < 4,
    ensures
        r.version() == version,
        r.shard() == bits,
        r.fused_digit() is None,
        r == hash_form(version, bits),
{
    if version == 3 {
        match bits {
            0 => UuidForm::V3S0,
            1 => UuidForm::V3S1,
            2 => UuidForm::V3S2,
            _ => UuidForm::V3S3,
        }
    } else if version == 4 {
        match bits {
            0 => UuidForm::V4S0,
            1 => UuidForm::V4S1,
            2 => UuidForm::V4S2,
            _ => UuidForm::V4S3,
        }
    } else {
        match bits {
            0 => UuidForm::V5S0,
            1 => UuidForm::V5S1,
            2 => UuidForm::V5S2,
            _ => UuidForm::V5S3,
        }
    }
}

/// Pack the digits in order into fifteen bytes, skipping the version and the variant.
fn pack_skipping(digits: &[u8; 32]) -> (r: [u8; 15])
    requires
        forall|d: int| 0 <= d < 32 ==> #[trigger] digits@[d] < 16,
    ensures
        forall|d: int|
            0 <= d < 32 && d != 12 && d != 16 ==> nibble::nibble(r@, slot(d)) == #[trigger] digits@[d],
{
    let mut payload: [u8; 15] = [0u8; 15];
    let mut out: usize = 0;
    let mut i: usize = 0;
    while i < 32
        invariant
            i <= 32,
            out == if i <= 12 {
                i as int
            } else if i <= 16 {
                i - 1
            } else {
                i - 2
            },
            forall|d: int| 0 <= d < 32 ==> #[trigger] digits@[d] < 16,
            forall|d: int|
                0 <= d < i && d != 12 && d != 16 ==> nibble::nibble(payload@, slot(d)) == #[trigger] digits@[d],
        decreases 32 - i,
    {
        if i != 12 && i != 16 {
            set_nibble(&mut payload, out, digits[i]);
            out = out + 1;
        }
        i = i + 1;
    }
    payload
}

/// Pack the digits of a time form: the digit at `top` must have its top two bits zero, and the fused nibble, variant
/// bits high, stands in its place.
fn pack_time(digits: &[u8; 32], top: usize, bits: u8) -> (r: Option<[u8; 15]>)
    requires
        top == 0 || top == 13,
        bits < 4,
        forall|d: int| 0 <= d < 32 ==> #[trigger] digits@[d] < 16,
    ensures
        r is Some <==> digits@[top as int] < 4,
        r is Some ==> forall|d: int|
            0 <= d < 32 && d != 12 && d != 16 ==> nibble::nibble((r->0)@, slot(d)) == if d == top {
                (bits * 4 + digits@[d]) as u8
            } else {
                #[trigger] digits@[d]
            },
{
    let live: u8 = digits[top];
    if live >= 4 {
        return None;
    }
    let mut fused: [u8; 32] = *digits;
    fused[top] = bits * 4 + live;
    assert forall|d: int| 0 <= d < 32 implies #[trigger] fused@[d] < 16 by {
        assert(digits@[d] < 16);
    }
    let r = pack_skipping(&fused);
    assert forall|d: int| 0 <= d < 32 && d != 12 && d != 16 implies nibble::nibble(r@, slot(d)) == if d == top {
        (bits * 4 + digits@[d]) as u8
    } else {
        #[trigger] digits@[d]
    } by {
        assert(nibble::nibble(r@, slot(d)) == fused@[d]);
    }
    Some(r)
}

/// The digits of a candidate, or `None` where it is not spelled as a UUID.
fn spelled_digits(bytes: &[u8]) -> (r: Option<[u8; 32]>)
    ensures
        r is Some <==> well_spelled(bytes@),
        r is Some ==> forall|d: int| 0 <= d < 32 ==> #[trigger] (r->0)@[d] == digit(bytes@, d) && (r->0)@[d] < 16,
{
    if bytes.len() != UUID_LEN {
        return None;
    }
    let mut digits: [u8; 32] = [0u8; 32];
    let mut d: usize = 0;
    let mut i: usize = 0;
    while i < UUID_LEN
        invariant
            i <= 36 == bytes@.len(),
            d == digits_before(i as int),
            forall|k: int| 0 <= k < i ==> if is_hyphen(k) {
                #[trigger] bytes@[k] == 0x2D
            } else {
                is_lower_hex(bytes@[k])
            },
            forall|k: int| 0 <= k < d ==> #[trigger] digits@[k] == digit(bytes@, k) && digits@[k] < 16,
        decreases 36 - i,
    {
        let b: u8 = bytes[i];
        if i == 8 || i == 13 || i == 18 || i == 23 {
            if b != 0x2D {
                assert(is_hyphen(i as int) && bytes@[i as int] != 0x2D);
                return None;
            }
        } else {
            let value: u8 = match b {
                0x30..=0x39 => b - 0x30,
                0x61..=0x66 => b - 0x61 + 10,
                _ => {
                    assert(!is_hyphen(i as int) && !is_lower_hex(bytes@[i as int]));
                    return None;
                },
            };
            assert(place(d as int) == i);
            digits[d] = value;
            d = d + 1;
        }
        i = i + 1;
    }
    Some(digits)
}

/// Classify a candidate as a canonical lowercase UUID of a recognized form, yielding the form and the payload, or
/// `None` for anything else.
pub fn classify_uuid(bytes: &[u8]) -> (r: Option<(UuidForm, [u8; 15])>)
    ensures
        r is Some <==> is_uuid(bytes@),
        r is Some ==> uuid_spelling((r->0).0, (r->0).1@) == bytes@,
        r is Some ==> (r->0).0 == form_of(bytes@),
{
    let digits: [u8; 32] = match spelled_digits(bytes) {
        None => {
            return None;
        },
        Some(digits) => digits,
    };
    let variant: u8 = digits[16];
    if variant < 8 || variant >= 12 {
        return None;
    }
    let bits: u8 = variant - 8;
    let r: Option<(UuidForm, [u8; 15])> = match digits[12] {
        3..=5 => Some((uuid_shard(digits[12], bits), pack_skipping(&digits))),
        1 => match pack_time(&digits, 13, bits) {
            Some(payload) => Some((UuidForm::V1, payload)),
            None => None,
        },
        6 => match pack_time(&digits, 0, bits) {
            Some(payload) => Some((UuidForm::V6, payload)),
            None => None,
        },
        7 => match pack_time(&digits, 0, bits) {
            Some(payload) => Some((UuidForm::V7, payload)),
            None => None,
        },
        _ => None,
    };
    proof {
        if let Some((form, payload)) = r {
            assert forall|d: int| 0 <= d < 32 implies #[trigger] carried_digit(form, payload@, d) == digit(
                bytes@,
                d,
            ) by {
                assert(digits@[d] == digit(bytes@, d));
                if form.fused_digit() is Some {
                    let top = form.fused_digit()->0;
                    assert(nibble::nibble(payload@, slot(top)) == bits * 4 + digits@[top]);
                }
                if d != 12 && d != 16 && form.fused_digit() != Some(d) {
                    assert(nibble::nibble(payload@, slot(d)) == digits@[d]);
                }
            }
            assert forall|i: int| 0 <= i < 36 implies #[trigger] uuid_spelling(form, payload@)[i] == bytes@[i] by {
                if !is_hyphen(i) {
                    let d = digits_before(i);
                    assert(place(d) == i);
                    assert(carried_digit(form, payload@, d) == digit(bytes@, d));
                    assert(is_lower_hex(bytes@[i]));
                } else {
                    assert(bytes@[i] == 0x2D);
                }
            }
            assert(uuid_spelling(form, payload@) =~= bytes@);
        }
    }
    r
}

/// The version digit and the shard of a form, and the digit that is fused.
fn form_parts(form: UuidForm) -> (r: (u8, u8, Option<usize>))
    ensures
        r.0 == form.version(),
        r.1 == form.shard(),
        r.2 is Some == form.fused_digit() is Some,
        r.2 is Some ==> r.2->0 as int == form.fused_digit()->0,
{
    match form {
        UuidForm::V1 => (1, 0, Some(13)),
        UuidForm::V3S0 => (3, 0, None),
        UuidForm::V3S1 => (3, 1, None),
        UuidForm::V3S2 => (3, 2, None),
        UuidForm::V3S3 => (3, 3, None),
        UuidForm::V4S0 => (4, 0, None),
        UuidForm::V4S1 => (4, 1, None),
        UuidForm::V4S2 => (4, 2, None),
        UuidForm::V4S3 => (4, 3, None),
        UuidForm::V5S0 => (5, 0, None),
        UuidForm::V5S1 => (5, 1, None),
        UuidForm::V5S2 => (5, 2, None),
        UuidForm::V5S3 => (5, 3, None),
        UuidForm::V6 => (6, 0, Some(0)),
        UuidForm::V7 => (7, 0, Some(0)),
    }
}

/// Reconstruct the canonical lowercase spelling into `out`, returning the written length.
pub fn decode_uuid(form: UuidForm, payload: &[u8; 15], out: &mut [u8; 41]) -> (len: usize)
    ensures
        len == 36,
        final(out)@.take(36) == uuid_spelling(form, payload@),
        final(out)@.skip(36) == old(out)@.skip(36),
{
    let (version, shard, fused_at): (u8, u8, Option<usize>) = form_parts(form);

    // Rebuild the digits: reinsert the version and the variant, and split any fused digit.
    let mut digits: [u8; 32] = [0u8; 32];
    let mut src: usize = 0;
    let mut i: usize = 0;
    while i < 32
        invariant
            i <= 32,
            src == if i <= 12 {
                i as int
            } else if i <= 16 {
                i - 1
            } else {
                i - 2
            },
            forall|d: int|
                0 <= d < i && d != 12 && d != 16 ==> #[trigger] digits@[d] == nibble::nibble(payload@, slot(d)),
        decreases 32 - i,
    {
        if i != 12 && i != 16 {
            digits[i] = nibble_at(payload, src);
            src = src + 1;
        }
        i = i + 1;
    }
    digits[12] = version;
    let bits: u8 = match fused_at {
        Some(at) => {
            let fused: u8 = digits[at];
            digits[at] = fused % 4;
            fused / 4
        },
        None => shard,
    };
    assert(bits == variant_bits(form, payload@));
    assert(bits < 4);
    digits[16] = 8 + bits;
    assert forall|d: int| 0 <= d < 32 implies #[trigger] digits@[d] == carried_digit(form, payload@, d) && digits@[d]
        < 16 by {}

    // Render: thirty-two digits with the four hyphens by position.
    let mut d: usize = 0;
    let mut k: usize = 0;
    while k < UUID_LEN
        invariant
            k <= 36,
            d == digits_before(k as int),
            forall|j: int| 0 <= j < 32 ==> #[trigger] digits@[j] == carried_digit(form, payload@, j) && digits@[j] < 16,
            forall|j: int| 0 <= j < k ==> #[trigger] out@[j] == uuid_spelling(form, payload@)[j],
            forall|j: int| 36 <= j < 41 ==> #[trigger] out@[j] == old(out)@[j],
        decreases 36 - k,
    {
        if k == 8 || k == 13 || k == 18 || k == 23 {
            out[k] = 0x2D;
        } else {
            let n: u8 = digits[d];
            out[k] = if n < 10 {
                0x30 + n
            } else {
                0x61 + (n - 10)
            };
            d = d + 1;
        }
        k = k + 1;
    }
    assert(out@.take(36) =~= uuid_spelling(form, payload@));
    assert(out@.skip(36) =~= old(out)@.skip(36));
    UUID_LEN
}

/// Content determines representation: a form and a payload are determined by the spelling they carry.
pub proof fn law_uuid_representation_is_canonical(f: UuidForm, p: Seq<u8>, g: UuidForm, q: Seq<u8>)
    requires
        p.len() == 15,
        q.len() == 15,
        uuid_spelling(f, p) == uuid_spelling(g, q),
    ensures
        f == g,
        p == q,
{
    assert forall|d: int| 0 <= d < 32 implies #[trigger] carried_digit(f, p, d) == carried_digit(g, q, d) by {
        let i = place(d);
        assert(!is_hyphen(i) && digits_before(i) == d);
        assert(uuid_spelling(f, p)[i] == lower_hex(carried_digit(f, p, digits_before(i))));
        assert(uuid_spelling(g, q)[i] == lower_hex(carried_digit(g, q, digits_before(i))));
        assert(carried_digit(f, p, d) < 16);
        assert(carried_digit(g, q, d) < 16);
    }
    assert(carried_digit(f, p, 12) == carried_digit(g, q, 12));
    assert(carried_digit(f, p, 16) == carried_digit(g, q, 16));
    assert(variant_bits(f, p) < 4 && variant_bits(g, q) < 4);
    assert(f == g);
    assert forall|k: int| 0 <= k < 30 implies #[trigger] nibble::nibble(p, k) == nibble::nibble(q, k) by {
        let d = if k < 12 {
            k
        } else if k < 15 {
            k + 1
        } else {
            k + 2
        };
        assert(slot(d) == k);
        assert(carried_digit(f, p, d) == carried_digit(g, q, d));
    }
    nibble::lemma_nibbles_determine(p, q);
}

/// Every form and payload carries a UUID that classification accepts.
pub proof fn law_uuid_spelling_is_uuid(f: UuidForm, p: Seq<u8>)
    ensures
        is_uuid(uuid_spelling(f, p)),
{
    let s = uuid_spelling(f, p);
    assert forall|i: int| 0 <= i < 36 implies if is_hyphen(i) {
        #[trigger] s[i] == 0x2D
    } else {
        is_lower_hex(s[i])
    } by {
        if !is_hyphen(i) {
            assert(carried_digit(f, p, digits_before(i)) < 16);
        }
    }
    assert(digits_before(place(12)) == 12 && digits_before(place(13)) == 13 && digits_before(place(16)) == 16
        && digits_before(place(0)) == 0);
    assert(digit(s, 12) == carried_digit(f, p, 12));
    assert(digit(s, 13) == carried_digit(f, p, 13));
    assert(digit(s, 16) == carried_digit(f, p, 16));
    assert(digit(s, 0) == carried_digit(f, p, 0));
    assert(variant_bits(f, p) < 4);
}

/// A UUID spelling is ASCII.
pub proof fn lemma_uuid_ascii(f: UuidForm, p: Seq<u8>)
    ensures
        crate::decode::all_ascii(uuid_spelling(f, p)),
{
    let s = uuid_spelling(f, p);
    law_uuid_spelling_is_uuid(f, p);
    assert forall|i: int| 0 <= i < s.len() implies #[trigger] s[i] < 0x80 by {}
}

/// What text is packed as a UUID: thirty-six characters, hyphens after the eighth, twelfth, sixteenth and twentieth
/// digit and lowercase digits everywhere else, the variant digit one of `8` to `b`, and a version of 3, 4 or 5, or of 1, 6
/// or 7 with a timestamp that leaves two bits free.
pub proof fn law_uuid_text_is_canonical_text(s: Seq<u8>)
    ensures
        is_uuid(s) <==> {
            &&& s.len() == 36
            &&& s[8] == 0x2D && s[13] == 0x2D && s[18] == 0x2D && s[23] == 0x2D
            &&& forall|i: int|
                0 <= i < 36 && i != 8 && i != 13 && i != 18 && i != 23 ==> (0x30 <= #[trigger] s[i] <= 0x39 || 0x61 <= s[i]
                    <= 0x66)
            &&& s[19] == 0x38 || s[19] == 0x39 || s[19] == 0x61 || s[19] == 0x62
            &&& {
                ||| 0x33 <= s[14] <= 0x35
                ||| s[14] == 0x31 && 0x30 <= s[15] <= 0x33
                ||| (s[14] == 0x36 || s[14] == 0x37) && 0x30 <= s[0] <= 0x33
            }
        },
{
    if s.len() == 36 {
        assert(place(12) == 14 && place(13) == 15 && place(16) == 19 && place(0) == 0);
        if is_uuid(s) {
            assert(is_hyphen(8) && is_hyphen(13) && is_hyphen(18) && is_hyphen(23));
            assert(s[8] == 0x2D && s[13] == 0x2D && s[18] == 0x2D && s[23] == 0x2D);
            assert(is_lower_hex(s[14]) && is_lower_hex(s[15]) && is_lower_hex(s[19]) && is_lower_hex(s[0]));
        }
        assert(s[14] == s[14] && s[15] == s[15] && s[19] == s[19] && s[0] == s[0]);
    }
}

/// The storage form names the version, and of versions 3, 4 and 5 the two bits of the variant digit.
pub proof fn law_uuid_forms_name_the_version(s: Seq<u8>)
    requires
        is_uuid(s),
    ensures
        form_of(s).version() == s[14] - 0x30,
        s[14] == 0x31 ==> form_of(s) is V1,
        s[14] == 0x36 ==> form_of(s) is V6,
        s[14] == 0x37 ==> form_of(s) is V7,
        0x33 <= s[14] <= 0x35 ==> form_of(s).shard() == (if s[19] <= 0x39 { s[19] - 0x38 } else { s[19] - 0x61 + 2 }),
{
    law_uuid_text_is_canonical_text(s);
    assert(place(12) == 14 && place(16) == 19);
}

} // verus!
