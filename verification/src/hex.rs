//! The packed hex codec: hexadecimal text, byte-separated, plain, or `0x`-prefixed, in a fifteen-byte payload.
//!
//! Fourteen payload bytes hold the digits two per byte; the fifteenth holds the length code and the variation, a
//! three-bit format code and a case bit.  The length code zero means twelve digits, and every other code thirteen plus
//! itself, so twelve and fourteen through twenty-eight digits have a code.
use crate::nibble;
use crate::nibble::{nibble_at, set_nibble};
use vstd::prelude::*;

verus! {

/// The longest rendering any format produces.
pub const HEX_MAX_LEN: usize = 41;

/// The digit ceiling: fourteen payload bytes at two digits each.
const HEX_MAX_DIGITS: usize = 28;

/// The nibble of the length code.
const HEX_LENGTH_NIBBLE: usize = 28;

/// The nibble of the variation.
const HEX_VARIATION_NIBBLE: usize = 29;

/// The case bit within the variation nibble.
const HEX_UPPER_BIT: u8 = 8;

/// A recognized spelling.
#[derive(Clone, Copy, PartialEq, Eq, Structural, Debug)]
pub enum HexFormat {
    Plain,
    Colon,
    Hyphen,
    Space,
    PrefixOnce,
}

impl HexFormat {
    /// The format's three-bit code.
    pub open spec fn number(self) -> u8 {
        match self {
            HexFormat::Plain => 0,
            HexFormat::Colon => 1,
            HexFormat::Hyphen => 2,
            HexFormat::Space => 3,
            HexFormat::PrefixOnce => 4,
        }
    }

    /// The format with a code; the unassigned codes read as plain.
    pub open spec fn of_number(code: u8) -> HexFormat {
        if code == 1 {
            HexFormat::Colon
        } else if code == 2 {
            HexFormat::Hyphen
        } else if code == 3 {
            HexFormat::Space
        } else if code == 4 {
            HexFormat::PrefixOnce
        } else {
            HexFormat::Plain
        }
    }

    /// The separator standing between digit pairs.
    pub open spec fn between(self) -> Option<u8> {
        match self {
            HexFormat::Colon => Some(0x3Au8),
            HexFormat::Hyphen => Some(0x2Du8),
            HexFormat::Space => Some(0x20u8),
            _ => None,
        }
    }

    /// Where the digits begin.
    pub open spec fn start(self) -> int {
        if self is PrefixOnce {
            2
        } else {
            0
        }
    }

    /// How many digits stand before a position of the spelling.
    pub open spec fn digits_before(self, i: int) -> int {
        if self.between() is Some {
            i / 3 * 2 + i % 3
        } else {
            i - self.start()
        }
    }

    /// Whether a separator stands at a position of the spelling.
    pub open spec fn separates_at(self, i: int) -> bool {
        self.between() is Some && i % 3 == 2
    }

    /// The length of the spelling of `digits` digits.
    pub open spec fn rendered(self, digits: int) -> int {
        if self.between() is Some {
            digits + (digits + 1) / 2 - 1
        } else {
            self.start() + digits
        }
    }

    /// The separator standing between digit pairs, or `None` where the spelling has none.
    fn separator(self) -> (r: Option<u8>)
        ensures
            r == self.between(),
    {
        match self {
            HexFormat::Colon => Some(0x3A),
            HexFormat::Hyphen => Some(0x2D),
            HexFormat::Space => Some(0x20),
            HexFormat::Plain | HexFormat::PrefixOnce => None,
        }
    }

    fn code(self) -> (r: u8)
        ensures
            r == self.number(),
    {
        match self {
            HexFormat::Plain => 0,
            HexFormat::Colon => 1,
            HexFormat::Hyphen => 2,
            HexFormat::Space => 3,
            HexFormat::PrefixOnce => 4,
        }
    }
}

/// The digit counts that a length code carries.
pub open spec fn has_length_code(digits: int) -> bool {
    digits == 12 || 14 <= digits <= 28
}

/// The digit count of a length code.
pub open spec fn digits_of_code(code: u8) -> int {
    if code == 0 {
        12
    } else {
        13 + code
    }
}

/// A lowercase hexadecimal letter.
pub open spec fn is_lower_letter(b: u8) -> bool {
    0x61 <= b <= 0x66
}

/// An uppercase hexadecimal letter.
pub open spec fn is_upper_letter(b: u8) -> bool {
    0x41 <= b <= 0x46
}

/// A hexadecimal digit of either case.
pub open spec fn is_hex_digit(b: u8) -> bool {
    0x30 <= b <= 0x39 || is_lower_letter(b) || is_upper_letter(b)
}

/// The value of a hexadecimal digit.
pub open spec fn hex_value(b: u8) -> u8 {
    if b <= 0x39 {
        (b - 0x30) as u8
    } else if b <= 0x46 {
        (b - 0x41 + 10) as u8
    } else {
        (b - 0x61 + 10) as u8
    }
}

/// The hexadecimal digit of a value in one case.
pub open spec fn hex_digit(n: u8, upper: bool) -> u8 {
    if n < 10 {
        (0x30 + n) as u8
    } else if upper {
        (0x41 + (n - 10)) as u8
    } else {
        (0x61 + (n - 10)) as u8
    }
}

/// The format that the front of a text announces.
pub open spec fn format_of(s: Seq<u8>) -> HexFormat {
    if s[0] == 0x30 && s[1] == 0x78 {
        HexFormat::PrefixOnce
    } else if s[2] == 0x3A {
        HexFormat::Colon
    } else if s[2] == 0x2D {
        HexFormat::Hyphen
    } else if s[2] == 0x20 {
        HexFormat::Space
    } else {
        HexFormat::Plain
    }
}

/// Every position holds what the format puts there: a separator, or a digit.
pub open spec fn laid_out(f: HexFormat, s: Seq<u8>) -> bool {
    &&& f.between() is Some ==> s.len() % 3 != 0
    &&& forall|i: int|
        f.start() <= i < s.len() ==> if f.separates_at(i) {
            #[trigger] s[i] == f.between()->0
        } else {
            is_hex_digit(s[i])
        }
}

/// Some digit is a lowercase letter.
pub open spec fn has_lower(f: HexFormat, s: Seq<u8>) -> bool {
    exists|i: int| f.start() <= i < s.len() && is_lower_letter(#[trigger] s[i])
}

/// Some digit is an uppercase letter.
pub open spec fn has_upper(f: HexFormat, s: Seq<u8>) -> bool {
    exists|i: int| f.start() <= i < s.len() && is_upper_letter(#[trigger] s[i])
}

/// Text that the family holds: one of the formats, one letter case, and a digit count that has a code.
pub open spec fn is_hex_text(s: Seq<u8>) -> bool {
    &&& 16 <= s.len() <= 41
    &&& laid_out(format_of(s), s)
    &&& has_length_code(format_of(s).digits_before(s.len() as int))
    &&& !(has_lower(format_of(s), s) && has_upper(format_of(s), s))
}

/// The digit count of a payload.
pub open spec fn payload_digits(payload: Seq<u8>) -> int {
    digits_of_code(nibble::nibble(payload, 28))
}

/// The format of a payload.
pub open spec fn payload_format(payload: Seq<u8>) -> HexFormat {
    HexFormat::of_number(nibble::nibble(payload, 29) % 8)
}

/// The case of a payload.
pub open spec fn payload_upper(payload: Seq<u8>) -> bool {
    nibble::nibble(payload, 29) >= 8
}

/// The spelling that a payload carries.
pub open spec fn hex_spelling(payload: Seq<u8>) -> Seq<u8> {
    let f = payload_format(payload);
    Seq::new(
        f.rendered(payload_digits(payload)) as nat,
        |i: int|
            if i < f.start() {
                if i == 0 {
                    0x30u8
                } else {
                    0x78u8
                }
            } else if f.separates_at(i) {
                f.between()->0
            } else {
                hex_digit(nibble::nibble(payload, f.digits_before(i)), payload_upper(payload))
            },
    )
}

/// A payload as classification writes it: an assigned format, zero padding, uppercase only where a letter shows it,
/// and a spelling longer than the inline forms hold.
pub open spec fn hex_wf(payload: Seq<u8>) -> bool {
    &&& payload.len() == 15
    &&& nibble::nibble(payload, 29) % 8 <= 4
    &&& forall|k: int| payload_digits(payload) <= k < 28 ==> #[trigger] nibble::nibble(payload, k) == 0
    &&& payload_upper(payload) ==> exists|k: int|
        0 <= k < payload_digits(payload) && #[trigger] nibble::nibble(payload, k) >= 10
    &&& 16 <= payload_format(payload).rendered(payload_digits(payload))
}

/// The length code for a digit count, or `None` for the counts no code carries.
fn hex_length_code(digits: usize) -> (r: Option<u8>)
    ensures
        r is Some <==> has_length_code(digits as int),
        r is Some ==> r->0 < 16 && digits_of_code(r->0) == digits,
{
    if digits == 12 {
        Some(0)
    } else if 14 <= digits && digits <= 28 {
        Some((digits - 13) as u8)
    } else {
        None
    }
}

/// The digit count a length code carries.
fn hex_digits_of(code: u8) -> (r: usize)
    requires
        code < 16,
    ensures
        r == digits_of_code(code),
        12 <= r <= 28,
{
    if code == 0 {
        12
    } else {
        13 + code as usize
    }
}

/// The format that the front of a text announces.
fn announced_format(bytes: &[u8]) -> (r: HexFormat)
    requires
        bytes@.len() >= 16,
    ensures
        r == format_of(bytes@),
{
    if bytes[0] == 0x30 && bytes[1] == 0x78 {
        HexFormat::PrefixOnce
    } else {
        match bytes[2] {
            0x3A => HexFormat::Colon,
            0x2D => HexFormat::Hyphen,
            0x20 => HexFormat::Space,
            _ => HexFormat::Plain,
        }
    }
}

/// Classify a candidate as hexadecimal text of a recognized spelling, yielding the payload, or `None` for anything
/// else.
pub fn classify_hex_bytes(bytes: &[u8]) -> (r: Option<[u8; 15]>)
    ensures
        r is Some <==> is_hex_text(bytes@),
        r is Some ==> hex_wf((r->0)@) && hex_spelling((r->0)@) == bytes@,
{
    if bytes.len() < 16 || bytes.len() > HEX_MAX_LEN {
        return None;
    }
    let ghost s = bytes@;
    let format = announced_format(bytes);
    let separator: Option<u8> = format.separator();
    let mut payload: [u8; 15] = [0u8; 15];
    assert forall|k: int| 0 <= k < 30 implies #[trigger] nibble::nibble(payload@, k) == 0 by {
        assert(payload@[k / 2] == 0);
    }
    let mut digits: usize = 0;
    let mut saw_lower: bool = false;
    let mut saw_upper: bool = false;
    let start: usize = if format == HexFormat::PrefixOnce {
        2
    } else {
        0
    };
    let mut i: usize = start;
    while i < bytes.len()
        invariant
            s == bytes@,
            16 <= s.len() <= 41,
            format == format_of(s),
            separator == format.between(),
            start == format.start(),
            start <= i <= s.len(),
            digits == format.digits_before(i as int),
            digits <= 28,
            format.between() is Some && i == s.len() ==> i % 3 != 0,
            forall|k: int|
                start <= k < i ==> if format.separates_at(k) {
                    #[trigger] s[k] == format.between()->0
                } else {
                    is_hex_digit(s[k])
                },
            forall|k: int|
                start <= k < i && !format.separates_at(k) ==> nibble::nibble(payload@, format.digits_before(k))
                    == hex_value(#[trigger] s[k]),
            forall|k: int| digits <= k < 30 ==> #[trigger] nibble::nibble(payload@, k) == 0,
            saw_lower <==> exists|k: int| start <= k < i && is_lower_letter(#[trigger] s[k]),
            saw_upper <==> exists|k: int| start <= k < i && is_upper_letter(#[trigger] s[k]),
        decreases s.len() - i,
    {
        let b: u8 = bytes[i];
        match separator {
            Some(sep) if i % 3 == 2 => {
                // Between groups stands exactly one separator, with a group on either side of it.
                if b != sep || i + 1 == bytes.len() {
                    assert(format.separates_at(i as int));
                    return None;
                }
            },
            _ => {
                let value: u8 = match b {
                    0x30..=0x39 => b - 0x30,
                    0x61..=0x66 => {
                        assert(is_lower_letter(s[i as int]));
                        saw_lower = true;
                        b - 0x61 + 10
                    },
                    0x41..=0x46 => {
                        assert(is_upper_letter(s[i as int]));
                        saw_upper = true;
                        b - 0x41 + 10
                    },
                    _ => {
                        assert(!format.separates_at(i as int) && !is_hex_digit(s[i as int]));
                        return None;
                    },
                };
                if digits >= HEX_MAX_DIGITS {
                    assert(format.digits_before(s.len() as int) > 28);
                    return None;
                }
                set_nibble(&mut payload, digits, value);
                digits = digits + 1;
            },
        }
        i = i + 1;
    }
    if saw_lower && saw_upper {
        return None;
    }
    let code: u8 = match hex_length_code(digits) {
        None => {
            return None;
        },
        Some(code) => code,
    };
    let ghost before = payload@;
    set_nibble(&mut payload, HEX_LENGTH_NIBBLE, code);
    let variation: u8 = if saw_upper {
        format.code() + HEX_UPPER_BIT
    } else {
        format.code()
    };
    set_nibble(&mut payload, HEX_VARIATION_NIBBLE, variation);
    proof {
        let p = payload@;
        assert(nibble::nibble(p, 28) == code);
        assert(nibble::nibble(p, 29) == variation);
        assert(variation % 8 == format.number());
        assert(payload_format(p) == format);
        assert(payload_digits(p) == digits);
        assert(payload_upper(p) == saw_upper);
        assert(format.rendered(digits as int) == s.len());
        assert forall|k: int| digits <= k < 28 implies #[trigger] nibble::nibble(p, k) == 0 by {
            assert(nibble::nibble(before, k) == 0);
        }
        assert forall|k: int| start <= k < s.len() implies #[trigger] hex_spelling(p)[k] == s[k] by {
            if !format.separates_at(k) {
                let d = format.digits_before(k);
                assert(0 <= d < digits);
                assert(nibble::nibble(p, d) == nibble::nibble(before, d));
                assert(nibble::nibble(before, d) == hex_value(s[k]));
                assert(is_hex_digit(s[k]));
                assert(is_lower_letter(s[k]) ==> saw_lower);
                assert(is_upper_letter(s[k]) ==> saw_upper);
            }
        }
        assert(hex_spelling(p) =~= s);
        if saw_upper {
            let k = choose|k: int| start <= k < s.len() && is_upper_letter(#[trigger] s[k]);
            let d = format.digits_before(k);
            assert(!format.separates_at(k));
            assert(nibble::nibble(before, d) == hex_value(s[k]));
            assert(nibble::nibble(p, d) >= 10);
        }
    }
    Some(payload)
}

/// The format and case a payload's variation nibble carries.
fn hex_variation(payload: &[u8; 15]) -> (r: (HexFormat, bool))
    ensures
        r.0 == payload_format(payload@),
        r.1 == payload_upper(payload@),
{
    let variation: u8 = nibble_at(payload, HEX_VARIATION_NIBBLE);
    let format = match variation % 8 {
        1 => HexFormat::Colon,
        2 => HexFormat::Hyphen,
        3 => HexFormat::Space,
        4 => HexFormat::PrefixOnce,
        _ => HexFormat::Plain,
    };
    (format, variation >= HEX_UPPER_BIT)
}

/// The rendered length of a payload, without decoding it.
pub fn hex_rendered_len(payload: &[u8; 15]) -> (r: usize)
    ensures
        r == hex_spelling(payload@).len(),
        r <= 41,
{
    let digits: usize = hex_digits_of(nibble_at(payload, HEX_LENGTH_NIBBLE));
    let (format, _upper) = hex_variation(payload);
    match format {
        HexFormat::Plain => digits,
        HexFormat::PrefixOnce => 2 + digits,
        _ => digits + (digits + 1) / 2 - 1,
    }
}

/// Reconstruct the spelling into `out`, returning the written length.
pub fn decode_hex_bytes(payload: &[u8; 15], out: &mut [u8; 41]) -> (len: usize)
    ensures
        len == hex_spelling(payload@).len(),
        len <= 41,
        final(out)@.take(len as int) == hex_spelling(payload@),
        final(out)@.skip(len as int) == old(out)@.skip(len as int),
{
    let digits: usize = hex_digits_of(nibble_at(payload, HEX_LENGTH_NIBBLE));
    let (format, upper) = hex_variation(payload);
    let separator: Option<u8> = format.separator();
    let alpha: u8 = if upper {
        0x41
    } else {
        0x61
    };
    let mut n: usize = 0;
    if format == HexFormat::PrefixOnce {
        out[0] = 0x30;
        out[1] = 0x78;
        n = 2;
    }
    let ghost spelling = hex_spelling(payload@);
    let mut d: usize = 0;
    while d < digits
        invariant
            spelling == hex_spelling(payload@),
            digits == payload_digits(payload@) <= 28,
            12 <= digits,
            format == payload_format(payload@),
            upper == payload_upper(payload@),
            separator == format.between(),
            alpha == if upper {
                0x41u8
            } else {
                0x61u8
            },
            d <= digits,
            n == if format.between() is Some {
                if d == 0 {
                    0int
                } else {
                    d + (d + 1) / 2 - 1
                }
            } else {
                format.start() + d
            },
            forall|k: int| 0 <= k < n ==> #[trigger] out@[k] == spelling[k],
            forall|k: int| n <= k < 41 ==> #[trigger] out@[k] == old(out)@[k],
        decreases digits - d,
    {
        if d > 0 && d % 2 == 0 {
            if let Some(sep) = separator {
                assert(format.separates_at(n as int));
                out[n] = sep;
                n = n + 1;
            }
        }
        let value: u8 = nibble_at(payload, d);
        assert(format.digits_before(n as int) == d);
        assert(!format.separates_at(n as int));
        out[n] = if value < 10 {
            0x30 + value
        } else {
            alpha + (value - 10)
        };
        n = n + 1;
        d = d + 1;
    }
    assert(out@.take(n as int) =~= spelling);
    assert(out@.skip(n as int) =~= old(out)@.skip(n as int));
    n
}

/// Content determines representation: a payload is determined by the spelling it carries.
pub proof fn law_hex_representation_is_canonical(p: Seq<u8>, q: Seq<u8>)
    requires
        hex_wf(p),
        hex_wf(q),
        hex_spelling(p) == hex_spelling(q),
    ensures
        p == q,
{
    let s = hex_spelling(p);
    lemma_spelling_format(p);
    lemma_spelling_format(q);
    let f = payload_format(p);
    assert(f == payload_format(q));
    let n = payload_digits(p);
    assert(n == payload_digits(q));
    assert forall|d: int| 0 <= d < n implies #[trigger] nibble::nibble(p, d) == nibble::nibble(q, d) by {
        lemma_digit_shown(p, d);
        lemma_digit_shown(q, d);
    }
    assert(payload_upper(p) == payload_upper(q)) by {
        if payload_upper(p) {
            let k = choose|k: int| 0 <= k < n && #[trigger] nibble::nibble(p, k) >= 10;
            lemma_digit_shown(p, k);
            lemma_digit_shown(q, k);
        }
        if payload_upper(q) {
            let k = choose|k: int| 0 <= k < n && #[trigger] nibble::nibble(q, k) >= 10;
            lemma_digit_shown(p, k);
            lemma_digit_shown(q, k);
        }
    }
    assert forall|k: int| 0 <= k < 30 implies #[trigger] nibble::nibble(p, k) == nibble::nibble(q, k) by {
        if n <= k && k < 28 {
            assert(nibble::nibble(p, k) == 0 && nibble::nibble(q, k) == 0);
        }
    }
    nibble::lemma_nibbles_determine(p, q);
}

/// The position that shows a digit.
spec fn shown_at(f: HexFormat, d: int) -> int {
    if f.between() is Some {
        d + d / 2
    } else {
        f.start() + d
    }
}

proof fn lemma_digit_shown(p: Seq<u8>, d: int)
    requires
        0 <= d < payload_digits(p),
    ensures
        ({
            let f = payload_format(p);
            &&& f.start() <= shown_at(f, d) < hex_spelling(p).len()
            &&& !f.separates_at(shown_at(f, d))
            &&& hex_spelling(p)[shown_at(f, d)] == hex_digit(nibble::nibble(p, d), payload_upper(p))
            &&& nibble::nibble(p, d) < 16
            &&& hex_value(hex_digit(nibble::nibble(p, d), payload_upper(p))) == nibble::nibble(p, d)
        }),
{
    let f = payload_format(p);
    let i = shown_at(f, d);
    assert(f.digits_before(i) == d);
}

/// The front of a spelling announces its format.
proof fn lemma_spelling_format(p: Seq<u8>)
    requires
        hex_wf(p),
    ensures
        format_of(hex_spelling(p)) == payload_format(p),
        hex_spelling(p).len() >= 16,
        payload_format(p).digits_before(hex_spelling(p).len() as int) == payload_digits(p),
{
    let s = hex_spelling(p);
    let f = payload_format(p);
    lemma_digit_shown(p, 0);
    lemma_digit_shown(p, 1);
    lemma_digit_shown(p, 2);
    if f.between() is Some {
        assert(f.separates_at(2));
        assert(s[2] == f.between()->0);
    }
}

/// Every well-formed payload carries text that classification accepts.
pub proof fn law_hex_spelling_is_hex_text(p: Seq<u8>)
    requires
        hex_wf(p),
    ensures
        is_hex_text(hex_spelling(p)),
{
    let s = hex_spelling(p);
    let f = payload_format(p);
    lemma_spelling_format(p);
    assert(s.len() <= 41);
    assert forall|i: int| f.start() <= i < s.len() implies if f.separates_at(i) {
        #[trigger] s[i] == f.between()->0
    } else {
        is_hex_digit(s[i])
    } by {
        if !f.separates_at(i) {
            assert(nibble::nibble(p, f.digits_before(i)) < 16);
        }
    }
    assert(payload_upper(p) ==> !has_lower(f, s));
    assert(!payload_upper(p) ==> !has_upper(f, s));
}

/// Hexadecimal text is ASCII.
pub proof fn lemma_hex_ascii(p: Seq<u8>)
    requires
        hex_wf(p),
    ensures
        crate::decode::all_ascii(hex_spelling(p)),
{
    let s = hex_spelling(p);
    let f = payload_format(p);
    assert forall|i: int| 0 <= i < s.len() implies #[trigger] s[i] < 0x80 by {
        if i >= f.start() && !f.separates_at(i) {
            assert(nibble::nibble(p, f.digits_before(i)) < 16);
        }
    }
}

/// What text is packed as hexadecimal: 16 to 41 characters that are digits of one letter case, bare, behind `0x`, or in
/// pairs with one separator between each pair and the next, and of digits 12 or 14 to 28.
pub proof fn law_hex_text_is_digits_in_one_layout(s: Seq<u8>)
    requires
        16 <= s.len() <= 41,
    ensures
        ({
            let prefixed = s[0] == 0x30 && s[1] == 0x78;
            let separated = !prefixed && (s[2] == 0x3A || s[2] == 0x2D || s[2] == 0x20);
            let start = if prefixed { 2int } else { 0int };
            let n = s.len() as int;
            let digits = if separated { n / 3 * 2 + n % 3 } else { n - start };
            is_hex_text(s) <==> {
                &&& separated ==> n % 3 != 0
                &&& forall|i: int|
                    start <= i < n ==> if separated && i % 3 == 2 {
                        #[trigger] s[i] == s[2]
                    } else {
                        0x30 <= s[i] <= 0x39 || 0x41 <= s[i] <= 0x46 || 0x61 <= s[i] <= 0x66
                    }
                &&& digits == 12 || 14 <= digits <= 28
                &&& !((exists|i: int| start <= i < n && 0x61 <= #[trigger] s[i] <= 0x66) && (exists|i: int|
                    start <= i < n && 0x41 <= #[trigger] s[i] <= 0x46))
            }
        }),
        !is_hex_text(s.take(15)),
{
    let f = format_of(s);
    let prefixed = s[0] == 0x30 && s[1] == 0x78;
    let separated = !prefixed && (s[2] == 0x3A || s[2] == 0x2D || s[2] == 0x20);
    assert(f.between() is Some <==> separated);
    assert(separated ==> f.between() == Some(s[2]));
    assert(f.start() == if prefixed { 2int } else { 0int });
    if has_lower(f, s) {
        let i = choose|i: int| f.start() <= i < s.len() && is_lower_letter(#[trigger] s[i]);
        assert(0x61 <= s[i] <= 0x66);
    }
    if has_upper(f, s) {
        let i = choose|i: int| f.start() <= i < s.len() && is_upper_letter(#[trigger] s[i]);
        assert(0x41 <= s[i] <= 0x46);
    }
    if exists|i: int| f.start() <= i < s.len() && 0x61 <= #[trigger] s[i] <= 0x66 {
        let i = choose|i: int| f.start() <= i < s.len() && 0x61 <= #[trigger] s[i] <= 0x66;
        assert(is_lower_letter(s[i]));
    }
    if exists|i: int| f.start() <= i < s.len() && 0x41 <= #[trigger] s[i] <= 0x46 {
        let i = choose|i: int| f.start() <= i < s.len() && 0x41 <= #[trigger] s[i] <= 0x46;
        assert(is_upper_letter(s[i]));
    }
    if laid_out(f, s) {
        assert forall|i: int| f.start() <= i < s.len() implies if separated && i % 3 == 2 {
            #[trigger] s[i] == s[2]
        } else {
            0x30 <= s[i] <= 0x39 || 0x41 <= s[i] <= 0x46 || 0x61 <= s[i] <= 0x66
        } by {
            assert(f.separates_at(i) == (separated && i % 3 == 2));
        }
    }
}

} // verus!
