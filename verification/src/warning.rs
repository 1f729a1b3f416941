//! Numification warnings as data, and the text perl gives them.
//!
//! A warning that quotes a string carries a bounded prefix of it.  The prefix is long enough for the quotation: the
//! text rendered from it is the text that the whole string would give.
use crate::classify;
use crate::classify::malformed_run;
use crate::cow_buffer::AllocError;
use crate::decode;
use crate::decode::decode_one;
use crate::numeric_text;
use crate::storage;
use crate::string;
use crate::string::PString;
use crate::text;
use crate::text::push_numeral;
use vstd::prelude::*;
use vstd::slice::slice_subrange;
use vstd::string::*;

verus! {

/// The bound on a quoted unflagged string: the byte renderer reads on while its output is under 56 columns, and every
/// byte gives at least one, so at most 56 are shown and one more tells that there is a rest.
pub const WARN_SNIPPET_BYTES: usize = 57;

/// The bound on a quoted flagged string: the character renderer stops at 32 columns.
pub const WARN_SNIPPET_CHARS: usize = 33;

/// The columns at which a quotation stops.
pub open spec fn column_cap(flagged: bool) -> nat {
    if flagged {
        32
    } else {
        56
    }
}

/// Where the unit at `at` ends: a byte, or with the utf8 flag a lead byte with its continuation bytes.
pub open spec fn quoted_unit_end(flagged: bool, s: Seq<u8>, at: int) -> int {
    if flagged {
        classify::unit_end(s, at)
    } else {
        at + 1
    }
}

/// Where the next `n` units from `at` on end.
pub open spec fn units_end(flagged: bool, s: Seq<u8>, at: int, n: nat) -> int
    decreases n,
{
    if at >= s.len() || n == 0 {
        at
    } else {
        units_end(flagged, s, quoted_unit_end(flagged, s, at), (n - 1) as nat)
    }
}

/// The code point a unit of flagged bytes spells; a malformed unit stands for its first byte.
pub open spec fn unit_value(s: Seq<u8>, at: int) -> nat {
    match decode::sequence_at(s, at) {
        Some((len, value)) => if at + len == classify::unit_end(s, at) {
            value
        } else {
            s[at] as nat
        },
        None => s[at] as nat,
    }
}

/// The quotation of a seven-bit character in an unflagged string: backslash forms, caret notation for the other
/// controls, and the printable characters themselves.
pub open spec fn low_form(ch: u8) -> Seq<char> {
    if ch == 0x0A {
        seq!['\\', 'n']
    } else if ch == 0x0D {
        seq!['\\', 'r']
    } else if ch == 0x0C {
        seq!['\\', 'f']
    } else if ch == 0x5C {
        seq!['\\', '\\']
    } else if ch == 0 {
        seq!['\\', '0']
    } else if 0x20 <= ch <= 0x7E {
        seq![ch as char]
    } else if ch == 0x7F {
        seq!['^', '?']
    } else {
        seq!['^', (ch + 0x40) as char]
    }
}

/// The quotation of a byte of an unflagged string: a high byte is `M-` and the form of its low seven bits.
pub open spec fn byte_form(byte: u8) -> Seq<char> {
    if byte >= 0x80 {
        seq!['M', '-'] + low_form((byte - 0x80) as u8)
    } else {
        low_form(byte)
    }
}

/// The quotation of the unit at `at` of a flagged string: printable ASCII itself, a doubled backslash, and for
/// everything else the braced code point.
pub open spec fn unit_form(s: Seq<u8>, at: int) -> Seq<char> {
    if classify::unit_end(s, at) == at + 1 && 0x20 <= s[at] <= 0x7E {
        if s[at] == 0x5C {
            seq!['\\', '\\']
        } else {
            seq![s[at] as char]
        }
    } else {
        seq!['\\', 'x', '{'] + text::numeral(unit_value(s, at)) + seq!['}']
    }
}

pub open spec fn quoted_form(flagged: bool, s: Seq<u8>, at: int) -> Seq<char> {
    if flagged {
        unit_form(s, at)
    } else {
        byte_form(s[at])
    }
}

/// What is quoted from `at` on when `columns` are written, and whether source remains: units are taken while the output
/// is under the cap, the last one free to overrun it.
pub open spec fn quoted_from(flagged: bool, s: Seq<u8>, at: int, columns: nat) -> (Seq<char>, bool)
    decreases s.len() - at,
    when 0 <= at
    via quoted_from_decreases
{
    if at >= s.len() {
        (seq![], false)
    } else if columns >= column_cap(flagged) {
        (seq![], true)
    } else {
        let form = quoted_form(flagged, s, at);
        let (rest, more) = quoted_from(flagged, s, quoted_unit_end(flagged, s, at), columns + form.len());
        (form + rest, more)
    }
}

#[via_fn]
proof fn quoted_from_decreases(flagged: bool, s: Seq<u8>, at: int, columns: nat) {
    if at < s.len() {
        classify::lemma_conts_end(s, at + 1);
    }
}

/// The quotation of a snippet: its text, and three periods where source remains, in the snippet or beyond it.
pub open spec fn quotation(flagged: bool, s: Seq<u8>, truncated: bool) -> Seq<char> {
    let (shown, more) = quoted_from(flagged, s, 0, 0);
    if truncated || more {
        shown + seq!['.', '.', '.']
    } else {
        shown
    }
}

/// The units a snippet of a string holds.
pub open spec fn snippet_bound(flagged: bool) -> nat {
    if flagged {
        WARN_SNIPPET_CHARS as nat
    } else {
        WARN_SNIPPET_BYTES as nat
    }
}

pub proof fn lemma_units_end(flagged: bool, s: Seq<u8>, at: int, n: nat)
    requires
        0 <= at <= s.len(),
    ensures
        at <= units_end(flagged, s, at, n) <= s.len(),
        at < s.len() && n > 0 ==> quoted_unit_end(flagged, s, at) <= units_end(flagged, s, at, n),
    decreases n,
{
    if at < s.len() && n > 0 {
        classify::lemma_conts_end(s, at + 1);
        lemma_units_end(flagged, s, quoted_unit_end(flagged, s, at), (n - 1) as nat);
    }
}

proof fn lemma_bytes_end(s: Seq<u8>, at: int, n: nat)
    requires
        0 <= at <= s.len(),
    ensures
        units_end(false, s, at, n) == if s.len() - at <= n {
            s.len() as int
        } else {
            at + n
        },
    decreases n,
{
    if at < s.len() && n > 0 {
        lemma_bytes_end(s, at + 1, (n - 1) as nat);
    }
}

proof fn lemma_conts_end_cut(s: Seq<u8>, cut: int, k: int)
    requires
        0 <= k <= classify::conts_end(s, k) <= cut <= s.len(),
    ensures
        classify::conts_end(s.take(cut), k) == classify::conts_end(s, k),
    decreases s.len() - k,
{
    if k < s.len() && decode::is_cont(s[k]) {
        classify::lemma_conts_end(s, k + 1);
        lemma_conts_end_cut(s, cut, k + 1);
        assert(s.take(cut)[k] == s[k]);
    } else if k < cut {
        assert(s.take(cut)[k] == s[k]);
    }
}

/// A unit that a cut keeps whole is quoted alike with and without what the cut took away.
proof fn lemma_form_cut(flagged: bool, s: Seq<u8>, cut: int, at: int)
    requires
        0 <= at < cut <= s.len(),
        quoted_unit_end(flagged, s, at) <= cut,
    ensures
        quoted_unit_end(flagged, s.take(cut), at) == quoted_unit_end(flagged, s, at),
        quoted_form(flagged, s.take(cut), at) == quoted_form(flagged, s, at),
{
    let t = s.take(cut);
    assert(t[at] == s[at]);
    if flagged {
        classify::lemma_conts_end(s, at + 1);
        lemma_conts_end_cut(s, cut, at + 1);
        let end = classify::unit_end(s, at);
        if decode::sequence_at(s, at) is Some && at + (decode::sequence_at(s, at)->0).0 == end {
            decode::lemma_sequence_local(s, t, at, 0);
        } else if decode::sequence_at(t, at) is Some && at + (decode::sequence_at(t, at)->0).0 == end {
            decode::lemma_sequence_local(t, s, at, 0);
        }
    }
}

proof fn lemma_form_len(flagged: bool, s: Seq<u8>, at: int)
    ensures
        quoted_form(flagged, s, at).len() >= 1,
{
}

proof fn lemma_snippet_from(flagged: bool, s: Seq<u8>, cut: int, at: int, columns: nat, left: nat)
    requires
        0 <= at <= s.len(),
        cut == units_end(flagged, s, at, left),
        columns + left > column_cap(flagged),
    ensures
        ({
            let (shown, more) = quoted_from(flagged, s.take(cut), at, columns);
            let (whole, rest) = quoted_from(flagged, s, at, columns);
            shown == whole && (more || cut < s.len()) == rest
        }),
    decreases left,
{
    lemma_units_end(flagged, s, at, left);
    if at < s.len() {
        classify::lemma_conts_end(s, at + 1);
    }
    if at < cut && columns < column_cap(flagged) {
        let end = quoted_unit_end(flagged, s, at);
        lemma_form_cut(flagged, s, cut, at);
        lemma_form_len(flagged, s, at);
        lemma_snippet_from(
            flagged,
            s,
            cut,
            end,
            columns + quoted_form(flagged, s, at).len(),
            (left - 1) as nat,
        );
    }
}

/// A snippet is enough: what is rendered from it is what the whole string would give.
pub proof fn law_snippet_quotes_as_the_whole(flagged: bool, s: Seq<u8>)
    ensures
        ({
            let cut = units_end(flagged, s, 0, snippet_bound(flagged));
            quotation(flagged, s.take(cut), cut < s.len()) == quotation(flagged, s, false)
        }),
{
    let cut = units_end(flagged, s, 0, snippet_bound(flagged));
    lemma_units_end(flagged, s, 0, snippet_bound(flagged));
    lemma_snippet_from(flagged, s, cut, 0, 0, snippet_bound(flagged));
}

impl PString {
    /// The bounded prefix a warning quotes: up to `max_chars` characters, with whether the string extends beyond it.
    /// Where the whole string fits, it is the string itself.
    pub fn message_prefix(&self, max_chars: usize) -> (r: Result<(PString, bool), AllocError>)
        ensures
            ({
                let cut = units_end(self.flagged(), self.data(), 0, max_chars as nat);
                let snippet = self.data().take(cut);
                if cut == self.data().len() {
                    r == Ok::<(PString, bool), AllocError>((*self, false))
                } else {
                    &&& r is Ok ==> {
                        let (string, truncated) = r->Ok_0;
                        &&& truncated
                        &&& string.data() == snippet
                        &&& string.flagged() == self.flagged()
                        &&& !string.taint_bit()
                        &&& string.storage() == storage::canonical_storage(snippet)
                    }
                    &&& r is Err ==> !storage::envelope_holds(snippet) && (r->Err_0).requested == string::birth(snippet)
                }
            }),
    {
        let mut scratch: [u8; 41] = [0u8; 41];
        let flagged: bool = self.is_utf8();
        let bytes = self.as_bytes(&mut scratch);
        let ghost s = bytes@;
        let mut at: usize = 0;
        if flagged {
            let mut chars: usize = 0;
            while at < bytes.len() && chars < max_chars
                invariant
                    s == bytes@,
                    at <= bytes@.len(),
                    chars <= max_chars,
                    units_end(true, s, at as int, (max_chars - chars) as nat) == units_end(true, s, 0, max_chars as nat),
                decreases max_chars - chars,
            {
                at = at + malformed_run(bytes, at);
                chars = chars + 1;
            }
        } else {
            proof {
                lemma_bytes_end(s, 0, max_chars as nat);
            }
            at = if bytes.len() <= max_chars { bytes.len() } else { max_chars };
        }
        if at == bytes.len() {
            return Ok((self.clone(), false));
        }
        let prefix = slice_subrange(bytes, 0, at);
        assert(prefix@ =~= s.take(at as int));
        match PString::from_bytes(prefix) {
            Ok(mut snippet) => {
                snippet.reinterpret_utf8(flagged);
                Ok((snippet, true))
            },
            Err(error) => Err(error),
        }
    }
}

fn push_two(out: &mut String, a: char, b: char)
    ensures
        final(out)@ == old(out)@ + seq![a, b],
{
    out.push(a);
    out.push(b);
    assert(out@ =~= old(out)@ + seq![a, b]);
}

/// Append the quotation of a seven-bit character, and count its columns.
fn push_low(out: &mut String, ch: u8) -> (columns: usize)
    requires
        ch < 0x80,
    ensures
        final(out)@ == old(out)@ + low_form(ch),
        columns == low_form(ch).len(),
{
    match ch {
        0x0A => push_two(out, '\\', 'n'),
        0x0D => push_two(out, '\\', 'r'),
        0x0C => push_two(out, '\\', 'f'),
        0x5C => push_two(out, '\\', '\\'),
        0 => push_two(out, '\\', '0'),
        0x7F => push_two(out, '^', '?'),
        _ => {
            if 0x20 <= ch {
                out.push(ch as char);
                assert(out@ =~= old(out)@ + seq![ch as char]);
                return 1;
            }
            push_two(out, '^', (ch + 0x40) as char)
        },
    }
    2
}

/// Decode one unit of flagged bytes to its code point.
pub fn decode_extended_code_point(bytes: &[u8], at: usize, end: usize) -> (r: u64)
    requires
        at < bytes@.len(),
        end == classify::unit_end(bytes@, at as int),
    ensures
        r == unit_value(bytes@, at as int),
{
    proof {
        classify::lemma_conts_end(bytes@, at + 1);
    }
    match decode_one(bytes, at) {
        Some((len, value)) => if len == end - at {
            value
        } else {
            bytes[at] as u64
        },
        None => bytes[at] as u64,
    }
}

spec fn p16(k: nat) -> nat
    decreases k,
{
    if k == 0 {
        1
    } else {
        16 * p16((k - 1) as nat)
    }
}

proof fn lemma_numeral_fits(v: nat, k: nat)
    requires
        v < p16(k),
        k >= 1,
    ensures
        text::numeral(v).len() <= k,
    decreases k,
{
    if v >= 16 {
        if k == 1 {
            assert(p16(0) == 1);
        }
        lemma_numeral_fits(v / 16, (k - 1) as nat);
    }
}

/// The length of a numeral.
fn numeral_len(v: u64) -> (r: usize)
    ensures
        r == text::numeral(v as nat).len(),
        1 <= r <= 16,
    decreases v,
{
    proof {
        reveal_with_fuel(p16, 17);
        assert(p16(16) == 0x1_0000_0000_0000_0000);
        lemma_numeral_fits(v as nat, 16);
    }
    if v >= 16 {
        numeral_len(v / 16) + 1
    } else {
        1
    }
}

/// Append the quotation of the unit at `at`, and count its columns.
fn push_unit(out: &mut String, bytes: &[u8], at: usize, end: usize) -> (columns: usize)
    requires
        at < bytes@.len(),
        end == classify::unit_end(bytes@, at as int),
    ensures
        final(out)@ == old(out)@ + unit_form(bytes@, at as int),
        columns == unit_form(bytes@, at as int).len(),
        columns <= 20,
{
    let lead: u8 = bytes[at];
    proof {
        classify::lemma_conts_end(bytes@, at + 1);
    }
    if end - at == 1 && 0x20 <= lead && lead <= 0x7E {
        if lead == 0x5C {
            push_two(out, '\\', '\\');
            2
        } else {
            out.push(lead as char);
            assert(out@ =~= old(out)@ + seq![lead as char]);
            1
        }
    } else {
        let value: u64 = decode_extended_code_point(bytes, at, end);
        push_two(out, '\\', 'x');
        out.push('{');
        push_numeral(out, value, 0);
        out.push('}');
        assert(out@ =~= old(out)@ + unit_form(bytes@, at as int));
        4 + numeral_len(value)
    }
}

/// Append the quotation of a snippet.
pub fn render_warn_fragment(out: &mut String, snippet: &PString, truncated: bool)
    ensures
        final(out)@ == old(out)@ + quotation(snippet.flagged(), snippet.data(), truncated),
{
    let mut scratch: [u8; 41] = [0u8; 41];
    let flagged: bool = snippet.is_utf8();
    let bytes = snippet.as_bytes(&mut scratch);
    let ghost s = bytes@;
    let ghost start = out@;
    let ghost whole = quoted_from(flagged, s, 0, 0);
    let cap: usize = if flagged { 32 } else { 56 };
    let mut columns: usize = 0;
    let mut remains: bool = truncated;
    let mut at: usize = 0;
    assert(start + whole.0 =~= out@ + quoted_from(flagged, s, at as int, columns as nat).0);
    while at < bytes.len() && columns < cap
        invariant
            s == bytes@,
            cap == column_cap(flagged),
            at <= bytes@.len(),
            columns < cap + 20,
            whole == quoted_from(flagged, s, 0, 0),
            start + whole.0 == out@ + quoted_from(flagged, s, at as int, columns as nat).0,
            whole.1 == quoted_from(flagged, s, at as int, columns as nat).1,
        decreases bytes@.len() - at,
    {
        let ghost form = quoted_form(flagged, s, at as int);
        let ghost next = quoted_from(flagged, s, quoted_unit_end(flagged, s, at as int), columns as nat + form.len());
        let ghost before = out@;
        if flagged {
            let end: usize = at + malformed_run(bytes, at);
            columns = columns + push_unit(out, bytes, at, end);
            at = end;
        } else {
            let mut ch: u8 = bytes[at];
            if ch >= 0x80 {
                push_two(out, 'M', '-');
                columns = columns + 2;
                ch = ch - 0x80;
            }
            columns = columns + push_low(out, ch);
            at = at + 1;
        }
        assert(out@ =~= before + form);
        assert(start + whole.0 =~= out@ + next.0);
    }
    if at < bytes.len() {
        remains = true;
    }
    assert(out@ =~= start + whole.0);
    if remains {
        out.push('.');
        out.push('.');
        out.push('.');
    }
    assert(out@ =~= start + quotation(flagged, s, truncated));
}

/// The radix a number's warning names.  Decimal numbers never warn.
#[derive(Clone, Copy, PartialEq, Eq, Structural, Debug)]
pub enum RadixBase {
    Binary,
    Octal,
    Hexadecimal,
}

impl RadixBase {
    /// The word perl's messages use.
    pub open spec fn word(self) -> Seq<char> {
        match self {
            RadixBase::Binary => "binary"@,
            RadixBase::Octal => "octal"@,
            RadixBase::Hexadecimal => "hexadecimal"@,
        }
    }

    /// The phrase that quotes the 32-bit ceiling in its own radix.
    pub open spec fn threshold(self) -> Seq<char> {
        match self {
            RadixBase::Binary => "Binary number > 0b11111111111111111111111111111111"@,
            RadixBase::Octal => "Octal number > 037777777777"@,
            RadixBase::Hexadecimal => "Hexadecimal number > 0xffffffff"@,
        }
    }

    /// The word perl's messages use.
    pub fn name(self) -> (r: &'static str)
        ensures
            r@ == self.word(),
    {
        match self {
            RadixBase::Binary => "binary",
            RadixBase::Octal => "octal",
            RadixBase::Hexadecimal => "hexadecimal",
        }
    }

    /// The threshold phrase of the non-portable message.
    pub fn non_portable_threshold(self) -> (r: &'static str)
        ensures
            r@ == self.threshold(),
    {
        match self {
            RadixBase::Binary => "Binary number > 0b11111111111111111111111111111111",
            RadixBase::Octal => "Octal number > 037777777777",
            RadixBase::Hexadecimal => "Hexadecimal number > 0xffffffff",
        }
    }
}

/// A warning that numification raises, with what its message needs.
pub enum NumifyWarning {
    /// Not one complete numeric token.  The snippet is a [`PString::message_prefix`], and `truncated` says that the
    /// string extends beyond it.
    NotNumeric { snippet: PString, truncated: bool },
    /// The magic string increment received content it cannot step.
    NotIncrementable { snippet: PString, truncated: bool },
    /// A float's integer neighbors are farther than one apart.  The value is held as it is displayed.
    LostPrecision { value: String, decrement: bool },
    /// A scan stopped at a digit outside its base.
    IllegalDigit { base: RadixBase, digit: u8 },
    /// The magnitude passed the unsigned range in the middle of a scan.
    Overflow { base: RadixBase },
    /// The value exceeded 32 bits.
    NonPortable { base: RadixBase },
    /// A scan that overflowed and then stopped at an illegal digit.
    OverflowThenIllegalDigit { base: RadixBase, digit: u8 },
    /// A scan that stopped at an illegal digit and whose value exceeded 32 bits.
    IllegalDigitThenNonPortable { base: RadixBase, digit: u8 },
    /// An undefined value was numified.
    Uninitialized,
}

pub open spec fn illegal_digit_text(base: RadixBase, digit: u8) -> Seq<char> {
    "Illegal "@ + base.word() + " digit '"@ + seq![text::latin1_char(digit)] + "' ignored"@
}

pub open spec fn overflow_text(base: RadixBase) -> Seq<char> {
    "Integer overflow in "@ + base.word() + " number"@
}

pub open spec fn non_portable_text(base: RadixBase) -> Seq<char> {
    base.threshold() + " non-portable"@
}

impl NumifyWarning {
    /// The message body.  A compound warning's lines are its warnings in the order of their emission.
    pub open spec fn body(self) -> Seq<char> {
        match self {
            NumifyWarning::NotNumeric { snippet, truncated } => "Argument \""@ + quotation(
                snippet.flagged(),
                snippet.data(),
                truncated,
            ) + "\" isn't numeric"@,
            NumifyWarning::NotIncrementable { snippet, truncated } => "Argument \""@ + quotation(
                snippet.flagged(),
                snippet.data(),
                truncated,
            ) + "\" treated as 0 in increment (++)"@,
            NumifyWarning::LostPrecision { value, decrement } => "Lost precision when "@ + (if decrement {
                "decrementing"@
            } else {
                "incrementing"@
            }) + " "@ + value@ + " by 1"@,
            NumifyWarning::IllegalDigit { base, digit } => illegal_digit_text(base, digit),
            NumifyWarning::Overflow { base } => overflow_text(base),
            NumifyWarning::NonPortable { base } => non_portable_text(base),
            NumifyWarning::OverflowThenIllegalDigit { base, digit } => overflow_text(base) + seq!['\n']
                + illegal_digit_text(base, digit),
            NumifyWarning::IllegalDigitThenNonPortable { base, digit } => illegal_digit_text(base, digit) + seq!['\n']
                + non_portable_text(base),
            NumifyWarning::Uninitialized => "Use of uninitialized value"@,
        }
    }

    /// Perl's standard message.
    pub fn message(&self) -> (r: String)
        ensures
            r@ == self.body(),
    {
        let mut out = String::new();
        match self {
            NumifyWarning::NotNumeric { snippet, truncated } => {
                out.append("Argument \"");
                render_warn_fragment(&mut out, snippet, *truncated);
                out.append("\" isn't numeric");
            },
            NumifyWarning::NotIncrementable { snippet, truncated } => {
                out.append("Argument \"");
                render_warn_fragment(&mut out, snippet, *truncated);
                out.append("\" treated as 0 in increment (++)");
            },
            NumifyWarning::LostPrecision { value, decrement } => {
                out.append("Lost precision when ");
                if *decrement {
                    out.append("decrementing");
                } else {
                    out.append("incrementing");
                }
                out.append(" ");
                out.append(value.as_str());
                out.append(" by 1");
            },
            NumifyWarning::IllegalDigit { base, digit } => push_illegal_digit(&mut out, *base, *digit),
            NumifyWarning::Overflow { base } => push_overflow(&mut out, *base),
            NumifyWarning::NonPortable { base } => push_non_portable(&mut out, *base),
            NumifyWarning::OverflowThenIllegalDigit { base, digit } => {
                push_overflow(&mut out, *base);
                out.push('\n');
                push_illegal_digit(&mut out, *base, *digit);
            },
            NumifyWarning::IllegalDigitThenNonPortable { base, digit } => {
                push_illegal_digit(&mut out, *base, *digit);
                out.push('\n');
                push_non_portable(&mut out, *base);
            },
            NumifyWarning::Uninitialized => out.append("Use of uninitialized value"),
        }
        assert(out@ =~= self.body());
        out
    }
}

fn push_illegal_digit(out: &mut String, base: RadixBase, digit: u8)
    ensures
        final(out)@ == old(out)@ + illegal_digit_text(base, digit),
{
    out.append("Illegal ");
    out.append(base.name());
    out.append(" digit '");
    out.push(digit as char);
    out.append("' ignored");
    assert(out@ =~= old(out)@ + illegal_digit_text(base, digit));
}

fn push_overflow(out: &mut String, base: RadixBase)
    ensures
        final(out)@ == old(out)@ + overflow_text(base),
{
    out.append("Integer overflow in ");
    out.append(base.name());
    out.append(" number");
    assert(out@ =~= old(out)@ + overflow_text(base));
}

fn push_non_portable(out: &mut String, base: RadixBase)
    ensures
        final(out)@ == old(out)@ + non_portable_text(base),
{
    out.append(base.non_portable_threshold());
    out.append(" non-portable");
    assert(out@ =~= old(out)@ + non_portable_text(base));
}

/// How a byte of an unflagged string is quoted: a printable character as itself, a backslash doubled, the line feed,
/// carriage return, form feed and null by their letters, another control by the character 64 above it behind a caret,
/// and a high byte as the byte 128 below it behind `M-`.
pub proof fn law_bytes_are_quoted_visibly(byte: u8)
    ensures
        0x20 <= byte <= 0x7E && byte != 0x5C ==> byte_form(byte).len() == 1 && byte_form(byte)[0] as nat == byte,
        byte == 0x5C ==> byte_form(byte) == seq!['\\', '\\'],
        byte == 0x0A ==> byte_form(byte) == seq!['\\', 'n'],
        byte == 0x0D ==> byte_form(byte) == seq!['\\', 'r'],
        byte == 0x0C ==> byte_form(byte) == seq!['\\', 'f'],
        byte == 0x00 ==> byte_form(byte) == seq!['\\', '0'],
        byte == 0x7F ==> byte_form(byte) == seq!['^', '?'],
        byte < 0x20 && byte != 0x0A && byte != 0x0C && byte != 0x0D && byte != 0 ==> byte_form(byte).len() == 2
            && byte_form(byte)[0] == '^' && byte_form(byte)[1] as nat == byte + 0x40,
        byte >= 0x80 ==> byte_form(byte) == seq!['M', '-'] + byte_form((byte - 0x80) as u8),
{
}

/// How a character of a flagged string is quoted: a printable ASCII character as itself, a backslash doubled, and any
/// other by its number in braces.
pub proof fn law_characters_are_quoted_visibly(c: char, rest: Seq<u8>)
    requires
        rest.len() > 0 ==> !decode::is_cont(rest[0]),
    ensures
        ({
            let s = vstd::utf8::encode_utf8(seq![c]) + rest;
            let v = c as nat;
            &&& quoted_unit_end(true, s, 0) == s.len() - rest.len()
            &&& 0x20 <= v <= 0x7E && v != 0x5C ==> quoted_form(true, s, 0) == seq![c]
            &&& v == 0x5C ==> quoted_form(true, s, 0) == seq!['\\', '\\']
            &&& v < 0x20 || v > 0x7E ==> quoted_form(true, s, 0) == seq!['\\', 'x', '{'] + text::numeral(v) + seq!['}']
        }),
{
    let encoded = vstd::utf8::encode_utf8(seq![c]);
    let s = encoded + rest;
    numeric_text::lemma_encoded_char(c, rest);
    numeric_text::lemma_first_byte(s, c);
    let n = encoded.len() as int;
    decode::lemma_sequence_bounds(s, 0);
    assert(decode::conts_follow(s, 0, (n - 1) as nat));
    assert(rest.len() > 0 ==> s[n] == rest[0]);
    lemma_conts_run(s, 1, n);
    assert(classify::unit_end(s, 0) == n);
    assert(decode::accumulated(s, 0, 0) == decode::lead_bits(s[0]));
    if c as nat <= 0x7F {
        assert(n == 1);
        assert(seq![s[0] as char] =~= seq![c]);
    }
}

pub proof fn lemma_conts_run(s: Seq<u8>, k: int, end: int)
    requires
        0 <= k <= end <= s.len(),
        forall|i: int| k <= i < end ==> decode::is_cont(#[trigger] s[i]),
        end < s.len() ==> !decode::is_cont(s[end]),
    ensures
        classify::conts_end(s, k) == end,
    decreases end - k,
{
    if k < end {
        lemma_conts_run(s, k + 1, end);
    }
}

proof fn lemma_quoted_further(flagged: bool, s: Seq<u8>, unit: Seq<u8>, at: int, columns: nat)
    requires
        0 <= at <= s.len(),
        unit.len() > 0,
        flagged ==> forall|i: int| 1 <= i < unit.len() ==> decode::is_cont(#[trigger] unit[i]),
        flagged && s.len() > 0 ==> !decode::is_cont(unit[0]),
        !flagged ==> unit.len() == 1,
    ensures
        ({
            let (shown, more) = quoted_from(flagged, s, at, columns);
            let (further, left) = quoted_from(flagged, s + unit, at, columns);
            if more || columns + shown.len() >= column_cap(flagged) {
                further == shown && left
            } else {
                further == shown + quoted_form(flagged, unit, 0) && !left
            }
        }),
    decreases s.len() - at,
{
    let t = s + unit;
    let n = s.len() as int;
    if at < n {
        assert(t.take(n) =~= s);
        classify::lemma_conts_end(s, at + 1);
        classify::lemma_conts_end(t, at + 1);
        if flagged {
            assert(t[n] == unit[0]);
            assert(classify::conts_end(t, at + 1) <= n);
        }
        lemma_form_cut(flagged, t, n, at);
        if columns < column_cap(flagged) {
            let form = quoted_form(flagged, s, at);
            let end = quoted_unit_end(flagged, s, at);
            lemma_quoted_further(flagged, s, unit, end, columns + form.len());
            let (rest, more) = quoted_from(flagged, s, end, columns + form.len());
            let (further, left) = quoted_from(flagged, t, end, columns + form.len());
            assert(form + (rest + quoted_form(flagged, unit, 0)) =~= (form + rest) + quoted_form(flagged, unit, 0));
        }
    } else if columns < column_cap(flagged) {
        assert(t.skip(n) =~= unit);
        lemma_unit_alone(flagged, s, unit);
        assert(quoted_from(flagged, t, t.len() as int, columns + quoted_form(flagged, t, n).len()) == (
            Seq::<char>::empty(),
            false,
        ));
        assert(quoted_form(flagged, t, n) + Seq::<char>::empty() =~= Seq::<char>::empty() + quoted_form(flagged, t, n));
    }
}

proof fn lemma_unit_alone(flagged: bool, s: Seq<u8>, unit: Seq<u8>)
    requires
        unit.len() > 0,
        flagged ==> forall|i: int| 1 <= i < unit.len() ==> decode::is_cont(#[trigger] unit[i]),
        !flagged ==> unit.len() == 1,
    ensures
        quoted_unit_end(flagged, s + unit, s.len() as int) == s.len() + unit.len(),
        quoted_form(flagged, s + unit, s.len() as int) == quoted_form(flagged, unit, 0),
{
    let t = s + unit;
    let n = s.len() as int;
    assert(t[n] == unit[0]);
    if flagged {
        assert forall|i: int| n + 1 <= i < t.len() implies decode::is_cont(#[trigger] t[i]) by {
            assert(t[i] == unit[i - n]);
        }
        lemma_conts_run(t, n + 1, t.len() as int);
        lemma_conts_run(unit, 1, unit.len() as int);
        if decode::sequence_at(t, n) is Some {
            decode::lemma_sequence_bounds(t, n);
            decode::lemma_sequence_local(t, unit, n, -n);
        }
        if decode::sequence_at(unit, 0) is Some {
            decode::lemma_sequence_bounds(unit, 0);
            decode::lemma_sequence_local(unit, t, 0, n);
        }
    }
}

/// A quotation grows unit by unit: one more unit behind a string is quoted behind what is quoted of the string, unless
/// that has reached 56 columns, or 32 under the flag, or left a rest already.  Then it adds nothing but the fact that
/// something is left.
pub proof fn law_quotation_grows_up_to_its_columns(flagged: bool, s: Seq<u8>, unit: Seq<u8>)
    requires
        unit.len() > 0,
        flagged ==> forall|i: int| 1 <= i < unit.len() ==> decode::is_cont(#[trigger] unit[i]),
        flagged && s.len() > 0 ==> !decode::is_cont(unit[0]),
        !flagged ==> unit.len() == 1,
    ensures
        ({
            let (shown, more) = quoted_from(flagged, s, 0, 0);
            let (further, left) = quoted_from(flagged, s + unit, 0, 0);
            let columns: nat = if flagged { 32 } else { 56 };
            if more || shown.len() >= columns {
                further == shown && left
            } else {
                further == shown + quoted_form(flagged, unit, 0) && !left
            }
        }),
        quoted_from(flagged, Seq::<u8>::empty(), 0, 0) == (Seq::<char>::empty(), false),
{
    lemma_quoted_further(flagged, s, unit, 0, 0);
}

/// Three periods end a quotation exactly where something is left out, in the snippet or beyond it.
pub proof fn law_quotation_marks_what_is_left_out(flagged: bool, s: Seq<u8>, truncated: bool)
    ensures
        ({
            let (shown, more) = quoted_from(flagged, s, 0, 0);
            let text = quotation(flagged, s, truncated);
            if truncated || more {
                &&& text.len() == shown.len() + 3
                &&& text.take(shown.len() as int) == shown
                &&& text.skip(shown.len() as int) == seq!['.', '.', '.']
            } else {
                text == shown
            }
        }),
{
    let (shown, more) = quoted_from(flagged, s, 0, 0);
    let text = quotation(flagged, s, truncated);
    if truncated || more {
        assert(text.take(shown.len() as int) =~= shown);
        assert(text.skip(shown.len() as int) =~= seq!['.', '.', '.']);
    }
}

/// Where a prefix of so many characters ends: behind that many bytes without the flag, and with it behind the encoding
/// of that many characters.
pub proof fn law_prefix_holds_whole_characters(s: Seq<u8>, chars: Seq<char>, n: nat)
    ensures
        units_end(false, s, 0, n) == if s.len() <= n { s.len() as int } else { n as int },
        units_end(true, vstd::utf8::encode_utf8(chars), 0, n) == vstd::utf8::encode_utf8(
            chars.take(if chars.len() <= n { chars.len() as int } else { n as int }),
        ).len(),
{
    lemma_bytes_end(s, 0, n);
    lemma_chars_end(Seq::<u8>::empty(), chars, n);
    let text = vstd::utf8::encode_utf8(chars);
    assert(Seq::<u8>::empty() + text =~= text);
}

proof fn lemma_chars_end(head: Seq<u8>, chars: Seq<char>, n: nat)
    ensures
        units_end(true, head + vstd::utf8::encode_utf8(chars), head.len() as int, n) == head.len()
            + vstd::utf8::encode_utf8(chars.take(if chars.len() <= n { chars.len() as int } else { n as int })).len(),
    decreases chars.len(),
{
    let text = vstd::utf8::encode_utf8(chars);
    let whole = head + text;
    let at = head.len() as int;
    let k = if chars.len() <= n { chars.len() as int } else { n as int };
    if chars.len() == 0 || n == 0 {
        assert(chars.take(k) =~= Seq::<char>::empty());
        assert(vstd::utf8::encode_utf8(chars.take(k)) =~= Seq::<u8>::empty());
        if chars.len() == 0 {
            assert(text =~= Seq::<u8>::empty());
        }
    } else {
        let first = vstd::utf8::encode_utf8(seq![chars[0]]);
        let rest = chars.drop_first();
        let tail = vstd::utf8::encode_utf8(rest);
        lemma_encode_first(chars);
        assert(text == first + tail);
        numeric_text::lemma_encoded_char(chars[0], tail);
        decode::lemma_sequence_bounds(text, 0);
        let m = first.len() as int;
        assert(tail.len() > 0 ==> !decode::is_cont(tail[0])) by {
            if rest.len() > 0 {
                lemma_encode_first(rest);
                numeric_text::lemma_encoded_char(rest[0], vstd::utf8::encode_utf8(rest.drop_first()));
            } else {
                assert(rest =~= Seq::<char>::empty());
            }
        }
        assert(decode::conts_follow(text, 0, (m - 1) as nat));
        assert forall|i: int| at + 1 <= i < at + m implies decode::is_cont(#[trigger] whole[i]) by {
            assert(whole[i] == text[i - at]);
        }
        assert(tail.len() > 0 ==> whole[at + m] == tail[0]);
        lemma_conts_run(whole, at + 1, at + m);
        assert(quoted_unit_end(true, whole, at) == at + m);
        let head2 = head + first;
        assert(whole =~= head2 + tail);
        lemma_chars_end(head2, rest, (n - 1) as nat);
        let k2 = if rest.len() <= n - 1 { rest.len() as int } else { n - 1 };
        assert(chars.take(k).drop_first() =~= rest.take(k2));
        assert(chars.take(k)[0] == chars[0]);
        lemma_encode_first(chars.take(k));
    }
}

proof fn lemma_encode_first(chars: Seq<char>)
    requires
        chars.len() > 0,
    ensures
        vstd::utf8::encode_utf8(chars) == vstd::utf8::encode_utf8(seq![chars[0]]) + vstd::utf8::encode_utf8(
            chars.drop_first(),
        ),
{
    let one = seq![chars[0]];
    assert(one.drop_first() =~= Seq::<char>::empty());
    assert(vstd::utf8::encode_utf8(one.drop_first()) =~= Seq::<u8>::empty());
    assert(vstd::utf8::encode_utf8(one) =~= vstd::utf8::encode_scalar(chars[0] as u32) + Seq::<u8>::empty());
    assert(vstd::utf8::encode_utf8(one) =~= vstd::utf8::encode_scalar(chars[0] as u32));
}

/// The words of the messages, for every base and digit, and how the compound ones are made of the others: each warning on
/// a line of its own, in the order of their emission.
pub proof fn law_messages_are_worded(base: RadixBase, digit: u8, value: String, snippet: PString, truncated: bool)
    ensures
        ({
            let quoted = quotation(snippet.flagged(), snippet.data(), truncated);
            &&& (NumifyWarning::NotNumeric { snippet, truncated }).body() == "Argument \""@ + quoted
                + "\" isn't numeric"@
            &&& (NumifyWarning::NotIncrementable { snippet, truncated }).body() == "Argument \""@ + quoted
                + "\" treated as 0 in increment (++)"@
        }),
        (NumifyWarning::LostPrecision { value, decrement: false }).body() == "Lost precision when "@ + "incrementing"@
            + " "@ + value@ + " by 1"@,
        (NumifyWarning::LostPrecision { value, decrement: true }).body() == "Lost precision when "@ + "decrementing"@
            + " "@ + value@ + " by 1"@,
        ({
            let word = match base {
                RadixBase::Binary => "binary"@,
                RadixBase::Octal => "octal"@,
                RadixBase::Hexadecimal => "hexadecimal"@,
            };
            let threshold = match base {
                RadixBase::Binary => "Binary number > 0b11111111111111111111111111111111"@,
                RadixBase::Octal => "Octal number > 037777777777"@,
                RadixBase::Hexadecimal => "Hexadecimal number > 0xffffffff"@,
            };
            &&& (NumifyWarning::IllegalDigit { base, digit }).body() == "Illegal "@ + word + " digit '"@ + seq![
                digit as char,
            ] + "' ignored"@
            &&& (NumifyWarning::Overflow { base }).body() == "Integer overflow in "@ + word + " number"@
            &&& (NumifyWarning::NonPortable { base }).body() == threshold + " non-portable"@
        }),
        (NumifyWarning::OverflowThenIllegalDigit { base, digit }).body() == (NumifyWarning::Overflow { base }).body()
            + seq!['\n'] + (NumifyWarning::IllegalDigit { base, digit }).body(),
        (NumifyWarning::IllegalDigitThenNonPortable { base, digit }).body() == (NumifyWarning::IllegalDigit {
            base,
            digit,
        }).body() + seq!['\n'] + (NumifyWarning::NonPortable { base }).body(),
        NumifyWarning::Uninitialized.body() == "Use of uninitialized value"@,
{
}

/// A prefix goes unit by unit: a byte without the flag, and with it a byte and the continuation bytes behind it.
pub proof fn law_prefixes_go_unit_by_unit(flagged: bool, s: Seq<u8>, at: int, n: nat)
    requires
        0 <= at < s.len(),
    ensures
        units_end(flagged, s, at, 0) == at,
        units_end(flagged, s, s.len() as int, n) == s.len(),
        units_end(flagged, s, at, n + 1) == units_end(
            flagged,
            s,
            if flagged { classify::unit_end(s, at) } else { at + 1 },
            n,
        ),
{
}

/// A unit that is one whole sequence stands for its code point, and any other for its first byte.
pub proof fn law_malformed_units_stand_for_their_first_byte(s: Seq<u8>, at: int)
    requires
        0 <= at < s.len(),
    ensures
        ({
            let end = classify::unit_end(s, at);
            &&& decode::sequence_at(s, at) is None ==> unit_value(s, at) == s[at] as nat
            &&& decode::sequence_at(s, at) is Some && at + (decode::sequence_at(s, at)->0).0 == end ==> unit_value(s, at)
                == (decode::sequence_at(s, at)->0).1
            &&& decode::sequence_at(s, at) is Some && at + (decode::sequence_at(s, at)->0).0 < end ==> unit_value(s, at)
                == s[at] as nat
        }),
{
}

/// Any unit of a flagged string but a printable ASCII character is quoted by the number it stands for, in braces.
pub proof fn law_units_are_quoted_by_their_numbers(s: Seq<u8>, at: int)
    requires
        0 <= at < s.len(),
    ensures
        classify::unit_end(s, at) == at + 1 && 0x20 <= s[at] <= 0x7E && s[at] != 0x5C ==> quoted_form(true, s, at).len() == 1
            && quoted_form(true, s, at)[0] as nat == s[at],
        classify::unit_end(s, at) == at + 1 && s[at] == 0x5C ==> quoted_form(true, s, at) == seq!['\\', '\\'],
        classify::unit_end(s, at) > at + 1 || s[at] < 0x20 || s[at] > 0x7E ==> quoted_form(true, s, at) == seq![
            '\\',
            'x',
            '{',
        ] + text::numeral(unit_value(s, at)) + seq!['}'],
{
    classify::lemma_conts_end(s, at + 1);
}

} // verus!
