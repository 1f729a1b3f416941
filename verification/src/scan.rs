//! The scan lattice: what is known of a string's bytes, as a closed set of states.
//!
//! Each state is an assertion about the bytes it is recorded for, [`ScanState::certifies`].  `Unknown` asserts
//! nothing; the five [`Terminal`] states are what a full classification finds, and exactly one of them holds of any
//! byte sequence.
use crate::decode;
use vstd::prelude::*;

verus! {

/// The scan lattice.  Every value a scan byte can legally hold is a variant.
#[derive(Clone, Copy, PartialEq, Eq, Structural, Debug)]
pub enum ScanState {
    /// Asserts nothing.
    Unknown,
    /// All bytes `0x00`-`0x7F`.  Terminal.
    Ascii,
    /// Rust-valid, all code points at most U+00FF, at least one at or above U+0080.  Terminal.
    Utf8Latin1,
    /// Rust-valid, at least one code point at or above U+0100.  Terminal.
    Utf8NonLatin1,
    /// Rust-valid; nothing further known.
    ValidUtf8,
    /// Rust-valid, at least one code point at or above U+0080.
    Utf8NonAscii,
    /// Perl-decodable, Rust-invalid.  Terminal.
    ExtendedUtf8,
    /// Violates the encoding patterns; invalid for Rust and perl both.  Terminal.
    MalformedUtf8,
    /// A high bit is present; validity and range unknown.
    NonAscii,
    /// Rust-valid, all code points at most U+00FF.
    MaybeUtf8Latin1,
    /// Perl-decodable; Rust validity and range unasserted.
    MaybeExtendedUtf8,
    /// Perl-decodable with a high-bit byte present.
    PerlValidNonAscii,
}

/// The three classes that Rust-valid content can have, in order.
#[derive(Clone, Copy, PartialEq, Eq, Structural, Debug)]
pub enum ValidRange {
    Ascii,
    Latin1,
    NonLatin1,
}

/// The five states a full classification can produce.
#[derive(Clone, Copy, PartialEq, Eq, Structural, Debug)]
pub enum Terminal {
    Ascii,
    Utf8Latin1,
    Utf8NonLatin1,
    ExtendedUtf8,
    MalformedUtf8,
}

impl ScanState {
    /// What the state asserts of the bytes it is recorded for.
    pub open spec fn certifies(self, s: Seq<u8>) -> bool {
        match self {
            ScanState::Unknown => true,
            ScanState::Ascii => decode::all_ascii(s),
            ScanState::Utf8Latin1 => decode::rust_decodable(s) && !decode::has_at_least(decode::code_points(s), 0x100) && decode::has_at_least(
                decode::code_points(s),
                0x80,
            ),
            ScanState::Utf8NonLatin1 => decode::rust_decodable(s) && decode::has_at_least(decode::code_points(s), 0x100),
            ScanState::ValidUtf8 => decode::rust_decodable(s),
            ScanState::Utf8NonAscii => decode::rust_decodable(s) && decode::has_at_least(decode::code_points(s), 0x80),
            ScanState::ExtendedUtf8 => decode::perl_decodable(s) && !decode::rust_decodable(s),
            ScanState::MalformedUtf8 => !decode::perl_decodable(s),
            ScanState::NonAscii => decode::has_high_byte(s),
            ScanState::MaybeUtf8Latin1 => decode::rust_decodable(s) && !decode::has_at_least(decode::code_points(s), 0x100),
            ScanState::MaybeExtendedUtf8 => decode::perl_decodable(s),
            ScanState::PerlValidNonAscii => decode::perl_decodable(s) && decode::has_high_byte(s),
        }
    }

    /// The number of the state in its one-byte storage form.
    pub open spec fn number(self) -> u8 {
        match self {
            ScanState::Unknown => 0,
            ScanState::Ascii => 1,
            ScanState::Utf8Latin1 => 2,
            ScanState::Utf8NonLatin1 => 3,
            ScanState::ValidUtf8 => 4,
            ScanState::Utf8NonAscii => 5,
            ScanState::ExtendedUtf8 => 6,
            ScanState::MalformedUtf8 => 7,
            ScanState::NonAscii => 8,
            ScanState::MaybeUtf8Latin1 => 9,
            ScanState::MaybeExtendedUtf8 => 10,
            ScanState::PerlValidNonAscii => 11,
        }
    }

    /// The terminal state with the same assertion, where there is one.
    pub open spec fn as_terminal(self) -> Option<Terminal> {
        match self {
            ScanState::Ascii => Some(Terminal::Ascii),
            ScanState::Utf8Latin1 => Some(Terminal::Utf8Latin1),
            ScanState::Utf8NonLatin1 => Some(Terminal::Utf8NonLatin1),
            ScanState::ExtendedUtf8 => Some(Terminal::ExtendedUtf8),
            ScanState::MalformedUtf8 => Some(Terminal::MalformedUtf8),
            _ => None,
        }
    }

    /// Project to the storage byte.
    pub fn as_u8(self) -> (r: u8)
        ensures
            r == self.number(),
    {
        match self {
            ScanState::Unknown => 0,
            ScanState::Ascii => 1,
            ScanState::Utf8Latin1 => 2,
            ScanState::Utf8NonLatin1 => 3,
            ScanState::ValidUtf8 => 4,
            ScanState::Utf8NonAscii => 5,
            ScanState::ExtendedUtf8 => 6,
            ScanState::MalformedUtf8 => 7,
            ScanState::NonAscii => 8,
            ScanState::MaybeUtf8Latin1 => 9,
            ScanState::MaybeExtendedUtf8 => 10,
            ScanState::PerlValidNonAscii => 11,
        }
    }

    /// The state whose storage byte this is.  Only bytes written by [`ScanState::as_u8`] are states.
    pub fn from_u8(byte: u8) -> (r: ScanState)
        requires
            byte <= 11,
        ensures
            r.number() == byte,
    {
        match byte {
            0 => ScanState::Unknown,
            1 => ScanState::Ascii,
            2 => ScanState::Utf8Latin1,
            3 => ScanState::Utf8NonLatin1,
            4 => ScanState::ValidUtf8,
            5 => ScanState::Utf8NonAscii,
            6 => ScanState::ExtendedUtf8,
            7 => ScanState::MalformedUtf8,
            8 => ScanState::NonAscii,
            9 => ScanState::MaybeUtf8Latin1,
            10 => ScanState::MaybeExtendedUtf8,
            _ => ScanState::PerlValidNonAscii,
        }
    }

    /// The terminal subset, where this state is in it.
    pub fn terminal(self) -> (r: Option<Terminal>)
        ensures
            r == self.as_terminal(),
    {
        match self {
            ScanState::Ascii => Some(Terminal::Ascii),
            ScanState::Utf8Latin1 => Some(Terminal::Utf8Latin1),
            ScanState::Utf8NonLatin1 => Some(Terminal::Utf8NonLatin1),
            ScanState::ExtendedUtf8 => Some(Terminal::ExtendedUtf8),
            ScanState::MalformedUtf8 => Some(Terminal::MalformedUtf8),
            ScanState::Unknown
            | ScanState::ValidUtf8
            | ScanState::Utf8NonAscii
            | ScanState::NonAscii
            | ScanState::MaybeUtf8Latin1
            | ScanState::MaybeExtendedUtf8
            | ScanState::PerlValidNonAscii => None,
        }
    }
}

impl ValidRange {
    /// The rank in the chain Ascii, Latin-1, beyond Latin-1.
    pub open spec fn rank(self) -> int {
        match self {
            ValidRange::Ascii => 1,
            ValidRange::Latin1 => 2,
            ValidRange::NonLatin1 => 3,
        }
    }

    /// The state with the same assertion.
    pub open spec fn state(self) -> ScanState {
        match self {
            ValidRange::Ascii => ScanState::Ascii,
            ValidRange::Latin1 => ScanState::Utf8Latin1,
            ValidRange::NonLatin1 => ScanState::Utf8NonLatin1,
        }
    }

    /// Into the full lattice.
    pub fn widen(self) -> (r: ScanState)
        ensures
            r == self.state(),
    {
        match self {
            ValidRange::Ascii => ScanState::Ascii,
            ValidRange::Latin1 => ScanState::Utf8Latin1,
            ValidRange::NonLatin1 => ScanState::Utf8NonLatin1,
        }
    }

    /// The range join: the class of the concatenation of content of these two classes.
    pub fn join(self, other: ValidRange) -> (r: ValidRange)
        ensures
            r == if self.rank() >= other.rank() {
                self
            } else {
                other
            },
    {
        match self {
            ValidRange::Ascii => other,
            ValidRange::Latin1 => match other {
                ValidRange::NonLatin1 => other,
                _ => self,
            },
            ValidRange::NonLatin1 => self,
        }
    }
}

impl Terminal {
    /// The state with the same assertion.
    pub open spec fn state(self) -> ScanState {
        match self {
            Terminal::Ascii => ScanState::Ascii,
            Terminal::Utf8Latin1 => ScanState::Utf8Latin1,
            Terminal::Utf8NonLatin1 => ScanState::Utf8NonLatin1,
            Terminal::ExtendedUtf8 => ScanState::ExtendedUtf8,
            Terminal::MalformedUtf8 => ScanState::MalformedUtf8,
        }
    }

    /// The terminal state that a full classification of `s` finds.
    pub open spec fn of(s: Seq<u8>) -> Terminal {
        if !decode::perl_decodable(s) {
            Terminal::MalformedUtf8
        } else if !decode::rust_decodable(s) {
            Terminal::ExtendedUtf8
        } else if decode::has_at_least(decode::code_points(s), 0x100) {
            Terminal::Utf8NonLatin1
        } else if decode::has_at_least(decode::code_points(s), 0x80) {
            Terminal::Utf8Latin1
        } else {
            Terminal::Ascii
        }
    }

    /// Into the full lattice.
    pub fn widen(self) -> (r: ScanState)
        ensures
            r == self.state(),
    {
        match self {
            Terminal::Ascii => ScanState::Ascii,
            Terminal::Utf8Latin1 => ScanState::Utf8Latin1,
            Terminal::Utf8NonLatin1 => ScanState::Utf8NonLatin1,
            Terminal::ExtendedUtf8 => ScanState::ExtendedUtf8,
            Terminal::MalformedUtf8 => ScanState::MalformedUtf8,
        }
    }

    /// The reverse projection, for a state established to be terminal.
    pub fn from_scan(state: ScanState) -> (r: Terminal)
        requires
            state.as_terminal() is Some,
        ensures
            r.state() == state,
    {
        match state {
            ScanState::Ascii => Terminal::Ascii,
            ScanState::Utf8Latin1 => Terminal::Utf8Latin1,
            ScanState::Utf8NonLatin1 => Terminal::Utf8NonLatin1,
            ScanState::ExtendedUtf8 => Terminal::ExtendedUtf8,
            _ => Terminal::MalformedUtf8,
        }
    }
}

/// The states whose assertion includes Rust validity.
pub open spec fn rust_valid_state(state: ScanState) -> bool {
    ||| state is Ascii
    ||| state is Utf8Latin1
    ||| state is MaybeUtf8Latin1
    ||| state is Utf8NonLatin1
    ||| state is ValidUtf8
    ||| state is Utf8NonAscii
}

/// The states whose assertion includes perl's decodability.
pub open spec fn perl_decodable_state(state: ScanState) -> bool {
    ||| rust_valid_state(state)
    ||| state is ExtendedUtf8
    ||| state is MaybeExtendedUtf8
    ||| state is PerlValidNonAscii
}

/// The states whose assertion bounds every code point by U+00FF.
pub open spec fn latin1_range_state(state: ScanState) -> bool {
    state is Ascii || state is Utf8Latin1 || state is MaybeUtf8Latin1
}

/// The states whose assertion includes a byte with its high bit set.
pub open spec fn non_ascii_state(state: ScanState) -> bool {
    !(state is Unknown || state is Ascii || state is ValidUtf8 || state is MaybeUtf8Latin1 || state is MaybeExtendedUtf8)
}

/// The states whose assertion includes a code point at or above U+0100.
pub open spec fn beyond_latin1_state(state: ScanState) -> bool {
    state is Utf8NonLatin1 || state is ExtendedUtf8
}

/// Rust-valid: the states whose assertion includes it.
pub fn is_rust_valid(state: ScanState) -> (r: bool)
    ensures
        r == rust_valid_state(state),
{
    matches!(
        state,
        ScanState::Ascii
        | ScanState::Utf8Latin1
        | ScanState::MaybeUtf8Latin1
        | ScanState::Utf8NonLatin1
        | ScanState::ValidUtf8
        | ScanState::Utf8NonAscii
    )
}

/// Perl-decodable: every Rust-valid state plus the extended forms perl accepts.
pub fn is_perl_decodable(state: ScanState) -> (r: bool)
    ensures
        r == perl_decodable_state(state),
{
    matches!(
        state,
        ScanState::Ascii
        | ScanState::Utf8Latin1
        | ScanState::MaybeUtf8Latin1
        | ScanState::Utf8NonLatin1
        | ScanState::ValidUtf8
        | ScanState::Utf8NonAscii
        | ScanState::ExtendedUtf8
        | ScanState::MaybeExtendedUtf8
        | ScanState::PerlValidNonAscii
    )
}

/// Known entirely at most U+00FF (downgradable).
pub fn is_known_latin1_range(state: ScanState) -> (r: bool)
    ensures
        r == latin1_range_state(state),
{
    matches!(state, ScanState::Ascii | ScanState::Utf8Latin1 | ScanState::MaybeUtf8Latin1)
}

/// Fully-scanned terminal classification: mutually exclusive content classes.
pub fn is_terminal(state: ScanState) -> (r: bool)
    ensures
        r == (state.as_terminal() is Some),
{
    state.terminal().is_some()
}

/// Known non-ASCII: a high bit is known used.
pub fn is_known_non_ascii(state: ScanState) -> (r: bool)
    ensures
        r == non_ascii_state(state),
{
    !matches!(
        state,
        ScanState::Unknown
        | ScanState::Ascii
        | ScanState::ValidUtf8
        | ScanState::MaybeUtf8Latin1
        | ScanState::MaybeExtendedUtf8
    )
}

/// Known to contain a character at or above U+0100.
pub fn is_known_beyond_latin1(state: ScanState) -> (r: bool)
    ensures
        r == beyond_latin1_state(state),
{
    matches!(state, ScanState::Utf8NonLatin1 | ScanState::ExtendedUtf8)
}

/// A set of certified facts about the bytes.
#[derive(Clone, Copy)]
struct Facts {
    /// Rust-valid, which implies perl-decodable.
    rust_valid: bool,
    /// Perl-decodable.
    perl_valid: bool,
    /// Every code point at most U+00FF.
    all_le_00ff: bool,
    /// A code point at or above U+0080 exists.
    contains_ge_0080: bool,
    /// A code point at or above U+0100 exists.
    contains_ge_0100: bool,
    /// A Rust-invalid form exists: a surrogate, or a code point at or above U+110000.
    rust_invalid: bool,
    /// Invalid to perl, and so to Rust.
    malformed: bool,
    /// A byte with the high bit set exists.
    high_bit: bool,
    /// Every byte is ASCII.
    all_ascii: bool,
}

/// The empty set of facts.
spec fn no_facts() -> Facts {
    Facts {
        rust_valid: false,
        perl_valid: false,
        all_le_00ff: false,
        contains_ge_0080: false,
        contains_ge_0100: false,
        rust_invalid: false,
        malformed: false,
        high_bit: false,
        all_ascii: false,
    }
}

/// The assertion set of a state.
spec fn facts_of(state: ScanState) -> Facts {
    match state {
        ScanState::Unknown => no_facts(),
        ScanState::PerlValidNonAscii => Facts { perl_valid: true, high_bit: true, ..no_facts() },
        ScanState::Ascii => Facts { rust_valid: true, perl_valid: true, all_le_00ff: true, all_ascii: true, ..no_facts() },
        ScanState::Utf8Latin1 => Facts {
            rust_valid: true,
            perl_valid: true,
            all_le_00ff: true,
            contains_ge_0080: true,
            ..no_facts()
        },
        ScanState::MaybeUtf8Latin1 => Facts { rust_valid: true, perl_valid: true, all_le_00ff: true, ..no_facts() },
        ScanState::Utf8NonLatin1 => Facts { rust_valid: true, perl_valid: true, contains_ge_0100: true, ..no_facts() },
        ScanState::ValidUtf8 => Facts { rust_valid: true, perl_valid: true, ..no_facts() },
        ScanState::Utf8NonAscii => Facts { rust_valid: true, perl_valid: true, contains_ge_0080: true, ..no_facts() },
        ScanState::ExtendedUtf8 => Facts { perl_valid: true, rust_invalid: true, ..no_facts() },
        ScanState::MaybeExtendedUtf8 => Facts { perl_valid: true, ..no_facts() },
        ScanState::MalformedUtf8 => Facts { malformed: true, ..no_facts() },
        ScanState::NonAscii => Facts { high_bit: true, ..no_facts() },
    }
}

/// The most precise state that a set of facts supports; malformedness is judged first, so that the result is defined
/// for contradictory sets too.
spec fn strongest(f: Facts) -> ScanState {
    let ge_0080 = f.contains_ge_0080 || f.contains_ge_0100 || f.rust_invalid || (f.rust_valid && f.high_bit);
    if f.malformed {
        ScanState::MalformedUtf8
    } else if f.rust_invalid {
        ScanState::ExtendedUtf8
    } else if f.rust_valid && f.all_ascii {
        ScanState::Ascii
    } else if f.rust_valid && f.contains_ge_0100 {
        ScanState::Utf8NonLatin1
    } else if f.rust_valid && f.all_le_00ff {
        if ge_0080 { ScanState::Utf8Latin1 } else { ScanState::MaybeUtf8Latin1 }
    } else if f.rust_valid {
        if ge_0080 { ScanState::Utf8NonAscii } else { ScanState::ValidUtf8 }
    } else if f.perl_valid {
        if f.high_bit { ScanState::PerlValidNonAscii } else { ScanState::MaybeExtendedUtf8 }
    } else if f.high_bit {
        ScanState::NonAscii
    } else {
        ScanState::Unknown
    }
}

/// Both sets of facts together.
spec fn both(a: Facts, b: Facts) -> Facts {
    Facts {
        rust_valid: a.rust_valid || b.rust_valid,
        perl_valid: a.perl_valid || b.perl_valid,
        all_le_00ff: a.all_le_00ff || b.all_le_00ff,
        contains_ge_0080: a.contains_ge_0080 || b.contains_ge_0080,
        contains_ge_0100: a.contains_ge_0100 || b.contains_ge_0100,
        rust_invalid: a.rust_invalid || b.rust_invalid,
        malformed: a.malformed || b.malformed,
        high_bit: a.high_bit || b.high_bit,
        all_ascii: a.all_ascii || b.all_ascii,
    }
}

/// The meet of two states: the most precise state that the facts of both support.
pub closed spec fn meet_of(a: ScanState, b: ScanState) -> ScanState {
    strongest(both(facts_of(a), facts_of(b)))
}

/// The assertion set of a state.
fn facts(state: ScanState) -> (r: Facts)
    ensures
        r == facts_of(state),
{
    let mut f = Facts {
        rust_valid: false,
        perl_valid: false,
        all_le_00ff: false,
        contains_ge_0080: false,
        contains_ge_0100: false,
        rust_invalid: false,
        malformed: false,
        high_bit: false,
        all_ascii: false,
    };
    match state {
        ScanState::Unknown => {},
        ScanState::PerlValidNonAscii => {
            f.perl_valid = true;
            f.high_bit = true;
        },
        ScanState::Ascii => {
            f.rust_valid = true;
            f.perl_valid = true;
            f.all_le_00ff = true;
            f.all_ascii = true;
        },
        ScanState::Utf8Latin1 => {
            f.rust_valid = true;
            f.perl_valid = true;
            f.all_le_00ff = true;
            f.contains_ge_0080 = true;
        },
        ScanState::MaybeUtf8Latin1 => {
            f.rust_valid = true;
            f.perl_valid = true;
            f.all_le_00ff = true;
        },
        ScanState::Utf8NonLatin1 => {
            f.rust_valid = true;
            f.perl_valid = true;
            f.contains_ge_0100 = true;
        },
        ScanState::ValidUtf8 => {
            f.rust_valid = true;
            f.perl_valid = true;
        },
        ScanState::Utf8NonAscii => {
            f.rust_valid = true;
            f.perl_valid = true;
            f.contains_ge_0080 = true;
        },
        ScanState::ExtendedUtf8 => {
            f.perl_valid = true;
            f.rust_invalid = true;
        },
        ScanState::MaybeExtendedUtf8 => {
            f.perl_valid = true;
        },
        ScanState::MalformedUtf8 => {
            f.malformed = true;
        },
        ScanState::NonAscii => {
            f.high_bit = true;
        },
    }
    f
}

/// The meet of two true certifications of the same bytes: the union of their facts, closed under derivation, as the
/// most precise state.  See [`law_meet_is_sound`] and the laws beside it.
pub fn meet(a: ScanState, b: ScanState) -> (r: ScanState)
    ensures
        r == meet_of(a, b),
        forall|s: Seq<u8>|
            #![trigger a.certifies(s)]
            #![trigger r.certifies(s)]
            a.certifies(s) && b.certifies(s) ==> r.certifies(s),
{
    proof {
        assert forall|s: Seq<u8>| a.certifies(s) && b.certifies(s) implies #[trigger] meet_of(a, b).certifies(s) by {
            law_meet_is_sound(a, b, s);
        }
    }
    let fa = facts(a);
    let fb = facts(b);
    let rust_valid = fa.rust_valid || fb.rust_valid;
    let high_bit = fa.high_bit || fb.high_bit;
    let contains_ge_0100 = fa.contains_ge_0100 || fb.contains_ge_0100;
    let rust_invalid = fa.rust_invalid || fb.rust_invalid;
    let mut contains_ge_0080 = fa.contains_ge_0080 || fb.contains_ge_0080;

    // Under Rust validity a high-bit byte is a code point at or above U+0080, and the stronger witness implies the
    // weaker.
    if rust_valid && high_bit {
        contains_ge_0080 = true;
    }
    if contains_ge_0100 || rust_invalid {
        contains_ge_0080 = true;
    }
    if fa.malformed || fb.malformed {
        ScanState::MalformedUtf8
    } else if rust_invalid {
        ScanState::ExtendedUtf8
    } else if rust_valid {
        if fa.all_ascii || fb.all_ascii {
            ScanState::Ascii
        } else if contains_ge_0100 {
            ScanState::Utf8NonLatin1
        } else if fa.all_le_00ff || fb.all_le_00ff {
            if contains_ge_0080 {
                ScanState::Utf8Latin1
            } else {
                ScanState::MaybeUtf8Latin1
            }
        } else if contains_ge_0080 {
            ScanState::Utf8NonAscii
        } else {
            ScanState::ValidUtf8
        }
    } else if fa.perl_valid || fb.perl_valid {
        if high_bit {
            ScanState::PerlValidNonAscii
        } else {
            ScanState::MaybeExtendedUtf8
        }
    } else if high_bit {
        ScanState::NonAscii
    } else {
        ScanState::Unknown
    }
}

/// The meet of two true certifications is true.
pub proof fn law_meet_is_sound(a: ScanState, b: ScanState, s: Seq<u8>)
    requires
        a.certifies(s),
        b.certifies(s),
    ensures
        meet_of(a, b).certifies(s),
{
    decode::lemma_content_facts(s);
}

/// The meet forfeits nothing: where two certifications can be true of the same bytes, what their meet asserts of any
/// bytes is exactly what the two assert together.
pub proof fn law_meet_is_exact(a: ScanState, b: ScanState, witness: Seq<u8>, s: Seq<u8>)
    requires
        a.certifies(witness),
        b.certifies(witness),
    ensures
        meet_of(a, b).certifies(s) <==> a.certifies(s) && b.certifies(s),
{
    decode::lemma_content_facts(witness);
    decode::lemma_content_facts(s);
}

/// The meet does not depend on the order of its operands.
pub proof fn law_meet_commutes(a: ScanState, b: ScanState)
    ensures
        meet_of(a, b) == meet_of(b, a),
{
}

/// A state met with itself is itself.
pub proof fn law_meet_is_idempotent(a: ScanState)
    ensures
        meet_of(a, a) == a,
{
}

/// `Unknown` is the identity of the meet.
pub proof fn law_unknown_is_identity(a: ScanState)
    ensures
        meet_of(ScanState::Unknown, a) == a,
        meet_of(a, ScanState::Unknown) == a,
{
}

/// Of any bytes exactly one terminal state is true, the one that [`Terminal::of`] names.
pub proof fn law_terminals_are_exclusive(t: Terminal, s: Seq<u8>)
    ensures
        t.state().certifies(s) <==> t == Terminal::of(s),
{
    decode::lemma_content_facts(s);
}

/// What the state predicates promise of certified bytes.
pub proof fn law_predicates_are_sound(state: ScanState, s: Seq<u8>)
    requires
        state.certifies(s),
    ensures
        rust_valid_state(state) ==> decode::rust_decodable(s),
        perl_decodable_state(state) ==> decode::perl_decodable(s),
        latin1_range_state(state) ==> !decode::has_at_least(decode::code_points(s), 0x100),
        non_ascii_state(state) ==> decode::has_high_byte(s),
        beyond_latin1_state(state) ==> decode::has_at_least(decode::code_points(s), 0x100),
        state.as_terminal() is Some ==> state.as_terminal()->0 == Terminal::of(s),
{
    decode::lemma_content_facts(s);
}

/// The storage byte determines the state.
pub proof fn law_numbers_are_distinct(a: ScanState, b: ScanState)
    requires
        a.number() == b.number(),
    ensures
        a == b,
{
}

/// What each state says of bytes, in the terms of UTF-8 and of perl's decoder.
pub proof fn law_states_say_what_they_are_named_for(s: Seq<u8>)
    ensures
        ({
            let valid = vstd::utf8::valid_utf8(s);
            let decodable = decode::perl_decodable(s);
            let high = exists|i: int| 0 <= i < s.len() && #[trigger] s[i] >= 0x80;
            let wide = exists|i: int| 0 <= i < decode::code_points(s).len() && #[trigger] decode::code_points(s)[i] >= 0x100;
            &&& ScanState::Unknown.certifies(s)
            &&& ScanState::Ascii.certifies(s) <==> !high
            &&& ScanState::NonAscii.certifies(s) <==> high
            &&& ScanState::ValidUtf8.certifies(s) <==> valid
            &&& ScanState::Utf8NonAscii.certifies(s) <==> valid && high
            &&& ScanState::MaybeUtf8Latin1.certifies(s) <==> valid && !wide
            &&& ScanState::Utf8Latin1.certifies(s) <==> valid && high && !wide
            &&& ScanState::Utf8NonLatin1.certifies(s) <==> valid && wide
            &&& ScanState::MaybeExtendedUtf8.certifies(s) <==> decodable
            &&& ScanState::PerlValidNonAscii.certifies(s) <==> decodable && high
            &&& ScanState::ExtendedUtf8.certifies(s) <==> decodable && !valid
            &&& ScanState::MalformedUtf8.certifies(s) <==> !decodable
        }),
{
    crate::utf8::law_rust_decodable_is_valid_utf8(s);
    decode::lemma_content_facts(s);
}

/// A class has the state of the same name, and the state tells the class.
pub proof fn law_classes_and_states_correspond(t: Terminal, r: ValidRange, s: Seq<u8>)
    ensures
        t.state().as_terminal() == Some(t),
        forall|state: ScanState|
            (#[trigger] state.as_terminal()) is Some ==> (state.as_terminal()->0).state() == state,
        Terminal::of(s).state().certifies(s),
        t.state().certifies(s) ==> Terminal::of(s) == t,
        r.state().certifies(s) ==> r.state() == Terminal::of(s).state(),
        r is Ascii <==> r.state() is Ascii,
        r is Latin1 <==> r.state() is Utf8Latin1,
        r is NonLatin1 <==> r.state() is Utf8NonLatin1,
{
    decode::lemma_content_facts(s);
    law_terminals_are_exclusive(t, s);
    law_terminals_are_exclusive(Terminal::of(s), s);
}

/// The class of a concatenation is the larger of the two, from ASCII over Latin-1 to what is beyond it.
pub proof fn law_ranges_rise_from_ascii(a: ValidRange)
    ensures
        ValidRange::Ascii.rank() < ValidRange::Latin1.rank() < ValidRange::NonLatin1.rank(),
{
}

/// The predicates give away nothing: where one does not hold of a state, the state allows bytes without the property.
pub proof fn law_predicates_are_complete(state: ScanState)
    ensures
        !rust_valid_state(state) ==> exists|s: Seq<u8>| #[trigger] state.certifies(s) && !decode::rust_decodable(s),
        !perl_decodable_state(state) ==> exists|s: Seq<u8>| #[trigger] state.certifies(s) && !decode::perl_decodable(s),
        !latin1_range_state(state) ==> exists|s: Seq<u8>|
            #[trigger] state.certifies(s) && (!decode::perl_decodable(s) || decode::has_at_least(
                decode::code_points(s),
                0x100,
            )),
        !non_ascii_state(state) ==> exists|s: Seq<u8>| #[trigger] state.certifies(s) && decode::all_ascii(s),
        !beyond_latin1_state(state) ==> exists|s: Seq<u8>|
            #[trigger] state.certifies(s) && !decode::has_at_least(decode::code_points(s), 0x100),
{
    let none = Seq::<u8>::empty();
    let stray = seq![0xFFu8];
    let surrogate = seq![0xEDu8, 0xA0u8, 0x80u8];
    let accent = seq![0xC2u8, 0x80u8];
    let wide = seq![0xC4u8, 0x80u8];
    assert(decode::perl_decodable(none));
    assert(decode::code_points(none) =~= Seq::<nat>::empty());
    assert(decode::rust_decodable(none));
    assert(!decode::perl_decodable(stray)) by {
        assert(decode::sequence_at(stray, 0) is None);
    }
    assert(decode::code_points(stray) =~= Seq::<nat>::empty()) by {
        assert(decode::sequence_at(stray, 0) is None);
    }
    assert(stray[0] >= 0x80);
    decode::law_extended_forms_are_taken(surrogate);
    assert(surrogate[0] >= 0x80);
    assert(decode::has_high_byte(surrogate));
    assert(decode::has_at_least(decode::code_points(surrogate), 0x100));
    lemma_pair(accent);
    lemma_pair(wide);
    assert(accent[0] >= 0x80 && wide[0] >= 0x80);
    assert(decode::code_points(accent)[0] == 0x80);
    assert(decode::code_points(wide)[0] == 0x100);
    assert(decode::has_at_least(decode::code_points(accent), 0x80));
    assert(decode::has_at_least(decode::code_points(wide), 0x100));
    assert(decode::has_at_least(decode::code_points(wide), 0x80));
    assert(!decode::has_at_least(decode::code_points(accent), 0x100));
    let extended = state is ExtendedUtf8 || state is MaybeExtendedUtf8 || state is PerlValidNonAscii;
    if !rust_valid_state(state) {
        let s = if extended { surrogate } else { stray };
        assert(state.certifies(s) && !decode::rust_decodable(s));
    }
    if !perl_decodable_state(state) {
        assert(state.certifies(stray));
    }
    if !latin1_range_state(state) {
        let s = if extended {
            surrogate
        } else if rust_valid_state(state) {
            wide
        } else {
            stray
        };
        assert(state.certifies(s));
    }
    if !non_ascii_state(state) {
        assert(state.certifies(none));
    }
    if !beyond_latin1_state(state) {
        let s = if state is MalformedUtf8 {
            stray
        } else if non_ascii_state(state) {
            accent
        } else {
            none
        };
        assert(state.certifies(s));
    }
}

proof fn lemma_pair(s: Seq<u8>)
    requires
        s.len() == 2,
        0xC2 <= s[0] <= 0xDF,
        0x80 <= s[1] <= 0xBF,
    ensures
        decode::rust_decodable(s),
        decode::code_points(s) == seq![((s[0] - 0xC0) * 64 + (s[1] - 0x80)) as nat],
        decode::has_high_byte(s),
{
    assert(decode::accumulated(s, 0, 0) == decode::lead_bits(s[0]));
    assert(decode::accumulated(s, 0, 1) == decode::lead_bits(s[0]) * 64 + ((s[1] - 0x80) as nat));
    assert(decode::conts_follow(s, 0, 1));
    assert(decode::sequence_at(s, 0) == Some((2nat, ((s[0] - 0xC0) * 64 + (s[1] - 0x80)) as nat)));
    assert(decode::decodable_from(s, 2));
    assert(decode::code_points_from(s, 2) =~= Seq::<nat>::empty());
    assert(decode::code_points(s) =~= seq![((s[0] - 0xC0) * 64 + (s[1] - 0x80)) as nat]);
    assert(s[0] >= 0x80);
}

/// The number of each state in its one-byte form, fixed by what is stored.
pub proof fn law_state_numbers_are_fixed()
    ensures
        ScanState::Unknown.number() == 0 && ScanState::Ascii.number() == 1 && ScanState::Utf8Latin1.number() == 2,
        ScanState::Utf8NonLatin1.number() == 3 && ScanState::ValidUtf8.number() == 4,
        ScanState::Utf8NonAscii.number() == 5 && ScanState::ExtendedUtf8.number() == 6,
        ScanState::MalformedUtf8.number() == 7 && ScanState::NonAscii.number() == 8,
        ScanState::MaybeUtf8Latin1.number() == 9 && ScanState::MaybeExtendedUtf8.number() == 10,
        ScanState::PerlValidNonAscii.number() == 11,
{
}

} // verus!
