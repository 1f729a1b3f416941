//! Scalar payloads: what a scalar holds, with the readings that the coercions hand out.
//!
//! A number's readings come with it: the parse of a string and the conversions of a float are done where the payload is
//! made, and what they gave is held here as plain integers, a float by its bits.
use crate::storage;
use crate::string;
use crate::string::PString;
use vstd::prelude::*;

verus! {

/// The bits of the float one.
pub const FLOAT_ONE: u64 = 0x3FF0_0000_0000_0000;

/// How a value numifies: integer, unsigned, or float, the float by its bits.
#[derive(Clone, Copy, PartialEq, Eq, Structural, Debug)]
pub enum Numeric {
    Int(i64),
    Uint(u64),
    Float(u64),
}

/// The readings of a number: as an integer, as a float by its bits, and as it numifies.
#[derive(Clone, Copy, PartialEq, Eq, Structural, Debug)]
pub struct Readings {
    pub int: i64,
    pub float_bits: u64,
    pub numeric: Numeric,
}

impl Readings {
    /// The readings of zero.
    pub open spec fn zero_readings() -> Readings {
        Readings { int: 0, float_bits: 0, numeric: Numeric::Int(0) }
    }

    /// The readings of one.
    pub open spec fn one_readings() -> Readings {
        Readings { int: 1, float_bits: FLOAT_ONE, numeric: Numeric::Int(1) }
    }
}

/// A string with the numeric face that numifying it left behind.
pub struct DualPayload {
    pub string: PString,
    pub readings: Readings,
}

/// What a scalar holds.
pub enum ScalarPayload {
    Undef { tainted: bool },
    /// The boolean true: numerically one, as a string `"1"`.
    True,
    /// The boolean false: numerically zero, as a string `""`.
    False,
    /// A bare number, with its rendering.
    Number { readings: Readings, text: PString, truth: bool, tainted: bool },
    /// A bare string.  `warns` says that it is not one complete numeric token.
    String { string: PString, readings: Readings, warns: bool },
    Dual(DualPayload),
    DualTainted(DualPayload),
}

/// An element of a container.
pub type Value = ScalarPayload;

impl Clone for DualPayload {
    fn clone(&self) -> (r: DualPayload)
        ensures
            r == *self,
    {
        DualPayload { string: self.string.clone(), readings: self.readings }
    }
}

impl Clone for ScalarPayload {
    fn clone(&self) -> (r: ScalarPayload)
        ensures
            r == *self,
    {
        match self {
            ScalarPayload::Undef { tainted } => ScalarPayload::Undef { tainted: *tainted },
            ScalarPayload::True => ScalarPayload::True,
            ScalarPayload::False => ScalarPayload::False,
            ScalarPayload::Number { readings, text, truth, tainted } => ScalarPayload::Number {
                readings: *readings,
                text: text.clone(),
                truth: *truth,
                tainted: *tainted,
            },
            ScalarPayload::String { string, readings, warns } => ScalarPayload::String {
                string: string.clone(),
                readings: *readings,
                warns: *warns,
            },
            ScalarPayload::Dual(dual) => ScalarPayload::Dual(dual.clone()),
            ScalarPayload::DualTainted(dual) => ScalarPayload::DualTainted(dual.clone()),
        }
    }
}

impl Default for ScalarPayload {
    /// The undefined value, untainted.
    fn default() -> (r: ScalarPayload)
        ensures
            r == ScalarPayload::undef_value(),
    {
        ScalarPayload::Undef { tainted: false }
    }
}

impl ScalarPayload {
    /// The undefined value, untainted.
    pub open spec fn undef_value() -> ScalarPayload {
        ScalarPayload::Undef { tainted: false }
    }

    /// The readings as a number.
    pub open spec fn as_number(self) -> Readings {
        match self {
            ScalarPayload::Undef { .. } | ScalarPayload::False => Readings::zero_readings(),
            ScalarPayload::True => Readings::one_readings(),
            ScalarPayload::Number { readings, .. } => readings,
            ScalarPayload::String { readings, .. } => readings,
            ScalarPayload::Dual(dual) => dual.readings,
            ScalarPayload::DualTainted(dual) => dual.readings,
        }
    }

    /// Perl truthiness.
    pub open spec fn truth(self) -> bool {
        match self {
            ScalarPayload::Undef { .. } | ScalarPayload::False => false,
            ScalarPayload::True => true,
            ScalarPayload::Number { truth, .. } => truth,
            ScalarPayload::String { string, .. } => string::truthy(string.data()),
            ScalarPayload::Dual(dual) => string::truthy(dual.string.data()),
            ScalarPayload::DualTainted(dual) => string::truthy(dual.string.data()),
        }
    }

    /// The taint of the value.
    pub open spec fn taint(self) -> bool {
        match self {
            ScalarPayload::Undef { tainted } => tainted,
            ScalarPayload::True | ScalarPayload::False => false,
            ScalarPayload::Number { tainted, .. } => tainted,
            ScalarPayload::String { string, .. } => string.taint_bit(),
            ScalarPayload::Dual(_) => false,
            ScalarPayload::DualTainted(_) => true,
        }
    }

    /// Whether `s` is the string reading: the string that is held, or the rendering of a value that holds none.
    pub open spec fn renders_as(self, s: PString) -> bool {
        match self {
            ScalarPayload::Undef { .. } | ScalarPayload::False => {
                &&& s.data() == Seq::<u8>::empty()
                &&& !s.flagged()
                &&& s.taint_bit() == self.taint()
            },
            ScalarPayload::True => s.data() == seq![0x31u8] && !s.flagged() && !s.taint_bit(),
            ScalarPayload::Number { text, .. } => s == text,
            ScalarPayload::String { string, .. } => s == string,
            ScalarPayload::Dual(dual) => s == dual.string,
            ScalarPayload::DualTainted(dual) => s == dual.string,
        }
    }

    /// Whether numifying the value warns: only a bare string can.
    pub open spec fn would_warn(self) -> bool {
        self matches ScalarPayload::String { warns, .. } && warns
    }

    pub fn undef(tainted: bool) -> (r: ScalarPayload)
        ensures
            r == (ScalarPayload::Undef { tainted }),
    {
        ScalarPayload::Undef { tainted }
    }

    fn readings(&self) -> (r: Readings)
        ensures
            r == self.as_number(),
    {
        match self {
            ScalarPayload::Undef { tainted: _ } | ScalarPayload::False => Readings {
                int: 0,
                float_bits: 0,
                numeric: Numeric::Int(0),
            },
            ScalarPayload::True => Readings { int: 1, float_bits: FLOAT_ONE, numeric: Numeric::Int(1) },
            ScalarPayload::Number { readings, text: _, truth: _, tainted: _ } => *readings,
            ScalarPayload::String { string: _, readings, warns: _ } => *readings,
            ScalarPayload::Dual(dual) => dual.readings,
            ScalarPayload::DualTainted(dual) => dual.readings,
        }
    }

    /// The integer coercion.
    pub fn to_int(&self) -> (r: i64)
        ensures
            r == self.as_number().int,
    {
        self.readings().int
    }

    /// The float coercion, by its bits.
    pub fn to_float_bits(&self) -> (r: u64)
        ensures
            r == self.as_number().float_bits,
    {
        self.readings().float_bits
    }

    /// How the value numifies.
    pub fn numify(&self) -> (r: Numeric)
        ensures
            r == self.as_number().numeric,
    {
        self.readings().numeric
    }

    /// Perl truthiness.
    pub fn to_bool(&self) -> (r: bool)
        ensures
            r == self.truth(),
    {
        match self {
            ScalarPayload::Undef { tainted: _ } | ScalarPayload::False => false,
            ScalarPayload::True => true,
            ScalarPayload::Number { readings: _, text: _, truth, tainted: _ } => *truth,
            ScalarPayload::String { string, readings: _, warns: _ } => string.to_bool(),
            ScalarPayload::Dual(dual) => dual.string.to_bool(),
            ScalarPayload::DualTainted(dual) => dual.string.to_bool(),
        }
    }

    /// The taint of the value.
    pub fn is_tainted(&self) -> (r: bool)
        ensures
            r == self.taint(),
    {
        match self {
            ScalarPayload::Undef { tainted } => *tainted,
            ScalarPayload::True | ScalarPayload::False => false,
            ScalarPayload::Number { readings: _, text: _, truth: _, tainted } => *tainted,
            ScalarPayload::String { string, readings: _, warns: _ } => string.is_tainted(),
            ScalarPayload::Dual(_) => false,
            ScalarPayload::DualTainted(_) => true,
        }
    }

    /// The string reading.
    pub fn stringify(&self) -> (r: PString)
        ensures
            self.renders_as(r),
    {
        match self {
            ScalarPayload::Undef { tainted } => {
                let mut s = PString::empty();
                if *tainted {
                    s.taint();
                }
                s
            },
            ScalarPayload::False => PString::empty(),
            ScalarPayload::True => one_string(),
            ScalarPayload::Number { readings: _, text, truth: _, tainted: _ } => text.clone(),
            ScalarPayload::String { string, readings: _, warns: _ } => string.clone(),
            ScalarPayload::Dual(dual) => dual.string.clone(),
            ScalarPayload::DualTainted(dual) => dual.string.clone(),
        }
    }
}

/// The string `"1"`.
fn one_string() -> (r: PString)
    ensures
        r.data() == seq![0x31u8],
        !r.flagged(),
        !r.taint_bit(),
{
    let bytes: [u8; 1] = [0x31u8];
    proof {
        reveal(storage::envelope_holds);
        assert(bytes@ =~= seq![0x31u8]);
    }
    match PString::inline_bytes(bytes.as_slice()) {
        Some(s) => s,
        None => PString::empty(),
    }
}

/// A bare number, a string that was numified, and a string coerce to the readings they were made with, whatever numeric
/// kind they are of.
pub proof fn law_numbers_coerce_to_their_readings(
    readings: Readings,
    text: PString,
    truth: bool,
    tainted: bool,
    warns: bool,
)
    ensures
        ({
            let number = (ScalarPayload::Number { readings, text, truth, tainted }).as_number();
            number.int == readings.int && number.float_bits == readings.float_bits && number.numeric == readings.numeric
        }),
        ({
            let number = (ScalarPayload::String { string: text, readings, warns }).as_number();
            number.int == readings.int && number.float_bits == readings.float_bits && number.numeric == readings.numeric
        }),
        ({
            let number = ScalarPayload::Dual(DualPayload { string: text, readings }).as_number();
            number.int == readings.int && number.float_bits == readings.float_bits && number.numeric == readings.numeric
        }),
        ({
            let number = ScalarPayload::DualTainted(DualPayload { string: text, readings }).as_number();
            number.int == readings.int && number.float_bits == readings.float_bits && number.numeric == readings.numeric
        }),
{
}

/// The undefined value and the booleans read as the numbers zero and one, in each of the three coercions.
pub proof fn law_constants_coerce_to_zero_and_one(tainted: bool)
    ensures
        ({
            let undef = (ScalarPayload::Undef { tainted }).as_number();
            undef.int == 0 && undef.float_bits == 0 && undef.numeric == Numeric::Int(0)
        }),
        ({
            let no = ScalarPayload::False.as_number();
            no.int == 0 && no.float_bits == 0 && no.numeric == Numeric::Int(0)
        }),
        ({
            let yes = ScalarPayload::True.as_number();
            yes.int == 1 && yes.float_bits == 0x3FF0_0000_0000_0000 && yes.numeric == Numeric::Int(1)
        }),
{
}

/// A number is true as it was made; a string, numified or not, is true unless it is empty or the single digit zero.
pub proof fn law_truth_of_payloads(readings: Readings, text: PString, truth: bool, tainted: bool, warns: bool)
    ensures
        (ScalarPayload::Number { readings, text, truth, tainted }).truth() == truth,
        ({
            let falsy = text.data().len() == 0 || (text.data().len() == 1 && text.data()[0] == 0x30);
            &&& (ScalarPayload::String { string: text, readings, warns }).truth() == !falsy
            &&& ScalarPayload::Dual(DualPayload { string: text, readings }).truth() == !falsy
            &&& ScalarPayload::DualTainted(DualPayload { string: text, readings }).truth() == !falsy
        }),
        !(ScalarPayload::Undef { tainted }).truth() && !ScalarPayload::False.truth() && ScalarPayload::True.truth(),
{
    string::law_only_empty_and_zero_are_false(text.data());
}

/// Taint is where it was put: on the undefined value, on a number, on the string itself, and on a numified string by its
/// kind.  The booleans have none.
pub proof fn law_taint_of_payloads(readings: Readings, text: PString, truth: bool, tainted: bool, warns: bool)
    ensures
        (ScalarPayload::Undef { tainted }).taint() == tainted,
        (ScalarPayload::Number { readings, text, truth, tainted }).taint() == tainted,
        (ScalarPayload::String { string: text, readings, warns }).taint() == text.taint_bit(),
        !ScalarPayload::Dual(DualPayload { string: text, readings }).taint(),
        ScalarPayload::DualTainted(DualPayload { string: text, readings }).taint(),
        !ScalarPayload::True.taint() && !ScalarPayload::False.taint(),
{
}

/// A value that holds a string, or the rendering of a number, renders as exactly that; true renders as the digit one and
/// the undefined value and false as nothing.
pub proof fn law_rendering_of_payloads(
    readings: Readings,
    text: PString,
    truth: bool,
    tainted: bool,
    warns: bool,
    s: PString,
)
    ensures
        (ScalarPayload::Number { readings, text, truth, tainted }).renders_as(s) ==> s == text,
        (ScalarPayload::String { string: text, readings, warns }).renders_as(s) ==> s == text,
        ScalarPayload::Dual(DualPayload { string: text, readings }).renders_as(s) ==> s == text,
        ScalarPayload::DualTainted(DualPayload { string: text, readings }).renders_as(s) ==> s == text,
        ScalarPayload::True.renders_as(s) ==> s.data().len() == 1 && s.data()[0] == 0x31 && !s.flagged()
            && !s.taint_bit(),
        ScalarPayload::False.renders_as(s) ==> s.data().len() == 0 && !s.flagged() && !s.taint_bit(),
        (ScalarPayload::Undef { tainted }).renders_as(s) ==> s.data().len() == 0 && !s.flagged() && s.taint_bit()
            == tainted,
{
}

/// The booleans coerce as they should: true is one and `"1"`, false is zero and `""`.
pub proof fn law_boolean_readings(yes: PString, no: PString)
    requires
        ScalarPayload::True.renders_as(yes),
        ScalarPayload::False.renders_as(no),
    ensures
        ScalarPayload::True.truth() && ScalarPayload::True.as_number().int == 1,
        !ScalarPayload::False.truth() && ScalarPayload::False.as_number().int == 0,
        string::truthy(yes.data()) && !string::truthy(no.data()),
{
    assert(yes.data()[0] == 0x31u8);
    assert(seq![0x30u8][0] == 0x30u8);
}

} // verus!
