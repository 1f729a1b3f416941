//! Scalar value flags: cache validity and metadata bits.
//!
//! The validity flags say which cached representations are current; the metadata flags are properties of the value that
//! have no bearing on that.
use vstd::prelude::*;

verus! {

/// Flags of a scalar value.
#[derive(Clone, Copy, Debug, PartialEq, Eq, Structural)]
pub struct SvFlags(u16);

const IOK: u16 = 1;

const NOK: u16 = 2;

const POK: u16 = 4;

const ROK: u16 = 8;

const READONLY: u16 = 16;

const UTF8: u16 = 32;

const TAINT: u16 = 64;

const MAGICAL: u16 = 128;

const WEAK: u16 = 256;

impl SvFlags {
    /// The raw bits.
    pub closed spec fn mask(self) -> u16 {
        self.0
    }

    /// The integer value is valid.
    pub fn iok() -> (r: SvFlags)
        ensures
            r.mask() == 1,
    {
        SvFlags(IOK)
    }

    /// The numeric value is valid.
    pub fn nok() -> (r: SvFlags)
        ensures
            r.mask() == 2,
    {
        SvFlags(NOK)
    }

    /// The string value is valid.
    pub fn pok() -> (r: SvFlags)
        ensures
            r.mask() == 4,
    {
        SvFlags(POK)
    }

    /// The reference value is valid: the scalar is a reference.
    pub fn rok() -> (r: SvFlags)
        ensures
            r.mask() == 8,
    {
        SvFlags(ROK)
    }

    /// The value is read-only.
    pub fn readonly() -> (r: SvFlags)
        ensures
            r.mask() == 16,
    {
        SvFlags(READONLY)
    }

    /// The string value is valid UTF-8.
    pub fn utf8() -> (r: SvFlags)
        ensures
            r.mask() == 32,
    {
        SvFlags(UTF8)
    }

    /// The value is tainted.
    pub fn taint() -> (r: SvFlags)
        ensures
            r.mask() == 64,
    {
        SvFlags(TAINT)
    }

    /// A magic chain is attached to the scalar.
    pub fn magical() -> (r: SvFlags)
        ensures
            r.mask() == 128,
    {
        SvFlags(MAGICAL)
    }

    /// The scalar is a weak reference.
    pub fn weak() -> (r: SvFlags)
        ensures
            r.mask() == 256,
    {
        SvFlags(WEAK)
    }

    /// Any numeric representation is valid.
    pub fn any_num() -> (r: SvFlags)
        ensures
            r.mask() == 3,
    {
        SvFlags(3)
    }

    /// Any value representation is valid.
    pub fn any_val() -> (r: SvFlags)
        ensures
            r.mask() == 7,
    {
        SvFlags(7)
    }

    /// All validity flags.
    pub fn all_validity() -> (r: SvFlags)
        ensures
            r.mask() == 15,
    {
        SvFlags(15)
    }

    /// No flags.
    pub fn empty() -> (r: SvFlags)
        ensures
            r.mask() == 0,
    {
        SvFlags(0)
    }

    /// Whether all bits of `other` are set.
    pub fn contains(self, other: SvFlags) -> (r: bool)
        ensures
            r == (self.mask() & other.mask() == other.mask()),
    {
        (self.0 & other.0) == other.0
    }

    /// Whether any bit of `other` is set.
    pub fn intersects(self, other: SvFlags) -> (r: bool)
        ensures
            r == (self.mask() & other.mask() != 0),
    {
        (self.0 & other.0) != 0
    }

    /// Set all bits of `other`.
    pub fn insert(&mut self, other: SvFlags)
        ensures
            final(self).mask() == old(self).mask() | other.mask(),
    {
        self.0 = self.0 | other.0;
    }

    /// Clear all bits of `other`.
    pub fn remove(&mut self, other: SvFlags)
        ensures
            final(self).mask() == old(self).mask() & !other.mask(),
    {
        self.0 = self.0 & !other.0;
    }

    /// These flags with all bits of `other` set.
    pub fn union(self, other: SvFlags) -> (r: SvFlags)
        ensures
            r.mask() == self.mask() | other.mask(),
    {
        SvFlags(self.0 | other.0)
    }

    /// These flags with all bits of `other` cleared.
    pub fn difference(self, other: SvFlags) -> (r: SvFlags)
        ensures
            r.mask() == self.mask() & !other.mask(),
    {
        SvFlags(self.0 & !other.0)
    }

    /// Whether no flags are set.
    pub fn is_empty(self) -> (r: bool)
        ensures
            r == (self.mask() == 0),
    {
        self.0 == 0
    }

    /// The raw bits.
    pub fn bits(self) -> (r: u16)
        ensures
            r == self.mask(),
    {
        self.0
    }

    /// The flags with the given raw bits.
    pub closed spec fn of_mask(bits: u16) -> SvFlags {
        SvFlags(bits)
    }
}

impl Default for SvFlags {
    fn default() -> (r: SvFlags)
        ensures
            r.mask() == 0,
    {
        SvFlags(0)
    }
}

impl std::ops::BitOr for SvFlags {
    type Output = SvFlags;

    fn bitor(self, rhs: SvFlags) -> (r: SvFlags)
    {
        SvFlags(self.0 | rhs.0)
    }
}

impl vstd::std_specs::ops::BitOrSpecImpl for SvFlags {
    open spec fn obeys_bitor_spec() -> bool {
        true
    }

    open spec fn bitor_req(self, rhs: SvFlags) -> bool {
        true
    }

    open spec fn bitor_spec(self, rhs: SvFlags) -> SvFlags {
        SvFlags::of_mask(self.mask() | rhs.mask())
    }
}

impl std::ops::BitOrAssign for SvFlags {
    fn bitor_assign(&mut self, rhs: SvFlags)
        ensures
            final(self).mask() == old(self).mask() | rhs.mask(),
    {
        self.0 = self.0 | rhs.0;
    }
}

impl std::ops::BitAnd for SvFlags {
    type Output = SvFlags;

    fn bitand(self, rhs: SvFlags) -> (r: SvFlags)
    {
        SvFlags(self.0 & rhs.0)
    }
}

impl vstd::std_specs::ops::BitAndSpecImpl for SvFlags {
    open spec fn obeys_bitand_spec() -> bool {
        true
    }

    open spec fn bitand_req(self, rhs: SvFlags) -> bool {
        true
    }

    open spec fn bitand_spec(self, rhs: SvFlags) -> SvFlags {
        SvFlags::of_mask(self.mask() & rhs.mask())
    }
}

impl std::ops::Not for SvFlags {
    type Output = SvFlags;

    fn not(self) -> (r: SvFlags)
    {
        SvFlags(!self.0)
    }
}

impl vstd::std_specs::ops::NotSpecImpl for SvFlags {
    open spec fn obeys_not_spec() -> bool {
        true
    }

    open spec fn not_req(self) -> bool {
        true
    }

    open spec fn not_spec(self) -> SvFlags {
        SvFlags::of_mask(!self.mask())
    }
}

/// Flags are their bits.
pub proof fn law_flags_are_their_bits(f: SvFlags, bits: u16)
    ensures
        SvFlags::of_mask(bits).mask() == bits,
        SvFlags::of_mask(f.mask()) == f,
{
}

/// What is inserted is contained, what is removed is not, and no other bit changes.
pub proof fn law_insert_and_remove(f: u16, other: u16)
    ensures
        (f | other) & other == other,
        (f & !other) & other == 0,
        (f | other) & !other == f & !other,
        (f & !other) & !other == f & !other,
        ((f | other) & !other) | (f & other) == f,
{
    assert((f | other) & other == other) by (bit_vector);
    assert((f & !other) & other == 0) by (bit_vector);
    assert((f | other) & !other == f & !other) by (bit_vector);
    assert((f & !other) & !other == f & !other) by (bit_vector);
    assert(((f | other) & !other) | (f & other) == f) by (bit_vector);
}

/// Clearing the validity flags leaves the metadata flags as they are.
pub proof fn law_clearing_validity_keeps_metadata(f: u16)
    ensures
        (f & !15u16) & 0x1F0 == f & 0x1F0,
        (f & !15u16) & 15 == 0,
{
    assert((f & !15u16) & 0x1F0 == f & 0x1F0) by (bit_vector);
    assert((f & !15u16) & 15 == 0) by (bit_vector);
}

/// The operators act on the bits: each bit of the result is the or, the and, or the complement of the bits there.
pub proof fn law_operators_act_on_the_bits(a: SvFlags, b: SvFlags)
    ensures
        vstd::std_specs::ops::BitOrSpec::bitor_spec(a, b).mask() == a.mask() | b.mask(),
        vstd::std_specs::ops::BitAndSpec::bitand_spec(a, b).mask() == a.mask() & b.mask(),
        vstd::std_specs::ops::NotSpec::not_spec(a).mask() == !a.mask(),
{
}

} // verus!
