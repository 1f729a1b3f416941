//! The tiers of heap storage: which tier holds content of a given length, and the capacity a buffer is born with.
use vstd::prelude::*;

verus! {

/// Allocation failure, or capacity arithmetic overflow, which is the same condition seen earlier.
#[derive(Debug, Clone, Copy, PartialEq, Eq, Structural)]
pub struct AllocError {
    /// The data capacity that could not be provided.
    pub requested: usize,
}

/// `Vec::try_reserve_exact`, telling only whether it succeeded.  The content of the vector is as before either way.
/// Asking for nothing succeeds, since the capacity is there; whether more memory is to be had is for the allocator to
/// say.
#[verifier::external_body]
pub(crate) fn reserve_exact<T>(buffer: &mut Vec<T>, additional: usize) -> (ok: bool)
    ensures
        final(buffer)@ == old(buffer)@,
        additional == 0 ==> ok,
{
    buffer.try_reserve_exact(additional).is_ok()
}

/// Which tier an allocation belongs to.
#[derive(Clone, Copy, PartialEq, Eq, Structural, Debug)]
pub enum Tier {
    Heap8,
    Heap16,
    Heap32,
    Heap,
}

impl Tier {
    /// The largest content the tier can address.
    pub open spec fn ceiling(self) -> nat {
        match self {
            Tier::Heap8 => 255,
            Tier::Heap16 => 65535,
            Tier::Heap32 => 4_294_967_295,
            Tier::Heap => usize::MAX as nat,
        }
    }

    /// The bytes of an allocation that stand before its data.
    pub open spec fn header_len(self) -> nat {
        match self {
            Tier::Heap8 => 4,
            Tier::Heap16 => 4,
            Tier::Heap32 => 16,
            Tier::Heap => 5 * (usize::BITS as nat / 8),
        }
    }

    /// The alignment of an allocation.
    pub open spec fn alignment(self) -> nat {
        match self {
            Tier::Heap => usize::BITS as nat / 8,
            _ => 4,
        }
    }

    /// The smallest tier whose ceiling is at least `len`.
    pub open spec fn of_length(len: nat) -> Tier {
        if len <= Tier::Heap8.ceiling() {
            Tier::Heap8
        } else if len <= Tier::Heap16.ceiling() {
            Tier::Heap16
        } else if len <= Tier::Heap32.ceiling() {
            Tier::Heap32
        } else {
            Tier::Heap
        }
    }

    /// Whether an allocation with `capacity` data bytes has a size that an allocator can be asked for.
    pub open spec fn layout_fits(self, capacity: nat) -> bool {
        self.header_len() + capacity <= isize::MAX - (self.alignment() - 1)
    }

    /// The capacity that content of `len` bytes is born with: the allocation's size class, less the header, capped at
    /// the tier's ceiling.
    pub open spec fn birth_capacity(self, len: nat) -> nat {
        if !self.layout_fits(len) {
            len
        } else {
            let class = (self.header_len() + len + 15) / 16 * 16;
            let room = (class - self.header_len()) as nat;
            if room <= self.ceiling() {
                room
            } else {
                self.ceiling()
            }
        }
    }

    /// The largest content this tier can address.
    pub fn max_capacity(self) -> (r: usize)
        ensures
            r == self.ceiling(),
    {
        match self {
            Tier::Heap8 => 255,
            Tier::Heap16 => 65535,
            Tier::Heap32 => 4_294_967_295,
            Tier::Heap => usize::MAX,
        }
    }

    /// The smallest tier that can hold `len` bytes.  First fit, as the storage ladder is throughout.
    pub fn for_length(len: usize) -> (r: Tier)
        ensures
            r == Tier::of_length(len as nat),
            len <= r.ceiling(),
    {
        if len <= 255 {
            Tier::Heap8
        } else if len <= 65535 {
            Tier::Heap16
        } else if len <= 4_294_967_295 {
            Tier::Heap32
        } else {
            Tier::Heap
        }
    }

    /// Whether this tier keeps its metadata beside the pointer rather than in the allocation.
    pub fn is_small(self) -> (r: bool)
        ensures
            r == (self is Heap8 || self is Heap16),
    {
        matches!(self, Tier::Heap8 | Tier::Heap16)
    }

    fn header(self) -> (r: usize)
        ensures
            r == self.header_len(),
    {
        match self {
            Tier::Heap8 => 4,
            Tier::Heap16 => 4,
            Tier::Heap32 => 16,
            Tier::Heap => 5 * (usize::BITS as usize / 8),
        }
    }

    fn align(self) -> (r: usize)
        ensures
            r == self.alignment(),
    {
        match self {
            Tier::Heap => usize::BITS as usize / 8,
            _ => 4,
        }
    }

    /// Whether an allocation of the tier with `capacity` data bytes has a valid layout.
    fn has_layout(self, capacity: usize) -> (r: bool)
        ensures
            r == self.layout_fits(capacity as nat),
    {
        let limit: usize = isize::MAX as usize - (self.align() - 1);
        capacity <= limit - self.header()
    }

    /// The capacity a buffer of `len` content bytes is born with: the allocator's size class for the whole allocation,
    /// minus this tier's header, clamped to the tier ceiling.
    pub fn class_capacity(self, len: usize) -> (r: usize)
        requires
            len <= self.ceiling(),
        ensures
            r == self.birth_capacity(len as nat),
            len <= r <= self.ceiling(),
    {
        if !self.has_layout(len) {
            return len;
        }
        let total: usize = self.header() + len;
        match size_class(total) {
            None => len,
            Some(class) => {
                let room: usize = class - self.header();
                if room <= self.max_capacity() {
                    room
                } else {
                    self.max_capacity()
                }
            },
        }
    }
}

/// The size class for an allocation of `size` bytes: the size rounded up to the 16-byte quantum.  `None` where the
/// rounding itself would overflow.
pub fn size_class(size: usize) -> (r: Option<usize>)
    ensures
        r is Some <==> size + 15 <= usize::MAX,
        r is Some ==> r->0 == (size + 15) / 16 * 16,
        r is Some ==> size <= r->0 < size + 16,
{
    match size.checked_add(15) {
        None => None,
        Some(rounded) => {
            proof {
                assert(rounded & !15 == rounded / 16 * 16) by (bit_vector);
            }
            Some(rounded & !15)
        },
    }
}

/// An empty buffer with room for `capacity` data bytes of the tier.
pub fn allocate(tier: Tier, capacity: usize) -> (r: Result<Vec<u8>, AllocError>)
    ensures
        r is Ok ==> (r->Ok_0)@.len() == 0,
        r is Err ==> (r->Err_0).requested == capacity,
        !tier.layout_fits(capacity as nat) ==> r is Err,
        tier.layout_fits(capacity as nat) && capacity == 0 ==> r is Ok,
{
    if !tier.has_layout(capacity) {
        return Err(AllocError { requested: capacity });
    }
    let mut buffer: Vec<u8> = Vec::new();
    let granted: bool = reserve_exact(&mut buffer, capacity);
    provided(granted, buffer, capacity)
}

/// The buffer that `requested` bytes were reserved for, or the failure where they were not granted.
pub fn provided(granted: bool, buffer: Vec<u8>, requested: usize) -> (r: Result<Vec<u8>, AllocError>)
    ensures
        r == if granted {
            Ok(buffer)
        } else {
            Err::<Vec<u8>, AllocError>(AllocError { requested })
        },
{
    if granted {
        Ok(buffer)
    } else {
        Err(AllocError { requested })
    }
}

/// A tier's birth capacity has room for the content and stays within the tier.
pub proof fn law_class_headroom_stays_in_tier(len: nat)
    requires
        len <= usize::MAX,
    ensures
        ({
            let tier = Tier::of_length(len);
            len <= tier.birth_capacity(len) <= tier.ceiling()
        }),
{
}

/// Content takes the smallest tier that can address it, by one, two or four bytes of length or by all of them.
pub proof fn law_tiers_are_first_fit(len: nat)
    requires
        len <= usize::MAX,
    ensures
        Tier::of_length(len) is Heap8 <==> len <= 0xFF,
        Tier::of_length(len) is Heap16 <==> 0xFF < len <= 0xFFFF,
        Tier::of_length(len) is Heap32 <==> 0xFFFF < len <= 0xFFFF_FFFF,
        Tier::of_length(len) is Heap <==> len > 0xFFFF_FFFF,
        len <= Tier::of_length(len).ceiling(),
        Tier::Heap8.ceiling() == 0xFF && Tier::Heap16.ceiling() == 0xFFFF && Tier::Heap32.ceiling() == 0xFFFF_FFFF,
{
}

/// A buffer is born with the rest of its size class: header and capacity together are a multiple of sixteen bytes, with
/// less than sixteen to spare, unless the tier can address no more.
pub proof fn law_birth_capacity_fills_the_size_class(tier: Tier, len: nat)
    requires
        tier.layout_fits(len),
        len <= tier.ceiling(),
    ensures
        len <= tier.birth_capacity(len) < len + 16,
        tier.birth_capacity(len) < tier.ceiling() ==> (tier.header_len() + tier.birth_capacity(len)) % 16 == 0,
        tier.birth_capacity(len) <= tier.ceiling(),
        Tier::Heap8.header_len() == 4 && Tier::Heap16.header_len() == 4 && Tier::Heap32.header_len() == 16,
{
}

/// An allocation has room for its header and its data, rounded up to its alignment, within half the address space; a
/// word-tier header is five words, aligned to a word.
pub proof fn law_layouts_fit_the_address_space(tier: Tier, capacity: nat)
    ensures
        tier.layout_fits(capacity) <==> tier.header_len() + capacity + tier.alignment() - 1 <= isize::MAX,
        Tier::Heap.header_len() == 5 * (usize::BITS / 8) && Tier::Heap.alignment() == usize::BITS / 8,
        Tier::Heap8.alignment() == 4 && Tier::Heap16.alignment() == 4 && Tier::Heap32.alignment() == 4,
{
}

/// Content that no layout can hold asks for its own length, and so for what is refused.
pub proof fn law_birth_capacity_without_a_layout(tier: Tier, len: nat)
    requires
        !tier.layout_fits(len),
    ensures
        tier.birth_capacity(len) == len,
{
}

} // verus!
