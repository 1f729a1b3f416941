//! The packed nibble tier: digit-dense strings of sixteen to thirty characters, two characters per byte over one of
//! three sixteen-symbol alphabets.
//!
//! Content of exactly thirty characters fills all thirty nibbles, and the length family says so.  Shorter content
//! keeps the low four bits of its length in the last nibble; the nibbles between content and length are zero, so
//! equal content has equal representation.  Symbols are numbered in ASCII order, so that nibble order is byte order.
use crate::nibble::{nibble_at, set_nibble};
use crate::nibble;
use crate::order;
use crate::order::Order;
use vstd::prelude::*;

verus! {

/// The packed-tier capacity in characters.
pub const MAX_PACKED_LEN: usize = 30;

/// The shortest content this tier holds; shorter content is inline verbatim.
pub const MIN_PACKED_LEN: usize = 16;

/// The nibble index holding the stored length, for content shorter than the capacity.
const LENGTH_NIBBLE: usize = 29;

/// Which 16-symbol alphabet a packed string uses, in classification priority.
#[derive(Clone, Copy, PartialEq, Eq, Structural, Debug)]
pub enum PackedAlphabet {
    /// space `+` `-` `.` `0`-`9` `E` `e`: every numeric stringification, in either exponent spelling.
    Numeric,
    /// space `+` `-` `.` `0`-`9` `:` `T`: ISO timestamps in every form but Zulu.
    DateTimePlus,
    /// space `-` `.` `0`-`9` `:` `T` `Z`: Zulu-form ISO timestamps.
    DateTimeZulu,
}

impl PackedAlphabet {
    /// The symbol with the given number.
    pub open spec fn symbol(self, n: int) -> u8 {
        match self {
            PackedAlphabet::Numeric => if n == 0 {
                0x20
            } else if n == 1 {
                0x2B
            } else if n == 2 {
                0x2D
            } else if n == 3 {
                0x2E
            } else if n <= 13 {
                (0x30 + (n - 4)) as u8
            } else if n == 14 {
                0x45
            } else {
                0x65
            },
            PackedAlphabet::DateTimePlus => if n == 0 {
                0x20
            } else if n == 1 {
                0x2B
            } else if n == 2 {
                0x2D
            } else if n == 3 {
                0x2E
            } else if n <= 13 {
                (0x30 + (n - 4)) as u8
            } else if n == 14 {
                0x3A
            } else {
                0x54
            },
            PackedAlphabet::DateTimeZulu => if n == 0 {
                0x20
            } else if n == 1 {
                0x2D
            } else if n == 2 {
                0x2E
            } else if n <= 12 {
                (0x30 + (n - 3)) as u8
            } else if n == 13 {
                0x3A
            } else if n == 14 {
                0x54
            } else {
                0x5A
            },
        }
    }

    /// Whether the byte is one of the alphabet's symbols.
    pub open spec fn holds(self, b: u8) -> bool {
        exists|n: int| 0 <= n < 16 && #[trigger] self.symbol(n) == b
    }

    /// Whether every byte is one of the alphabet's symbols.
    pub open spec fn holds_all(self, s: Seq<u8>) -> bool {
        forall|i: int| 0 <= i < s.len() ==> self.holds(#[trigger] s[i])
    }

    /// The number of a symbol, or `None` for a byte outside the alphabet.
    pub fn encode(self, b: u8) -> (r: Option<u8>)
        ensures
            r is Some <==> self.holds(b),
            r is Some ==> r->0 < 16 && self.symbol(r->0 as int) == b,
    {
        let r: Option<u8> = match self {
            PackedAlphabet::Numeric => match b {
                0x20 => Some(0),
                0x2B => Some(1),
                0x2D => Some(2),
                0x2E => Some(3),
                0x30..=0x39 => Some(b - 0x30 + 4),
                0x45 => Some(14),
                0x65 => Some(15),
                _ => None,
            },
            PackedAlphabet::DateTimePlus => match b {
                0x20 => Some(0),
                0x2B => Some(1),
                0x2D => Some(2),
                0x2E => Some(3),
                0x30..=0x39 => Some(b - 0x30 + 4),
                0x3A => Some(14),
                0x54 => Some(15),
                _ => None,
            },
            PackedAlphabet::DateTimeZulu => match b {
                0x20 => Some(0),
                0x2D => Some(1),
                0x2E => Some(2),
                0x30..=0x39 => Some(b - 0x30 + 3),
                0x3A => Some(13),
                0x54 => Some(14),
                0x5A => Some(15),
                _ => None,
            },
        };
        proof {
            if let Some(n) = r {
                assert(self.symbol(n as int) == b);
            }
        }
        r
    }

    /// The symbol with the given number.
    pub fn decode(self, n: u8) -> (r: u8)
        requires
            n < 16,
        ensures
            r == self.symbol(n as int),
            r < 0x80,
    {
        match self {
            PackedAlphabet::Numeric => match n {
                0 => 0x20,
                1 => 0x2B,
                2 => 0x2D,
                3 => 0x2E,
                14 => 0x45,
                15 => 0x65,
                _ => 0x30 + (n - 4),
            },
            PackedAlphabet::DateTimePlus => match n {
                0 => 0x20,
                1 => 0x2B,
                2 => 0x2D,
                3 => 0x2E,
                14 => 0x3A,
                15 => 0x54,
                _ => 0x30 + (n - 4),
            },
            PackedAlphabet::DateTimeZulu => match n {
                0 => 0x20,
                1 => 0x2D,
                2 => 0x2E,
                13 => 0x3A,
                14 => 0x54,
                15 => 0x5A,
                _ => 0x30 + (n - 3),
            },
        }
    }

    /// Whether every byte of the slice is one of the alphabet's symbols.
    fn holds_slice(self, bytes: &[u8]) -> (r: bool)
        ensures
            r == self.holds_all(bytes@),
    {
        let mut i: usize = 0;
        while i < bytes.len()
            invariant
                i <= bytes@.len(),
                forall|k: int| 0 <= k < i ==> self.holds(#[trigger] bytes@[k]),
            decreases bytes@.len() - i,
        {
            if self.encode(bytes[i]).is_none() {
                assert(!self.holds(bytes@[i as int]));
                return false;
            }
            i = i + 1;
        }
        true
    }
}

/// Symbols are numbered in ASCII order.
pub proof fn law_symbols_ascend(a: PackedAlphabet, m: int, n: int)
    requires
        0 <= m < 16,
        0 <= n < 16,
    ensures
        m < n <==> a.symbol(m) < a.symbol(n),
        m == n <==> a.symbol(m) == a.symbol(n),
{
}

/// The alphabet that content takes: the first, in priority order, that holds all of it.
pub open spec fn alphabet_of(s: Seq<u8>) -> Option<PackedAlphabet> {
    if PackedAlphabet::Numeric.holds_all(s) {
        Some(PackedAlphabet::Numeric)
    } else if PackedAlphabet::DateTimePlus.holds_all(s) {
        Some(PackedAlphabet::DateTimePlus)
    } else if PackedAlphabet::DateTimeZulu.holds_all(s) {
        Some(PackedAlphabet::DateTimeZulu)
    } else {
        None
    }
}

/// A packed string: the alphabet, the length family, and the nibble array.
#[derive(Clone, Copy)]
pub struct Packed {
    pub alphabet: PackedAlphabet,
    /// The thirty-character family: every nibble is content and the length is implied.
    pub full: bool,
    pub nibbles: [u8; 15],
}

impl Packed {
    /// The nibble with the given index.
    pub open spec fn at(self, i: int) -> u8 {
        nibble::nibble(self.nibbles@, i)
    }

    /// The character count.
    pub open spec fn length(self) -> nat {
        if self.full {
            30
        } else {
            (16 + self.at(29)) as nat
        }
    }

    /// The stored length lies in the band, and the nibbles between content and length are zero.
    pub open spec fn wf(self) -> bool {
        &&& !self.full ==> self.length() < 30
        &&& !self.full ==> forall|i: int| self.length() <= i < 29 ==> #[trigger] self.at(i) == 0
    }

    /// The characters that the nibbles stand for.
    pub open spec fn content(self) -> Seq<u8> {
        Seq::new(self.length(), |i: int| self.alphabet.symbol(self.at(i) as int))
    }

    /// Well-formed, in the alphabet that its content takes.
    pub open spec fn canonical(self) -> bool {
        self.wf() && alphabet_of(self.content()) == Some(self.alphabet)
    }

    /// The character count.
    pub fn len(&self) -> (r: usize)
        requires
            self.wf(),
        ensures
            r == self.length(),
            16 <= r <= 30,
    {
        if self.full {
            MAX_PACKED_LEN
        } else {
            MIN_PACKED_LEN + nibble_at(&self.nibbles, LENGTH_NIBBLE) as usize
        }
    }

    /// Whether the nibbles between the content end and the length field are zero.
    pub fn padding_is_canonical(&self) -> (r: bool)
        requires
            !self.full ==> self.length() < 30,
        ensures
            r == self.wf(),
    {
        if self.full {
            return true;
        }
        let mut i: usize = MIN_PACKED_LEN + nibble_at(&self.nibbles, LENGTH_NIBBLE) as usize;
        while i < LENGTH_NIBBLE
            invariant
                !self.full,
                self.length() <= i <= 29,
                forall|k: int| self.length() <= k < i ==> #[trigger] self.at(k) == 0,
            decreases 29 - i,
        {
            if nibble_at(&self.nibbles, i) != 0 {
                assert(self.at(i as int) != 0);
                return false;
            }
            i = i + 1;
        }
        true
    }

    /// The character at an index.
    fn char_at(&self, i: usize) -> (r: u8)
        requires
            i < 30,
        ensures
            r == self.alphabet.symbol(self.at(i as int) as int),
    {
        self.alphabet.decode(nibble_at(&self.nibbles, i))
    }

    /// Decode to raw bytes in `out`, returning the length written.
    pub fn unpack(&self, out: &mut [u8; 41]) -> (len: usize)
        requires
            self.wf(),
        ensures
            len == self.length(),
            final(out)@.take(len as int) == self.content(),
            final(out)@.skip(len as int) == old(out)@.skip(len as int),
    {
        let len: usize = self.len();
        let mut i: usize = 0;
        while i < len
            invariant
                i <= len == self.length() <= 30,
                forall|k: int| 0 <= k < i ==> #[trigger] out@[k] == self.alphabet.symbol(self.at(k) as int),
                forall|k: int| i <= k < 41 ==> #[trigger] out@[k] == old(out)@[k],
            decreases len - i,
        {
            out[i] = self.char_at(i);
            i = i + 1;
        }
        assert(out@.take(len as int) =~= self.content());
        assert(out@.skip(len as int) =~= old(out)@.skip(len as int));
        len
    }

    /// Re-encode into another alphabet, or `None` when a symbol has no counterpart there.
    ///
    /// Only content nibbles are remapped: the last nibble of the short family holds a length, not a symbol.
    pub fn transcode(&self, to: PackedAlphabet) -> (r: Option<Packed>)
        requires
            self.wf(),
        ensures
            r is Some <==> to.holds_all(self.content()),
            r is Some ==> (r->0).wf() && (r->0).alphabet == to && (r->0).full == self.full && (r->0).content()
                == self.content(),
    {
        if to == self.alphabet {
            proof {
                assert forall|i: int| 0 <= i < self.content().len() implies to.holds(#[trigger] self.content()[i]) by {
                    lemma_nibble_bound(self.nibbles@, i);
                    assert(to.symbol(self.at(i) as int) == self.content()[i]);
                }
            }
            return Some(*self);
        }
        let len: usize = self.len();
        let mut nibbles: [u8; 15] = self.nibbles;
        let mut i: usize = 0;
        while i < len
            invariant
                self.wf(),
                i <= len == self.length() <= 30,
                forall|k: int|
                    0 <= k < i ==> #[trigger] nibble::nibble(nibbles@, k) < 16 && to.symbol(
                        nibble::nibble(nibbles@, k) as int,
                    ) == self.content()[k],
                forall|k: int| i <= k < 30 ==> #[trigger] nibble::nibble(nibbles@, k) == self.at(k),
            decreases len - i,
        {
            let symbol: u8 = self.char_at(i);
            assert(self.content()[i as int] == symbol);
            match to.encode(symbol) {
                None => {
                    return None;
                },
                Some(mapped) => {
                    set_nibble(&mut nibbles, i, mapped);
                },
            }
            i = i + 1;
        }
        let packed = Packed { alphabet: to, full: self.full, nibbles };
        proof {
            assert(self.full || packed.at(29) == self.at(29));
            assert(packed.length() == self.length());
            if !self.full {
                assert forall|k: int| packed.length() <= k < 29 implies #[trigger] packed.at(k) == 0 by {
                    assert(self.at(k) == 0);
                }
            }
            assert(packed.content() =~= self.content());
            assert forall|k: int| 0 <= k < self.content().len() implies to.holds(#[trigger] self.content()[k]) by {
                assert(to.symbol(packed.at(k) as int) == self.content()[k]);
            }
        }
        Some(packed)
    }

    /// Append bytes without leaving the nibbles, or `None` when the result leaves the tier: past the capacity, or
    /// encodable in no alphabet.  The result is what packing the whole would have given.
    pub fn push(&self, tail: &[u8]) -> (r: Option<Packed>)
        requires
            self.wf(),
        ensures
            r is Some <==> self.length() + tail@.len() <= 30 && alphabet_of(self.content() + tail@) is Some,
            r is Some ==> (r->0).canonical() && (r->0).content() == self.content() + tail@,
    {
        let len: usize = self.len();
        if tail.len() > MAX_PACKED_LEN - len {
            return None;
        }
        let new_len: usize = len + tail.len();
        let ghost whole = self.content() + tail@;
        proof {
            lemma_holds_concat(PackedAlphabet::Numeric, self.content(), tail@);
            lemma_holds_concat(PackedAlphabet::DateTimePlus, self.content(), tail@);
            lemma_holds_concat(PackedAlphabet::DateTimeZulu, self.content(), tail@);
        }
        let mut found: Option<Packed> = None;
        if PackedAlphabet::Numeric.holds_slice(tail) {
            found = self.transcode(PackedAlphabet::Numeric);
        }
        if found.is_none() && PackedAlphabet::DateTimePlus.holds_slice(tail) {
            found = self.transcode(PackedAlphabet::DateTimePlus);
        }
        if found.is_none() && PackedAlphabet::DateTimeZulu.holds_slice(tail) {
            found = self.transcode(PackedAlphabet::DateTimeZulu);
        }
        match found {
            None => None,
            Some(moved) => {
                let target = moved.alphabet;
                assert(alphabet_of(whole) == Some(target));
                let mut nibbles: [u8; 15] = moved.nibbles;
                let mut i: usize = 0;
                while i < tail.len()
                    invariant
                        moved.wf(),
                        moved.content() == self.content(),
                        moved.alphabet == target,
                        target.holds_all(whole),
                        whole == self.content() + tail@,
                        len == self.length() == moved.length(),
                        i <= tail@.len(),
                        len + tail@.len() == new_len <= 30,
                        forall|k: int|
                            0 <= k < len + i ==> #[trigger] nibble::nibble(nibbles@, k) < 16 && target.symbol(
                                nibble::nibble(nibbles@, k) as int,
                            ) == whole[k],
                        forall|k: int| len + i <= k < 30 ==> #[trigger] nibble::nibble(nibbles@, k) == moved.at(k),
                    decreases tail@.len() - i,
                {
                    let b: u8 = tail[i];
                    assert(whole[len + i] == b);
                    assert(target.holds(whole[len + i]));
                    match target.encode(b) {
                        None => {
                            return None;
                        },
                        Some(n) => {
                            set_nibble(&mut nibbles, len + i, n);
                        },
                    }
                    i = i + 1;
                }
                let full: bool = new_len == MAX_PACKED_LEN;
                let ghost before = nibbles@;
                if !full {
                    let code: u8 = (new_len - MIN_PACKED_LEN) as u8;
                    set_nibble(&mut nibbles, LENGTH_NIBBLE, code);
                }
                let packed = Packed { alphabet: target, full, nibbles };
                proof {
                    assert(packed.length() == new_len);
                    if !full {
                        assert forall|k: int| new_len <= k < 29 implies #[trigger] packed.at(k) == 0 by {
                            assert(nibble::nibble(before, k) == moved.at(k));
                            assert(moved.at(k) == 0);
                        }
                    }
                    assert forall|k: int| 0 <= k < new_len implies target.symbol(#[trigger] packed.at(k) as int)
                        == whole[k] by {
                        assert(nibble::nibble(before, k) == packed.at(k));
                    }
                    assert(packed.content() =~= whole);
                }
                Some(packed)
            },
        }
    }

    /// Equality against raw bytes, length first.
    pub fn eq_bytes(&self, other: &[u8]) -> (r: bool)
        requires
            self.wf(),
        ensures
            r == (self.content() == other@),
    {
        if self.len() != other.len() {
            return false;
        }
        let mut i: usize = 0;
        while i < other.len()
            invariant
                i <= other@.len() == self.length() <= 30,
                forall|k: int| 0 <= k < i ==> #[trigger] other@[k] == self.content()[k],
            decreases other@.len() - i,
        {
            if self.char_at(i) != other[i] {
                assert(self.content()[i as int] != other@[i as int]);
                return false;
            }
            i = i + 1;
        }
        assert(self.content() =~= other@);
        true
    }

    /// Whether two packed strings have the same representation.
    pub fn same(&self, other: &Packed) -> (r: bool)
        ensures
            r == (*self == *other),
    {
        if self.alphabet == other.alphabet && self.full == other.full && order::equal_bytes(
            self.nibbles.as_slice(),
            other.nibbles.as_slice(),
        ) {
            assert(self.nibbles =~= other.nibbles);
            true
        } else {
            false
        }
    }

    /// Ordering against raw bytes: decoded characters decide, then length breaks a prefix tie.
    pub fn order_bytes(&self, other: &[u8]) -> (r: Order)
        requires
            self.wf(),
        ensures
            r == order::byte_order(self.content(), other@),
    {
        let len: usize = self.len();
        let mut i: usize = 0;
        while i < other.len() && i < len
            invariant
                i <= other@.len(),
                i <= len == self.length() <= 30,
                order::byte_order(self.content(), other@) == order::byte_order_from(self.content(), other@, i as int),
            decreases len - i,
        {
            let c: u8 = self.char_at(i);
            assert(self.content()[i as int] == c);
            if c < other[i] {
                return Order::Less;
            }
            if c > other[i] {
                return Order::Greater;
            }
            i = i + 1;
        }
        if len < other.len() {
            Order::Less
        } else if len == other.len() {
            Order::Equal
        } else {
            Order::Greater
        }
    }

    /// Ordering against another packed string of the same alphabet, without decoding.
    ///
    /// Within one length family this is the order of the payload bytes: a content difference decides before the
    /// length field is reached, and where one string ends the other holds a symbol at or above the zero padding.
    /// Across families the shared nibbles decide first and the lengths break the tie.
    pub fn order_same_alphabet(&self, other: &Packed) -> (r: Order)
        requires
            self.wf(),
            other.wf(),
            self.alphabet == other.alphabet,
        ensures
            r == order::byte_order(self.content(), other.content()),
    {
        let mut i: usize = 0;
        while i < LENGTH_NIBBLE
            invariant
                self.wf(),
                other.wf(),
                self.alphabet == other.alphabet,
                i <= 29,
                forall|k: int| 0 <= k < i ==> #[trigger] self.at(k) == other.at(k),
            decreases 29 - i,
        {
            let a: u8 = nibble_at(&self.nibbles, i);
            let b: u8 = nibble_at(&other.nibbles, i);
            if a < b {
                proof {
                    lemma_nibble_difference(*self, *other, i as int);
                }
                return Order::Less;
            }
            if a > b {
                proof {
                    lemma_nibble_difference(*self, *other, i as int);
                }
                return Order::Greater;
            }
            i = i + 1;
        }
        proof {
            lemma_shared_nibbles(*self, *other);
        }
        if self.full && other.full {
            let a: u8 = nibble_at(&self.nibbles, LENGTH_NIBBLE);
            let b: u8 = nibble_at(&other.nibbles, LENGTH_NIBBLE);
            if a < b {
                Order::Less
            } else if a == b {
                Order::Equal
            } else {
                Order::Greater
            }
        } else {
            let a: usize = self.len();
            let b: usize = other.len();
            if a < b {
                Order::Less
            } else if a == b {
                Order::Equal
            } else {
                Order::Greater
            }
        }
    }
}

proof fn lemma_nibble_bound(payload: Seq<u8>, i: int)
    ensures
        nibble::nibble(payload, i) < 16,
{
}

proof fn lemma_holds_concat(a: PackedAlphabet, s: Seq<u8>, t: Seq<u8>)
    ensures
        a.holds_all(s + t) == (a.holds_all(s) && a.holds_all(t)),
{
    let whole = s + t;
    if a.holds_all(whole) {
        assert forall|i: int| 0 <= i < s.len() implies a.holds(#[trigger] s[i]) by {
            assert(a.holds(whole[i]));
        }
        assert forall|i: int| 0 <= i < t.len() implies a.holds(#[trigger] t[i]) by {
            assert(a.holds(whole[s.len() + i]));
        }
    }
}

/// Two packed strings whose first `d` nibbles agree and whose nibble `d` differs.
proof fn lemma_nibble_difference(p: Packed, q: Packed, d: int)
    requires
        p.wf(),
        q.wf(),
        p.alphabet == q.alphabet,
        0 <= d < 29,
        forall|k: int| 0 <= k < d ==> #[trigger] p.at(k) == q.at(k),
        p.at(d) != q.at(d),
    ensures
        order::byte_order(p.content(), q.content()) == order::number_order(p.at(d) as int, q.at(d) as int),
{
    let a = p.content();
    let b = q.content();
    let shorter = if p.length() < q.length() { p.length() } else { q.length() };
    let m = if d < shorter { d } else { shorter as int };
    assert forall|k: int| 0 <= k < m implies #[trigger] a[k] == b[k] by {
        assert(p.at(k) == q.at(k));
    }
    order::lemma_common_prefix(a, b, 0, m);
    if d < shorter {
        law_symbols_ascend(p.alphabet, p.at(d) as int, q.at(d) as int);
    } else if p.length() <= d && q.length() <= d {
        assert(p.at(d) == 0 && q.at(d) == 0);
    } else if p.length() <= d {
        assert(p.at(d) == 0);
    } else {
        assert(q.at(d) == 0);
    }
}

/// Two packed strings whose first twenty-nine nibbles agree.
proof fn lemma_shared_nibbles(p: Packed, q: Packed)
    requires
        p.wf(),
        q.wf(),
        p.alphabet == q.alphabet,
        forall|k: int| 0 <= k < 29 ==> #[trigger] p.at(k) == q.at(k),
    ensures
        order::byte_order(p.content(), q.content()) == if p.full && q.full {
            order::number_order(p.at(29) as int, q.at(29) as int)
        } else {
            order::number_order(p.length() as int, q.length() as int)
        },
{
    let a = p.content();
    let b = q.content();
    let shorter = if p.length() < q.length() { p.length() } else { q.length() };
    let m = if shorter < 29 { shorter as int } else { 29 };
    assert forall|k: int| 0 <= k < m implies #[trigger] a[k] == b[k] by {
        assert(p.at(k) == q.at(k));
    }
    order::lemma_common_prefix(a, b, 0, m);
    if p.full && q.full {
        law_symbols_ascend(p.alphabet, p.at(29) as int, q.at(29) as int);
        assert(order::byte_order_from(a, b, 30) is Equal);
    }
}

/// Encode into a named alphabet, or `None` if a byte has no symbol there.
pub fn pack_in(bytes: &[u8], alphabet: PackedAlphabet) -> (r: Option<Packed>)
    requires
        16 <= bytes@.len() <= 30,
    ensures
        r is Some <==> alphabet.holds_all(bytes@),
        r is Some ==> (r->0).wf() && (r->0).alphabet == alphabet && (r->0).content() == bytes@,
{
    let mut nibbles: [u8; 15] = [0u8; 15];
    let mut i: usize = 0;
    assert forall|k: int| 0 <= k < 30 implies #[trigger] nibble::nibble(nibbles@, k) == 0 by {
        assert(nibbles@[k / 2] == 0);
    }
    while i < bytes.len()
        invariant
            i <= bytes@.len() <= 30,
            forall|k: int|
                0 <= k < i ==> #[trigger] nibble::nibble(nibbles@, k) < 16 && alphabet.symbol(
                    nibble::nibble(nibbles@, k) as int,
                ) == bytes@[k],
            forall|k: int| i <= k < 30 ==> #[trigger] nibble::nibble(nibbles@, k) == 0,
        decreases bytes@.len() - i,
    {
        match alphabet.encode(bytes[i]) {
            None => {
                assert(!alphabet.holds(bytes@[i as int]));
                return None;
            },
            Some(n) => {
                set_nibble(&mut nibbles, i, n);
            },
        }
        i = i + 1;
    }
    let full: bool = bytes.len() == MAX_PACKED_LEN;
    let ghost before = nibbles@;
    if !full {
        let code: u8 = (bytes.len() - MIN_PACKED_LEN) as u8;
        set_nibble(&mut nibbles, LENGTH_NIBBLE, code);
    }
    let packed = Packed { alphabet, full, nibbles };
    proof {
        assert(packed.length() == bytes@.len());
        if !full {
            assert forall|k: int| packed.length() <= k < 29 implies #[trigger] packed.at(k) == 0 by {
                assert(nibble::nibble(before, k) == 0);
            }
        }
        assert forall|k: int| 0 <= k < bytes@.len() implies alphabet.symbol(#[trigger] packed.at(k) as int)
            == bytes@[k] by {
            assert(nibble::nibble(before, k) == packed.at(k));
        }
        assert(packed.content() =~= bytes@);
        assert forall|k: int| 0 <= k < bytes@.len() implies alphabet.holds(#[trigger] bytes@[k]) by {
            lemma_nibble_bound(packed.nibbles@, k);
            assert(alphabet.symbol(packed.at(k) as int) == bytes@[k]);
        }
    }
    Some(packed)
}

/// Classify and pack, or report that the content is encodable in no alphabet.  The alphabets are tried in their
/// priority order, so equal contents take equal representations.
pub fn pack(bytes: &[u8]) -> (r: Option<Packed>)
    requires
        16 <= bytes@.len() <= 30,
    ensures
        r is Some <==> alphabet_of(bytes@) is Some,
        r is Some ==> (r->0).canonical() && (r->0).content() == bytes@,
{
    let mut numeric: bool = true;
    let mut datetime_plus: bool = true;
    let mut datetime_zulu: bool = true;
    let mut i: usize = 0;
    while i < bytes.len()
        invariant
            i <= bytes@.len(),
            numeric <==> forall|k: int| 0 <= k < i ==> PackedAlphabet::Numeric.holds(#[trigger] bytes@[k]),
            datetime_plus <==> forall|k: int| 0 <= k < i ==> PackedAlphabet::DateTimePlus.holds(#[trigger] bytes@[k]),
            datetime_zulu <==> forall|k: int| 0 <= k < i ==> PackedAlphabet::DateTimeZulu.holds(#[trigger] bytes@[k]),
        decreases bytes@.len() - i,
    {
        let b: u8 = bytes[i];
        numeric = numeric && PackedAlphabet::Numeric.encode(b).is_some();
        datetime_plus = datetime_plus && PackedAlphabet::DateTimePlus.encode(b).is_some();
        datetime_zulu = datetime_zulu && PackedAlphabet::DateTimeZulu.encode(b).is_some();
        if !numeric && !datetime_plus && !datetime_zulu {
            return None;
        }
        i = i + 1;
    }
    let alphabet = if numeric {
        PackedAlphabet::Numeric
    } else if datetime_plus {
        PackedAlphabet::DateTimePlus
    } else {
        PackedAlphabet::DateTimeZulu
    };
    pack_in(bytes, alphabet)
}

/// Content determines representation: two canonical packed strings with the same content are the same.
pub proof fn law_packed_representation_is_canonical(p: Packed, q: Packed)
    requires
        p.canonical(),
        q.canonical(),
        p.content() == q.content(),
    ensures
        p == q,
{
    let s = p.content();
    assert(p.length() == q.length());
    assert forall|k: int| 0 <= k < 30 implies #[trigger] nibble::nibble(p.nibbles@, k) == nibble::nibble(
        q.nibbles@,
        k,
    ) by {
        if k < p.length() {
            assert(s[k] == p.alphabet.symbol(p.at(k) as int));
            assert(q.content()[k] == q.alphabet.symbol(q.at(k) as int));
            law_symbols_ascend(p.alphabet, p.at(k) as int, q.at(k) as int);
        } else if k < 29 {
            assert(p.at(k) == 0 && q.at(k) == 0);
        }
    }
    nibble::lemma_nibbles_determine(p.nibbles@, q.nibbles@);
    assert(p.nibbles =~= q.nibbles);
}

/// Packed content is ASCII.
pub proof fn lemma_packed_ascii(p: Packed)
    requires
        p.wf(),
    ensures
        crate::decode::all_ascii(p.content()),
{
    assert forall|i: int| 0 <= i < p.content().len() implies #[trigger] p.content()[i] < 0x80 by {
        lemma_nibble_bound(p.nibbles@, i);
    }
}

/// The symbols of the alphabets: digits, space, hyphen and period in all three; the plus sign, both exponent letters, the
/// colon, the `T` and the `Z` in those that have a use for them.
pub proof fn law_alphabets_hold_their_symbols(b: u8)
    ensures
        PackedAlphabet::Numeric.holds(b) <==> b == 0x20 || b == 0x2B || b == 0x2D || b == 0x2E || 0x30 <= b <= 0x39 || b
            == 0x45 || b == 0x65,
        PackedAlphabet::DateTimePlus.holds(b) <==> b == 0x20 || b == 0x2B || b == 0x2D || b == 0x2E || 0x30 <= b <= 0x39
            || b == 0x3A || b == 0x54,
        PackedAlphabet::DateTimeZulu.holds(b) <==> b == 0x20 || b == 0x2D || b == 0x2E || 0x30 <= b <= 0x39 || b == 0x3A
            || b == 0x54 || b == 0x5A,
{
    let a = PackedAlphabet::Numeric;
    let p = PackedAlphabet::DateTimePlus;
    let z = PackedAlphabet::DateTimeZulu;
    assert(a.symbol(0) == 0x20 && a.symbol(1) == 0x2B && a.symbol(2) == 0x2D && a.symbol(3) == 0x2E);
    assert(a.symbol(14) == 0x45 && a.symbol(15) == 0x65);
    assert(p.symbol(0) == 0x20 && p.symbol(1) == 0x2B && p.symbol(2) == 0x2D && p.symbol(3) == 0x2E);
    assert(p.symbol(14) == 0x3A && p.symbol(15) == 0x54);
    assert(z.symbol(0) == 0x20 && z.symbol(1) == 0x2D && z.symbol(2) == 0x2E && z.symbol(13) == 0x3A);
    assert(z.symbol(14) == 0x54 && z.symbol(15) == 0x5A);
    if 0x30 <= b <= 0x39 {
        assert(a.symbol(b - 0x30 + 4) == b);
        assert(p.symbol(b - 0x30 + 4) == b);
        assert(z.symbol(b - 0x30 + 3) == b);
    }
}

/// The alphabet of content is one that holds all of it, and the first such: numeric before the timestamps.
pub proof fn law_alphabet_holds_the_content(s: Seq<u8>)
    ensures
        alphabet_of(s) is Some ==> (alphabet_of(s)->0).holds_all(s),
        alphabet_of(s) is None <==> forall|a: PackedAlphabet| !#[trigger] a.holds_all(s),
        PackedAlphabet::Numeric.holds_all(s) <==> alphabet_of(s) == Some(PackedAlphabet::Numeric),
        alphabet_of(s) == Some(PackedAlphabet::DateTimeZulu) ==> !PackedAlphabet::DateTimePlus.holds_all(s),
{
}

/// How a packed payload is laid out: a nibble for each character, the number of its symbol, and in the last nibble the
/// length beyond sixteen unless all thirty are content.
pub proof fn law_packed_payload_is_laid_out(p: Packed, i: int)
    requires
        p.wf(),
        0 <= i < p.content().len(),
    ensures
        p.content()[i] == p.alphabet.symbol(p.at(i) as int),
        p.full ==> p.content().len() == 30,
        !p.full ==> p.content().len() == 16 + p.at(29),
{
}

} // verus!
