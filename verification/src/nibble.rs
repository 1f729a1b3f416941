//! The fifteen-byte payload of the compact forms, read and written as thirty nibbles.
use vstd::prelude::*;

verus! {

/// The width of an envelope payload in bytes.
pub const PACKED_BYTES: usize = 15;

/// The nibble with the given index, high nibble first so that byte order over the payload mirrors nibble order.
pub open spec fn nibble(payload: Seq<u8>, index: int) -> u8 {
    if index % 2 == 0 {
        payload[index / 2] / 16
    } else {
        payload[index / 2] % 16
    }
}

/// Read one nibble.
pub fn nibble_at(nibbles: &[u8; 15], index: usize) -> (r: u8)
    requires
        index < 30,
    ensures
        r == nibble(nibbles@, index as int),
        r < 16,
{
    let byte: u8 = nibbles[index / 2];
    proof {
        assert(byte >> 4 == byte / 16) by (bit_vector);
        assert(byte & 0x0F == byte % 16) by (bit_vector);
    }
    if index % 2 == 0 {
        byte >> 4
    } else {
        byte & 0x0F
    }
}

/// Write one nibble, leaving the other half of the byte untouched.
pub fn set_nibble(nibbles: &mut [u8; 15], index: usize, value: u8)
    requires
        index < 30,
        value < 16,
    ensures
        forall|k: int|
            0 <= k < 30 ==> #[trigger] nibble(final(nibbles)@, k) == if k == index {
                value
            } else {
                nibble(old(nibbles)@, k)
            },
{
    let byte: u8 = nibbles[index / 2];
    if index % 2 == 0 {
        let merged: u8 = (byte & 0x0F) | (value << 4);
        proof {
            assert(merged == value * 16 + byte % 16) by (bit_vector)
                requires
                    merged == (byte & 0x0F) | (value << 4),
                    value < 16,
            ;
        }
        nibbles[index / 2] = merged;
    } else {
        let merged: u8 = (byte & 0xF0) | value;
        proof {
            assert(merged == byte / 16 * 16 + value) by (bit_vector)
                requires
                    merged == (byte & 0xF0) | value,
                    value < 16,
            ;
        }
        nibbles[index / 2] = merged;
    }
    assert forall|k: int| 0 <= k < 30 implies #[trigger] nibble(nibbles@, k) == if k == index {
        value
    } else {
        nibble(old(nibbles)@, k)
    } by {
        if k / 2 != index / 2 {
            assert(nibbles@[k / 2] == old(nibbles)@[k / 2]);
        }
    }
}

/// Nibbles determine the payload.
pub proof fn lemma_nibbles_determine(a: Seq<u8>, b: Seq<u8>)
    requires
        a.len() == 15,
        b.len() == 15,
        forall|k: int| 0 <= k < 30 ==> #[trigger] nibble(a, k) == nibble(b, k),
    ensures
        a == b,
{
    assert forall|j: int| 0 <= j < 15 implies a[j] == b[j] by {
        assert(nibble(a, 2 * j) == nibble(b, 2 * j));
        assert(nibble(a, 2 * j + 1) == nibble(b, 2 * j + 1));
        assert((2 * j) / 2 == j && (2 * j + 1) / 2 == j);
        assert((2 * j) % 2 == 0 && (2 * j + 1) % 2 == 1);
    }
    assert(a =~= b);
}

/// Two nibbles make a byte, the one with the even index on top.
pub proof fn law_nibbles_make_bytes(payload: Seq<u8>, i: int)
    requires
        0 <= i < payload.len(),
    ensures
        payload[i] == nibble(payload, 2 * i) * 16 + nibble(payload, 2 * i + 1),
        nibble(payload, 2 * i) < 16 && nibble(payload, 2 * i + 1) < 16,
{
}

} // verus!
