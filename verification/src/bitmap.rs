//! General utilities for bitmaps representing items where the least
//! significant bit of each byte is the first item.

use vstd::prelude::*;

verus! {

/// The value of bit `i` (least significant bit first) of `byte`.
pub open spec fn nth_bit(byte: u8, i: u8) -> bool
    recommends
        i < 8,
{
    (byte >> i) & 1u8 == 1u8
}

/// Bit `i` of a byte sequence, least significant bit of each byte first.
pub open spec fn seq_bit(bytes: Seq<u8>, i: int) -> bool
    recommends
        0 <= i < 8 * bytes.len(),
{
    nth_bit(bytes[i / 8], (i % 8) as u8)
}

/// The number of indices in `[offset, offset + len)` whose bit is clear.
pub open spec fn count_zero_bits(bytes: Seq<u8>, offset: int, len: int) -> int
    decreases len,
{
    if len <= 0 {
        0
    } else {
        count_zero_bits(bytes, offset, len - 1) + if seq_bit(bytes, offset + len - 1) {
            0int
        } else {
            1int
        }
    }
}

/// Returns whether bit at position `i` in `byte` is set or not
pub fn is_set(byte: u8, i: usize) -> (r: bool)
    requires
        i < 8,
    ensures
        r == nth_bit(byte, i as u8),
{
    let ib = i as u8;
    let r = byte & (1u8 << ib) != 0;
    proof {
        assert((byte & (1u8 << ib) != 0) == ((byte >> ib) & 1u8 == 1u8)) by (bit_vector)
            requires
                ib < 8,
        ;
    }
    r
}

/// Sets bit at position `i` in `byte`.
pub fn set_bit_in_byte(byte: u8, i: usize, value: bool) -> (r: u8)
    requires
        i < 8,
    ensures
        nth_bit(r, i as u8) == value,
        forall|j: u8| j < 8 && j != i as u8 ==> nth_bit(r, j) == nth_bit(byte, j),
{
    let ib = i as u8;
    let mask = !(1u8 << ib);
    let insert = (if value {
        1u8
    } else {
        0u8
    }) << ib;
    let r = (byte & mask) | insert;
    proof {
        assert(forall|j: u8|
            j < 8 ==> (((r >> j) & 1u8 == 1u8) == (if j == ib {
                value
            } else {
                (byte >> j) & 1u8 == 1u8
            }))) by (bit_vector)
            requires
                ib < 8,
                r == (byte & !(1u8 << ib)) | ((if value {
                    1u8
                } else {
                    0u8
                }) << ib),
        ;
    }
    r
}

/// Returns whether bit at position `i` in `bytes` is set or not.
///
/// The bit position must lie inside the buffer.
pub fn get_bit_unchecked(bytes: &[u8], i: usize) -> (r: bool)
    requires
        i < 8 * bytes@.len(),
    ensures
        r == seq_bit(bytes@, i as int),
{
    let byte = bytes[i / 8];
    let sub = (i % 8) as u8;
    let bit = (byte >> sub) & 1;
    proof {
        assert(i as int / 8 == (i / 8) as int);
        assert(i as int % 8 == (i % 8) as int);
        assert(((byte >> sub) & 1u8 != 0) == ((byte >> sub) & 1u8 == 1u8)) by (bit_vector);
    }
    bit != 0
}

/// Sets bit at position `i` in `bytes`; the position must lie inside the
/// buffer. All other bits keep their value.
pub fn set_bit_unchecked(bytes: &mut Vec<u8>, i: usize, value: bool)
    requires
        i < 8 * old(bytes)@.len(),
    ensures
        final(bytes)@.len() == old(bytes)@.len(),
        seq_bit(final(bytes)@, i as int) == value,
        forall|j: int|
            0 <= j < 8 * old(bytes)@.len() && j != i ==> seq_bit(final(bytes)@, j) == seq_bit(
                old(bytes)@,
                j,
            ),
{
    let byte = bytes[i / 8];
    let updated = set_bit_in_byte(byte, i % 8, value);
    bytes.set(i / 8, updated);
    proof {
        assert forall|j: int| 0 <= j < 8 * old(bytes)@.len() && j != i implies seq_bit(
            final(bytes)@,
            j,
        ) == seq_bit(old(bytes)@, j) by {
            if j / 8 == i as int / 8 {
                assert(j % 8 != i as int % 8);
                assert((j % 8) as u8 != (i as int % 8) as u8);
            }
        }
    }
}

/// Returns the number of bytes required to hold `bits` bits.
pub fn bytes_for(bits: usize) -> (r: usize)
    ensures
        bits + 7 <= usize::MAX ==> r == (bits + 7) / 8,
        bits + 7 > usize::MAX ==> r == usize::MAX as int / 8,
{
    bits.saturating_add(7) / 8
}

/// Returns the number of zero bits in the slice offsetted by `offset` and a
/// length of `len`. The range must lie inside the buffer.
pub fn count_zeros(slice: &[u8], offset: usize, len: usize) -> (r: usize)
    requires
        offset + len <= 8 * slice@.len(),
        offset + len <= usize::MAX,
    ensures
        r == count_zero_bits(slice@, offset as int, len as int),
{
    let mut count: usize = 0;
    let mut k: usize = 0;
    while k < len
        invariant
            k <= len,
            offset + len <= 8 * slice@.len(),
            offset + len <= usize::MAX,
            count == count_zero_bits(slice@, offset as int, k as int),
            count <= k,
        decreases len - k,
    {
        if !get_bit_unchecked(slice, offset + k) {
            count = count + 1;
        }
        k = k + 1;
    }
    count
}

} // verus!
