//! Turning a byte of entropy into a bounded random integer.

use vstd::prelude::*;

verus! {

/// The random integer that one entropy byte carries: the byte with its top five bits cleared.
pub open spec fn low_bits(byte: u8) -> u32 {
    (byte % 8) as u32
}

/// Bounds one freshly read entropy byte to `0..8` by clearing its top five bits.
///
/// Reading the byte is the caller's business; this is everything that happens to it afterwards.
pub fn random_int_from_byte(byte: u8) -> (random_int: u32)
    ensures
        random_int == byte & 0b0000_0111,
        random_int == low_bits(byte),
        random_int < 8,
{
    let masked: u8 = byte & 0b0000_0111;
    assert(byte & 0b0000_0111 == byte % 8) by (bit_vector);
    masked as u32
}

} // verus!
