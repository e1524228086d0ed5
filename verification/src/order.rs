use vstd::prelude::*;

verus! {

/// The first bit pattern whose sign bit is set.
pub const SIGN_BIT: u32 = 0x8000_0000;

/// The number that a 32-bit sign-and-magnitude pattern stands for when its
/// magnitude is counted in steps: the magnitude, negated where the sign bit
/// is set. Both zeros stand for 0.
pub open spec fn signed_magnitude(bits: u32) -> int {
    if bits < SIGN_BIT {
        bits as int
    } else {
        -(bits - SIGN_BIT)
    }
}

/// The place of a sign-and-magnitude pattern in one ascending line of all
/// patterns: the negative ones first, the largest magnitude lowest, then
/// the non-negative ones by magnitude.
pub open spec fn key_of(bits: u32) -> u32 {
    if bits < SIGN_BIT {
        (bits + SIGN_BIT) as u32
    } else {
        (u32::MAX - bits) as u32
    }
}

/// The pattern that stands at place `key`.
pub open spec fn bits_of(key: u32) -> u32 {
    if key >= SIGN_BIT {
        (key - SIGN_BIT) as u32
    } else {
        (u32::MAX - key) as u32
    }
}

/// The ordering key of a value given by its sign-and-magnitude bit pattern.
///
/// Keys compare as plain unsigned integers. A similarity that is carried as
/// the bit pattern of a single-precision number is ordered through its key.
pub fn order_key(bits: u32) -> (key: u32)
    ensures
        key == key_of(bits),
{
    if bits < SIGN_BIT {
        bits + SIGN_BIT
    } else {
        u32::MAX - bits
    }
}

/// The bit pattern that has the ordering key `key`.
pub fn key_bits(key: u32) -> (bits: u32)
    ensures
        bits == bits_of(key),
{
    if key >= SIGN_BIT {
        key - SIGN_BIT
    } else {
        u32::MAX - key
    }
}

/// Keys and patterns correspond one to one.
pub proof fn lemma_key_round_trip(x: u32)
    ensures
        bits_of(key_of(x)) == x,
        key_of(bits_of(x)) == x,
{
}

/// The order of the keys is that of the numbers the patterns stand for: a
/// smaller number has a smaller key, and a smaller key never belongs to a
/// larger number. Only the two zeros, which stand for the same number, have
/// different keys.
pub proof fn lemma_key_order(a: u32, b: u32)
    ensures
        signed_magnitude(a) < signed_magnitude(b) ==> key_of(a) < key_of(b),
        key_of(a) < key_of(b) ==> signed_magnitude(a) <= signed_magnitude(b),
        key_of(a) == key_of(b) <==> a == b,
        signed_magnitude(a) == signed_magnitude(b) && a != b ==> signed_magnitude(a) == 0,
{
}

} // verus!
