//! Probabilities as ordered keys.
//!
//! The crate never does arithmetic on a probability: it only asks which of
//! two is higher. So a probability is held as a `u32` key, and a higher
//! probability has a larger key. The functions here turn the bit pattern of an
//! IEEE-754 single into such a key and back.
use vstd::prelude::*;

verus! {

/// The sign bit of a single.
pub const SIGN_BIT: u32 = 0x8000_0000;

/// The key of the probability zero.
pub const KEY_OF_ZERO: u32 = 0x8000_0000;

/// The key of the probability one.
pub const KEY_OF_ONE: u32 = 0xbf80_0000;

/// Whether `key` is the key of a number from zero to one.
pub open spec fn is_probability(key: u32) -> bool {
    KEY_OF_ZERO <= key <= KEY_OF_ONE
}

/// An integer that orders as the single with bit pattern `bits` does: its
/// magnitude bits, negated where the sign bit is set.
pub open spec fn signed_magnitude(bits: u32) -> int {
    if bits < SIGN_BIT {
        bits as int
    } else {
        -(bits - SIGN_BIT)
    }
}

/// The key of the single with bit pattern `bits`.
pub open spec fn key_of(bits: u32) -> u32 {
    if bits < SIGN_BIT {
        (bits + SIGN_BIT) as u32
    } else {
        (0xffff_ffff - bits) as u32
    }
}

/// The bit pattern whose key is `key`.
pub open spec fn bits_of(key: u32) -> u32 {
    if key >= SIGN_BIT {
        (key - SIGN_BIT) as u32
    } else {
        (0xffff_ffff - key) as u32
    }
}

/// The key of the single with bit pattern `bits`.
pub fn score_key(bits: u32) -> (key: u32)
    ensures
        key == key_of(bits),
{
    if bits < SIGN_BIT {
        bits + SIGN_BIT
    } else {
        0xffff_ffff - bits
    }
}

/// The bit pattern of the single whose key is `key`.
pub fn score_bits(key: u32) -> (bits: u32)
    ensures
        bits == bits_of(key),
{
    if key >= SIGN_BIT {
        key - SIGN_BIT
    } else {
        0xffff_ffff - key
    }
}

/// Keys and bit patterns correspond one to one.
pub proof fn lemma_key_round_trip(bits: u32, key: u32)
    ensures
        bits_of(key_of(bits)) == bits,
        key_of(bits_of(key)) == key,
{
}

/// Keys order as the singles do: the smaller value has the smaller key, and
/// of the two zeros the negative one.
pub proof fn lemma_key_orders(a: u32, b: u32)
    ensures
        signed_magnitude(a) < signed_magnitude(b) ==> key_of(a) < key_of(b),
        signed_magnitude(a) == signed_magnitude(b) && a != b ==> (key_of(a) < key_of(b) <==> a > b),
{
}

} // verus!
