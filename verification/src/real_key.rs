//! Real numbers as order keys.
//!
//! The library never computes with floating point numbers. A finite IEEE-754
//! double is carried as a `RealKey`: an unsigned integer whose order is the
//! order of the real numbers it stands for. Both zeros share one key.
use vstd::prelude::*;

verus! {

/// 2^63: the key of zero, and the sign bit of a double.
pub const SIGN_BIT: u64 = 0x8000_0000_0000_0000u64;

/// Magnitude bits of positive infinity; every finite double has a smaller
/// magnitude.
pub const INFINITY_MAGNITUDE: u64 = 0x7FF0_0000_0000_0000u64;

/// Bits of the double `1.0`.
pub const ONE_BITS: u64 = 0x3FF0_0000_0000_0000u64;

/// A finite real number, represented by an order key.
#[derive(Clone, Copy, Debug, PartialEq, Eq, Structural)]
pub struct RealKey(pub u64);

/// The magnitude part (all bits but the sign) of a double's bit pattern.
pub open spec fn magnitude(bits: u64) -> int {
    bits as int % (SIGN_BIT as int)
}

/// Whether the double with these bits is negative (sign bit set).
pub open spec fn is_negative_bits(bits: u64) -> bool {
    bits as int >= SIGN_BIT as int
}

/// Whether the double with these bits is finite.
pub open spec fn is_finite_bits(bits: u64) -> bool {
    magnitude(bits) < INFINITY_MAGNITUDE as int
}

/// The order key of the finite double with these bits: zero sits at `SIGN_BIT`,
/// positive numbers above it and negative numbers below it, each at the
/// distance of its magnitude.
pub open spec fn key_of_bits(bits: u64) -> int {
    if is_negative_bits(bits) {
        SIGN_BIT as int - magnitude(bits)
    } else {
        SIGN_BIT as int + magnitude(bits)
    }
}

/// Whether a key stands for a finite double.
pub open spec fn is_valid_key(key: u64) -> bool {
    (SIGN_BIT as int - INFINITY_MAGNITUDE as int) < (key as int)
        && (key as int) < SIGN_BIT as int + INFINITY_MAGNITUDE as int
}

/// The bits of the double that a key stands for (zero is the positive zero).
pub open spec fn bits_of_key(key: u64) -> int {
    if key as int >= SIGN_BIT as int {
        key as int - SIGN_BIT as int
    } else {
        SIGN_BIT as int + (SIGN_BIT as int - key as int)
    }
}

impl RealKey {
    /// The key of the double with the given bit pattern, or `None` when that
    /// double is infinite or not a number.
    pub fn from_bits(bits: u64) -> (r: Option<RealKey>)
        ensures
            r is Some <==> is_finite_bits(bits),
            r matches Some(k) ==> k.0 as int == key_of_bits(bits) && is_valid_key(k.0),
    {
        let mag = bits % SIGN_BIT;
        if mag >= INFINITY_MAGNITUDE {
            None
        } else if bits >= SIGN_BIT {
            Some(RealKey(SIGN_BIT - mag))
        } else {
            Some(RealKey(SIGN_BIT + mag))
        }
    }

    /// The bit pattern of the double this key stands for.
    pub fn to_bits(&self) -> (r: u64)
        requires
            is_valid_key(self.0),
        ensures
            r as int == bits_of_key(self.0),
            is_finite_bits(r),
            key_of_bits(r) == self.0 as int,
    {
        if self.0 >= SIGN_BIT {
            self.0 - SIGN_BIT
        } else {
            SIGN_BIT + (SIGN_BIT - self.0)
        }
    }

    /// Whether this key stands for a finite double.
    pub fn is_valid(&self) -> (r: bool)
        ensures
            r == is_valid_key(self.0),
    {
        SIGN_BIT - INFINITY_MAGNITUDE < self.0 && self.0 < SIGN_BIT + INFINITY_MAGNITUDE
    }

    /// The key of zero.
    pub fn zero() -> (r: RealKey)
        ensures
            r.0 == SIGN_BIT,
            r.0 as int == key_of_bits(0),
    {
        RealKey(SIGN_BIT)
    }

    /// The key of one.
    pub fn one() -> (r: RealKey)
        ensures
            r.0 as int == SIGN_BIT as int + ONE_BITS as int,
            r.0 as int == key_of_bits(ONE_BITS),
    {
        RealKey(SIGN_BIT + ONE_BITS)
    }
}

/// A key read back as bits gives the same key again.
pub proof fn lemma_key_bits_round_trip(key: u64)
    requires
        is_valid_key(key),
    ensures
        0 <= bits_of_key(key) < 0x1_0000_0000_0000_0000,
        key_of_bits(bits_of_key(key) as u64) == key as int,
{
}

/// Bits read as a key and back give the same bits, except that the negative
/// zero comes back as the positive zero.
pub proof fn lemma_bits_key_round_trip(bits: u64)
    requires
        is_finite_bits(bits),
        bits != SIGN_BIT,
    ensures
        is_valid_key(key_of_bits(bits) as u64),
        bits_of_key(key_of_bits(bits) as u64) == bits as int,
{
}

} // verus!
