//! Distances along a ray, held as integers whose order is the order of the
//! distances.
//!
//! A distance is a non-negative IEEE 754 single. Of any two non-negative
//! singles the greater one has the greater bit pattern, taken as an unsigned
//! integer, up to and including positive infinity. So the bit pattern alone
//! stands for a distance wherever distances are only ordered.

use vstd::prelude::*;

verus! {

/// The bit pattern of positive infinity, the greatest distance.
pub const INFINITY_BITS: u32 = 0x7F80_0000;

/// The bit pattern of negative zero.
pub const NEGATIVE_ZERO_BITS: u32 = 0x8000_0000;

/// The forward distance from the origin of a ray to a hit.
#[derive(Clone, Copy, Debug, PartialEq, Eq, Structural)]
pub struct Distance {
    bits: u32,
}

/// The key of the distance with the bit pattern `bits`, if `bits` is the
/// pattern of a distance: zero of either sign, a positive number or positive
/// infinity. A negative number is behind the origin of the ray; a NaN is no
/// distance.
pub open spec fn spec_key_of_bits(bits: u32) -> Option<nat> {
    if bits <= INFINITY_BITS {
        Some(bits as nat)
    } else if bits == NEGATIVE_ZERO_BITS {
        Some(0nat)
    } else {
        None
    }
}

impl Distance {
    /// The integer that orders this distance among all distances: of two
    /// distances the nearer one has the smaller key, and equal distances have
    /// equal keys.
    pub closed spec fn key(self) -> nat {
        self.bits as nat
    }

    /// No key is greater than that of positive infinity.
    #[verifier::type_invariant]
    pub closed spec fn wf(self) -> bool {
        self.bits <= INFINITY_BITS
    }

    /// Two distances with one key are one distance.
    pub proof fn lemma_key_decides(self, other: Distance)
        ensures
            self.key() == other.key() <==> self == other,
    {
    }

    /// The distance with the bit pattern `bits`, or nothing where `bits` is
    /// the pattern of a negative number or of a NaN. Both zeros are the
    /// distance zero.
    pub fn from_bits(bits: u32) -> (distance: Option<Distance>)
        ensures
            match distance {
                Some(d) => d.wf() && spec_key_of_bits(bits) == Some(d.key()),
                None => spec_key_of_bits(bits) is None,
            },
    {
        if bits <= INFINITY_BITS {
            Some(Distance { bits })
        } else if bits == NEGATIVE_ZERO_BITS {
            Some(Distance { bits: 0 })
        } else {
            None
        }
    }

    /// The bit pattern of this distance as a single, with positive sign.
    pub fn to_bits(&self) -> (bits: u32)
        ensures
            bits == self.key(),
            bits <= INFINITY_BITS,
    {
        proof {
            use_type_invariant(self);
        }
        self.bits
    }

    /// Whether this distance is strictly nearer than `other`.
    pub fn is_nearer_than(&self, other: &Distance) -> (nearer: bool)
        ensures
            nearer == (self.key() < other.key()),
    {
        self.bits < other.bits
    }
}

} // verus!
