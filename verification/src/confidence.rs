//! How sure an extraction was of a fact.

use vstd::prelude::*;

verus! {

/// A confidence, held as the bits of an IEEE 754 single precision number.
#[derive(Debug, Clone, Copy, PartialEq, Eq, Structural)]
pub struct Confidence {
    pub bits: u32,
}

/// The sign bit of a single precision number.
pub const SIGN: u32 = 0x8000_0000;

/// The bits of positive infinity; a greater magnitude is not a number.
pub const INFINITE: u32 = 0x7f80_0000;

/// The bits of 0.75. A successor below it may not rewrite the history of its predecessor by
/// itself.
pub const AUTO_CLOSE_MIN_CONFIDENCE: u32 = 0x3f40_0000;

impl Confidence {
    /// The bits without the sign.
    pub open spec fn magnitude(self) -> int {
        self.bits as int % SIGN as int
    }

    pub open spec fn is_negative(self) -> bool {
        self.bits >= SIGN
    }

    pub open spec fn is_nan(self) -> bool {
        self.magnitude() > INFINITE
    }

    /// The number is below the threshold. Magnitudes of one sign are ordered as their bits are,
    /// every negative number is below, and what is not a number is below nothing.
    pub open spec fn is_low(self) -> bool {
        !self.is_nan() && (self.is_negative() || self.magnitude() < AUTO_CLOSE_MIN_CONFIDENCE)
    }

    /// Whether the confidence is too low to rewrite history without a person's decision.
    pub fn low(self) -> (r: bool)
        ensures
            r == self.is_low(),
    {
        let magnitude: u32 = self.bits % SIGN;
        if magnitude > INFINITE {
            false
        } else {
            self.bits >= SIGN || magnitude < AUTO_CLOSE_MIN_CONFIDENCE
        }
    }
}

} // verus!
