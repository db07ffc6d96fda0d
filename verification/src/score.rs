//! Similarity scores.

use vstd::prelude::*;

verus! {

/// Bit pattern of the score of two names that have nothing in common.
pub const ZERO_BITS: u64 = 0;

/// Bit pattern of the score of two equal names.
pub const ONE_BITS: u64 = 0x3FF0_0000_0000_0000;

/// Bit pattern of positive infinity. The patterns of the positive numbers end
/// with it: those above it stand for no number, or for a negative one.
pub const INFINITY_BITS: u64 = 0x7FF0_0000_0000_0000;

/// A similarity, held as the bit pattern of a double-precision number.
///
/// Scores are compared by their bit patterns. For numbers that are not
/// negative this is the order of the numbers themselves, so a score between
/// zero and one ranks exactly as the number it stands for. A threshold may be
/// any pattern: see `below`.
#[derive(Clone, Copy, Debug, PartialEq, Eq, Structural)]
pub struct Score {
    pub bits: u64,
}

impl Score {
    /// Whether the score stands for a number from zero to one.
    pub open spec fn in_unit(self) -> bool {
        self.bits <= ONE_BITS
    }

    /// Whether the score is below `threshold`. No score is below a threshold
    /// that stands for a negative number or for no number: the patterns of
    /// those lie above that of infinity, and do not order as numbers do.
    pub open spec fn below(self, threshold: Score) -> bool {
        self.bits < threshold.bits && threshold.bits <= INFINITY_BITS
    }

    /// Whether the score is below `threshold`.
    pub fn is_below(self, threshold: Score) -> (below: bool)
        ensures
            below == self.below(threshold),
    {
        self.bits < threshold.bits && threshold.bits <= INFINITY_BITS
    }

    /// The pattern from zero to one that is nearest to `bits`: `bits` itself
    /// where it stands for a number from zero to one, one for a larger
    /// number, and zero for a negative number and for what is no number.
    pub open spec fn nearest_in_unit(bits: u64) -> u64 {
        if bits <= ONE_BITS {
            bits
        } else if bits <= INFINITY_BITS {
            ONE_BITS
        } else {
            ZERO_BITS
        }
    }

    /// The score from zero to one that is nearest to the number with the
    /// given bit pattern.
    pub fn within_unit(bits: u64) -> (score: Score)
        ensures
            score.bits == Score::nearest_in_unit(bits),
            score.in_unit(),
    {
        if bits <= ONE_BITS {
            Score { bits }
        } else if bits <= INFINITY_BITS {
            Score { bits: ONE_BITS }
        } else {
            Score { bits: ZERO_BITS }
        }
    }

    /// The score with the given bit pattern.
    pub fn from_bits(bits: u64) -> (score: Score)
        ensures
            score.bits == bits,
    {
        Score { bits }
    }

    /// The bit pattern of the score.
    pub fn to_bits(self) -> (bits: u64)
        ensures
            bits == self.bits,
    {
        self.bits
    }
}

} // verus!
