//! The order of IEEE-754 doubles, read from their bit patterns.
//!
//! A double's top bit is its sign and the other 63 bits are its magnitude;
//! among magnitudes the order of the bit patterns is the order of the values.
//! A magnitude above that of infinity is a NaN, which compares false with
//! everything. Both zeros are equal in value.

use crate::types::F64Wrapper;
use vstd::prelude::*;

verus! {

/// The bit pattern of positive infinity.
pub const INFINITY_BITS: u64 = 0x7ff0_0000_0000_0000;

/// The sign bit.
pub const SIGN_BIT: u64 = 0x8000_0000_0000_0000;

/// The bit pattern without its sign.
pub open spec fn magnitude(bits: u64) -> int {
    if bits < SIGN_BIT {
        bits as int
    } else {
        bits - SIGN_BIT
    }
}

/// Whether the bit pattern is that of a NaN.
pub open spec fn is_nan(bits: u64) -> bool {
    magnitude(bits) > INFINITY_BITS
}

/// A whole number that orders the doubles that are not NaN as their values do.
pub open spec fn rank(bits: u64) -> int {
    if bits < SIGN_BIT {
        magnitude(bits)
    } else {
        -magnitude(bits)
    }
}

/// `a < b` as doubles compare.
pub open spec fn float_lt(a: u64, b: u64) -> bool {
    !is_nan(a) && !is_nan(b) && rank(a) < rank(b)
}

/// `a <= b` as doubles compare.
pub open spec fn float_le(a: u64, b: u64) -> bool {
    !is_nan(a) && !is_nan(b) && rank(a) <= rank(b)
}

impl F64Wrapper {
    /// Whether the double is a NaN.
    pub fn is_nan(&self) -> (nan: bool)
        ensures
            nan == is_nan(self.0),
    {
        if self.0 < SIGN_BIT {
            self.0 > INFINITY_BITS
        } else {
            self.0 - SIGN_BIT > INFINITY_BITS
        }
    }

    /// `self < other` as doubles compare.
    pub fn less_than(&self, other: &F64Wrapper) -> (less: bool)
        ensures
            less == float_lt(self.0, other.0),
    {
        if self.is_nan() || other.is_nan() {
            false
        } else if self.0 < SIGN_BIT {
            other.0 < SIGN_BIT && self.0 < other.0
        } else if other.0 < SIGN_BIT {
            self.0 > SIGN_BIT || other.0 > 0
        } else {
            self.0 > other.0
        }
    }

    /// `self <= other` as doubles compare.
    pub fn at_most(&self, other: &F64Wrapper) -> (at_most: bool)
        ensures
            at_most == float_le(self.0, other.0),
    {
        if self.is_nan() || other.is_nan() {
            false
        } else if self.0 < SIGN_BIT {
            if other.0 < SIGN_BIT {
                self.0 <= other.0
            } else {
                self.0 == 0 && other.0 == SIGN_BIT
            }
        } else if other.0 < SIGN_BIT {
            true
        } else {
            self.0 >= other.0
        }
    }
}

} // verus!
