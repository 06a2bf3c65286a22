//! Double-precision numbers as data.
//!
//! The library carries thresholds, weights and scores and compares them; it does
//! no arithmetic on them. A number is held as its IEEE 754 bit pattern.

use vstd::prelude::*;

verus! {

/// A double-precision number, by its IEEE 754 bit pattern.
#[derive(Debug, Clone, Copy)]
pub struct Real {
    /// Sign in the highest bit, then eleven bits of exponent and 52 of fraction.
    pub bits: u64,
}

impl Real {
    /// The bit pattern stands for no number.
    pub open spec fn is_nan(self) -> bool {
        self.bits as int % 0x8000_0000_0000_0000 > 0x7ff0_0000_0000_0000
    }

    /// The position of a number among all numbers: ordered as the numbers are,
    /// zero for both zeros.
    pub open spec fn rank(self) -> int {
        if self.bits < 0x8000_0000_0000_0000 {
            self.bits as int
        } else {
            0x8000_0000_0000_0000 - self.bits
        }
    }

    /// Both are numbers, and the first is no smaller than the second.
    pub open spec fn ge(self, other: Real) -> bool {
        !self.is_nan() && !other.is_nan() && self.rank() >= other.rank()
    }

    /// The number is zero, of either sign.
    pub open spec fn zero(self) -> bool {
        self.rank() == 0
    }

    /// The number with the given bit pattern.
    pub fn from_bits(bits: u64) -> (r: Real)
        ensures
            r.bits == bits,
    {
        Real { bits }
    }

    /// The bit pattern of the number.
    pub fn to_bits(&self) -> (bits: u64)
        ensures
            bits == self.bits,
    {
        self.bits
    }

    /// Whether the number is zero.
    pub fn is_zero(&self) -> (z: bool)
        ensures
            z == self.zero(),
    {
        self.bits == 0 || self.bits == 0x8000_0000_0000_0000
    }

    /// Whether the number is at least `other`; never where either is not a number.
    pub fn at_least(&self, other: &Real) -> (r: bool)
        ensures
            r == self.ge(*other),
    {
        let sign: u64 = 0x8000_0000_0000_0000;
        let infinity: u64 = 0x7ff0_0000_0000_0000;
        if self.bits % sign > infinity || other.bits % sign > infinity {
            return false;
        }
        if self.bits < sign {
            other.bits >= sign || self.bits >= other.bits
        } else if other.bits < sign {
            self.bits == sign && other.bits == 0
        } else {
            self.bits <= other.bits
        }
    }
}

/// Two numbers are equal as numbers: both zeros are, and what is not a number
/// equals nothing.
impl PartialEq for Real {
    fn eq(&self, other: &Real) -> (r: bool) {
        self.at_least(other) && other.at_least(self)
    }
}

impl vstd::std_specs::cmp::PartialEqSpecImpl for Real {
    open spec fn obeys_eq_spec() -> bool {
        true
    }

    open spec fn eq_spec(&self, other: &Real) -> bool {
        self.ge(*other) && other.ge(*self)
    }
}

/// Among numbers the order is total: one of two is at least the other.
pub proof fn order_is_total(a: Real, b: Real)
    requires
        !a.is_nan(),
        !b.is_nan(),
    ensures
        a.ge(b) || b.ge(a),
{
}

/// The order is transitive.
pub proof fn order_is_transitive(a: Real, b: Real, c: Real)
    requires
        a.ge(b),
        b.ge(c),
    ensures
        a.ge(c),
{
}

/// The order is that of the numbers: among those without sign, the larger bit pattern is the
/// larger number; turning the sign of both turns the order round; a number without sign is at
/// least any with one; both zeros are equal; and what is no number compares with nothing.
pub proof fn the_order_is_that_of_the_numbers(a: Real, b: Real, na: Real, nb: Real)
    requires
        a.bits < 0x8000_0000_0000_0000,
        b.bits < 0x8000_0000_0000_0000,
        na.bits == a.bits + 0x8000_0000_0000_0000,
        nb.bits == b.bits + 0x8000_0000_0000_0000,
    ensures
        a.is_nan() <==> a.bits > 0x7ff0_0000_0000_0000,
        na.is_nan() <==> a.is_nan(),
        !a.is_nan() && !b.is_nan() ==> {
            &&& a.ge(b) <==> a.bits >= b.bits
            &&& na.ge(nb) <==> b.ge(a)
            &&& a.ge(nb)
            &&& na.ge(b) <==> a.bits == 0 && b.bits == 0
        },
        a.is_nan() || b.is_nan() ==> !a.ge(b) && !na.ge(b) && !a.ge(nb) && !na.ge(nb),
        a.zero() <==> a.bits == 0,
        na.zero() <==> a.bits == 0,
{
}

} // verus!
