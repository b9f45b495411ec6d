//! Double-precision numbers by their bit patterns: as much of their order as
//! the statistics of a run need.
use vstd::prelude::*;

verus! {

/// A double-precision number, by its IEEE-754 bits.
#[derive(Clone, Copy, Debug, PartialEq, Eq, Structural)]
pub struct Real {
    pub bits: u64,
}

impl Real {
    /// Positive infinity.
    pub fn infinity() -> (r: Real)
        ensures
            r.bits == 0x7FF0_0000_0000_0000,
    {
        Real { bits: 0x7FF0_0000_0000_0000 }
    }

    /// The bits without the sign.
    pub open spec fn magnitude(self) -> int {
        if self.bits >= 0x8000_0000_0000_0000 {
            self.bits - 0x8000_0000_0000_0000
        } else {
            self.bits as int
        }
    }

    /// Whether it is not a number: the exponent is full and the fraction is not
    /// zero.
    pub open spec fn is_nan(self) -> bool {
        self.magnitude() > 0x7FF0_0000_0000_0000
    }

    /// Its place in the order of numbers, where both zeros share one place.
    pub open spec fn rank(self) -> int {
        if self.bits >= 0x8000_0000_0000_0000 {
            -self.magnitude()
        } else {
            self.magnitude()
        }
    }

    /// Whether it is less than another; never so where one is not a number.
    pub open spec fn is_less(self, other: Real) -> bool {
        !self.is_nan() && !other.is_nan() && self.rank() < other.rank()
    }

    fn sizes(self) -> (r: (bool, u64))
        ensures
            r.0 == (self.bits >= 0x8000_0000_0000_0000),
            r.1 == self.magnitude(),
    {
        if self.bits >= 0x8000_0000_0000_0000 {
            (true, self.bits - 0x8000_0000_0000_0000)
        } else {
            (false, self.bits)
        }
    }

    /// Whether it is not a number.
    pub fn nan(self) -> (r: bool)
        ensures
            r == self.is_nan(),
    {
        let (_, size) = self.sizes();
        size > 0x7FF0_0000_0000_0000
    }

    /// Whether it is less than another.
    pub fn less(self, other: Real) -> (r: bool)
        ensures
            r == self.is_less(other),
    {
        let (a_negative, a) = self.sizes();
        let (b_negative, b) = other.sizes();
        if self.nan() || other.nan() {
            false
        } else if a_negative {
            if b_negative {
                b < a
            } else {
                a > 0 || b > 0
            }
        } else {
            !b_negative && a < b
        }
    }
}

/// The order of numbers is a strict order.
pub proof fn law_less_is_strict_order(a: Real, b: Real, c: Real)
    ensures
        !a.is_less(a),
        a.is_less(b) ==> !b.is_less(a),
        a.is_less(b) && b.is_less(c) ==> a.is_less(c),
{
}

/// The order of numbers is the one of their bits where neither is below zero, and
/// the opposite where both are; a number below zero comes before one that is not,
/// but the two zeros are alike. What is not a number has no place in the order.
pub proof fn law_order_by_bits(a: Real, b: Real)
    ensures
        a.is_nan() <==> a.bits % 0x8000_0000_0000_0000 > 0x7FF0_0000_0000_0000,
        a.is_nan() || b.is_nan() ==> !a.is_less(b),
        !a.is_nan() && !b.is_nan() ==> {
            let (a_negative, b_negative) = (
                a.bits >= 0x8000_0000_0000_0000,
                b.bits >= 0x8000_0000_0000_0000,
            );
            &&& !a_negative && !b_negative ==> (a.is_less(b) <==> a.bits < b.bits)
            &&& a_negative && b_negative ==> (a.is_less(b) <==> a.bits > b.bits)
            &&& a_negative && !b_negative ==> (a.is_less(b) <==> !(a.bits
                == 0x8000_0000_0000_0000 && b.bits == 0))
            &&& !a_negative && b_negative ==> !a.is_less(b)
        },
{
}

} // verus!
