//! Single-precision numbers, carried and compared by their bit patterns.

use vstd::prelude::*;

verus! {

/// An IEEE 754 single-precision number, given by its bit pattern.
///
/// Scores, weights and thresholds are computed outside this library. Inside it they are only
/// compared, and the comparisons follow the standard: a NaN is neither below nor above anything,
/// and the two zeros are equal.
#[derive(Clone, Copy, Debug, PartialEq, Eq, Structural)]
pub struct Single {
    pub bits: u32,
}

impl Single {
    /// The bit pattern without the sign.
    pub open spec fn magnitude(self) -> int {
        if self.bits >= 0x8000_0000 {
            self.bits - 0x8000_0000
        } else {
            self.bits as int
        }
    }

    /// Whether the sign bit is set.
    pub open spec fn negative(self) -> bool {
        self.bits >= 0x8000_0000
    }

    /// Whether the number is a NaN.
    pub open spec fn nan(self) -> bool {
        self.magnitude() > 0x7f80_0000
    }

    /// Whether the number is neither infinite nor a NaN.
    pub open spec fn finite(self) -> bool {
        self.magnitude() < 0x7f80_0000
    }

    /// The place of a number that is not a NaN in the order of the real numbers and the two
    /// infinities.
    pub open spec fn rank(self) -> int {
        if self.negative() {
            -self.magnitude()
        } else {
            self.magnitude()
        }
    }

    /// `self < other`.
    pub open spec fn lt(self, other: Single) -> bool {
        !self.nan() && !other.nan() && self.rank() < other.rank()
    }

    /// `self <= other`.
    pub open spec fn le(self, other: Single) -> bool {
        !self.nan() && !other.nan() && self.rank() <= other.rank()
    }

    /// The place of the number in the total order of the standard, which puts the negative zero
    /// below the positive one and the NaNs at the two ends.
    pub open spec fn total_rank(self) -> int {
        if self.negative() {
            -self.magnitude() - 1
        } else {
            self.magnitude()
        }
    }

    /// The larger of the two numbers; where one of them is a NaN, the other one.
    pub open spec fn larger(self, other: Single) -> Single {
        if self.nan() || self.lt(other) {
            other
        } else {
            self
        }
    }

    /// Negative infinity.
    pub fn neg_infinity() -> (s: Single)
        ensures
            s == (Single { bits: 0xff80_0000 }),
    {
        Single { bits: 0xff80_0000 }
    }

    /// Positive infinity.
    pub fn infinity() -> (s: Single)
        ensures
            s == (Single { bits: 0x7f80_0000 }),
    {
        Single { bits: 0x7f80_0000 }
    }

    /// Zero.
    pub fn zero() -> (s: Single)
        ensures
            s == (Single { bits: 0 }),
    {
        Single { bits: 0 }
    }

    /// Whether the number is a NaN.
    pub fn is_nan(&self) -> (r: bool)
        ensures
            r == self.nan(),
    {
        let magnitude: u32 = if self.bits >= 0x8000_0000 {
            self.bits - 0x8000_0000
        } else {
            self.bits
        };
        magnitude > 0x7f80_0000
    }

    /// Whether the number is neither infinite nor a NaN.
    pub fn is_finite(&self) -> (r: bool)
        ensures
            r == self.finite(),
    {
        let magnitude: u32 = if self.bits >= 0x8000_0000 {
            self.bits - 0x8000_0000
        } else {
            self.bits
        };
        magnitude < 0x7f80_0000
    }

    fn signed_rank(&self) -> (r: i64)
        ensures
            r == self.rank(),
    {
        if self.bits >= 0x8000_0000 {
            -((self.bits - 0x8000_0000) as i64)
        } else {
            self.bits as i64
        }
    }

    /// `self < other`.
    pub fn is_below(&self, other: Single) -> (r: bool)
        ensures
            r == self.lt(other),
    {
        !self.is_nan() && !other.is_nan() && self.signed_rank() < other.signed_rank()
    }

    /// `self <= other`.
    pub fn is_at_most(&self, other: Single) -> (r: bool)
        ensures
            r == self.le(other),
    {
        !self.is_nan() && !other.is_nan() && self.signed_rank() <= other.signed_rank()
    }

    /// The larger of the two numbers; where one of them is a NaN, the other one.
    pub fn max(self, other: Single) -> (r: Single)
        ensures
            r == self.larger(other),
    {
        if self.is_nan() || self.is_below(other) {
            other
        } else {
            self
        }
    }

    /// The place of the number in the total order of the standard.
    pub fn total_order_key(&self) -> (r: i64)
        ensures
            r == self.total_rank(),
    {
        if self.bits >= 0x8000_0000 {
            -((self.bits - 0x8000_0000) as i64) - 1
        } else {
            self.bits as i64
        }
    }
}

/// The order of the numbers is strict and transitive, and any two numbers that are not NaNs are
/// comparable.
pub proof fn order_is_a_weak_order(a: Single, b: Single, c: Single)
    ensures
        !a.lt(a),
        a.lt(b) ==> !b.lt(a),
        a.lt(b) && b.lt(c) ==> a.lt(c),
        !a.nan() && !b.nan() ==> a.lt(b) || b.le(a),
        a.le(b) && b.le(c) ==> a.le(c),
{
}

/// The total order extends the order of the numbers, and only equal bit patterns share a place.
pub proof fn total_order_extends_the_order(a: Single, b: Single)
    ensures
        a.lt(b) ==> a.total_rank() < b.total_rank(),
        a.total_rank() == b.total_rank() ==> a == b,
{
}

/// Numbers above zero are ordered as their bits are, a change of sign reverses the order, both zeros
/// are equal, and what is no number is neither less than nor equal to anything.
pub proof fn order_follows_the_bits(a: Single, b: Single, minus_a: Single, minus_b: Single)
    requires
        a.bits <= 0x7fff_ffff,
        b.bits <= 0x7fff_ffff,
        minus_a.bits == a.bits + 0x8000_0000,
        minus_b.bits == b.bits + 0x8000_0000,
    ensures
        a.bits <= 0x7f80_0000 && b.bits <= 0x7f80_0000 ==> {
            &&& a.lt(b) == (a.bits < b.bits)
            &&& a.le(b) == (a.bits <= b.bits)
            &&& minus_b.lt(minus_a) == a.lt(b)
            &&& minus_b.le(minus_a) == a.le(b)
            &&& minus_a.le(b)
            &&& minus_a.lt(b) == (a.bits != 0 || b.bits != 0)
            &&& !b.lt(minus_a)
        },
        a.bits > 0x7f80_0000 ==> {
            &&& a.nan() && minus_a.nan()
            &&& !a.lt(b) && !b.lt(a) && !a.le(b) && !b.le(a)
            &&& !minus_a.lt(b) && !b.lt(minus_a) && !minus_a.le(b) && !b.le(minus_a)
        },
        a.nan() == (a.bits > 0x7f80_0000),
        a.finite() == (a.bits < 0x7f80_0000),
        minus_a.finite() == a.finite(),
        // the total order puts every negative pattern below every positive one
        minus_a.total_rank() < b.total_rank(),
        a.total_rank() < b.total_rank() <==> a.bits < b.bits,
        minus_a.total_rank() < minus_b.total_rank() <==> b.bits < a.bits,
{
}

/// The larger one of two numbers is one of them and no less than either; what is no number gives way
/// to the other.
pub proof fn larger_is_no_less_than_either(a: Single, b: Single)
    ensures
        a.larger(b) == a || a.larger(b) == b,
        !a.nan() && !b.nan() ==> a.le(a.larger(b)) && b.le(a.larger(b)),
        a.nan() ==> a.larger(b) == b,
        !a.nan() && b.nan() ==> a.larger(b) == a,
{
}

} // verus!
