//! Floating-point numbers by their bit patterns.
//!
//! [`Single`] and [`Double`] hold the IEEE 754 encodings of single- and
//! double-precision numbers. Everything that does not need rounding is defined
//! on them: classification, the numeric order (in which a NaN compares with
//! nothing and the two zeros are equal), the total order (in which every two
//! different encodings differ), sign changes, and picking the smaller or larger
//! of two numbers.

use vstd::prelude::*;

verus! {

/// The sign bit of a single-precision encoding.
pub const SINGLE_SIGN: u32 = 0x8000_0000;

/// The encoding of single-precision positive infinity.
pub const SINGLE_INFINITY: u32 = 0x7F80_0000;

/// The encoding of the largest finite single-precision number.
pub const SINGLE_MAX: u32 = 0x7F7F_FFFF;

/// The encoding of the single-precision number one.
pub const SINGLE_ONE: u32 = 0x3F80_0000;

/// 0.5.
pub const SINGLE_HALF: u32 = 0x3F00_0000;

/// What the encoding grows by when a normal number is doubled.
pub const SINGLE_EXPONENT_STEP: u32 = 0x0080_0000;

/// The sign bit of a double-precision encoding.
pub const DOUBLE_SIGN: u64 = 0x8000_0000_0000_0000;

/// 1 in double precision.
pub const DOUBLE_ONE: u64 = 0x3FF0_0000_0000_0000;

/// The encoding of double-precision positive infinity.
pub const DOUBLE_INFINITY: u64 = 0x7FF0_0000_0000_0000;

/// A single-precision number, held by its encoding.
///
/// `==` compares encodings; the numeric comparison is [`Single::same`].
#[derive(Clone, Copy, Debug, PartialEq, Eq, Structural)]
pub struct Single {
    pub bits: u32,
}

/// A double-precision number, held by its encoding.
///
/// `==` compares encodings; the numeric comparison is [`Double::same`].
#[derive(Clone, Copy, Debug, PartialEq, Eq, Structural)]
pub struct Double {
    pub bits: u64,
}

/// A point of the plane.
#[derive(Clone, Copy, Debug, PartialEq, Eq, Structural)]
pub struct Point2 {
    pub x: Single,
    pub y: Single,
}

impl Single {
    /// The sign bit is set.
    pub open spec fn negative(self) -> bool {
        self.bits >= SINGLE_SIGN
    }

    /// The encoding without its sign bit. It grows with the absolute value.
    pub open spec fn magnitude(self) -> int {
        if self.negative() {
            self.bits - SINGLE_SIGN
        } else {
            self.bits as int
        }
    }

    /// The number is not a number.
    pub open spec fn nan(self) -> bool {
        self.magnitude() > SINGLE_INFINITY
    }

    /// The number is neither infinite nor a NaN.
    pub open spec fn finite(self) -> bool {
        self.magnitude() < SINGLE_INFINITY
    }

    /// The place of a number among the numbers that are no NaN. The two zeros
    /// share the place zero.
    pub open spec fn rank(self) -> int {
        if self.negative() {
            -self.magnitude()
        } else {
            self.magnitude()
        }
    }

    /// The place of an encoding in the total order.
    pub open spec fn key(self) -> int {
        if self.negative() {
            -self.magnitude() - 1
        } else {
            self.magnitude()
        }
    }

    /// Numerically less.
    pub open spec fn less(self, other: Self) -> bool {
        !self.nan() && !other.nan() && self.rank() < other.rank()
    }

    /// Numerically less or equal.
    pub open spec fn at_most(self, other: Self) -> bool {
        !self.nan() && !other.nan() && self.rank() <= other.rank()
    }

    /// Numerically equal.
    pub open spec fn equals(self, other: Self) -> bool {
        !self.nan() && !other.nan() && self.rank() == other.rank()
    }

    /// The absolute value.
    pub open spec fn absolute(self) -> Self {
        if self.negative() {
            Single { bits: (self.bits - SINGLE_SIGN) as u32 }
        } else {
            self
        }
    }

    /// The smaller of two numbers; of a NaN and another number, the other.
    pub open spec fn lesser(self, other: Self) -> Self {
        if self.nan() || other.less(self) {
            other
        } else {
            self
        }
    }

    /// The larger of two numbers; of a NaN and another number, the other.
    pub open spec fn greater(self, other: Self) -> Self {
        if self.nan() || self.less(other) {
            other
        } else {
            self
        }
    }

    /// The number moved into a range.
    pub open spec fn clamped(self, low: Self, high: Self) -> Self {
        if self.less(low) {
            low
        } else if high.less(self) {
            high
        } else {
            self
        }
    }

    /// The number itself, or zero where it is infinite or not a number.
    pub open spec fn or_zero(self) -> Self {
        if self.finite() {
            self
        } else {
            Single { bits: 0 }
        }
    }

    /// The number with the other sign.
    pub open spec fn negated(self) -> Self {
        Single {
            bits: (if self.negative() {
                self.bits - SINGLE_SIGN
            } else {
                self.bits + SINGLE_SIGN
            }) as u32,
        }
    }

    /// The half of the number. Above the smallest normal numbers the exponent
    /// falls by one; below, the encoding counts in steps of one size and is
    /// halved, ties to the even one. An infinity or a NaN stays what it is.
    pub open spec fn halved(self) -> Self {
        let m = self.magnitude();
        let half = if m >= SINGLE_INFINITY {
            m
        } else if m >= 2 * SINGLE_EXPONENT_STEP {
            m - SINGLE_EXPONENT_STEP
        } else if m % 4 == 3 {
            m / 2 + 1
        } else {
            m / 2
        };
        Single {
            bits: (if self.negative() {
                half + SINGLE_SIGN
            } else {
                half
            }) as u32,
        }
    }

    /// Wraps an encoding.
    pub fn new(bits: u32) -> (out: Self)
        ensures
            out.bits == bits,
    {
        Single { bits }
    }

    /// The number zero.
    pub fn zero() -> (out: Self)
        ensures
            out == (Single { bits: 0 }),
            out.rank() == 0,
            !out.nan(),
    {
        Single { bits: 0 }
    }

    /// Positive infinity.
    pub fn infinity() -> (out: Self)
        ensures
            out == (Single { bits: SINGLE_INFINITY }),
            !out.nan(),
            !out.finite(),
    {
        Single { bits: SINGLE_INFINITY }
    }

    /// The half of the number.
    pub fn half(self) -> (out: Self)
        ensures
            out == self.halved(),
    {
        let negative: bool = self.bits >= SINGLE_SIGN;
        let m: u32 = if negative {
            self.bits - SINGLE_SIGN
        } else {
            self.bits
        };
        let half: u32 = if m >= SINGLE_INFINITY {
            m
        } else if m >= 2 * SINGLE_EXPONENT_STEP {
            m - SINGLE_EXPONENT_STEP
        } else if m % 4 == 3 {
            m / 2 + 1
        } else {
            m / 2
        };
        if negative {
            Single { bits: half + SINGLE_SIGN }
        } else {
            Single { bits: half }
        }
    }

    /// The number with the other sign.
    pub fn neg(self) -> (out: Self)
        ensures
            out == self.negated(),
    {
        if self.bits >= SINGLE_SIGN {
            Single { bits: self.bits - SINGLE_SIGN }
        } else {
            Single { bits: self.bits + SINGLE_SIGN }
        }
    }

    /// Whether the sign bit is set.
    pub fn is_negative(self) -> (out: bool)
        ensures
            out == self.negative(),
    {
        self.bits >= SINGLE_SIGN
    }

    /// Whether the number is a NaN.
    pub fn is_nan(self) -> (out: bool)
        ensures
            out == self.nan(),
    {
        if self.bits >= SINGLE_SIGN {
            self.bits - SINGLE_SIGN > SINGLE_INFINITY
        } else {
            self.bits > SINGLE_INFINITY
        }
    }

    /// Whether the number is neither infinite nor a NaN.
    pub fn is_finite(self) -> (out: bool)
        ensures
            out == self.finite(),
    {
        if self.bits >= SINGLE_SIGN {
            self.bits - SINGLE_SIGN < SINGLE_INFINITY
        } else {
            self.bits < SINGLE_INFINITY
        }
    }

    /// The place of the encoding in the total order.
    pub fn order_key(self) -> (out: i64)
        ensures
            out == self.key(),
    {
        if self.bits >= SINGLE_SIGN {
            -((self.bits - SINGLE_SIGN) as i64) - 1
        } else {
            self.bits as i64
        }
    }

    fn numeric_rank(self) -> (out: i64)
        ensures
            out == self.rank(),
    {
        if self.bits >= SINGLE_SIGN {
            -((self.bits - SINGLE_SIGN) as i64)
        } else {
            self.bits as i64
        }
    }

    /// `self < other`.
    pub fn lt(self, other: Self) -> (out: bool)
        ensures
            out == self.less(other),
    {
        !self.is_nan() && !other.is_nan() && self.numeric_rank() < other.numeric_rank()
    }

    /// `self <= other`.
    pub fn le(self, other: Self) -> (out: bool)
        ensures
            out == self.at_most(other),
    {
        !self.is_nan() && !other.is_nan() && self.numeric_rank() <= other.numeric_rank()
    }

    /// `self > other`.
    pub fn gt(self, other: Self) -> (out: bool)
        ensures
            out == other.less(self),
    {
        other.lt(self)
    }

    /// `self >= other`.
    pub fn ge(self, other: Self) -> (out: bool)
        ensures
            out == other.at_most(self),
    {
        other.le(self)
    }

    /// Whether the two are numerically equal.
    pub fn same(self, other: Self) -> (out: bool)
        ensures
            out == self.equals(other),
    {
        !self.is_nan() && !other.is_nan() && self.numeric_rank() == other.numeric_rank()
    }

    /// Whether `self` comes before `other` in the total order.
    pub fn before(self, other: Self) -> (out: bool)
        ensures
            out == (self.key() < other.key()),
    {
        self.order_key() < other.order_key()
    }

    /// The absolute value.
    pub fn abs(self) -> (out: Self)
        ensures
            out == self.absolute(),
            out.magnitude() == self.magnitude(),
            !out.negative(),
    {
        if self.bits >= SINGLE_SIGN {
            Single { bits: self.bits - SINGLE_SIGN }
        } else {
            self
        }
    }

    /// The smaller of two numbers; of a NaN and another number, the other.
    pub fn min(self, other: Self) -> (out: Self)
        ensures
            out == self.lesser(other),
    {
        if self.is_nan() || other.lt(self) {
            other
        } else {
            self
        }
    }

    /// The number moved into a range; a NaN stays one.
    pub fn clamp(self, low: Self, high: Self) -> (out: Self)
        requires
            low.at_most(high),
        ensures
            out == self.clamped(low, high),
            !self.nan() ==> low.at_most(out) && out.at_most(high),
    {
        if self.lt(low) {
            low
        } else if self.gt(high) {
            high
        } else {
            self
        }
    }

    /// The number itself, or zero where it is infinite or not a number.
    pub fn finite_or_zero(self) -> (out: Self)
        ensures
            out == self.or_zero(),
            out.finite(),
    {
        if self.is_finite() {
            self
        } else {
            Single::zero()
        }
    }

    /// The larger of two numbers; of a NaN and another number, the other.
    pub fn max(self, other: Self) -> (out: Self)
        ensures
            out == self.greater(other),
    {
        if self.is_nan() || self.lt(other) {
            other
        } else {
            self
        }
    }
}

impl Double {
    /// The sign bit is set.
    pub open spec fn negative(self) -> bool {
        self.bits >= DOUBLE_SIGN
    }

    /// The encoding without its sign bit. It grows with the absolute value.
    pub open spec fn magnitude(self) -> int {
        if self.negative() {
            self.bits - DOUBLE_SIGN
        } else {
            self.bits as int
        }
    }

    /// The number is not a number.
    pub open spec fn nan(self) -> bool {
        self.magnitude() > DOUBLE_INFINITY
    }

    /// The number is neither infinite nor a NaN.
    pub open spec fn finite(self) -> bool {
        self.magnitude() < DOUBLE_INFINITY
    }

    /// The place of a number among the numbers that are no NaN. The two zeros
    /// share the place zero.
    pub open spec fn rank(self) -> int {
        if self.negative() {
            -self.magnitude()
        } else {
            self.magnitude()
        }
    }

    /// Numerically less.
    pub open spec fn less(self, other: Self) -> bool {
        !self.nan() && !other.nan() && self.rank() < other.rank()
    }

    /// Numerically less or equal.
    pub open spec fn at_most(self, other: Self) -> bool {
        !self.nan() && !other.nan() && self.rank() <= other.rank()
    }

    /// Numerically equal.
    pub open spec fn equals(self, other: Self) -> bool {
        !self.nan() && !other.nan() && self.rank() == other.rank()
    }

    /// The number is zero, of either sign.
    pub open spec fn zero(self) -> bool {
        self.magnitude() == 0
    }

    /// The number without its sign.
    pub open spec fn absolute(self) -> Self {
        Double { bits: self.magnitude() as u64 }
    }

    /// The smaller of two numbers; of a NaN and another number, the other.
    pub open spec fn lesser(self, other: Self) -> Self {
        if self.nan() || other.less(self) {
            other
        } else {
            self
        }
    }

    /// The larger of two numbers; of a NaN and another number, the other.
    pub open spec fn greater(self, other: Self) -> Self {
        if self.nan() || self.less(other) {
            other
        } else {
            self
        }
    }

    /// The number with its sign turned.
    pub open spec fn negated(self) -> Self {
        Double {
            bits: (if self.negative() {
                self.bits - DOUBLE_SIGN
            } else {
                self.bits + DOUBLE_SIGN
            }) as u64,
        }
    }

    /// The number with its sign turned.
    pub fn neg(self) -> (out: Self)
        ensures
            out == self.negated(),
    {
        if self.bits >= DOUBLE_SIGN {
            Double { bits: self.bits - DOUBLE_SIGN }
        } else {
            Double { bits: self.bits + DOUBLE_SIGN }
        }
    }

    /// Wraps an encoding.
    pub fn new(bits: u64) -> (out: Self)
        ensures
            out.bits == bits,
    {
        Double { bits }
    }

    /// Whether the number is a NaN.
    pub fn is_nan(self) -> (out: bool)
        ensures
            out == self.nan(),
    {
        if self.bits >= DOUBLE_SIGN {
            self.bits - DOUBLE_SIGN > DOUBLE_INFINITY
        } else {
            self.bits > DOUBLE_INFINITY
        }
    }

    /// Whether the number is neither infinite nor a NaN.
    pub fn is_finite(self) -> (out: bool)
        ensures
            out == self.finite(),
    {
        if self.bits >= DOUBLE_SIGN {
            self.bits - DOUBLE_SIGN < DOUBLE_INFINITY
        } else {
            self.bits < DOUBLE_INFINITY
        }
    }

    /// Whether the number is zero, of either sign.
    pub fn is_zero(self) -> (out: bool)
        ensures
            out == self.zero(),
    {
        self.bits == 0 || self.bits == DOUBLE_SIGN
    }

    fn numeric_rank(self) -> (out: i128)
        ensures
            out == self.rank(),
    {
        if self.bits >= DOUBLE_SIGN {
            -((self.bits - DOUBLE_SIGN) as i128)
        } else {
            self.bits as i128
        }
    }

    /// `self < other`.
    pub fn lt(self, other: Self) -> (out: bool)
        ensures
            out == self.less(other),
    {
        !self.is_nan() && !other.is_nan() && self.numeric_rank() < other.numeric_rank()
    }

    /// `self <= other`.
    pub fn le(self, other: Self) -> (out: bool)
        ensures
            out == self.at_most(other),
    {
        !self.is_nan() && !other.is_nan() && self.numeric_rank() <= other.numeric_rank()
    }

    /// Whether the two are numerically equal.
    pub fn same(self, other: Self) -> (out: bool)
        ensures
            out == self.equals(other),
    {
        !self.is_nan() && !other.is_nan() && self.numeric_rank() == other.numeric_rank()
    }

    /// The number without its sign.
    pub fn abs(self) -> (out: Self)
        ensures
            out == self.absolute(),
    {
        if self.bits >= DOUBLE_SIGN {
            Double { bits: self.bits - DOUBLE_SIGN }
        } else {
            self
        }
    }

    /// The smaller of two numbers; of a NaN and another number, the other.
    pub fn min(self, other: Self) -> (out: Self)
        ensures
            out == self.lesser(other),
    {
        if self.is_nan() || other.lt(self) {
            other
        } else {
            self
        }
    }

    /// The larger of two numbers; of a NaN and another number, the other.
    pub fn max(self, other: Self) -> (out: Self)
        ensures
            out == self.greater(other),
    {
        if self.is_nan() || self.lt(other) {
            other
        } else {
            self
        }
    }
}

/// The total order separates every two encodings.
pub proof fn law_total_order_separates(a: Single, b: Single)
    ensures
        a.key() == b.key() <==> a == b,
{
}

/// Of two numbers that are no NaN, exactly one is less than the other or they
/// are equal; a NaN compares with nothing.
pub proof fn law_numeric_trichotomy(a: Single, b: Single)
    ensures
        !a.nan() && !b.nan() ==> (a.less(b) || a.equals(b) || b.less(a)),
        !(a.less(b) && b.less(a)),
        !(a.less(b) && a.equals(b)),
        a.nan() || b.nan() ==> !a.less(b) && !a.at_most(b) && !a.equals(b),
{
}

/// The total order refines the numeric order.
pub proof fn law_total_order_refines(a: Single, b: Single)
    ensures
        a.less(b) ==> a.key() < b.key(),
        a.key() < b.key() && !a.nan() && !b.nan() ==> a.at_most(b),
{
}

/// The smaller of two numbers is one of them and no larger than either; a NaN
/// does not count.
pub proof fn law_lesser_is_the_smaller(a: Single, b: Single)
    ensures
        a.lesser(b) == a || a.lesser(b) == b,
        !a.nan() ==> a.lesser(b).at_most(a),
        !b.nan() ==> a.lesser(b).at_most(b),
{
}

/// The larger of two numbers is one of them and no smaller than either; a NaN
/// does not count.
pub proof fn law_greater_is_the_larger(a: Single, b: Single)
    ensures
        a.greater(b) == a || a.greater(b) == b,
        !a.nan() ==> a.at_most(a.greater(b)),
        !b.nan() ==> b.at_most(a.greater(b)),
{
}

/// A number moved into a range lies in it, and one that lies there already stays
/// where it is.
pub proof fn law_clamping_moves_into_the_range(v: Single, low: Single, high: Single)
    requires
        !v.nan(),
        low.at_most(high),
    ensures
        low.at_most(v.clamped(low, high)),
        v.clamped(low, high).at_most(high),
        low.at_most(v) && v.at_most(high) ==> v.clamped(low, high) == v,
        v.at_most(low) ==> v.clamped(low, high).equals(low),
        high.at_most(v) ==> v.clamped(low, high).equals(high),
{
}

/// Turning the sign turns the order round, and turning it twice changes nothing.
pub proof fn law_sign_turns_the_order(a: Single, b: Single)
    ensures
        a.negated().negated() == a,
        a.negated() != a,
        a.less(b) <==> b.negated().less(a.negated()),
        a.nan() <==> a.negated().nan(),
{
}

/// The absolute value is the number or the number with the other sign, is the same
/// for both, and is not below zero.
pub proof fn law_absolute_is_not_below_zero(a: Single)
    ensures
        a.absolute() == a || a.absolute() == a.negated(),
        a.absolute() == a.negated().absolute(),
        !a.nan() ==> (Single { bits: 0 }).at_most(a.absolute()) && a.at_most(a.absolute()),
{
}

/// The same holds at double width: the smaller and the larger of two numbers, the
/// other sign, the absolute value.
pub proof fn law_doubles_are_ordered_alike(a: Double, b: Double)
    requires
        !a.nan(),
        !b.nan(),
    ensures
        a.less(b) || a.equals(b) || b.less(a),
        !(a.less(b) && b.less(a)),
        a.lesser(b) == a || a.lesser(b) == b,
        a.lesser(b).at_most(a) && a.lesser(b).at_most(b),
        a.greater(b) == a || a.greater(b) == b,
        a.at_most(a.greater(b)) && b.at_most(a.greater(b)),
        a.negated().negated() == a,
        a.less(b) <==> b.negated().less(a.negated()),
        a.absolute() == a || a.absolute() == a.negated(),
        (Double { bits: 0 }).at_most(a.absolute()),
        a.zero() <==> a.equals(a.negated()),
{
}

} // verus!
