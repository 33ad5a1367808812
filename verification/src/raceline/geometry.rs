//! Unit vectors of the plane.

use vstd::prelude::*;

use crate::scalar::Single;

verus! {

/// The distance from one to the next number.
pub const SINGLE_EPSILON: u32 = 0x3400_0000;

/// A vector of length one.
#[derive(Clone, Copy, Debug, PartialEq, Eq, Structural)]
pub struct UnitVector2 {
    pub x: Single,
    pub y: Single,
}

impl UnitVector2 {
    /// The vector with the given quotients of components and norm; nothing if
    /// the norm is too small or no number. A norm that is a NaN is no number
    /// either.
    pub fn new(norm: Single, x_over_norm: Single, y_over_norm: Single) -> (out: Option<Self>)
        ensures
            out == if norm.at_most(Single { bits: SINGLE_EPSILON }) || !norm.finite() {
                None
            } else {
                Some(UnitVector2 { x: x_over_norm, y: y_over_norm })
            },
    {
        if norm.le(Single { bits: SINGLE_EPSILON }) || !norm.is_finite() {
            return None;
        }
        Some(UnitVector2 { x: x_over_norm, y: y_over_norm })
    }

    /// The vector turned a quarter to the left.
    pub open spec fn turned_left(self) -> Self {
        UnitVector2 { x: self.y.negated(), y: self.x }
    }

    /// The vector turned a quarter to the right.
    pub open spec fn turned_right(self) -> Self {
        UnitVector2 { x: self.y, y: self.x.negated() }
    }

    /// The vector turned a quarter to the left.
    pub fn left_normal(self) -> (out: Self)
        ensures
            out == self.turned_left(),
    {
        UnitVector2 { x: self.y.neg(), y: self.x }
    }

    /// The vector turned a quarter to the right.
    pub fn right_normal(self) -> (out: Self)
        ensures
            out == self.turned_right(),
    {
        UnitVector2 { x: self.y, y: self.x.neg() }
    }
}

/// Turning left and then right gives the vector back.
pub proof fn law_turns_cancel(v: UnitVector2)
    ensures
        v.turned_left().turned_right() == v,
        v.turned_right().turned_left() == v,
{
}

} // verus!
