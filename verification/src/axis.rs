//! The three coordinate axes and their integer codes.

use vstd::prelude::*;

verus! {

/// A coordinate axis of the observation space.
#[derive(PartialEq, Eq, Structural, Copy, Clone, Debug)]
pub enum Axis {
    X,
    Y,
    Z,
}

impl Axis {
    /// The position of the axis in a coordinate triple: 0 for `X`, 1 for `Y`, 2 for `Z`.
    pub open spec fn index(self) -> int {
        match self {
            Axis::X => 0,
            Axis::Y => 1,
            Axis::Z => 2,
        }
    }

    /// The axis at a position of a coordinate triple; `Z` stands for every position from 2 on.
    pub open spec fn at(index: int) -> Axis {
        if index == 0 {
            Axis::X
        } else if index == 1 {
            Axis::Y
        } else {
            Axis::Z
        }
    }

    /// The position of the axis in a coordinate triple.
    pub fn position(self) -> (p: usize)
        ensures
            p == self.index(),
            p < 3,
    {
        match self {
            Axis::X => 0,
            Axis::Y => 1,
            Axis::Z => 2,
        }
    }
}

/// The integer code of an axis, as it crosses a foreign-function boundary.
pub fn to_i32(axis: Axis) -> (code: i32)
    ensures
        code == axis.index(),
{
    match axis {
        Axis::X => 0,
        Axis::Y => 1,
        Axis::Z => 2,
    }
}

/// The axis that an integer code stands for. Only 0, 1 and 2 are codes.
pub fn from_i32(axis: i32) -> (a: Axis)
    requires
        0 <= axis <= 2,
    ensures
        a == Axis::at(axis as int),
        a.index() == axis,
{
    if axis == 0 {
        Axis::X
    } else if axis == 1 {
        Axis::Y
    } else {
        Axis::Z
    }
}

/// The axis that an integer code stands for, or `None` where the integer is no code.
pub fn try_from_i32(axis: i32) -> (a: Option<Axis>)
    ensures
        a.is_some() <==> 0 <= axis <= 2,
        a.is_some() ==> a.unwrap() == Axis::at(axis as int),
{
    if 0 <= axis && axis <= 2 {
        Some(from_i32(axis))
    } else {
        None
    }
}

/// Coding an axis and decoding the code gives the axis back, and the other way round.
pub proof fn axis_code_round_trip(axis: Axis, code: int)
    ensures
        Axis::at(axis.index()) == axis,
        0 <= code <= 2 ==> Axis::at(code).index() == code,
{
}

} // verus!
