//! The kinds of scalar field that a buffer can hold.

use vstd::prelude::*;

verus! {

/// What a scalar buffer holds at each observation point.
#[derive(PartialEq, Eq, Structural, Copy, Clone, Debug)]
pub enum BufferType {
    /// The magnitude of the complex field.
    AmplitudeFieldBuffer,
    /// The squared magnitude of the complex field.
    IntensityFieldBuffer,
}

impl BufferType {
    /// The integer code of the kind: 1 for amplitude, 2 for intensity.
    pub open spec fn code(self) -> int {
        match self {
            BufferType::AmplitudeFieldBuffer => 1,
            BufferType::IntensityFieldBuffer => 2,
        }
    }

    /// The kind that an integer code stands for. Only 1 and 2 are codes.
    pub fn from_i32(x: i32) -> (t: Self)
        requires
            x == 1 || x == 2,
        ensures
            t.code() == x,
    {
        if x == 1 {
            BufferType::AmplitudeFieldBuffer
        } else {
            BufferType::IntensityFieldBuffer
        }
    }

    /// The kind that an integer code stands for, or `None` where the integer
    /// is no code.
    pub fn try_from_i32(x: i32) -> (t: Option<Self>)
        ensures
            t.is_some() <==> (x == 1 || x == 2),
            t.is_some() ==> t.unwrap().code() == x,
    {
        if x == 1 || x == 2 {
            Some(Self::from_i32(x))
        } else {
            None
        }
    }

    /// The integer code of the kind.
    pub fn to_i32(self) -> (x: i32)
        ensures
            x == self.code(),
    {
        match self {
            BufferType::AmplitudeFieldBuffer => 1,
            BufferType::IntensityFieldBuffer => 2,
        }
    }
}

} // verus!
