//! The number of observation points along each axis.

use vstd::prelude::*;
use crate::axis::Axis;

verus! {

/// How many observation points a buffer holds along `x`, `y` and `z`.
#[derive(Debug, Copy, Clone)]
pub struct Bounds {
    x: usize,
    y: usize,
    z: usize,
}

impl Bounds {
    /// The three counts as a sequence, `x` first.
    pub closed spec fn view(&self) -> Seq<int> {
        seq![self.x as int, self.y as int, self.z as int]
    }

    /// The count along one axis.
    pub open spec fn along(&self, axis: Axis) -> int {
        self@[axis.index()]
    }

    /// The number of points in the whole box.
    pub open spec fn volume(&self) -> int {
        self@[0] * self@[1] * self@[2]
    }

    pub fn new(x: usize, y: usize, z: usize) -> (b: Self)
        ensures
            b@ == seq![x as int, y as int, z as int],
    {
        Self { x, y, z }
    }

    pub fn x(&self) -> (r: usize)
        ensures
            r == self@[0],
    {
        self.x
    }

    pub fn y(&self) -> (r: usize)
        ensures
            r == self@[1],
    {
        self.y
    }

    pub fn z(&self) -> (r: usize)
        ensures
            r == self@[2],
    {
        self.z
    }

    /// The count at a position of the triple: 0 for `x`, 1 for `y`, 2 for `z`.
    pub fn get(&self, idx: usize) -> (r: usize)
        requires
            idx < 3,
        ensures
            r == self@[idx as int],
    {
        if idx == 0 {
            self.x
        } else if idx == 1 {
            self.y
        } else {
            self.z
        }
    }

    /// The count along one axis.
    pub fn count(&self, axis: Axis) -> (r: usize)
        ensures
            r == self.along(axis),
    {
        match axis {
            Axis::X => self.x,
            Axis::Y => self.y,
            Axis::Z => self.z,
        }
    }

    /// The number of points in the whole box. The product has to fit the machine word.
    pub fn size(&self) -> (r: usize)
        requires
            self.volume() <= usize::MAX,
        ensures
            r == self.volume(),
    {
        proof {
            self.lemma_shape();
        }
        if self.z == 0 {
            0
        } else {
            proof {
                Self::lemma_partial_product(self.x as int, self.y as int, self.z as int);
            }
            self.x * self.y * self.z
        }
    }

    /// The number of points in the whole box, or `None` where it does not fit the machine word.
    pub fn checked_size(&self) -> (r: Option<usize>)
        ensures
            r.is_some() <==> self.volume() <= usize::MAX,
            r.is_some() ==> r.unwrap() == self.volume(),
    {
        proof {
            self.lemma_shape();
        }
        match self.x.checked_mul(self.y) {
            Some(xy) => xy.checked_mul(self.z),
            None => {
                if self.z == 0 {
                    Some(0)
                } else {
                    proof {
                        Self::lemma_partial_product(self.x as int, self.y as int, self.z as int);
                    }
                    None
                }
            },
        }
    }

    /// The view has three entries, each a machine word.
    pub proof fn lemma_shape(&self)
        ensures
            self@.len() == 3,
            0 <= self@[0] <= usize::MAX,
            0 <= self@[1] <= usize::MAX,
            0 <= self@[2] <= usize::MAX,
    {
    }

    proof fn lemma_partial_product(x: int, y: int, z: int)
        requires
            0 <= x,
            0 <= y,
            0 < z,
        ensures
            0 <= x * y <= x * y * z,
    {
        assert(0 <= x * y) by (nonlinear_arith)
            requires
                0 <= x,
                0 <= y,
        ;
        assert(x * y <= x * y * z) by (nonlinear_arith)
            requires
                0 <= x * y,
                0 < z,
        ;
    }
}

} // verus!
