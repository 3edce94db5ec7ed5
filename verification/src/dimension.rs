//! Which axes an observation grid extends along, in the order they were given.

use vstd::prelude::*;
use crate::axis::{to_i32, Axis};

verus! {

/// The axes along which a grid extends, first given first.
#[derive(PartialEq, Eq, Structural, Copy, Clone, Debug)]
pub enum Dimension {
    Zero,
    One(Axis),
    Two(Axis, Axis),
    Three(Axis, Axis, Axis),
}

impl Dimension {
    /// The axes in the order they were appended.
    pub open spec fn view(&self) -> Seq<Axis> {
        match *self {
            Dimension::Zero => seq![],
            Dimension::One(f) => seq![f],
            Dimension::Two(f, s) => seq![f, s],
            Dimension::Three(f, s, t) => seq![f, s, t],
        }
    }

    /// No axis occurs twice.
    pub open spec fn distinct(&self) -> bool {
        self@.no_duplicates()
    }

    /// Adds an axis behind those already there. A dimension holds at most three.
    pub fn append(&mut self, new_axis: Axis)
        requires
            old(self)@.len() < 3,
        ensures
            final(self)@ == old(self)@.push(new_axis),
    {
        match *self {
            Dimension::Zero => {
                *self = Dimension::One(new_axis);
            },
            Dimension::One(f) => {
                *self = Dimension::Two(f, new_axis);
            },
            Dimension::Two(f, s) => {
                *self = Dimension::Three(f, s, new_axis);
            },
            Dimension::Three(_, _, _) => {},
        }
        assert(final(self)@ =~= old(self)@.push(new_axis));
    }

    /// The axes with `axis` behind them; a dimension of three axes stays as it is.
    pub open spec fn pushed(self, axis: Axis) -> Dimension {
        match self {
            Dimension::Zero => Dimension::One(axis),
            Dimension::One(f) => Dimension::Two(f, axis),
            Dimension::Two(f, s) => Dimension::Three(f, s, axis),
            Dimension::Three(f, s, t) => self,
        }
    }

    /// The grid does not extend along `axis` yet, and `count` points along it
    /// are more than the single one of a fixed coordinate.
    pub open spec fn fresh(self, axis: Axis, count: int) -> bool {
        !self@.contains(axis) && count != 1
    }

    /// The dimension once the numbers of points along the three axes are
    /// `nx`, `ny` and `nz`: an axis that has become fresh is appended. There is
    /// no such dimension where two axes are fresh at once, nor where the
    /// dimension holds three axes already. A dimension that names one axis
    /// twice stays as it is.
    pub open spec fn updated(self, nx: int, ny: int, nz: int) -> Option<Dimension> {
        let fx = self.fresh(Axis::X, nx);
        let fy = self.fresh(Axis::Y, ny);
        let fz = self.fresh(Axis::Z, nz);
        if self@.len() == 3 {
            None
        } else if !self.distinct() {
            Some(self)
        } else if !fx && !fy && !fz {
            Some(self)
        } else if fx && !fy && !fz {
            Some(self.pushed(Axis::X))
        } else if !fx && fy && !fz {
            Some(self.pushed(Axis::Y))
        } else if !fx && !fy && fz {
            Some(self.pushed(Axis::Z))
        } else {
            None
        }
    }

    /// Updating a dimension that names no axis twice gives one that names no
    /// axis twice, and only ever adds an axis behind those that are there.
    pub proof fn lemma_updated_stays_distinct(self, nx: int, ny: int, nz: int)
        requires
            self.distinct(),
            self.updated(nx, ny, nz).is_some(),
        ensures
            self.updated(nx, ny, nz).unwrap().distinct(),
            self.updated(nx, ny, nz).unwrap() == self || exists|axis: Axis|
                !self@.contains(axis) && #[trigger] self.pushed(axis) == self.updated(
                    nx,
                    ny,
                    nz,
                ).unwrap(),
    {
        let after = self.updated(nx, ny, nz).unwrap();
        if after != self {
            let axis = if self.fresh(Axis::X, nx) {
                Axis::X
            } else if self.fresh(Axis::Y, ny) {
                Axis::Y
            } else {
                Axis::Z
            };
            assert(after == self.pushed(axis));
            self.lemma_pushed(axis);
            assert forall|i: int, j: int|
                0 <= i < after@.len() && 0 <= j < after@.len() && i != j implies after@[i]
                != after@[j] by {
                if i < self@.len() && j < self@.len() {
                    assert(self@[i] != self@[j]);
                } else if i < self@.len() {
                    assert(self@.contains(self@[i]));
                } else {
                    assert(self@.contains(self@[j]));
                }
            }
        }
    }

    /// The dimension once the numbers of points along the three axes are
    /// `nx`, `ny` and `nz`, or `None` where there is none.
    pub fn update(self, nx: usize, ny: usize, nz: usize) -> (r: Option<Dimension>)
        ensures
            r == self.updated(nx as int, ny as int, nz as int),
            r.is_some() && self.distinct() ==> r.unwrap().distinct(),
    {
        proof {
            if self.distinct() && self.updated(nx as int, ny as int, nz as int).is_some() {
                self.lemma_updated_stays_distinct(nx as int, ny as int, nz as int);
            }
        }
        match self {
            Dimension::Three(_, _, _) => None,
            Dimension::Two(f, s) => {
                assert(self@[0] == f && self@[1] == s);
                if f == s {
                    Some(self)
                } else {
                    let fx: bool = !self.contains(Axis::X) && nx != 1;
                    let fy: bool = !self.contains(Axis::Y) && ny != 1;
                    let fz: bool = !self.contains(Axis::Z) && nz != 1;
                    Self::append_fresh(self, fx, fy, fz)
                }
            },
            _ => {
                let fx: bool = !self.contains(Axis::X) && nx != 1;
                let fy: bool = !self.contains(Axis::Y) && ny != 1;
                let fz: bool = !self.contains(Axis::Z) && nz != 1;
                Self::append_fresh(self, fx, fy, fz)
            },
        }
    }

    fn append_fresh(d: Dimension, fx: bool, fy: bool, fz: bool) -> (r: Option<Dimension>)
        requires
            d@.len() < 3,
        ensures
            r == if !fx && !fy && !fz {
                Some(d)
            } else if fx && !fy && !fz {
                Some(d.pushed(Axis::X))
            } else if !fx && fy && !fz {
                Some(d.pushed(Axis::Y))
            } else if !fx && !fy && fz {
                Some(d.pushed(Axis::Z))
            } else {
                None
            },
    {
        let mut next: Dimension = d;
        if !fx && !fy && !fz {
            Some(next)
        } else if fx && !fy && !fz {
            next.append(Axis::X);
            proof {
                d.lemma_pushed(Axis::X);
                next.lemma_view_determines(d.pushed(Axis::X));
            }
            Some(next)
        } else if !fx && fy && !fz {
            next.append(Axis::Y);
            proof {
                d.lemma_pushed(Axis::Y);
                next.lemma_view_determines(d.pushed(Axis::Y));
            }
            Some(next)
        } else if !fx && !fy && fz {
            next.append(Axis::Z);
            proof {
                d.lemma_pushed(Axis::Z);
                next.lemma_view_determines(d.pushed(Axis::Z));
            }
            Some(next)
        } else {
            None
        }
    }

    /// `pushed` appends to the view where there is room.
    pub proof fn lemma_pushed(self, axis: Axis)
        requires
            self@.len() < 3,
        ensures
            self.pushed(axis)@ == self@.push(axis),
    {
        assert(self.pushed(axis)@ =~= self@.push(axis));
    }

    /// A dimension is its view: two with the same axes in the same order are one.
    pub proof fn lemma_view_determines(self, other: Dimension)
        requires
            self@ == other@,
        ensures
            self == other,
    {
        self.lemma_view_len();
        other.lemma_view_len();
        match (self, other) {
            (Dimension::One(f), Dimension::One(g)) => {
                assert(self@[0] == f && other@[0] == g);
            },
            (Dimension::Two(f, s), Dimension::Two(g, t)) => {
                assert(self@[0] == f && other@[0] == g);
                assert(self@[1] == s && other@[1] == t);
            },
            (Dimension::Three(f, s, t), Dimension::Three(g, u, v)) => {
                assert(self@[0] == f && other@[0] == g);
                assert(self@[1] == s && other@[1] == u);
                assert(self@[2] == t && other@[2] == v);
            },
            _ => {},
        }
    }

    /// The view is as long as the dimension has axes.
    pub proof fn lemma_view_len(self)
        ensures
            self@.len() == match self {
                Dimension::Zero => 0nat,
                Dimension::One(_) => 1nat,
                Dimension::Two(_, _) => 2nat,
                Dimension::Three(_, _, _) => 3nat,
            },
    {
    }

    /// The integer code of the axis at a position of the view, or -1 where
    /// the view is shorter.
    pub open spec fn code_at(self, k: int) -> int {
        if 0 <= k < self@.len() {
            self@[k].index()
        } else {
            -1
        }
    }

    /// The integer codes of the first, second and third axis, -1 for each
    /// that is not there.
    pub fn codes(self) -> (r: (i32, i32, i32))
        ensures
            r.0 == self.code_at(0),
            r.1 == self.code_at(1),
            r.2 == self.code_at(2),
    {
        match self {
            Dimension::Zero => (-1, -1, -1),
            Dimension::One(f) => (to_i32(f), -1, -1),
            Dimension::Two(f, s) => (to_i32(f), to_i32(s), -1),
            Dimension::Three(f, s, t) => (to_i32(f), to_i32(s), to_i32(t)),
        }
    }

    /// Whether the grid extends along `axis`.
    pub fn contains(self, axis: Axis) -> (b: bool)
        ensures
            b == self@.contains(axis),
    {
        match self {
            Dimension::Zero => false,
            Dimension::One(f) => {
                assert(self@[0] == f);
                f == axis
            },
            Dimension::Two(f, s) => {
                assert(self@[0] == f && self@[1] == s);
                f == axis || s == axis
            },
            Dimension::Three(f, s, t) => {
                assert(self@[0] == f && self@[1] == s && self@[2] == t);
                f == axis || s == axis || t == axis
            },
        }
    }
}

} // verus!
