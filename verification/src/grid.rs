//! The order in which the points of an observation grid are visited.
//!
//! A grid is a box of equally spaced points. Its points are numbered so that
//! the first axis of the layout runs fastest and the last slowest; a line
//! runs along its one axis only. A point is given by the number of steps it
//! lies from the origin along each axis.

use vstd::arithmetic::div_mod::{
    lemma_div_pos_is_pos,
    lemma_fundamental_div_mod,
    lemma_fundamental_div_mod_converse,
    lemma_mod_bound,
    lemma_multiply_divide_lt,
};
use vstd::prelude::*;
use crate::axis::Axis;
use crate::bounds::Bounds;
use crate::dimension::Dimension;

verus! {

/// A grid point: how many steps it lies from the origin along each axis.
#[derive(PartialEq, Eq, Structural, Copy, Clone, Debug)]
pub struct Steps {
    pub x: usize,
    pub y: usize,
    pub z: usize,
}

impl Steps {
    /// The number of steps along one axis.
    pub open spec fn along(self, axis: Axis) -> int {
        match axis {
            Axis::X => self.x as int,
            Axis::Y => self.y as int,
            Axis::Z => self.z as int,
        }
    }

    /// The origin of the grid.
    pub fn origin() -> (s: Steps)
        ensures
            s == (Steps { x: 0, y: 0, z: 0 }),
    {
        Steps { x: 0, y: 0, z: 0 }
    }

    /// The number of steps along one axis.
    pub fn get(self, axis: Axis) -> (r: usize)
        ensures
            r == self.along(axis),
    {
        match axis {
            Axis::X => self.x,
            Axis::Y => self.y,
            Axis::Z => self.z,
        }
    }

    /// The point with `count` steps along `axis` and those of `self` along the others.
    pub fn with(self, axis: Axis, count: usize) -> (s: Steps)
        ensures
            s.along(axis) == count,
            forall|other: Axis| other != axis ==> s.along(other) == self.along(other),
    {
        match axis {
            Axis::X => Steps { x: count, y: self.y, z: self.z },
            Axis::Y => Steps { x: self.x, y: count, z: self.z },
            Axis::Z => Steps { x: self.x, y: self.y, z: count },
        }
    }
}

/// Along which axes the points of a grid are visited, fastest axis first.
#[derive(PartialEq, Eq, Structural, Copy, Clone, Debug)]
pub enum Layout {
    Line(Axis),
    Plane(Axis, Axis),
    Volume(Axis, Axis, Axis),
}

impl Layout {
    /// No axis occurs twice.
    pub open spec fn valid(self) -> bool {
        match self {
            Layout::Line(_) => true,
            Layout::Plane(f, s) => f != s,
            Layout::Volume(f, s, t) => f != s && s != t && f != t,
        }
    }

    /// The layout of a grid of the given dimension. A grid without an axis is
    /// laid out as a line along `X`.
    pub open spec fn spec_of(dimension: Dimension) -> Layout {
        match dimension {
            Dimension::Zero => Layout::Line(Axis::X),
            Dimension::One(f) => Layout::Line(f),
            Dimension::Two(f, s) => Layout::Plane(f, s),
            Dimension::Three(f, s, t) => Layout::Volume(f, s, t),
        }
    }

    /// The dimension of a grid with this layout.
    pub open spec fn spec_dimension(self) -> Dimension {
        match self {
            Layout::Line(f) => Dimension::One(f),
            Layout::Plane(f, s) => Dimension::Two(f, s),
            Layout::Volume(f, s, t) => Dimension::Three(f, s, t),
        }
    }

    /// The number of points that are visited.
    pub open spec fn count(self, bounds: Bounds) -> int {
        match self {
            Layout::Line(_) => bounds.volume(),
            Layout::Plane(f, s) => bounds.along(f) * bounds.along(s),
            Layout::Volume(f, s, t) => bounds.along(f) * bounds.along(s) * bounds.along(t),
        }
    }

    /// The number of different step counts along `axis` among the visited
    /// points: a line takes all its points along its axis, a plane and a
    /// volume as many as the bounds give; an axis that the layout does not
    /// name is never left.
    pub open spec fn extent(self, bounds: Bounds, axis: Axis) -> int {
        match self {
            Layout::Line(f) => if axis == f {
                bounds.volume()
            } else {
                1
            },
            Layout::Plane(f, s) => if axis == f || axis == s {
                bounds.along(axis)
            } else {
                1
            },
            Layout::Volume(_, _, _) => bounds.along(axis),
        }
    }

    /// The point is among those visited.
    pub open spec fn holds(self, bounds: Bounds, p: Steps) -> bool {
        &&& p.along(Axis::X) < self.extent(bounds, Axis::X)
        &&& p.along(Axis::Y) < self.extent(bounds, Axis::Y)
        &&& p.along(Axis::Z) < self.extent(bounds, Axis::Z)
    }

    /// The number under which a point is visited: the first axis runs fastest.
    pub open spec fn offset(self, bounds: Bounds, p: Steps) -> int {
        match self {
            Layout::Line(f) => p.along(f),
            Layout::Plane(f, s) => p.along(f) + bounds.along(f) * p.along(s),
            Layout::Volume(f, s, t) => p.along(f) + bounds.along(f) * (p.along(s) + bounds.along(s)
                * p.along(t)),
        }
    }

    /// Whether no axis occurs twice.
    pub fn is_valid(self) -> (b: bool)
        ensures
            b == self.valid(),
    {
        match self {
            Layout::Line(_) => true,
            Layout::Plane(f, s) => f != s,
            Layout::Volume(f, s, t) => f != s && s != t && f != t,
        }
    }

    /// The layout of a grid of the given dimension.
    pub fn of(dimension: Dimension) -> (layout: Layout)
        ensures
            layout == Self::spec_of(dimension),
            dimension.distinct() ==> layout.valid(),
    {
        match dimension {
            Dimension::Zero => Layout::Line(Axis::X),
            Dimension::One(f) => Layout::Line(f),
            Dimension::Two(f, s) => {
                assert(dimension@[0] == f && dimension@[1] == s);
                Layout::Plane(f, s)
            },
            Dimension::Three(f, s, t) => {
                assert(dimension@[0] == f && dimension@[1] == s && dimension@[2] == t);
                Layout::Volume(f, s, t)
            },
        }
    }

    /// The dimension of a grid with this layout.
    pub fn dimension(self) -> (d: Dimension)
        ensures
            d == self.spec_dimension(),
            Self::spec_of(d) == self,
    {
        match self {
            Layout::Line(f) => Dimension::One(f),
            Layout::Plane(f, s) => Dimension::Two(f, s),
            Layout::Volume(f, s, t) => Dimension::Three(f, s, t),
        }
    }

    /// The number of points that are visited, or `None` where it does not
    /// fit the machine word.
    pub fn point_count(self, bounds: &Bounds) -> (r: Option<usize>)
        ensures
            r.is_some() <==> self.count(*bounds) <= usize::MAX,
            r.is_some() ==> r.unwrap() == self.count(*bounds),
    {
        proof {
            bounds.lemma_shape();
        }
        match self {
            Layout::Line(_) => bounds.checked_size(),
            Layout::Plane(f, s) => bounds.count(f).checked_mul(bounds.count(s)),
            Layout::Volume(f, s, t) => {
                let bf: usize = bounds.count(f);
                let bs: usize = bounds.count(s);
                let bt: usize = bounds.count(t);
                match bf.checked_mul(bs) {
                    Some(fs) => fs.checked_mul(bt),
                    None => {
                        proof {
                            lemma_product_grows(bf as int * bs as int, bt as int);
                        }
                        if bt == 0 {
                            Some(0)
                        } else {
                            None
                        }
                    },
                }
            },
        }
    }

    /// The point that is visited under number `n`.
    pub fn steps_at(self, bounds: &Bounds, n: usize) -> (p: Steps)
        requires
            self.valid(),
            n < self.count(*bounds),
        ensures
            self.holds(*bounds, p),
            self.offset(*bounds, p) == n,
    {
        proof {
            bounds.lemma_shape();
        }
        match self {
            Layout::Line(f) => Steps::origin().with(f, n),
            Layout::Plane(f, s) => {
                let bf: usize = bounds.count(f);
                proof {
                    lemma_split(n as int, bf as int, bounds.along(s));
                }
                Steps::origin().with(f, n % bf).with(s, n / bf)
            },
            Layout::Volume(f, s, t) => {
                let bf: usize = bounds.count(f);
                let bs: usize = bounds.count(s);
                proof {
                    let rest_bound: int = bounds.along(s) * bounds.along(t);
                    assert(bf * bs * bounds.along(t) == bf * rest_bound) by (nonlinear_arith)
                        requires
                            bs == bounds.along(s),
                            rest_bound == bounds.along(s) * bounds.along(t),
                    ;
                    lemma_split(n as int, bf as int, rest_bound);
                    lemma_split(n as int / bf as int, bs as int, bounds.along(t));
                }
                let rest: usize = n / bf;
                Steps::origin().with(f, n % bf).with(s, rest % bs).with(t, rest / bs)
            },
        }
    }

    /// Every visited point has a number below the count.
    pub proof fn lemma_offset_in_range(self, bounds: Bounds, p: Steps)
        requires
            self.valid(),
            self.holds(bounds, p),
        ensures
            0 <= self.offset(bounds, p) < self.count(bounds),
    {
        bounds.lemma_shape();
        match self {
            Layout::Line(f) => {},
            Layout::Plane(f, s) => {
                lemma_join(p.along(f), p.along(s), bounds.along(f), bounds.along(s));
            },
            Layout::Volume(f, s, t) => {
                let rest: int = p.along(s) + bounds.along(s) * p.along(t);
                lemma_join(p.along(s), p.along(t), bounds.along(s), bounds.along(t));
                lemma_join(p.along(f), rest, bounds.along(f), bounds.along(s) * bounds.along(t));
                assert(bounds.along(f) * (bounds.along(s) * bounds.along(t)) == bounds.along(f)
                    * bounds.along(s) * bounds.along(t)) by (nonlinear_arith);
            },
        }
    }

    /// No two visited points have the same number.
    pub proof fn lemma_offset_injective(self, bounds: Bounds, p: Steps, q: Steps)
        requires
            self.valid(),
            self.holds(bounds, p),
            self.holds(bounds, q),
            self.offset(bounds, p) == self.offset(bounds, q),
        ensures
            p == q,
    {
        bounds.lemma_shape();
        match self {
            Layout::Line(f) => {},
            Layout::Plane(f, s) => {
                lemma_unjoin(p.along(f), p.along(s), q.along(f), q.along(s), bounds.along(f));
            },
            Layout::Volume(f, s, t) => {
                let p_rest: int = p.along(s) + bounds.along(s) * p.along(t);
                let q_rest: int = q.along(s) + bounds.along(s) * q.along(t);
                lemma_unjoin(p.along(f), p_rest, q.along(f), q_rest, bounds.along(f));
                lemma_unjoin(p.along(s), p.along(t), q.along(s), q.along(t), bounds.along(s));
            },
        }
        assert(p.along(Axis::X) == q.along(Axis::X));
        assert(p.along(Axis::Y) == q.along(Axis::Y));
        assert(p.along(Axis::Z) == q.along(Axis::Z));
    }

    /// All visited points, in the order in which they are visited: each
    /// point of the grid once, at the place of its number.
    pub fn observe_steps(self, bounds: &Bounds) -> (points: Vec<Steps>)
        requires
            self.valid(),
            self.count(*bounds) <= usize::MAX,
        ensures
            points@.len() == self.count(*bounds),
            forall|n: int|
                0 <= n < points@.len() ==> self.holds(*bounds, #[trigger] points@[n])
                    && self.offset(*bounds, points@[n]) == n,
            forall|p: Steps| #[trigger]
                self.holds(*bounds, p) ==> 0 <= self.offset(*bounds, p) < points@.len()
                    && points@[self.offset(*bounds, p)] == p,
    {
        let total: usize = match self.point_count(bounds) {
            Some(total) => total,
            None => 0,
        };
        let mut points: Vec<Steps> = Vec::new();
        let mut n: usize = 0;
        while n < total
            invariant
                n <= total,
                total == self.count(*bounds),
                self.valid(),
                points@.len() == n,
                forall|k: int|
                    0 <= k < n ==> self.holds(*bounds, #[trigger] points@[k]) && self.offset(
                        *bounds,
                        points@[k],
                    ) == k,
            decreases total - n,
        {
            let p: Steps = self.steps_at(bounds, n);
            points.push(p);
            n = n + 1;
        }
        proof {
            assert forall|p: Steps| #[trigger] self.holds(*bounds, p) implies 0 <= self.offset(
                *bounds,
                p,
            ) < points@.len() && points@[self.offset(*bounds, p)] == p by {
                self.lemma_offset_in_range(*bounds, p);
                self.lemma_offset_injective(*bounds, p, points@[self.offset(*bounds, p)]);
            }
        }
        points
    }
}

/// A product with nothing is nothing; with more than nothing, it is no less than the other factor.
proof fn lemma_product_grows(a: int, b: int)
    requires
        0 <= a,
        0 <= b,
    ensures
        b == 0 ==> a * b == 0,
        b > 0 ==> a <= a * b,
{
    assert(b == 0 ==> a * b == 0) by (nonlinear_arith);
    assert(b > 0 ==> a <= a * b) by (nonlinear_arith)
        requires
            0 <= a,
    ;
}

/// Splitting a number below `d * c` into its remainder and quotient by `d`.
proof fn lemma_split(n: int, d: int, c: int)
    requires
        0 <= n < d * c,
        0 <= d,
    ensures
        0 < d,
        0 <= n % d < d,
        0 <= n / d < c,
        n % d + d * (n / d) == n,
{
    assert(0 < d) by (nonlinear_arith)
        requires
            0 <= n < d * c,
            0 <= d,
    ;
    lemma_mod_bound(n, d);
    lemma_div_pos_is_pos(n, d);
    lemma_multiply_divide_lt(n, d, c);
    lemma_fundamental_div_mod(n, d);
}

/// A remainder below `d` and a quotient below `c` join to a number below `d * c`.
proof fn lemma_join(r: int, q: int, d: int, c: int)
    requires
        0 <= r < d,
        0 <= q < c,
    ensures
        0 <= r + d * q < d * c,
{
    assert(0 <= r + d * q < d * c) by (nonlinear_arith)
        requires
            0 <= r < d,
            0 <= q < c,
    ;
}

/// A number has one remainder and one quotient by `d`.
proof fn lemma_unjoin(r1: int, q1: int, r2: int, q2: int, d: int)
    requires
        0 <= r1 < d,
        0 <= r2 < d,
        r1 + d * q1 == r2 + d * q2,
    ensures
        r1 == r2,
        q1 == q2,
{
    assert(q1 * d == d * q1 && q2 * d == d * q2) by (nonlinear_arith);
    lemma_fundamental_div_mod_converse(r1 + d * q1, d, q1, r1);
    lemma_fundamental_div_mod_converse(r2 + d * q2, d, q2, r2);
}

} // verus!
