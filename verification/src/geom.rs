//! Plane geometry for the grid: extents, coordinates, and the Moore
//! neighbourhood of a coordinate.

use vstd::prelude::*;

verus! {

/// The extent of a grid: width, then height. A coordinate (x, y) is inside
/// the extent iff x < width and y < height.
#[derive(Debug, Clone, Copy, PartialEq, Eq, Structural)]
pub struct Size2D(pub usize, pub usize);

/// A coordinate on a grid: column x, then row y. Coordinates are never
/// negative; the type makes that structural.
#[derive(Debug, Clone, Copy, PartialEq, Eq, Structural)]
pub struct Point2D(pub usize, pub usize);

impl Size2D {
    /// Whether a point lies inside this extent.
    pub open spec fn spec_contains(self, point: Point2D) -> bool {
        point.0 < self.0 && point.1 < self.1
    }

    /// Bounds check: true iff `point` lies inside the extent.
    pub fn contains(&self, point: &Point2D) -> (r: bool)
        ensures
            r == self.spec_contains(*point),
    {
        point.0 < self.0 && point.1 < self.1
    }
}

impl Default for Point2D {
    /// The origin coordinate (0, 0).
    fn default() -> (r: Self)
        ensures
            r == Point2D(0usize, 0usize),
    {
        Point2D(0, 0)
    }
}

/// The coordinate a point is clamped to by `clip_excl`: each axis is capped
/// at extent - 1, and at 0 when the extent is empty on that axis.
pub open spec fn spec_clip_excl(p: Point2D, size: Size2D) -> Point2D {
    Point2D(
        if size.0 == 0 { 0usize } else if p.0 < size.0 { p.0 } else { (size.0 - 1) as usize },
        if size.1 == 0 { 0usize } else if p.1 < size.1 { p.1 } else { (size.1 - 1) as usize },
    )
}

/// Shorthand for building a point from spec-level integers known to be in
/// range for `usize`.
pub open spec fn pt(x: int, y: int) -> Point2D {
    Point2D(x as usize, y as usize)
}

/// The Moore neighbourhood of a point: the up-to-8 surrounding coordinates
/// that are representable (no negative axis), in the order the executable
/// `neighbours` yields them (left column top to bottom, then the two vertical
/// neighbours, then the right column).
pub open spec fn neighbours_of(p: Point2D) -> Seq<Point2D> {
    let x = p.0 as int;
    let y = p.1 as int;
    if x > 0 && y > 0 {
        seq![
            pt(x - 1, y - 1), pt(x - 1, y), pt(x - 1, y + 1),
            pt(x, y - 1), pt(x, y + 1),
            pt(x + 1, y - 1), pt(x + 1, y), pt(x + 1, y + 1),
        ]
    } else if x > 0 {
        seq![pt(x - 1, 0), pt(x - 1, 1), pt(x, 1), pt(x + 1, 0), pt(x + 1, 1)]
    } else if y > 0 {
        seq![pt(0, y - 1), pt(0, y + 1), pt(1, y - 1), pt(1, y), pt(1, y + 1)]
    } else {
        seq![pt(0, 1), pt(1, 0), pt(1, 1)]
    }
}

/// Every listed neighbour is adjacent to `p`: at Chebyshev distance exactly 1.
pub proof fn lemma_neighbours_adjacent(p: Point2D)
    requires
        p.0 < usize::MAX,
        p.1 < usize::MAX,
    ensures
        forall|k: int| 0 <= k < neighbours_of(p).len() ==> {
            let q = #[trigger] neighbours_of(p)[k];
            &&& p.0 - 1 <= q.0 <= p.0 + 1
            &&& p.1 - 1 <= q.1 <= p.1 + 1
            &&& q != p
        },
{
}

/// The neighbourhood size depends only on whether the point touches the two
/// zero axes: 3 at the origin, 5 on an edge, 8 in the interior.
pub proof fn lemma_neighbour_counts(p: Point2D)
    ensures
        p.0 == 0 && p.1 == 0 ==> neighbours_of(p).len() == 3,
        p.0 > 0 && p.1 > 0 ==> neighbours_of(p).len() == 8,
        (p.0 == 0) != (p.1 == 0) ==> neighbours_of(p).len() == 5,
{
}

impl core::ops::Add<&Point2D> for Point2D {
    type Output = Point2D;

    /// Componentwise sum of two points.
    fn add(self, rhs: &Point2D) -> (r: Point2D) {
        Point2D(self.0 + rhs.0, self.1 + rhs.1)
    }
}

impl vstd::std_specs::ops::AddSpecImpl<&Point2D> for Point2D {
    open spec fn obeys_add_spec() -> bool {
        true
    }

    open spec fn add_req(self, rhs: &Point2D) -> bool {
        self.0 + rhs.0 <= usize::MAX && self.1 + rhs.1 <= usize::MAX
    }

    open spec fn add_spec(self, rhs: &Point2D) -> Point2D {
        Point2D((self.0 + rhs.0) as usize, (self.1 + rhs.1) as usize)
    }
}

impl Point2D {
    /// Clamp the point to lie strictly inside `size2d`, axis by axis; an
    /// empty axis clamps to 0.
    pub fn clip_excl(&mut self, size2d: &Size2D)
        ensures
            *final(self) == spec_clip_excl(*old(self), *size2d),
    {
        if size2d.0 == 0 {
            self.0 = 0;
        } else if self.0 >= size2d.0 {
            self.0 = size2d.0 - 1;
        }
        if size2d.1 == 0 {
            self.1 = 0;
        } else if self.1 >= size2d.1 {
            self.1 = size2d.1 - 1;
        }
    }

    /// The coordinates surrounding this point, excluding the point itself and
    /// any position that would need a negative axis.
    pub fn neighbours(&self) -> (r: Vec<Point2D>)
        requires
            self.0 < usize::MAX,
            self.1 < usize::MAX,
        ensures
            r@ == neighbours_of(*self),
    {
        let x = self.0;
        let y = self.1;
        let mut r: Vec<Point2D> = Vec::new();
        if x > 0 {
            if y > 0 {
                r.push(Point2D(x - 1, y - 1));
            }
            r.push(Point2D(x - 1, y));
            r.push(Point2D(x - 1, y + 1));
        }
        if y > 0 {
            r.push(Point2D(x, y - 1));
        }
        r.push(Point2D(x, y + 1));
        if y > 0 {
            r.push(Point2D(x + 1, y - 1));
        }
        r.push(Point2D(x + 1, y));
        r.push(Point2D(x + 1, y + 1));
        proof {
            assert(r@ =~= neighbours_of(*self));
        }
        r
    }
}

} // verus!
