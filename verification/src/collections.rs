//! A dense, bounds-checked 2D container stored row-major (outer axis x, inner
//! axis y) in a single flat vector. Out-of-bounds access yields an absent
//! result, never a panic.

use vstd::prelude::*;
use crate::geom::{Point2D, Size2D};

verus! {

/// A fixed-size 2D array of `T`. The view is the flat storage sequence; the
/// cell (x, y) sits at index `x * height + y`.
pub struct Vec2D<T> {
    pub size: Size2D,
    data: Vec<T>,
}

impl<T> View for Vec2D<T> {
    type V = Seq<T>;

    closed spec fn view(&self) -> Seq<T> {
        self.data@
    }
}

/// The flat index of (x, y) on a grid of the given height.
pub open spec fn flat_idx(x: int, y: int, height: int) -> int {
    x * height + y
}

/// A flat index of an in-bounds coordinate stays inside the grid's storage.
pub proof fn lemma_flat_idx_bounds(x: int, y: int, w: int, h: int)
    requires
        0 <= x < w,
        0 <= y < h,
    ensures
        0 <= flat_idx(x, y, h) < w * h,
        flat_idx(x, y, h) == x * h + y,
{
    assert(0 <= x * h + y < w * h) by (nonlinear_arith)
        requires
            0 <= x < w,
            0 <= y < h,
    ;
}

/// Distinct in-bounds coordinates have distinct flat indices.
pub proof fn lemma_flat_idx_injective(x1: int, y1: int, x2: int, y2: int, h: int)
    requires
        0 <= x1,
        0 <= x2,
        0 <= y1 < h,
        0 <= y2 < h,
        flat_idx(x1, y1, h) == flat_idx(x2, y2, h),
    ensures
        x1 == x2 && y1 == y2,
{
    assert(x1 == x2 && y1 == y2) by (nonlinear_arith)
        requires
            0 <= x1,
            0 <= x2,
            0 <= y1 < h,
            0 <= y2 < h,
            x1 * h + y1 == x2 * h + y2,
    ;
}

/// Every flat index below `w * h` comes from exactly one in-bounds
/// coordinate, recovered by division and remainder.
pub proof fn lemma_flat_idx_coords(k: int, w: int, h: int)
    requires
        0 <= w,
        0 <= k < w * h,
    ensures
        h > 0,
        0 <= k / h < w,
        0 <= k % h < h,
        flat_idx(k / h, k % h, h) == k,
{
    assert(h > 0) by (nonlinear_arith)
        requires
            0 <= w,
            0 <= k < w * h,
    ;
    vstd::arithmetic::div_mod::lemma_fundamental_div_mod(k, h);
    assert(0 <= k % h < h) by (nonlinear_arith)
        requires
            h > 0,
    ;
    assert(0 <= k / h < w) by (nonlinear_arith)
        requires
            h > 0,
            0 <= k < w * h,
            k == h * (k / h) + k % h,
            0 <= k % h < h,
    ;
    assert((k / h) * h + k % h == k) by (nonlinear_arith)
        requires
            k == h * (k / h) + k % h,
    ;
}

impl<T> Vec2D<T> {
    /// The extent of the grid, as seen by specifications.
    pub closed spec fn spec_size(&self) -> Size2D {
        self.size
    }

    /// The storage holds exactly one slot for each coordinate of the extent.
    pub open spec fn wf(&self) -> bool {
        self@.len() == self.spec_size().0 * self.spec_size().1
    }

    /// Whether the integer coordinate (x, y) lies inside the extent.
    pub open spec fn in_bounds(&self, x: int, y: int) -> bool {
        0 <= x < self.spec_size().0 && 0 <= y < self.spec_size().1
    }

    /// The value stored at the in-bounds coordinate (x, y).
    pub open spec fn spec_at(&self, x: int, y: int) -> T {
        self@[flat_idx(x, y, self.spec_size().1 as int)]
    }

    /// The extent of the grid.
    pub fn size(&self) -> (r: &Size2D)
        ensures
            *r == self.spec_size(),
    {
        &self.size
    }

    /// The number of cells the grid stores.
    pub fn len(&self) -> (n: usize)
        ensures
            n == self@.len(),
    {
        self.data.len()
    }

    /// Build a grid of the given extent with every cell equal to `default`.
    pub fn sized(size: &Size2D, default: T) -> (r: Self) where T: Copy
        requires
            size.0 * size.1 <= usize::MAX,
        ensures
            r.wf(),
            r.spec_size() == *size,
            forall|i: int| 0 <= i < r@.len() ==> r@[i] == default,
    {
        let n = size.0 * size.1;
        let mut data: Vec<T> = Vec::new();
        let mut i: usize = 0;
        while i < n
            invariant
                i <= n,
                data@.len() == i,
                forall|j: int| 0 <= j < i ==> data@[j] == default,
            decreases n - i,
        {
            data.push(default);
            i = i + 1;
        }
        Vec2D { size: *size, data }
    }

    /// Look up the cell at `point2d`; absent for out-of-bounds coordinates.
    pub fn get(&self, point2d: &Point2D) -> (r: Option<&T>)
        requires
            self.wf(),
        ensures
            r is Some <==> self.in_bounds(point2d.0 as int, point2d.1 as int),
            r matches Some(v) ==> *v == self.spec_at(point2d.0 as int, point2d.1 as int),
    {
        if !self.size.contains(point2d) {
            None
        } else {
            proof {
                lemma_flat_idx_bounds(
                    point2d.0 as int,
                    point2d.1 as int,
                    self.size.0 as int,
                    self.size.1 as int,
                );
            }
            // The storage holds width * height cells, so the flat index
            // fits in usize.
            let _stored = self.data.len();
            Some(&self.data[point2d.0 * self.size.1 + point2d.1])
        }
    }

    /// Borrow the cell at `point2d` mutably; absent for out-of-bounds
    /// coordinates, in which case nothing changes.
    pub fn get_mut(&mut self, point2d: &Point2D) -> (r: Option<&mut T>)
        requires
            old(self).wf(),
        ensures
            r is Some <==> old(self).in_bounds(point2d.0 as int, point2d.1 as int),
            r matches Some(v) ==> {
                &&& *v == old(self).spec_at(point2d.0 as int, point2d.1 as int)
                &&& final(self)@ == old(self)@.update(
                    flat_idx(point2d.0 as int, point2d.1 as int, old(self).spec_size().1 as int),
                    *final(v),
                )
                &&& final(self).spec_size() == old(self).spec_size()
            },
            r is None ==> *final(self) == *old(self),
    {
        if !self.size.contains(point2d) {
            None
        } else {
            proof {
                lemma_flat_idx_bounds(
                    point2d.0 as int,
                    point2d.1 as int,
                    self.size.0 as int,
                    self.size.1 as int,
                );
            }
            let _stored = self.data.len();
            Some(&mut self.data[point2d.0 * self.size.1 + point2d.1])
        }
    }

    /// Replace the cell at `point2d` with `value`; reports whether the
    /// coordinate was in bounds (out-of-bounds writes are silently dropped).
    pub fn set(&mut self, point2d: &Point2D, value: T) -> (ok: bool)
        requires
            old(self).wf(),
        ensures
            final(self).wf(),
            final(self).spec_size() == old(self).spec_size(),
            ok == old(self).in_bounds(point2d.0 as int, point2d.1 as int),
            ok ==> final(self)@ == old(self)@.update(
                flat_idx(point2d.0 as int, point2d.1 as int, old(self).spec_size().1 as int),
                value,
            ),
            !ok ==> final(self)@ == old(self)@,
    {
        if !self.size.contains(point2d) {
            false
        } else {
            proof {
                lemma_flat_idx_bounds(
                    point2d.0 as int,
                    point2d.1 as int,
                    self.size.0 as int,
                    self.size.1 as int,
                );
            }
            let _stored = self.data.len();
            self.data[point2d.0 * self.size.1 + point2d.1] = value;
            true
        }
    }

    /// The cell at a flat storage index.
    pub(crate) fn at_flat(&self, i: usize) -> (r: &T)
        requires
            i < self@.len(),
        ensures
            *r == self@[i as int],
    {
        &self.data[i]
    }

    /// Replace the cell at a flat storage index.
    pub(crate) fn set_flat(&mut self, i: usize, value: T)
        requires
            i < old(self)@.len(),
        ensures
            final(self).spec_size() == old(self).spec_size(),
            final(self)@ == old(self)@.update(i as int, value),
    {
        self.data[i] = value;
    }

    /// Every valid coordinate of the grid, in storage order: outer axis x,
    /// then inner axis y. The result covers each in-bounds coordinate exactly
    /// once.
    pub fn all_locations(&self) -> (r: Vec<Point2D>)
        ensures
            r@.len() == self.spec_size().0 * self.spec_size().1,
            forall|x: int, y: int| self.in_bounds(x, y)
                ==> r@[flat_idx(x, y, self.spec_size().1 as int)] == Point2D(x as usize, y as usize),
            forall|k: int| 0 <= k < r@.len()
                ==> self.in_bounds(#[trigger] r@[k].0 as int, r@[k].1 as int),
            forall|k1: int, k2: int| 0 <= k1 < k2 < r@.len() ==> r@[k1] != r@[k2],
    {
        let w = self.size.0;
        let h = self.size.1;
        let mut r: Vec<Point2D> = Vec::new();
        let mut x: usize = 0;
        while x < w
            invariant
                x <= w,
                r@.len() == x * h,
                forall|a: int, b: int| 0 <= a < x && 0 <= b < h
                    ==> r@[flat_idx(a, b, h as int)] == Point2D(a as usize, b as usize),
            decreases w - x,
        {
            let mut y: usize = 0;
            while y < h
                invariant
                    x < w,
                    y <= h,
                    r@.len() == x * h + y,
                    forall|a: int, b: int| 0 <= a < x && 0 <= b < h
                        ==> r@[flat_idx(a, b, h as int)] == Point2D(a as usize, b as usize),
                    forall|b: int| 0 <= b < y
                        ==> r@[flat_idx(x as int, b, h as int)] == Point2D(x, b as usize),
                decreases h - y,
            {
                proof {
                    lemma_flat_idx_bounds(x as int, y as int, x as int + 1, h as int);
                }
                r.push(Point2D(x, y));
                y = y + 1;
                proof {
                    assert forall|a: int, b: int| 0 <= a < x && 0 <= b < h
                        implies r@[flat_idx(a, b, h as int)] == Point2D(a as usize, b as usize) by {
                        lemma_flat_idx_bounds(a, b, x as int, h as int);
                        assert(flat_idx(a, b, h as int) < x * h);
                    }
                }
            }
            x = x + 1;
            proof {
                assert(x * h == (x - 1) * h + h) by (nonlinear_arith);
            }
        }
        proof {
            assert forall|k: int| 0 <= k < r@.len()
                implies self.in_bounds(#[trigger] r@[k].0 as int, r@[k].1 as int) by {
                lemma_flat_idx_coords(k, w as int, h as int);
                assert(r@[flat_idx(k / (h as int), k % (h as int), h as int)]
                    == Point2D((k / (h as int)) as usize, (k % (h as int)) as usize));
            }
            assert forall|k1: int, k2: int| 0 <= k1 < k2 < r@.len() implies r@[k1] != r@[k2] by {
                lemma_flat_idx_coords(k1, w as int, h as int);
                lemma_flat_idx_coords(k2, w as int, h as int);
                if r@[k1] == r@[k2] {
                    lemma_flat_idx_injective(
                        k1 / (h as int), k1 % (h as int),
                        k2 / (h as int), k2 % (h as int),
                        h as int,
                    );
                }
            }
        }
        r
    }
}

} // verus!
