//! Axis-aligned rectangles in layout units.

use vstd::prelude::*;
use vstd::arithmetic::div_mod::lemma_fundamental_div_mod_converse;

use crate::point::Point;

verus! {

/// An axis-aligned rectangle given by its top-left and bottom-right corners,
/// both inclusive.  A well-formed box has `top_left.x <= bottom_right.x` and
/// `top_left.y <= bottom_right.y`.
#[derive(Debug, Clone, Copy, PartialEq, Eq, Structural, Hash)]
pub struct SpatialBox {
    pub top_left: Point,
    pub bottom_right: Point,
}

impl SpatialBox {
    /// Well-formedness: the corners are ordered on both axes.
    pub open spec fn wf(self) -> bool {
        self.top_left.x <= self.bottom_right.x && self.top_left.y <= self.bottom_right.y
    }

    pub fn new(top_left: Point, bottom_right: Point) -> (b: SpatialBox)
        ensures
            b.top_left == top_left && b.bottom_right == bottom_right,
    {
        SpatialBox { top_left, bottom_right }
    }

    /// The box shifted horizontally by `dx`, which may be negative.
    pub fn move_x_by(&self, dx: i32) -> (b: SpatialBox)
        requires
            0 <= self.top_left.x + dx <= u32::MAX,
            0 <= self.bottom_right.x + dx <= u32::MAX,
        ensures
            b.top_left == (Point { x: (self.top_left.x + dx) as u32, ..self.top_left }),
            b.bottom_right == (Point { x: (self.bottom_right.x + dx) as u32, ..self.bottom_right }),
    {
        SpatialBox {
            top_left: self.top_left.move_x_by(dx),
            bottom_right: self.bottom_right.move_x_by(dx),
        }
    }

    /// The box shifted vertically by `dy`, which may be negative.
    pub fn move_y_by(&self, dy: i32) -> (b: SpatialBox)
        requires
            0 <= self.top_left.y + dy <= u32::MAX,
            0 <= self.bottom_right.y + dy <= u32::MAX,
        ensures
            b.top_left == (Point { y: (self.top_left.y + dy) as u32, ..self.top_left }),
            b.bottom_right == (Point { y: (self.bottom_right.y + dy) as u32, ..self.bottom_right }),
    {
        SpatialBox {
            top_left: self.top_left.move_y_by(dy),
            bottom_right: self.bottom_right.move_y_by(dy),
        }
    }

    /// Number of columns the box covers, both edges included.
    pub fn width(&self) -> (w: u32)
        requires
            self.wf(),
            self.bottom_right.x - self.top_left.x < u32::MAX,
        ensures
            w == self.bottom_right.x - self.top_left.x + 1,
    {
        self.bottom_right.x - self.top_left.x + 1
    }

    /// Number of rows the box covers, both edges included.
    pub fn height(&self) -> (h: u32)
        requires
            self.wf(),
            self.bottom_right.y - self.top_left.y < u32::MAX,
        ensures
            h == self.bottom_right.y - self.top_left.y + 1,
    {
        self.bottom_right.y - self.top_left.y + 1
    }

    /// How many points `frame_points` returns: the top and bottom point of
    /// every column, then the left and right point of every row.
    pub open spec fn spec_frame_len(self) -> int {
        2 * (self.bottom_right.x - self.top_left.x + 1) + 2 * (self.bottom_right.y
            - self.top_left.y + 1)
    }

    /// The `k`-th point of the boundary walk that `frame_points` returns.
    pub open spec fn spec_frame_point(self, k: int) -> Point {
        let cols = 2 * (self.bottom_right.x - self.top_left.x + 1);
        if k < cols {
            Point {
                x: (self.top_left.x + k / 2) as u32,
                y: if k % 2 == 0 {
                    self.top_left.y
                } else {
                    self.bottom_right.y
                },
            }
        } else {
            Point {
                x: if (k - cols) % 2 == 0 {
                    self.top_left.x
                } else {
                    self.bottom_right.x
                },
                y: (self.top_left.y + (k - cols) / 2) as u32,
            }
        }
    }

    /// Every point on the box's boundary: for each column its top and bottom
    /// point, then for each row its left and right point.  The corners appear
    /// in both passes, as the frame is drawn twice over.
    pub fn frame_points(&self) -> (r: Vec<Point>)
        requires
            self.wf(),
            self.bottom_right.x - self.top_left.x < u32::MAX,
            self.bottom_right.y - self.top_left.y < u32::MAX,
        ensures
            r@.len() == self.spec_frame_len(),
            forall|k: int| 0 <= k < r@.len() ==> #[trigger] r@[k] == self.spec_frame_point(k),
    {
        let mut points: Vec<Point> = Vec::new();
        let w: u32 = self.bottom_right.x - self.top_left.x + 1;
        let h: u32 = self.bottom_right.y - self.top_left.y + 1;

        let mut i: u32 = 0;
        while i < w
            invariant
                self.wf(),
                w == self.bottom_right.x - self.top_left.x + 1,
                i <= w,
                points@.len() == 2 * i,
                forall|k: int|
                    0 <= k < points@.len() ==> #[trigger] points@[k] == self.spec_frame_point(k),
            decreases w - i,
        {
            let x = self.top_left.x + i;
            proof {
                lemma_fundamental_div_mod_converse(2 * (i as int), 2, i as int, 0);
                lemma_fundamental_div_mod_converse(2 * (i as int) + 1, 2, i as int, 1);
            }
            points.push(Point { x, y: self.top_left.y });
            points.push(Point { x, y: self.bottom_right.y });
            i = i + 1;
        }

        let mut j: u32 = 0;
        while j < h
            invariant
                self.wf(),
                w == self.bottom_right.x - self.top_left.x + 1,
                h == self.bottom_right.y - self.top_left.y + 1,
                j <= h,
                points@.len() == 2 * w + 2 * j,
                forall|k: int|
                    0 <= k < points@.len() ==> #[trigger] points@[k] == self.spec_frame_point(k),
            decreases h - j,
        {
            let y = self.top_left.y + j;
            proof {
                lemma_fundamental_div_mod_converse(2 * (j as int), 2, j as int, 0);
                lemma_fundamental_div_mod_converse(2 * (j as int) + 1, 2, j as int, 1);
            }
            points.push(Point { x: self.top_left.x, y });
            points.push(Point { x: self.bottom_right.x, y });
            j = j + 1;
        }

        points
    }

    /// The number of interior columns: columns strictly between the left and
    /// right edges.
    pub open spec fn spec_inner_cols(self) -> int {
        if self.bottom_right.x - self.top_left.x > 1 {
            self.bottom_right.x - self.top_left.x - 1
        } else {
            0
        }
    }

    /// The number of interior rows: rows strictly between the top and bottom
    /// edges.
    pub open spec fn spec_inner_rows(self) -> int {
        if self.bottom_right.y - self.top_left.y > 1 {
            self.bottom_right.y - self.top_left.y - 1
        } else {
            0
        }
    }

    /// The `k`-th interior point, walking the interior column by column.
    pub open spec fn spec_inner_point(self, k: int) -> Point {
        Point {
            x: (self.top_left.x + 1 + k / self.spec_inner_rows()) as u32,
            y: (self.top_left.y + 1 + k % self.spec_inner_rows()) as u32,
        }
    }

    /// Every point strictly inside the box, column by column.
    pub fn inner_points(&self) -> (r: Vec<Point>)
        requires
            self.wf(),
        ensures
            r@.len() == self.spec_inner_cols() * self.spec_inner_rows(),
            forall|k: int| 0 <= k < r@.len() ==> #[trigger] r@[k] == self.spec_inner_point(k),
    {
        let mut points: Vec<Point> = Vec::new();
        let span_x: u32 = self.bottom_right.x - self.top_left.x;
        let span_y: u32 = self.bottom_right.y - self.top_left.y;
        let ix: u32 = if span_x > 1 {
            span_x - 1
        } else {
            0
        };
        let iy: u32 = if span_y > 1 {
            span_y - 1
        } else {
            0
        };

        let mut a: u32 = 0;
        while a < ix
            invariant
                self.wf(),
                ix == self.spec_inner_cols(),
                iy == self.spec_inner_rows(),
                a <= ix,
                points@.len() == a * iy,
                forall|k: int|
                    0 <= k < points@.len() ==> #[trigger] points@[k] == self.spec_inner_point(k),
            decreases ix - a,
        {
            let x = self.top_left.x + 1 + a;
            let mut b: u32 = 0;
            while b < iy
                invariant
                    self.wf(),
                    ix == self.spec_inner_cols(),
                    iy == self.spec_inner_rows(),
                    a < ix,
                    b <= iy,
                    x == self.top_left.x + 1 + a,
                    points@.len() == a * iy + b,
                    forall|k: int|
                        0 <= k < points@.len() ==> #[trigger] points@[k] == self.spec_inner_point(
                            k,
                        ),
                decreases iy - b,
            {
                proof {
                    lemma_fundamental_div_mod_converse(
                        a * (iy as int) + b,
                        iy as int,
                        a as int,
                        b as int,
                    );
                    assert(a * (iy as int) + b <= ix * (iy as int)) by (nonlinear_arith)
                        requires
                            0 <= a < ix,
                            0 <= b < iy,
                    ;
                }
                points.push(Point { x, y: self.top_left.y + 1 + b });
                b = b + 1;
            }
            proof {
                assert((a + 1) * (iy as int) == a * (iy as int) + iy) by (nonlinear_arith);
            }
            a = a + 1;
        }
        points
    }

    /// The box inset by one unit on every side.
    pub fn inner_box(&self) -> (b: SpatialBox)
        requires
            self.top_left.x + 2 <= self.bottom_right.x,
            self.top_left.y + 2 <= self.bottom_right.y,
        ensures
            b.top_left == (Point {
                x: (self.top_left.x + 1) as u32,
                y: (self.top_left.y + 1) as u32,
            }),
            b.bottom_right == (Point {
                x: (self.bottom_right.x - 1) as u32,
                y: (self.bottom_right.y - 1) as u32,
            }),
            b.wf(),
    {
        SpatialBox {
            top_left: Point { x: self.top_left.x + 1, y: self.top_left.y + 1 },
            bottom_right: Point { x: self.bottom_right.x - 1, y: self.bottom_right.y - 1 },
        }
    }
}

} // verus!
