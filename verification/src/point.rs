//! Integer 2D coordinates in layout units.

use vstd::prelude::*;

verus! {

/// A 2D coordinate in layout units.  Immutable: every mutator returns a new
/// point.
#[derive(Debug, Clone, Copy, PartialEq, Eq, Structural, Hash)]
pub struct Point {
    pub x: u32,
    pub y: u32,
}

impl Point {
    pub fn new(x: u32, y: u32) -> (p: Point)
        ensures
            p.x == x && p.y == y,
    {
        Point { x, y }
    }

    /// The point shifted horizontally by `dx`, which may be negative.
    pub fn move_x_by(&self, dx: i32) -> (p: Point)
        requires
            0 <= self.x + dx <= u32::MAX,
        ensures
            p.x == self.x + dx,
            p.y == self.y,
    {
        let nx = self.x as i64 + dx as i64;
        Point { x: nx as u32, y: self.y }
    }

    /// The point shifted vertically by `dy`, which may be negative.
    pub fn move_y_by(&self, dy: i32) -> (p: Point)
        requires
            0 <= self.y + dy <= u32::MAX,
        ensures
            p.x == self.x,
            p.y == self.y + dy,
    {
        let ny = self.y as i64 + dy as i64;
        Point { x: self.x, y: ny as u32 }
    }

    pub fn move_x_to(&self, x: u32) -> (p: Point)
        ensures
            p.x == x,
            p.y == self.y,
    {
        Point { x, y: self.y }
    }

    pub fn move_y_to(&self, y: u32) -> (p: Point)
        ensures
            p.x == self.x,
            p.y == y,
    {
        Point { x: self.x, y }
    }
}

} // verus!
