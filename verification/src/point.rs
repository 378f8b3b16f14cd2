//! Grid coordinates.

use vstd::prelude::*;

verus! {

/// A position: `x` is the column, `y` the row. Coordinates are signed, so a
/// point may lie off the grid; it is checked against the bounds only when a
/// cell is looked up.
#[derive(Debug, PartialEq, Eq, PartialOrd, Clone, Copy, Structural)]
pub struct Point {
    pub x: i32,
    pub y: i32,
}

impl Point {
    /// The point at column `x`, row `y`. Indices beyond `i32::MAX` wrap, as
    /// the cast to `i32` does.
    pub fn new(x: usize, y: usize) -> (p: Point)
        ensures
            p == Point::at(x as int, y as int),
            x <= i32::MAX ==> p.x == x,
            y <= i32::MAX ==> p.y == y,
    {
        Point { x: #[verifier::truncate] (x as i32), y: #[verifier::truncate] (y as i32) }
    }

    /// The point `(x, y)` of integers, each cut down to an `i32` as a cast
    /// does.
    pub open spec fn at(x: int, y: int) -> Point {
        Point { x: x as i32, y: y as i32 }
    }

    /// The point reached from `self` by the offset `d`.
    pub open spec fn moved(self, d: (int, int)) -> Point {
        Point::at(self.x + d.0, self.y + d.1)
    }

    /// Whether `self` lies on a grid of the given size.
    pub open spec fn within(self, width: int, height: int) -> bool {
        0 <= self.x < width && 0 <= self.y < height
    }
}

/// The eight offsets of a chess knight's move, in the order in which
/// neighbours are visited.
pub open spec fn knight_offsets() -> Seq<(int, int)> {
    seq![(-2, -1), (-2, 1), (-1, -2), (-1, 2), (1, -2), (1, 2), (2, -1), (2, 1)]
}

/// The eight offsets to the cells that touch a cell by a side or a corner, in
/// the order in which neighbours are listed.
pub open spec fn touching_offsets() -> Seq<(int, int)> {
    seq![(-1, -1), (-1, 0), (-1, 1), (0, -1), (0, 1), (1, -1), (1, 0), (1, 1)]
}

/// The points reached from `p` by `offsets`, in order, without those that
/// fall off a grid of the given size.
pub open spec fn neighbours(width: int, height: int, p: Point, offsets: Seq<(int, int)>) -> Seq<Point>
    decreases offsets.len(),
{
    if offsets.len() == 0 {
        Seq::empty()
    } else {
        let before = neighbours(width, height, p, offsets.drop_last());
        let q = p.moved(offsets.last());
        let on_grid = 0 <= p.x + offsets.last().0 < width && 0 <= p.y + offsets.last().1 < height;
        if on_grid {
            before.push(q)
        } else {
            before
        }
    }
}

/// Every neighbour lies on the grid, and there are no more neighbours than
/// offsets.
pub proof fn lemma_neighbours_on_grid(width: int, height: int, p: Point, offsets: Seq<(int, int)>)
    requires
        width <= i32::MAX,
        height <= i32::MAX,
    ensures
        neighbours(width, height, p, offsets).len() <= offsets.len(),
        forall|i: int|
            0 <= i < neighbours(width, height, p, offsets).len() ==> (#[trigger] neighbours(
                width,
                height,
                p,
                offsets,
            )[i]).within(width, height),
    decreases offsets.len(),
{
    if offsets.len() > 0 {
        lemma_neighbours_on_grid(width, height, p, offsets.drop_last());
    }
}

} // verus!
