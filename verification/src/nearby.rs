//! The neighbours of a cell.

use vstd::prelude::*;
use crate::board::Board;
use crate::point::knight_offsets;
use crate::point::neighbours;
use crate::point::touching_offsets;
use crate::point::Point;

verus! {

impl Board {
    /// Adds to `out` the point that lies `(dx, dy)` from `p`, unless it
    /// falls off the board. `done` are the offsets dealt with so far.
    fn extend(&self, p: &Point, dx: i32, dy: i32, out: &mut Vec<Point>, Ghost(done): Ghost<Seq<(int, int)>>)
        requires
            self.wf(),
            -2 <= dx <= 2,
            -2 <= dy <= 2,
            old(out)@ == neighbours(self@.width, self@.height, *p, done),
        ensures
            final(out)@ == neighbours(
                self@.width,
                self@.height,
                *p,
                done.push((dx as int, dy as int)),
            ),
    {
        proof {
            self@.lemma_sides();
            assert(done.push((dx as int, dy as int)).drop_last() =~= done);
        }
        let x: i64 = p.x as i64 + dx as i64;
        let y: i64 = p.y as i64 + dy as i64;
        if 0 <= x && x < self.width as i64 && 0 <= y && y < self.height as i64 {
            out.push(Point { x: x as i32, y: y as i32 });
        }
    }

    /// The cells that touch `p` by a side or a corner and lie on the board,
    /// column by column from the left, each column from the top. `p` itself
    /// is not among them.
    pub fn surrounding_points(self: &Self, p: &Point) -> (r: Vec<Point>)
        requires
            self.wf(),
        ensures
            r@ == self@.touching_points(*p),
    {
        let mut out: Vec<Point> = Vec::new();
        let ghost d = touching_offsets();
        self.extend(p, -1, -1, &mut out, Ghost(d.take(0)));
        assert(d.take(0).push(d[0]) == d.take(1));
        self.extend(p, -1, 0, &mut out, Ghost(d.take(1)));
        assert(d.take(1).push(d[1]) == d.take(2));
        self.extend(p, -1, 1, &mut out, Ghost(d.take(2)));
        assert(d.take(2).push(d[2]) == d.take(3));
        self.extend(p, 0, -1, &mut out, Ghost(d.take(3)));
        assert(d.take(3).push(d[3]) == d.take(4));
        self.extend(p, 0, 1, &mut out, Ghost(d.take(4)));
        assert(d.take(4).push(d[4]) == d.take(5));
        self.extend(p, 1, -1, &mut out, Ghost(d.take(5)));
        assert(d.take(5).push(d[5]) == d.take(6));
        self.extend(p, 1, 0, &mut out, Ghost(d.take(6)));
        assert(d.take(6).push(d[6]) == d.take(7));
        self.extend(p, 1, 1, &mut out, Ghost(d.take(7)));
        assert(d.take(7).push(d[7]) == d);
        out
    }

    /// The cells a knight's move away from `p` that lie on the board, in the
    /// order in which a cascade visits them. This is the adjacency of the
    /// game: counts and cascades go by it.
    pub fn surrounding_knight_points(self: &Self, p: &Point) -> (r: Vec<Point>)
        requires
            self.wf(),
        ensures
            r@ == self@.knight_points(*p),
    {
        let mut out: Vec<Point> = Vec::new();
        let ghost d = knight_offsets();
        self.extend(p, -2, -1, &mut out, Ghost(d.take(0)));
        assert(d.take(0).push(d[0]) == d.take(1));
        self.extend(p, -2, 1, &mut out, Ghost(d.take(1)));
        assert(d.take(1).push(d[1]) == d.take(2));
        self.extend(p, -1, -2, &mut out, Ghost(d.take(2)));
        assert(d.take(2).push(d[2]) == d.take(3));
        self.extend(p, -1, 2, &mut out, Ghost(d.take(3)));
        assert(d.take(3).push(d[3]) == d.take(4));
        self.extend(p, 1, -2, &mut out, Ghost(d.take(4)));
        assert(d.take(4).push(d[4]) == d.take(5));
        self.extend(p, 1, 2, &mut out, Ghost(d.take(5)));
        assert(d.take(5).push(d[5]) == d.take(6));
        self.extend(p, 2, -1, &mut out, Ghost(d.take(6)));
        assert(d.take(6).push(d[6]) == d.take(7));
        self.extend(p, 2, 1, &mut out, Ghost(d.take(7)));
        assert(d.take(7).push(d[7]) == d);
        out
    }
}

} // verus!
