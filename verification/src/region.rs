//! The region that opening a cell opens.

use vstd::prelude::*;
use crate::model::BoardView;
use crate::point::knight_offsets;
use crate::point::neighbours;
use crate::point::Point;

verus! {

/// `q` lies a knight's move from `p`.
pub open spec fn knight_apart(p: Point, q: Point) -> bool {
    knight_offsets().contains((q.x - p.x, q.y - p.y))
}

/// `q` is the point that lies `d` from `p`, and it is on the grid.
pub open spec fn lands(width: int, height: int, p: Point, d: (int, int), q: Point) -> bool {
    &&& 0 <= p.x + d.0 < width
    &&& 0 <= p.y + d.1 < height
    &&& q == p.moved(d)
}

/// The neighbours of `p` are the points on which one of the offsets lands.
pub proof fn lemma_neighbours_land(
    width: int,
    height: int,
    p: Point,
    offsets: Seq<(int, int)>,
    q: Point,
)
    ensures
        neighbours(width, height, p, offsets).contains(q) <==> exists|i: int|
            0 <= i < offsets.len() && lands(width, height, p, #[trigger] offsets[i], q),
    decreases offsets.len(),
{
    let all = neighbours(width, height, p, offsets);
    if offsets.len() > 0 {
        let rest = offsets.drop_last();
        let before = neighbours(width, height, p, rest);
        let d = offsets.last();
        lemma_neighbours_land(width, height, p, rest, q);
        if all.contains(q) {
            let k = choose|k: int| 0 <= k < all.len() && all[k] == q;
            if k < before.len() {
                assert(before[k] == q);
                assert(before.contains(q));
                let i = choose|i: int|
                    0 <= i < rest.len() && lands(width, height, p, #[trigger] rest[i], q);
                assert(offsets[i] == rest[i]);
            } else {
                assert(lands(width, height, p, offsets[offsets.len() - 1], q));
            }
        }
        if exists|i: int|
            0 <= i < offsets.len() && lands(width, height, p, #[trigger] offsets[i], q) {
            let i = choose|i: int|
                0 <= i < offsets.len() && lands(width, height, p, #[trigger] offsets[i], q);
            if i < rest.len() {
                assert(rest[i] == offsets[i]);
                assert(before.contains(q));
                let k = choose|k: int| 0 <= k < before.len() && before[k] == q;
                assert(all[k] == q);
            } else {
                assert(all[all.len() - 1] == q);
            }
        }
    }
}

impl BoardView {
    /// The knight neighbours of `p` are the cells of the board that lie a
    /// knight's move from it.
    pub proof fn lemma_knight_points(self, p: Point, q: Point)
        requires
            self.wf(),
            self.in_bounds(p),
        ensures
            self.knight_points(p).contains(q) <==> self.in_bounds(q) && knight_apart(p, q),
    {
        self.lemma_sides();
        let offsets = knight_offsets();
        lemma_neighbours_land(self.width, self.height, p, offsets, q);
        if self.knight_points(p).contains(q) {
            let i = choose|i: int|
                0 <= i < offsets.len() && lands(self.width, self.height, p, #[trigger] offsets[i], q);
            assert(offsets[i] == (q.x - p.x, q.y - p.y));
        }
        if self.in_bounds(q) && knight_apart(p, q) {
            let d = (q.x - p.x, q.y - p.y);
            let i = choose|i: int| 0 <= i < offsets.len() && offsets[i] == d;
            assert(lands(self.width, self.height, p, offsets[i], q));
        }
    }

    /// Opening the cell at `a` goes on to the cell at `q`: the first is a
    /// closed number that shows zero, the second a closed number a knight's
    /// move away.
    pub open spec fn spreads(self, a: Point, q: Point) -> bool {
        &&& self.in_bounds(a)
        &&& self.in_bounds(q)
        &&& self.cell(a).is_closed_zero()
        &&& self.cell(q).is_closed_number()
        &&& knight_apart(a, q)
    }

    /// A trail starts at a closed number and goes on from cell to cell as
    /// opening spreads.
    pub open spec fn is_trail(self, trail: Seq<Point>) -> bool {
        &&& trail.len() > 0
        &&& self.in_bounds(trail[0])
        &&& self.cell(trail[0]).is_closed_number()
        &&& forall|i: int|
            0 <= i < trail.len() - 1 ==> self.spreads(#[trigger] trail[i], trail[i + 1])
    }

    /// There is a trail from `p` to `q`: `q` belongs to the region that
    /// opening `p` opens.
    pub open spec fn reaches(self, p: Point, q: Point) -> bool {
        exists|trail: Seq<Point>| #[trigger]
            self.is_trail(trail) && trail[0] == p && trail.last() == q
    }

    /// `self` has the size of `before`, and each of its cells is kept or
    /// newly open.
    pub open spec fn ahead_of(self, before: BoardView) -> bool {
        &&& self.width == before.width
        &&& self.height == before.height
        &&& forall|q: Point|
            before.in_bounds(q) ==> #[trigger] self.kept(before, q) || self.newly_open(before, q)
    }

    /// A trail on a board is a trail on every board that it came from.
    pub proof fn lemma_trail_back(self, before: BoardView, trail: Seq<Point>)
        requires
            self.ahead_of(before),
            self.is_trail(trail),
        ensures
            before.is_trail(trail),
    {
        assert(self.kept(before, trail[0]) || self.newly_open(before, trail[0]));
        assert forall|i: int| 0 <= i < trail.len() - 1 implies before.spreads(
            #[trigger] trail[i],
            trail[i + 1],
        ) by {
            assert(self.spreads(trail[i], trail[i + 1]));
            assert(self.kept(before, trail[i]) || self.newly_open(before, trail[i]));
            assert(self.kept(before, trail[i + 1]) || self.newly_open(before, trail[i + 1]));
        }
    }

    /// What is reached on a board is reached on every board that it came
    /// from.
    pub proof fn lemma_reaches_back(self, before: BoardView, p: Point, q: Point)
        requires
            self.ahead_of(before),
            self.reaches(p, q),
        ensures
            before.reaches(p, q),
    {
        let trail = choose|trail: Seq<Point>| #[trigger]
            self.is_trail(trail) && trail[0] == p && trail.last() == q;
        self.lemma_trail_back(before, trail);
    }

    /// A closed number reaches itself.
    pub proof fn lemma_reaches_itself(self, p: Point)
        requires
            self.in_bounds(p),
            self.cell(p).is_closed_number(),
        ensures
            self.reaches(p, p),
    {
        assert(self.is_trail(seq![p]));
    }

    /// If opening `p` spreads to `s`, then `p` reaches what `s` reaches.
    pub proof fn lemma_reaches_through(self, p: Point, s: Point, q: Point)
        requires
            self.spreads(p, s),
            self.reaches(s, q),
        ensures
            self.reaches(p, q),
    {
        let trail = choose|trail: Seq<Point>| #[trigger]
            self.is_trail(trail) && trail[0] == s && trail.last() == q;
        let longer = seq![p] + trail;
        assert forall|i: int| 0 <= i < longer.len() - 1 implies self.spreads(
            #[trigger] longer[i],
            longer[i + 1],
        ) by {
            if i > 0 {
                assert(longer[i] == trail[i - 1]);
                assert(longer[i + 1] == trail[i - 1 + 1]);
                assert(self.spreads(trail[i - 1], trail[i - 1 + 1]));
            }
        }
        assert(self.is_trail(longer));
        assert(longer.last() == q);
    }

    /// Whatever a traversal has newly opened is reached from a point of its
    /// stack.
    pub open spec fn opened_soundly(self, before: BoardView, stack: Seq<Point>) -> bool {
        forall|q: Point|
            before.in_bounds(q) && #[trigger] self.newly_open(before, q) ==> exists|i: int|
                0 <= i < stack.len() && #[trigger] before.reaches(stack[i], q)
    }

    /// A traversal has opened every closed number of its stack.
    pub open spec fn opened_stack(self, before: BoardView, stack: Seq<Point>) -> bool {
        forall|i: int|
            0 <= i < stack.len() && before.in_bounds(#[trigger] stack[i]) && before.cell(
                stack[i],
            ).is_closed_number() ==> self.newly_open(before, stack[i])
    }

    /// A traversal has opened every cell to which a cell that it opened
    /// spreads.
    pub open spec fn opened_onwards(self, before: BoardView) -> bool {
        forall|a: Point, q: Point| #[trigger]
            before.spreads(a, q) && self.newly_open(before, a) ==> self.newly_open(before, q)
    }

    /// The board after the closed number on top of the stack is opened.
    pub open spec fn top_opened(self, stack: Seq<Point>) -> BoardView {
        self.replace(stack.last(), self.cell(stack.last()).opened())
    }

    /// The stack after the closed number on top of it is opened: its
    /// knight neighbours take its place if it shows zero.
    pub open spec fn stack_onwards(self, stack: Seq<Point>) -> Seq<Point> {
        if self.cell(stack.last()).is_closed_zero() {
            stack.drop_last() + self.knight_points(stack.last()).reverse()
        } else {
            stack.drop_last()
        }
    }

    /// The top of the stack is a closed number of the board.
    pub open spec fn top_is_closed_number(self, stack: Seq<Point>) -> bool {
        &&& stack.len() > 0
        &&& self.in_bounds(stack.last())
        &&& self.cell(stack.last()).is_closed_number()
    }

    /// Opening the top of the stack changes that cell alone.
    proof fn lemma_top_opened(self, stack: Seq<Point>)
        requires
            self.wf(),
            self.top_is_closed_number(stack),
        ensures
            self.top_opened(stack).wf(),
            self.top_opened(stack).ahead_of(self),
            self.top_opened(stack).cell(stack.last()) == self.cell(stack.last()).opened(),
            forall|q: Point|
                self.in_bounds(q) && q != stack.last() ==> #[trigger] self.top_opened(stack).cell(q)
                    == self.cell(q),
            self.open_all(stack) == self.top_opened(stack).open_all(self.stack_onwards(stack)),
            0 <= self.top_opened(stack).closed_numbers() < self.closed_numbers(),
    {
        let p = stack.last();
        let el = self.cell(p).opened();
        let b1 = self.top_opened(stack);
        self.lemma_replace(p, el);
        assert forall|q: Point| self.in_bounds(q) implies #[trigger] b1.kept(self, q)
            || b1.newly_open(self, q) by {
            if q != p {
                assert(b1.cell(q) == self.cell(q));
            }
        }
    }

    proof fn lemma_number_sound(self, stack: Seq<Point>, r: BoardView)
        requires
            self.wf(),
            self.top_is_closed_number(stack),
            r.opened_soundly(self.top_opened(stack), self.stack_onwards(stack)),
        ensures
            r.opened_soundly(self, stack),
    {
        let p = stack.last();
        let top = stack.len() - 1;
        let waiting = stack.drop_last();
        let b1 = self.top_opened(stack);
        let next = self.stack_onwards(stack);
        let around = self.knight_points(p);
        self.lemma_top_opened(stack);
        assert forall|q: Point|
            self.in_bounds(q) && #[trigger] r.newly_open(self, q) implies exists|i: int|
            0 <= i < stack.len() && #[trigger] self.reaches(stack[i], q) by {
            if q == p {
                self.lemma_reaches_itself(p);
                assert(self.reaches(stack[top], q));
            } else {
                assert(b1.cell(q) == self.cell(q));
                assert(r.newly_open(b1, q));
                let j = choose|j: int| 0 <= j < next.len() && #[trigger] b1.reaches(next[j], q);
                b1.lemma_reaches_back(self, next[j], q);
                if j < waiting.len() {
                    assert(next[j] == stack[j]);
                    assert(self.reaches(stack[j], q));
                } else {
                    let s = next[j];
                    let k = around.len() - 1 - (j - waiting.len());
                    assert(s == around[k]);
                    assert(around.contains(s));
                    self.lemma_knight_points(p, s);
                    let trail = choose|trail: Seq<Point>| #[trigger]
                        self.is_trail(trail) && trail[0] == s && trail.last() == q;
                    assert(self.spreads(p, s));
                    self.lemma_reaches_through(p, s, q);
                    assert(self.reaches(stack[top], q));
                }
            }
        }
    }

    proof fn lemma_number_stack(self, stack: Seq<Point>, r: BoardView)
        requires
            self.wf(),
            self.top_is_closed_number(stack),
            r.ahead_of(self.top_opened(stack)),
            r.opened_stack(self.top_opened(stack), self.stack_onwards(stack)),
        ensures
            r.opened_stack(self, stack),
            r.newly_open(self, stack.last()),
    {
        let p = stack.last();
        let b1 = self.top_opened(stack);
        let next = self.stack_onwards(stack);
        self.lemma_top_opened(stack);
        assert(r.newly_open(self, p)) by {
            assert(r.kept(b1, p) || r.newly_open(b1, p));
        }
        assert forall|i: int|
            0 <= i < stack.len() && self.in_bounds(#[trigger] stack[i]) && self.cell(
                stack[i],
            ).is_closed_number() implies r.newly_open(self, stack[i]) by {
            if stack[i] != p {
                assert(next[i] == stack[i]);
                assert(b1.cell(next[i]) == self.cell(next[i]));
                assert(r.newly_open(b1, next[i]));
            }
        }
    }

    proof fn lemma_number_onwards(self, stack: Seq<Point>, r: BoardView)
        requires
            self.wf(),
            self.top_is_closed_number(stack),
            r.newly_open(self, stack.last()),
            r.opened_stack(self.top_opened(stack), self.stack_onwards(stack)),
            r.opened_onwards(self.top_opened(stack)),
        ensures
            r.opened_onwards(self),
    {
        let p = stack.last();
        let waiting = stack.drop_last();
        let b1 = self.top_opened(stack);
        let next = self.stack_onwards(stack);
        let around = self.knight_points(p);
        self.lemma_top_opened(stack);
        assert forall|a: Point, q: Point| #[trigger]
            self.spreads(a, q) && r.newly_open(self, a) implies r.newly_open(self, q) by {
            if q != p {
                assert(b1.cell(q) == self.cell(q));
                if a == p {
                    self.lemma_knight_points(p, q);
                    let k = choose|k: int| 0 <= k < around.len() && around[k] == q;
                    let j = waiting.len() + (around.len() - 1 - k);
                    assert(next[j] == q);
                    assert(r.newly_open(b1, next[j]));
                } else {
                    assert(b1.cell(a) == self.cell(a));
                    assert(b1.spreads(a, q));
                    assert(r.newly_open(b1, a));
                }
            }
        }
    }

    proof fn lemma_region_same_grid(self, b1: BoardView, stack: Seq<Point>, r: BoardView)
        requires
            stack.len() > 0,
            b1.grid == self.grid,
            b1.width == self.width,
            b1.height == self.height,
            r.opened_soundly(b1, stack.drop_last()),
            r.opened_stack(b1, stack.drop_last()),
            r.opened_onwards(b1),
            !(self.in_bounds(stack.last()) && self.cell(stack.last()).is_closed_number()),
        ensures
            r.opened_soundly(self, stack),
            r.opened_stack(self, stack),
            r.opened_onwards(self),
    {
        let waiting = stack.drop_last();
        assert(b1.ahead_of(self)) by {
            assert forall|q: Point| self.in_bounds(q) implies #[trigger] b1.kept(self, q)
                || b1.newly_open(self, q) by {}
        }
        assert forall|q: Point|
            self.in_bounds(q) && #[trigger] r.newly_open(self, q) implies exists|i: int|
            0 <= i < stack.len() && #[trigger] self.reaches(stack[i], q) by {
            assert(r.newly_open(b1, q));
            let j = choose|j: int| 0 <= j < waiting.len() && #[trigger] b1.reaches(waiting[j], q);
            b1.lemma_reaches_back(self, waiting[j], q);
            assert(waiting[j] == stack[j]);
            assert(self.reaches(stack[j], q));
        }
        assert forall|i: int|
            0 <= i < stack.len() && self.in_bounds(#[trigger] stack[i]) && self.cell(
                stack[i],
            ).is_closed_number() implies r.newly_open(self, stack[i]) by {
            if i < stack.len() - 1 {
                assert(waiting[i] == stack[i]);
                assert(r.newly_open(b1, waiting[i]));
            }
        }
        assert forall|a: Point, q: Point| #[trigger]
            self.spreads(a, q) && r.newly_open(self, a) implies r.newly_open(self, q) by {
            assert(b1.spreads(a, q));
            assert(r.newly_open(b1, a));
        }
    }

    /// A traversal opens what is reached from its stack, opens every closed
    /// number of its stack, and goes on from every zero that it opens.
    pub proof fn lemma_open_all_region(self, stack: Seq<Point>)
        requires
            self.wf(),
        ensures
            self.open_all(stack).opened_soundly(self, stack),
            self.open_all(stack).opened_stack(self, stack),
            self.open_all(stack).opened_onwards(self),
        decreases self.closed_numbers(), stack.len(),
    {
        let r = self.open_all(stack);
        self.lemma_closed_numbers_bounds();
        if stack.len() == 0 {
        } else {
            let p = stack.last();
            let waiting = stack.drop_last();
            if self.top_is_closed_number(stack) {
                let b1 = self.top_opened(stack);
                let next = self.stack_onwards(stack);
                self.lemma_top_opened(stack);
                b1.lemma_open_all_region(next);
                b1.lemma_open_all_opens(next);
                self.lemma_number_sound(stack, r);
                self.lemma_number_stack(stack, r);
                self.lemma_number_onwards(stack, r);
            } else if self.in_bounds(p) && self.cell(p).is_unflagged_mine() {
                let b1 = self.failed();
                assert(r == b1.open_all(waiting));
                b1.lemma_open_all_region(waiting);
                self.lemma_region_same_grid(b1, stack, r);
            } else {
                assert(r == self.open_all(waiting));
                self.lemma_open_all_region(waiting);
                self.lemma_region_same_grid(self, stack, r);
            }
        }
    }

    /// Every cell of a trail is opened by a traversal that opens the first
    /// and goes on from every zero that it opens.
    pub proof fn lemma_trail_opened(self, before: BoardView, trail: Seq<Point>, i: int)
        requires
            before.is_trail(trail),
            self.newly_open(before, trail[0]),
            self.opened_onwards(before),
            0 <= i < trail.len(),
        ensures
            self.newly_open(before, trail[i]),
        decreases i,
    {
        if i > 0 {
            self.lemma_trail_opened(before, trail, i - 1);
            assert(before.spreads(trail[i - 1], trail[i - 1 + 1]));
        }
    }
}

} // verus!
