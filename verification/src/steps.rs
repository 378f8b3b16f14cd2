//! How a board changes from step to step: under the replacement of a cell,
//! under a traversal, and when the counts are derived. The laws of the game
//! are proved from these.

use vstd::prelude::*;
use crate::cell::MapElement;
use crate::cell::MapElementCellState;
use crate::grid::closed_number_pred;
use crate::grid::lemma_grid_count_agree;
use crate::grid::lemma_grid_count_below;
use crate::grid::lemma_grid_count_bounds;
use crate::grid::lemma_grid_count_update;
use crate::grid::mine_pred;
use crate::grid::rectangular;
use crate::grid::unopened_number_pred;
use crate::model::BoardState;
use crate::model::BoardView;
use crate::point::knight_offsets;
use crate::point::lemma_neighbours_on_grid;
use crate::point::Point;

verus! {

/// The state after a move that has opened number cells and met no mine,
/// given the state and the counter before it and the counter after it. If
/// nothing was opened the state is as it was. Otherwise the game is won if
/// the counter has reached zero on its way down; if not, a `Ready` board has
/// started `Playing`, and any other state is as it was.
pub open spec fn state_after_opening(state: BoardState, before: int, after: int) -> BoardState {
    if after == before {
        state
    } else if after <= 0 < before {
        BoardState::Won
    } else if state == BoardState::Ready {
        BoardState::Playing
    } else {
        state
    }
}

impl BoardView {
    /// `self` and `before` have the same size and the same number of mines.
    pub open spec fn same_layout(self, before: BoardView) -> bool {
        &&& self.width == before.width
        &&& self.height == before.height
        &&& self.mines == before.mines
    }

    /// The cell at `p` is as it was in `before`.
    pub open spec fn kept(self, before: BoardView, p: Point) -> bool {
        self.cell(p) == before.cell(p)
    }

    /// The cell at `p` was a closed number in `before` and is the same
    /// number, open, in `self`.
    pub open spec fn newly_open(self, before: BoardView, p: Point) -> bool {
        before.cell(p).is_closed_number() && self.cell(p) == before.cell(p).opened()
    }

    /// `self` comes of `before` by opening closed numbers: the layout is
    /// the same, every cell is kept or newly open, and the counter has
    /// dropped by one for each cell that was opened.
    pub open spec fn opened_from(self, before: BoardView) -> bool {
        &&& self.wf()
        &&& self.same_layout(before)
        &&& forall|q: Point|
            before.in_bounds(q) ==> #[trigger] self.kept(before, q) || self.newly_open(before, q)
        &&& before.missing_points - self.missing_points == before.closed_numbers()
            - self.closed_numbers()
        &&& before.missing_points - self.missing_points == before.unopened_numbers()
            - self.unopened_numbers()
        &&& 0 <= self.closed_numbers() <= before.closed_numbers()
    }

    /// There are no more closed numbers than numbers that are not open, and
    /// no more of these than cells.
    pub proof fn lemma_closed_numbers_bounds(self)
        requires
            rectangular(self.grid, self.width, self.height),
        ensures
            0 <= self.closed_numbers() <= self.unopened_numbers() <= self.width * self.height,
    {
        lemma_grid_count_bounds(self.grid, self.width, closed_number_pred());
        lemma_grid_count_bounds(self.grid, self.width, unopened_number_pred());
        lemma_grid_count_below(self.grid, closed_number_pred(), unopened_number_pred());
        assert(self.height * self.width == self.width * self.height) by (nonlinear_arith);
    }

    /// Replacing a cell by one of its kind keeps the invariant, the layout
    /// and every other cell, and moves the number of closed numbers by the
    /// difference of the two cells.
    pub proof fn lemma_replace(self, p: Point, el: MapElement)
        requires
            self.wf(),
            self.in_bounds(p),
            el.is_mine() == self.cell(p).is_mine(),
        ensures
            self.replace(p, el).wf(),
            self.replace(p, el).same_layout(self),
            self.replace(p, el).cell(p) == el,
            forall|q: Point|
                self.in_bounds(q) && q != p ==> #[trigger] self.replace(p, el).cell(q) == self.cell(
                    q,
                ),
            self.replace(p, el).closed_numbers() == self.closed_numbers() - (if self.cell(
                p,
            ).is_closed_number() {
                1int
            } else {
                0int
            }) + (if el.is_closed_number() {
                1int
            } else {
                0int
            }),
            0 <= self.replace(p, el).closed_numbers(),
            self.replace(p, el).unopened_numbers() == self.unopened_numbers() - (if self.cell(
                p,
            ).is_unopened_number() {
                1int
            } else {
                0int
            }) + (if el.is_unopened_number() {
                1int
            } else {
                0int
            }),
            0 <= self.closed_numbers() <= self.unopened_numbers(),
            0 <= self.replace(p, el).unopened_numbers(),
    {
        self.lemma_closed_numbers_bounds();
        self.replace(p, el).lemma_closed_numbers_bounds();
        lemma_grid_count_update(self.grid, p.x as int, p.y as int, el, mine_pred());
        lemma_grid_count_update(self.grid, p.x as int, p.y as int, el, closed_number_pred());
        lemma_grid_count_update(self.grid, p.x as int, p.y as int, el, unopened_number_pred());
    }

    /// Opening the cells of a stack keeps the invariant and the layout,
    /// changes no cell but closed numbers, which it opens, and takes one
    /// from the counter for each cell that it opens.
    pub proof fn lemma_open_all_opens(self, stack: Seq<Point>)
        requires
            self.wf(),
        ensures
            self.open_all(stack).opened_from(self),
        decreases self.closed_numbers(), stack.len(),
    {
        self.lemma_closed_numbers_bounds();
        if stack.len() == 0 {
        } else {
            let p = stack.last();
            let waiting = stack.drop_last();
            match self.at(p) {
                Some(MapElement::Number { state: MapElementCellState::Closed, count }) => {
                    let el = MapElement::Number { state: MapElementCellState::Open, count };
                    let opened = self.replace(p, el);
                    self.lemma_replace(p, el);
                    let next = if count == 0 {
                        waiting + self.knight_points(p).reverse()
                    } else {
                        waiting
                    };
                    opened.lemma_open_all_opens(next);
                    let r = opened.open_all(next);
                    assert(r == self.open_all(stack));
                    assert forall|q: Point| self.in_bounds(q) implies #[trigger] r.kept(self, q)
                        || r.newly_open(self, q) by {
                        assert(r.kept(opened, q) || r.newly_open(opened, q));
                        if q != p {
                            assert(opened.cell(q) == self.cell(q));
                        }
                    }
                },
                Some(MapElement::Mine { state: MapElementCellState::Closed })
                | Some(MapElement::Mine { state: MapElementCellState::Open }) => {
                    self.failed().lemma_open_all_opens(waiting);
                    let r = self.failed().open_all(waiting);
                    assert forall|q: Point| self.in_bounds(q) implies #[trigger] r.kept(self, q)
                        || r.newly_open(self, q) by {
                        assert(r.kept(self.failed(), q) || r.newly_open(self.failed(), q));
                    }
                },
                _ => {
                    self.lemma_open_all_opens(waiting);
                },
            }
        }
    }

    /// None of `points` that lies on the board holds a mine.
    pub open spec fn mine_free(self, points: Seq<Point>) -> bool {
        forall|i: int|
            0 <= i < points.len() && self.in_bounds(#[trigger] points[i]) ==> !self.cell(
                points[i],
            ).is_mine()
    }

    /// `self` has mines where `other` has them, on a grid of the same size.
    pub open spec fn same_mines(self, other: BoardView) -> bool {
        &&& self.width == other.width
        &&& self.height == other.height
        &&& forall|q: Point|
            self.in_bounds(q) ==> (#[trigger] self.cell(q)).is_mine() == other.cell(q).is_mine()
    }

    /// The number of mines among given cells is not negative, and is zero
    /// only if none of them holds a mine.
    pub proof fn lemma_mines_among_zero(self, points: Seq<Point>)
        ensures
            0 <= self.mines_among(points) <= points.len(),
            self.mines_among(points) == 0 ==> forall|i: int|
                0 <= i < points.len() ==> !self.cell(#[trigger] points[i]).is_mine(),
        decreases points.len(),
    {
        if points.len() > 0 {
            self.lemma_mines_among_zero(points.drop_last());
            if self.mines_among(points) == 0 {
                assert forall|i: int| 0 <= i < points.len() implies !self.cell(
                    #[trigger] points[i],
                ).is_mine() by {
                    if i < points.len() - 1 {
                        assert(points[i] == points.drop_last()[i]);
                    }
                }
            }
        }
    }

    /// Two boards with the same mines count the same mines among cells of
    /// the board.
    pub proof fn lemma_mines_among_same(self, other: BoardView, points: Seq<Point>)
        requires
            self.same_mines(other),
            forall|i: int| 0 <= i < points.len() ==> self.in_bounds(#[trigger] points[i]),
        ensures
            self.mines_among(points) == other.mines_among(points),
        decreases points.len(),
    {
        if points.len() > 0 {
            let rest = points.drop_last();
            assert forall|i: int| 0 <= i < rest.len() implies self.in_bounds(#[trigger] rest[i]) by {
                assert(rest[i] == points[i]);
            }
            self.lemma_mines_among_same(other, rest);
            assert(self.in_bounds(points[points.len() - 1]));
        }
    }

    /// Two boards with the same mines derive the same count for every cell.
    pub proof fn lemma_knight_mines_same(self, other: BoardView, p: Point)
        requires
            self.wf(),
            self.same_mines(other),
        ensures
            self.knight_mines(p) == other.knight_mines(p),
            0 <= self.knight_mines(p) <= 8,
    {
        self.lemma_sides();
        lemma_neighbours_on_grid(self.width, self.height, p, knight_offsets());
        self.lemma_mines_among_same(other, self.knight_points(p));
        self.lemma_mines_among_zero(self.knight_points(p));
    }

    /// Counts that are derived stay so when a cell is replaced by one of
    /// its kind that shows the same count.
    pub proof fn lemma_replace_keeps_counts(self, p: Point, el: MapElement)
        requires
            self.wf(),
            self.in_bounds(p),
            self.counts_derived(),
            el == self.cell(p).with_state(el.state()),
        ensures
            self.replace(p, el).counts_derived(),
            self.replace(p, el).same_mines(self),
    {
        let r = self.replace(p, el);
        self.lemma_replace(p, el);
        assert forall|x: int, y: int| 0 <= x < r.width && 0 <= y < r.height implies (
        #[trigger] r.grid[y][x] matches MapElement::Number { count, .. } ==> count
            == r.knight_mines(Point::at(x, y))) by {
            self.lemma_sides();
            let q = Point::at(x, y);
            assert(r.cell(q) == r.grid[y][x]);
            r.lemma_knight_mines_same(self, q);
            if q != p {
                assert(r.cell(q) == self.cell(q));
            }
            assert(self.grid[y][x] == self.cell(q));
        }
    }

    /// Deriving the counts keeps the invariant, the layout and the mines, and
    /// gives every number cell the number of mines a knight's move away.
    pub proof fn lemma_with_counts(self)
        requires
            self.wf(),
        ensures
            self.with_counts().wf(),
            self.with_counts().same_layout(self),
            self.with_counts().same_mines(self),
            self.with_counts().counts_derived(),
    {
        let r = self.with_counts();
        self.lemma_sides();
        lemma_grid_count_agree(self.grid, r.grid, mine_pred());
        assert(r.same_mines(self));
        assert forall|x: int, y: int| 0 <= x < r.width && 0 <= y < r.height implies (
        #[trigger] r.grid[y][x] matches MapElement::Number { count, .. } ==> count
            == r.knight_mines(Point::at(x, y))) by {
            r.lemma_knight_mines_same(self, Point::at(x, y));
        }
    }

    /// Counts that are derived on a board are derived on every board with
    /// the same grid.
    pub proof fn lemma_same_grid_keeps_counts(self, other: BoardView)
        requires
            self.wf(),
            self.counts_derived(),
            other.wf(),
            other.grid == self.grid,
            other.width == self.width,
            other.height == self.height,
        ensures
            other.counts_derived(),
    {
        assert forall|x: int, y: int| 0 <= x < other.width && 0 <= y < other.height implies (
        #[trigger] other.grid[y][x] matches MapElement::Number { count, .. } ==> count
            == other.knight_mines(Point::at(x, y))) by {
            other.lemma_knight_mines_same(self, Point::at(x, y));
        }
    }

    /// Visiting a stack is visiting its upper part and then what lies
    /// beneath.
    pub proof fn lemma_open_all_split(self, beneath: Seq<Point>, upper: Seq<Point>)
        requires
            self.wf(),
        ensures
            self.open_all(beneath + upper) == self.open_all(upper).open_all(beneath),
        decreases self.closed_numbers(), upper.len(),
    {
        self.lemma_closed_numbers_bounds();
        let stack = beneath + upper;
        if upper.len() == 0 {
            assert(stack =~= beneath);
        } else {
            let p = upper.last();
            let waiting = upper.drop_last();
            assert(stack.last() == p);
            assert(stack.drop_last() =~= beneath + waiting);
            match self.at(p) {
                Some(MapElement::Number { state: MapElementCellState::Closed, count }) => {
                    let el = MapElement::Number { state: MapElementCellState::Open, count };
                    let opened = self.replace(p, el);
                    self.lemma_replace(p, el);
                    if count == 0 {
                        let around = self.knight_points(p).reverse();
                        assert(beneath + waiting + around =~= beneath + (waiting + around));
                        opened.lemma_open_all_split(beneath, waiting + around);
                    } else {
                        opened.lemma_open_all_split(beneath, waiting);
                    }
                },
                Some(MapElement::Mine { state: MapElementCellState::Closed })
                | Some(MapElement::Mine { state: MapElementCellState::Open }) => {
                    self.failed().lemma_open_all_split(beneath, waiting);
                },
                _ => {
                    self.lemma_open_all_split(beneath, waiting);
                },
            }
        }
    }

    /// Visiting one point is opening it, where it can be opened, and nothing
    /// where it cannot.
    pub proof fn lemma_open_one(self, p: Point)
        requires
            self.wf(),
        ensures
            self.open_all(seq![p]) == match self.cascade_open(p) {
                Some(board) => board,
                None => self,
            },
    {
        assert(seq![p].last() == p);
        assert(seq![p].drop_last() =~= Seq::<Point>::empty());
        if self.cascade_open(p) is None {
            assert(self.open_all(seq![p]) == self.open_all(Seq::<Point>::empty()));
        }
    }

    /// Visiting points from a stack, the last one first, is opening each in
    /// turn.
    pub proof fn lemma_open_all_in_turn(self, points: Seq<Point>)
        requires
            self.wf(),
        ensures
            self.open_all(points.reverse()) == self.open_each(points),
        decreases points.len(),
    {
        if points.len() > 0 {
            let first = points.first();
            let rest = points.drop_first();
            assert(points.reverse() =~= rest.reverse() + seq![first]);
            self.lemma_open_all_split(rest.reverse(), seq![first]);
            self.lemma_open_one(first);
            let next = self.open_all(seq![first]);
            self.lemma_open_all_opens(seq![first]);
            next.lemma_open_all_in_turn(rest);
        } else {
            assert(points.reverse() =~= Seq::<Point>::empty());
        }
    }

    /// With derived counts, opening a stack of cells that holds no mine
    /// never meets a mine: the state follows from the counter alone, as
    /// [`state_after_opening`] says, and the counts stay derived.
    pub proof fn lemma_open_all_state(self, stack: Seq<Point>)
        requires
            self.wf(),
            self.counts_derived(),
            self.mine_free(stack),
        ensures
            self.open_all(stack).state == state_after_opening(
                self.state,
                self.missing_points,
                self.open_all(stack).missing_points,
            ),
            self.open_all(stack).counts_derived(),
        decreases self.closed_numbers(), stack.len(),
    {
        self.lemma_closed_numbers_bounds();
        if stack.len() > 0 {
            let p = stack.last();
            let waiting = stack.drop_last();
            assert(self.mine_free(waiting)) by {
                assert forall|i: int|
                    0 <= i < waiting.len() && self.in_bounds(
                        #[trigger] waiting[i],
                    ) implies !self.cell(waiting[i]).is_mine() by {
                    assert(waiting[i] == stack[i]);
                }
            }
            match self.at(p) {
                Some(MapElement::Number { state: MapElementCellState::Closed, count }) => {
                    let el = MapElement::Number { state: MapElementCellState::Open, count };
                    let opened = self.replace(p, el);
                    self.lemma_replace(p, el);
                    self.lemma_replace_keeps_counts(p, el);
                    let around = self.knight_points(p);
                    let next = if count == 0 {
                        waiting + around.reverse()
                    } else {
                        waiting
                    };
                    assert(opened.mine_free(next)) by {
                        self.lemma_sides();
                        lemma_neighbours_on_grid(self.width, self.height, p, knight_offsets());
                        self.lemma_mines_among_zero(around);
                        assert(self.grid[p.y as int][p.x as int] == self.cell(p));
                        assert(Point::at(p.x as int, p.y as int) == p);
                        assert forall|i: int|
                            0 <= i < next.len() && opened.in_bounds(
                                #[trigger] next[i],
                            ) implies !opened.cell(next[i]).is_mine() by {
                            let q = next[i];
                            assert(opened.cell(q).is_mine() == self.cell(q).is_mine());
                            if i < waiting.len() {
                                assert(q == waiting[i]);
                            } else {
                                let j = around.len() - 1 - (i - waiting.len());
                                assert(q == around[j]);
                            }
                        }
                    }
                    opened.lemma_open_all_state(next);
                    opened.lemma_open_all_opens(next);
                },
                Some(MapElement::Mine { .. }) => {
                    assert(stack[stack.len() - 1] == p);
                },
                _ => {
                    self.lemma_open_all_state(waiting);
                },
            }
        }
    }
}

} // verus!
