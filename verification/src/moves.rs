//! The moves of the player: flagging a cell and opening one.

use vstd::prelude::*;
use crate::board::Board;
use crate::cell::MapElement;
use crate::cell::MapElementCellState;
use crate::laws::opening_counts_each_cell_once;
use crate::laws::opening_ends_the_game;
use crate::laws::opening_opens_the_region;
use crate::grid::with_cell;
use crate::model::BoardState;
use crate::model::BoardView;
use crate::steps::state_after_opening;
use crate::point::Point;

verus! {

/// Why a move was refused.
#[derive(Debug, PartialEq, Eq, Clone, Copy, Structural)]
pub enum MoveError {
    /// The board does not satisfy the invariant of its type.
    MalformedBoard,
    /// The point names no cell of the board.
    InvalidPoint,
    /// Opening would take the counter of missing points out of the range
    /// of an `i32`.
    CounterUnderflow,
}

impl MoveError {
    /// The reason in words.
    pub fn message(&self) -> (r: &'static str)
        ensures
            r@ == match self {
                MoveError::MalformedBoard => "the board is not well formed"@,
                MoveError::InvalidPoint => "the point names no cell of the board"@,
                MoveError::CounterUnderflow => "the counter of missing points would underflow"@,
            },
    {
        match self {
            MoveError::MalformedBoard => "the board is not well formed",
            MoveError::InvalidPoint => "the point names no cell of the board",
            MoveError::CounterUnderflow => "the counter of missing points would underflow",
        }
    }
}

impl Board {
    /// Toggles the flag on the cell at `p`: a closed cell becomes flagged, a
    /// flagged cell closed, and an open cell stays as it is. Nothing else
    /// changes: a flag opens nothing, so the counter and the state are as
    /// they were, and a second flag on a cell gives the board back.
    pub fn flag_item(self: &Self, p: &Point) -> (r: Board)
        requires
            self.wf(),
            self@.in_bounds(*p),
        ensures
            r@ == self@.flag(*p),
            r@ == (BoardView {
                grid: with_cell(self@.grid, p.x as int, p.y as int, self@.cell(*p).toggled()),
                ..self@
            }),
            r.missing_points == self.missing_points,
            r.state == self.state,
            r.wf(),
            r@.same_layout(self@),
            r@.unopened_numbers() == self@.unopened_numbers(),
            self.counter_has_room() ==> r.counter_has_room(),
    {
        proof {
            self@.lemma_replace(*p, self@.cell(*p).toggled());
        }
        let el = *self.at(p).unwrap();
        self.replace(p, el.toggle())
    }

    /// Opens the cell at `p`. Returns `None`, for no change, where the cell
    /// is a number that is already open or is flagged. Opening a mine loses
    /// the game and leaves the grid as it is. Opening a closed number that
    /// shows zero goes on to its knight neighbours, depth first; see
    /// [`BoardView::open_all`](crate::model::BoardView::open_all). What is
    /// opened in the end is the region that the cell reaches, and the
    /// counter drops by one for each cell of it. The cells are opened in
    /// place on one copy of the board, with a stack in place of recursion.
    pub fn cascade_open_item(self: &Self, p: &Point) -> (r: Option<Board>)
        requires
            self.wf(),
            self@.in_bounds(*p),
            self@.cell(*p).is_closed_number() ==> self.counter_has_room(),
        ensures
            match r {
                Some(board) => self@.cascade_open(*p) == Some(board@) && board.wf()
                    && board@.opened_from(self@),
                None => self@.cascade_open(*p) is None,
            },
            self.counter_has_room() ==> (r matches Some(board) ==> board.counter_has_room()),
            r is None <==> self@.cell(*p).state() == MapElementCellState::Flagged || (self@.cell(
                *p,
            ) is Number && self@.cell(*p).state() == MapElementCellState::Open),
            self@.cell(*p).is_unflagged_mine() ==> r is Some && r.unwrap()@ == self@.failed(),
            self@.cell(*p).is_closed_number() ==> r is Some && forall|q: Point|
                self@.in_bounds(q) ==> #[trigger] r.unwrap()@.cell(q) == if self@.reaches(*p, q) {
                    self@.cell(q).opened()
                } else {
                    self@.cell(q)
                },
            self@.cell(*p).is_closed_number() && self@.counts_derived() ==> r is Some
                && r.unwrap()@.counts_derived() && r.unwrap().state == state_after_opening(
                self.state,
                self.missing_points as int,
                r.unwrap().missing_points as int,
            ),
    {
        proof {
            self@.lemma_open_all_opens(seq![*p]);
            opening_counts_each_cell_once(self@, *p);
            if self@.cell(*p).is_closed_number() {
                opening_opens_the_region(self@, *p);
                if self@.counts_derived() {
                    opening_ends_the_game(self@, *p);
                }
            }
        }
        let first = *self.at(p).unwrap();
        match first {
            MapElement::Number { state: MapElementCellState::Open, .. }
            | MapElement::Mine { state: MapElementCellState::Flagged }
            | MapElement::Number { state: MapElementCellState::Flagged, .. } => {
                return None;
            },
            MapElement::Mine { .. } => {
                let mut lost = self.duplicate();
                lost.state = BoardState::Failed;
                return Some(lost);
            },
            _ => {},
        }
        let mut board = self.duplicate();
        let mut stack: Vec<Point> = Vec::new();
        stack.push(*p);
        assert(stack@ == seq![*p]);
        while stack.len() > 0
            invariant
                board.wf(),
                board.counter_has_room(),
                board@.open_all(stack@) == self@.open_all(seq![*p]),
            decreases board@.closed_numbers(), stack.len(),
        {
            proof {
                board@.lemma_closed_numbers_bounds();
            }
            let ghost before = board@;
            let ghost pending = stack@;
            let q = stack.pop().unwrap();
            let ghost waiting = stack@;
            assert(waiting == pending.drop_last());
            match board.at(&q) {
                Some(MapElement::Number { state: MapElementCellState::Closed, count }) => {
                    let count = *count;
                    let opened = MapElement::Number { state: MapElementCellState::Open, count };
                    proof {
                        before.lemma_replace(q, opened);
                    }
                    board.put(&q, opened);
                    if count == 0 {
                        let around = board.surrounding_knight_points(&q);
                        let mut i: usize = around.len();
                        while i > 0
                            invariant
                                i <= around.len(),
                                stack@ == waiting + around@.reverse().take(around.len() - i),
                            decreases i,
                        {
                            i -= 1;
                            stack.push(around[i]);
                            assert(stack@ == waiting + around@.reverse().take(around.len() - i));
                        }
                        assert(around@.reverse().take(around.len() as int) == around@.reverse());
                    }
                },
                Some(MapElement::Mine { state: MapElementCellState::Closed })
                | Some(MapElement::Mine { state: MapElementCellState::Open }) => {
                    board.state = BoardState::Failed;
                },
                _ => {},
            }
        }
        Some(board)
    }

    /// [`Board::flag_item`] for a caller that cannot vouch for the board or
    /// the point: the move is made where it can be, and refused with the
    /// reason where it cannot.
    pub fn try_flag_item(&self, p: &Point) -> (r: Result<Board, MoveError>)
        ensures
            r matches Ok(board) ==> board@ == self@.flag(*p) && board.wf(),
            r is Ok <==> self.wf() && self@.in_bounds(*p),
            r == Err::<Board, MoveError>(MoveError::MalformedBoard) <==> !self.wf(),
            r == Err::<Board, MoveError>(MoveError::InvalidPoint) <==> self.wf()
                && !self@.in_bounds(*p),
    {
        if !self.is_well_formed() {
            return Err(MoveError::MalformedBoard);
        }
        match self.at(p) {
            None => Err(MoveError::InvalidPoint),
            Some(_) => Ok(self.flag_item(p)),
        }
    }

    /// [`Board::cascade_open_item`] for a caller that cannot vouch for the
    /// board or the point: the move is made where it can be, and refused
    /// with the reason where it cannot.
    pub fn try_cascade_open_item(&self, p: &Point) -> (r: Result<Option<Board>, MoveError>)
        ensures
            r matches Ok(Some(board)) ==> self@.cascade_open(*p) == Some(board@) && board.wf(),
            r matches Ok(None) ==> self@.cascade_open(*p) is None,
            r is Ok <==> self.wf() && self@.in_bounds(*p) && (self@.cell(*p).is_closed_number()
                ==> self.counter_has_room()),
            r == Err::<Option<Board>, MoveError>(MoveError::MalformedBoard) <==> !self.wf(),
            r == Err::<Option<Board>, MoveError>(MoveError::InvalidPoint) <==> self.wf()
                && !self@.in_bounds(*p),
            r == Err::<Option<Board>, MoveError>(MoveError::CounterUnderflow) <==> self.wf()
                && self@.in_bounds(*p) && self@.cell(*p).is_closed_number()
                && !self.counter_has_room(),
    {
        if !self.is_well_formed() {
            return Err(MoveError::MalformedBoard);
        }
        match self.at(p) {
            None => {
                return Err(MoveError::InvalidPoint);
            },
            Some(MapElement::Number { state: MapElementCellState::Closed, .. }) => {
                if !self.has_counter_room() {
                    return Err(MoveError::CounterUnderflow);
                }
            },
            Some(_) => {},
        }
        Ok(self.cascade_open_item(p))
    }
}

} // verus!
