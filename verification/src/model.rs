//! The mathematical model of a board, and every move as a function on it.

use vstd::prelude::*;
use crate::cell::MapElement;
use crate::cell::MapElementCellState;
use crate::grid::closed_number_pred;
use crate::grid::grid_count;
use crate::grid::lemma_grid_count_bounds;
use crate::grid::lemma_grid_count_update;
use crate::grid::mine_pred;
use crate::grid::rectangular;
use crate::grid::unopened_number_pred;
use crate::grid::with_cell;
use crate::point::knight_offsets;
use crate::point::neighbours;
use crate::point::touching_offsets;
use crate::point::Point;

verus! {

/// Where a game stands. A board is made `NotReady`, becomes `Ready` when its
/// counts are derived, `Playing` with the first replaced cell, and ends
/// `Won` or `Failed`.
#[derive(Debug, PartialEq, Eq, Clone, Copy, Structural)]
pub enum BoardState {
    NotReady,
    Ready,
    Playing,
    Won,
    Failed,
}

/// The state after a number has been opened, given the counter after it
/// and the state before it: a counter of zero wins, whatever the state was;
/// otherwise a `Ready` board starts `Playing`, and any other state stays.
pub open spec fn state_after(missing_points: int, state: BoardState) -> BoardState {
    if missing_points == 0 {
        BoardState::Won
    } else if state == BoardState::Ready {
        BoardState::Playing
    } else {
        state
    }
}

/// A board as a mathematical value: the grid by rows, the counter of points
/// that are still missing, the dimensions, the number of mines and the state.
pub ghost struct BoardView {
    pub grid: Seq<Seq<MapElement>>,
    pub missing_points: int,
    pub width: int,
    pub height: int,
    pub mines: int,
    pub state: BoardState,
}

impl BoardView {
    /// The board of a grid that has just been laid out: its dimensions and
    /// mines are counted from the grid, every number cell is still missing,
    /// and no count has been derived.
    pub open spec fn of_grid(grid: Seq<Seq<MapElement>>) -> BoardView {
        let width = grid[0].len() as int;
        let height = grid.len() as int;
        let mines = grid_count(grid, mine_pred());
        BoardView {
            grid,
            missing_points: width * height - mines,
            width,
            height,
            mines,
            state: BoardState::NotReady,
        }
    }

    /// The invariant of a board: a grid of `height` rows of `width` cells,
    /// both positive, small enough for the cells to be counted in an `i32`,
    /// and `mines` is the number of mines on the grid.
    pub open spec fn wf(self) -> bool {
        &&& 0 < self.width
        &&& 0 < self.height
        &&& self.width * self.height <= i32::MAX
        &&& rectangular(self.grid, self.width, self.height)
        &&& self.mines == grid_count(self.grid, mine_pred())
    }

    /// Each side of a board fits in an `i32`, as the number of its cells
    /// does.
    pub proof fn lemma_sides(self)
        requires
            self.wf(),
        ensures
            self.width <= i32::MAX,
            self.height <= i32::MAX,
    {
        assert(self.width <= self.width * self.height && self.height <= self.width * self.height)
            by (nonlinear_arith)
            requires
                0 < self.width,
                0 < self.height,
        ;
    }

    /// Whether `p` names a cell of the board.
    pub open spec fn in_bounds(self, p: Point) -> bool {
        p.within(self.width, self.height)
    }

    /// The cell at `p`, which must be in bounds.
    pub open spec fn cell(self, p: Point) -> MapElement
        recommends
            self.in_bounds(p),
    {
        self.grid[p.y as int][p.x as int]
    }

    /// The cell at `p`, or `None` where `p` lies off the board.
    pub open spec fn at(self, p: Point) -> Option<MapElement> {
        if self.in_bounds(p) {
            Some(self.cell(p))
        } else {
            None
        }
    }

    /// The number of number cells that are closed.
    pub open spec fn closed_numbers(self) -> int {
        grid_count(self.grid, closed_number_pred())
    }

    /// The number of number cells that are not open.
    pub open spec fn unopened_numbers(self) -> int {
        grid_count(self.grid, unopened_number_pred())
    }

    /// The board with the cell at `p` replaced by `el`. Where a closed number
    /// is replaced by an open one, the counter drops by one and the state
    /// follows [`state_after`]; any other replacement, such as a flag put on
    /// or taken off, leaves the counter and the state as they are. The grid
    /// changes in no other way than this.
    pub open spec fn replace(self, p: Point, el: MapElement) -> BoardView
        recommends
            self.in_bounds(p),
    {
        let grid = with_cell(self.grid, p.x as int, p.y as int, el);
        if self.cell(p).is_opened_by(el) {
            BoardView {
                grid,
                missing_points: self.missing_points - 1,
                state: state_after(self.missing_points - 1, self.state),
                ..self
            }
        } else {
            BoardView { grid, ..self }
        }
    }

    /// The same board, lost.
    pub open spec fn failed(self) -> BoardView {
        BoardView { state: BoardState::Failed, ..self }
    }

    /// The board after the player toggles the flag at `p`: the cell at `p`
    /// changes between closed and flagged, and nothing else changes.
    pub open spec fn flag(self, p: Point) -> BoardView
        recommends
            self.in_bounds(p),
    {
        self.replace(p, self.cell(p).toggled())
    }

    /// The cells a knight's move away from `p`, in visiting order.
    pub open spec fn knight_points(self, p: Point) -> Seq<Point> {
        neighbours(self.width, self.height, p, knight_offsets())
    }

    /// The cells that touch `p` by a side or a corner, in listing order.
    pub open spec fn touching_points(self, p: Point) -> Seq<Point> {
        neighbours(self.width, self.height, p, touching_offsets())
    }

    /// The board after every point of `stack` has been visited, the last
    /// one first. Visiting a closed number opens it, and if it shows zero
    /// its knight neighbours are visited next, before anything that was
    /// waiting; visiting a mine that is not flagged loses the game; visiting
    /// any other cell does nothing. This is the order of a depth-first
    /// traversal.
    pub open spec fn open_all(self, stack: Seq<Point>) -> BoardView
        decreases self.closed_numbers(), stack.len(),
        when self.wf()
    {
        if stack.len() == 0 {
            self
        } else {
            let p = stack.last();
            let waiting = stack.drop_last();
            match self.at(p) {
                Some(MapElement::Number { state: MapElementCellState::Closed, count }) => {
                    proof {
                        lemma_grid_count_update(
                            self.grid,
                            p.x as int,
                            p.y as int,
                            MapElement::Number { state: MapElementCellState::Open, count },
                            closed_number_pred(),
                        );
                        let after = self.replace(
                            p,
                            MapElement::Number { state: MapElementCellState::Open, count },
                        );
                        assert(rectangular(after.grid, self.width, self.height));
                        lemma_grid_count_bounds(after.grid, self.width, closed_number_pred());
                    }
                    let opened = self.replace(
                        p,
                        MapElement::Number { state: MapElementCellState::Open, count },
                    );
                    if count == 0 {
                        opened.open_all(waiting + self.knight_points(p).reverse())
                    } else {
                        opened.open_all(waiting)
                    }
                },
                Some(MapElement::Mine { state: MapElementCellState::Closed })
                | Some(MapElement::Mine { state: MapElementCellState::Open }) => {
                    self.failed().open_all(waiting)
                },
                _ => self.open_all(waiting),
            }
        }
    }

    /// The board after the player opens the cell at `p`, or `None` where the
    /// move changes nothing: the cell is a number that is already open, or it
    /// is flagged, or `p` lies off the board.
    pub open spec fn cascade_open(self, p: Point) -> Option<BoardView> {
        match self.at(p) {
            None => None,
            Some(el) => if el.state() == MapElementCellState::Flagged || (el is Number && el.state()
                == MapElementCellState::Open) {
                None
            } else {
                Some(self.open_all(seq![p]))
            },
        }
    }

    /// The board after each of `points` has been opened in turn, the first
    /// one first, where opening a point that cannot be opened leaves the
    /// board as it is.
    pub open spec fn open_each(self, points: Seq<Point>) -> BoardView
        decreases points.len(),
    {
        if points.len() == 0 {
            self
        } else {
            let next = match self.cascade_open(points.first()) {
                Some(board) => board,
                None => self,
            };
            next.open_each(points.drop_first())
        }
    }

    /// How many of `points` hold a mine.
    pub open spec fn mines_among(self, points: Seq<Point>) -> int
        decreases points.len(),
    {
        if points.len() == 0 {
            0
        } else {
            self.mines_among(points.drop_last()) + if self.cell(points.last()).is_mine() {
                1int
            } else {
                0int
            }
        }
    }

    /// The number that the cell at `p` shows once counts are derived: the
    /// mines a knight's move away.
    pub open spec fn knight_mines(self, p: Point) -> int {
        self.mines_among(self.knight_points(p))
    }

    /// No cell has been opened or flagged.
    pub open spec fn untouched(self) -> bool {
        forall|x: int, y: int|
            0 <= x < self.width && 0 <= y < self.height ==> (#[trigger] self.grid[y][x]).state()
                == MapElementCellState::Closed
    }

    /// Every number cell shows the number of mines a knight's move away.
    pub open spec fn counts_derived(self) -> bool {
        forall|x: int, y: int|
            0 <= x < self.width && 0 <= y < self.height ==> (#[trigger] self.grid[y][x]
                matches MapElement::Number { count, .. } ==> count == self.knight_mines(
                Point::at(x, y),
            ))
    }

    /// The board with the count of every number cell derived, ready to be
    /// played. Mines, marks and the counter are left as they are.
    pub open spec fn with_counts(self) -> BoardView {
        BoardView {
            grid: Seq::new(
                self.height as nat,
                |y: int|
                    Seq::new(
                        self.width as nat,
                        |x: int|
                            self.grid[y][x].with_count(self.knight_mines(Point::at(x, y)) as i32),
                    ),
            ),
            state: BoardState::Ready,
            ..self
        }
    }

    /// The grid of a new game of the given size: a closed mine at every
    /// point of `mines`, a closed number showing zero everywhere else.
    pub open spec fn fresh_grid(width: int, height: int, mines: Seq<Point>) -> Seq<Seq<MapElement>> {
        Seq::new(
            height as nat,
            |y: int|
                Seq::new(
                    width as nat,
                    |x: int|
                        if mines.contains(Point::at(x, y)) {
                            MapElement::Mine { state: MapElementCellState::Closed }
                        } else {
                            MapElement::Number { state: MapElementCellState::Closed, count: 0 }
                        },
                ),
        )
    }

    /// The board of a new game with the given mines.
    pub open spec fn fresh(width: int, height: int, mines: Seq<Point>) -> BoardView {
        BoardView::of_grid(BoardView::fresh_grid(width, height, mines))
    }
}

} // verus!
