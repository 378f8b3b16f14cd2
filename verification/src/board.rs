//! The board: its fields and invariant, the lookup of a cell and the
//! replacement of one, by which every move is made.

use vstd::prelude::*;
use crate::cell::MapElement;
use crate::cell::MapElementCellState;
use crate::grid::grid_count;
use crate::grid::CellPred;
use crate::grid::lemma_grid_count_bounds;
use crate::grid::lemma_grid_count_update;
use crate::grid::mine_pred;
use crate::grid::rectangular;
use crate::grid::unopened_number_pred;
use crate::grid::row_count;
use crate::grid::with_cell;
use crate::model::state_after;
use crate::model::BoardState;
use crate::model::BoardView;
use crate::point::Point;

verus! {

/// A grid of cells with its bookkeeping. A board is a value: a move leaves
/// the board it is made on untouched and returns the board that follows.
#[derive(Debug, PartialEq, Clone)]
pub struct Board {
    /// The cells by rows, top row first.
    pub map: Vec<Vec<MapElement>>,
    /// The number cells that are still to be opened for the game to be won.
    /// It drops by one whenever a closed number is opened.
    pub missing_points: i32,
    /// The number of columns.
    pub width: usize,
    /// The number of rows.
    pub height: usize,
    /// The number of mines on the grid.
    pub mines: usize,
    /// Where the game stands.
    pub state: BoardState,
}

/// The rows of a grid as sequences.
pub open spec fn grid_of(map: Seq<Vec<MapElement>>) -> Seq<Seq<MapElement>> {
    Seq::new(map.len(), |y: int| map[y]@)
}

/// The state after a number is opened and the counter stands at
/// `missing_points`.
fn next_state(missing_points: i32, state: BoardState) -> (r: BoardState)
    ensures
        r == state_after(missing_points as int, state),
{
    if missing_points == 0 {
        BoardState::Won
    } else {
        match state {
            BoardState::Ready => BoardState::Playing,
            _ => state,
        }
    }
}

/// Which cells to count.
#[derive(Debug, PartialEq, Eq, Clone, Copy, Structural)]
pub enum Tally {
    Mines,
    UnopenedNumbers,
}

impl Tally {
    /// The predicate that selects the cells to count.
    pub open spec fn pred(self) -> CellPred {
        match self {
            Tally::Mines => mine_pred(),
            Tally::UnopenedNumbers => unopened_number_pred(),
        }
    }

    /// Whether `el` is one of the cells to count.
    pub fn selects(self, el: &MapElement) -> (r: bool)
        ensures
            r == (self.pred())(*el),
    {
        match self {
            Tally::Mines => match el {
                MapElement::Mine { .. } => true,
                _ => false,
            },
            Tally::UnopenedNumbers => match el {
                MapElement::Number { state: MapElementCellState::Open, .. } => false,
                MapElement::Number { .. } => true,
                _ => false,
            },
        }
    }
}

/// Counts the cells of a grid that `tally` selects.
pub fn count_cells(map: &Vec<Vec<MapElement>>, width: usize, tally: Tally) -> (n: usize)
    requires
        rectangular(grid_of(map@), width as int, map.len() as int),
        map.len() * width <= i32::MAX,
    ensures
        n == grid_count(grid_of(map@), tally.pred()),
        n <= map.len() * width,
{
    let ghost grid = grid_of(map@);
    let mut n: usize = 0;
    let mut y: usize = 0;
    while y < map.len()
        invariant
            grid == grid_of(map@),
            rectangular(grid, width as int, map.len() as int),
            map.len() * width <= i32::MAX,
            y <= map.len(),
            n == grid_count(grid.take(y as int), tally.pred()),
            n <= y * width,
        decreases map.len() - y,
    {
        let row = &map[y];
        assert(row@ == grid[y as int]);
        let mut x: usize = 0;
        let mut in_row: usize = 0;
        while x < row.len()
            invariant
                x <= row.len(),
                row.len() == width,
                in_row == row_count(row@.take(x as int), tally.pred()),
                in_row <= x,
            decreases row.len() - x,
        {
            assert(row@.take(x + 1).drop_last() == row@.take(x as int));
            if tally.selects(&row[x]) {
                in_row += 1;
            }
            x += 1;
        }
        proof {
            assert(row@.take(x as int) == row@);
            assert(grid.take(y + 1).drop_last() == grid.take(y as int));
            assert((y + 1) * width == y * width + width) by (nonlinear_arith);
            assert((y + 1) * width <= map.len() * width) by (nonlinear_arith)
                requires
                    y + 1 <= map.len(),
            ;
        }
        n += in_row;
        y += 1;
    }
    assert(grid.take(y as int) == grid);
    n
}

impl Board {
    /// The invariant of the type: see [`BoardView::wf`].
    pub open spec fn wf(&self) -> bool {
        self@.wf()
    }

    /// The counter can drop once for every number that is not open without
    /// leaving the range of an `i32`. On a board that this library has laid
    /// out it can, and no move takes the room away.
    pub open spec fn counter_has_room(&self) -> bool {
        self@.missing_points - self@.unopened_numbers() >= i32::MIN
    }

    proof fn lemma_rows(&self)
        requires
            self.wf(),
        ensures
            self.map.len() == self.height,
            forall|y: int| 0 <= y < self.height ==> (#[trigger] self.map[y]).len() == self.width,
            forall|y: int| 0 <= y < self.height ==> (#[trigger] self@.grid[y]) == self.map[y]@,
            self.width <= i32::MAX,
            self.height <= i32::MAX,
    {
        self@.lemma_sides();
        assert forall|y: int| 0 <= y < self.height implies (#[trigger] self.map[y]).len()
            == self.width by {
            assert(self@.grid[y].len() == self.width);
        }
    }

    /// Lays out a board on the given rows. The board is `NotReady`: the
    /// counts that the number cells carry are taken as they are.
    pub fn new(map: Vec<Vec<MapElement>>) -> (board: Board)
        requires
            map.len() > 0,
            map[0].len() > 0,
            forall|y: int| 0 <= y < map.len() ==> (#[trigger] map[y]).len() == map[0].len(),
            map.len() * map[0].len() <= i32::MAX,
        ensures
            board@ == BoardView::of_grid(grid_of(map@)),
            board.wf(),
            board.map == map,
            board.mines == grid_count(grid_of(map@), mine_pred()),
            0 <= board.missing_points,
            board.counter_has_room(),
    {
        let height = map.len();
        let width = map[0].len();
        let ghost grid = grid_of(map@);
        proof {
            assert(rectangular(grid, width as int, height as int));
            lemma_grid_count_bounds(grid, width as int, mine_pred());
            lemma_grid_count_bounds(grid, width as int, unopened_number_pred());
            assert(width * height == height * width) by (nonlinear_arith);
        }
        let mines = count_cells(&map, width, Tally::Mines);
        let cells: usize = width * height;
        let missing_points: i32 = (cells - mines) as i32;
        Board { map, missing_points, width, height, mines, state: BoardState::NotReady }
    }

    /// Whether the board satisfies the invariant of the type. A board that
    /// this library has made does; one whose fields were set by hand may not.
    pub fn is_well_formed(&self) -> (r: bool)
        ensures
            r == self.wf(),
    {
        let ghost grid = self@.grid;
        let width = self.width;
        let height = self.height;
        if width == 0 || height == 0 || self.map.len() != height {
            return false;
        }
        if width > i32::MAX as usize || height > (i32::MAX as usize) / width {
            proof {
                if width <= i32::MAX {
                    assert(width * height > i32::MAX) by (nonlinear_arith)
                        requires
                            0 < width,
                            height > (i32::MAX as int) / (width as int),
                    ;
                } else {
                    assert(width * height > i32::MAX) by (nonlinear_arith)
                        requires
                            width > i32::MAX,
                            height >= 1,
                    ;
                }
            }
            return false;
        }
        assert(width * height <= i32::MAX) by (nonlinear_arith)
            requires
                0 < width,
                height <= (i32::MAX as int) / (width as int),
        ;
        let mut y: usize = 0;
        while y < height
            invariant
                y <= height,
                height == self.height,
                width == self.width,
                self.map.len() == height,
                grid == self@.grid,
                forall|j: int| 0 <= j < y ==> (#[trigger] grid[j]).len() == width,
            decreases height - y,
        {
            if self.map[y].len() != width {
                assert(grid[y as int].len() != width);
                return false;
            }
            assert(grid[y as int] == self.map[y as int]@);
            y += 1;
        }
        assert(rectangular(grid, width as int, height as int));
        assert(self.map.len() * width == width * height) by (nonlinear_arith)
            requires
                self.map.len() == height,
        ;
        count_cells(&self.map, width, Tally::Mines) == self.mines
    }

    /// Whether the counter can drop once for every number of the board that
    /// is not open without leaving the range of an `i32`, as opening a cell
    /// needs.
    pub fn has_counter_room(&self) -> (r: bool)
        requires
            self.wf(),
        ensures
            r == self.counter_has_room(),
    {
        proof {
            self.lemma_rows();
            assert(self.map.len() * self.width == self.width * self.height) by (nonlinear_arith)
                requires
                    self.map.len() == self.height,
            ;
        }
        let unopened = count_cells(&self.map, self.width, Tally::UnopenedNumbers);
        self.missing_points as i64 - unopened as i64 >= i32::MIN as i64
    }

    /// Puts a board together from all that it holds, as it is needed to
    /// bring a stored board back. Returns `None` unless the parts satisfy
    /// the invariant of the type.
    pub fn from_parts(
        map: Vec<Vec<MapElement>>,
        missing_points: i32,
        width: usize,
        height: usize,
        mines: usize,
        state: BoardState,
    ) -> (r: Option<Board>)
        ensures
            r is Some <==> (BoardView {
                grid: grid_of(map@),
                missing_points: missing_points as int,
                width: width as int,
                height: height as int,
                mines: mines as int,
                state,
            }).wf(),
            r matches Some(board) ==> board.map == map && board.missing_points == missing_points
                && board.width == width && board.height == height && board.mines == mines
                && board.state == state,
    {
        let board = Board { map, missing_points, width, height, mines, state };
        if board.is_well_formed() {
            Some(board)
        } else {
            None
        }
    }

    /// The cell at `p`, or `None` where `p` lies off the board.
    pub fn at(self: &Self, p: &Point) -> (r: Option<&MapElement>)
        requires
            self.wf(),
        ensures
            match r {
                Some(el) => self@.at(*p) == Some(*el),
                None => self@.at(*p) is None,
            },
    {
        proof {
            self.lemma_rows();
        }
        let width = self.width as i32;
        let height = self.height as i32;
        if p.x < 0 || p.x >= width || p.y < 0 || p.y >= height {
            None
        } else {
            let x = p.x as usize;
            let y = p.y as usize;
            Some(&self.map[y][x])
        }
    }

    /// A copy of the rows.
    fn rows(&self) -> (map: Vec<Vec<MapElement>>)
        requires
            self.wf(),
        ensures
            grid_of(map@) == self@.grid,
    {
        proof {
            self.lemma_rows();
        }
        let mut map: Vec<Vec<MapElement>> = Vec::new();
        let mut y: usize = 0;
        while y < self.height
            invariant
                y <= self.height,
                self.map.len() == self.height,
                forall|j: int| 0 <= j < self.height ==> (#[trigger] self.map[j]).len() == self.width,
                map.len() == y,
                forall|j: int| 0 <= j < y ==> (#[trigger] map[j])@ == self.map[j]@,
            decreases self.height - y,
        {
            let mut row: Vec<MapElement> = Vec::new();
            let mut x: usize = 0;
            while x < self.width
                invariant
                    x <= self.width,
                    y < self.height,
                    self.map.len() == self.height,
                    self.map[y as int].len() == self.width,
                    row.len() == x,
                    forall|i: int| 0 <= i < x ==> #[trigger] row[i] == self.map[y as int][i],
                decreases self.width - x,
            {
                row.push(self.map[y][x]);
                x += 1;
            }
            assert(row@ =~= self.map[y as int]@);
            map.push(row);
            y += 1;
        }
        assert(grid_of(map@) =~= self@.grid);
        map
    }

    /// A copy of the board.
    pub(crate) fn duplicate(&self) -> (r: Board)
        requires
            self.wf(),
        ensures
            r@ == self@,
            r.wf(),
    {
        Board {
            map: self.rows(),
            missing_points: self.missing_points,
            width: self.width,
            height: self.height,
            mines: self.mines,
            state: self.state,
        }
    }

    /// Replaces the cell at `p` by `el`, which must be of the kind of the
    /// cell that it replaces. This is the only way in which a board changes.
    /// The counter and the state are kept here: they move when a closed
    /// number is replaced by an open one, and at no other time.
    pub(crate) fn put(&mut self, p: &Point, el: MapElement)
        requires
            old(self).wf(),
            old(self)@.in_bounds(*p),
            el.is_mine() == old(self)@.cell(*p).is_mine(),
            old(self)@.cell(*p).is_opened_by(el) ==> old(self)@.missing_points > i32::MIN,
        ensures
            final(self)@ == old(self)@.replace(*p, el),
            final(self).wf(),
    {
        proof {
            self.lemma_rows();
            lemma_grid_count_update(self@.grid, p.x as int, p.y as int, el, mine_pred());
        }
        let px = p.x as usize;
        let py = p.y as usize;
        let was_closed = match self.map[py][px] {
            MapElement::Number { state: MapElementCellState::Closed, .. } => true,
            _ => false,
        };
        let is_open = match el {
            MapElement::Number { state: MapElementCellState::Open, .. } => true,
            _ => false,
        };
        self.map[py][px] = el;
        if was_closed && is_open {
            self.missing_points = self.missing_points - 1;
            self.state = next_state(self.missing_points, self.state);
        }
        proof {
            let want = with_cell(old(self)@.grid, px as int, py as int, el);
            assert(self@.grid =~= want) by {
                assert forall|j: int| 0 <= j < self.height implies self@.grid[j] =~= want[j] by {
                    assert(self@.grid[j] == self.map[j]@);
                    assert(old(self)@.grid[j] == old(self).map[j]@);
                }
            }
        }
    }

    /// The board with the cell at `p` replaced by `el`; see [`Board::put`].
    pub(crate) fn replace(self: &Self, p: &Point, el: MapElement) -> (r: Board)
        requires
            self.wf(),
            self@.in_bounds(*p),
            el.is_mine() == self@.cell(*p).is_mine(),
            self@.cell(*p).is_opened_by(el) ==> self@.missing_points > i32::MIN,
        ensures
            r@ == self@.replace(*p, el),
            r.wf(),
    {
        let mut r = self.duplicate();
        r.put(p, el);
        r
    }
}

impl View for Board {
    type V = BoardView;

    open spec fn view(&self) -> BoardView {
        BoardView {
            grid: grid_of(self.map@),
            missing_points: self.missing_points as int,
            width: self.width as int,
            height: self.height as int,
            mines: self.mines as int,
            state: self.state,
        }
    }
}

} // verus!
