//! Laying out a new game: placing the mines and deriving the counts.

use vstd::prelude::*;
use crate::board::grid_of;
use crate::board::Board;
use crate::cell::MapElement;
use crate::cell::MapElementCellState;
use crate::grid::closed_number_pred;
use crate::grid::grid_count;
use crate::grid::lemma_grid_count_agree;
use crate::grid::lemma_grid_count_uniform;
use crate::grid::lemma_grid_count_update;
use crate::grid::with_cell;
use crate::grid::mine_pred;
use crate::grid::unopened_number_pred;
use crate::model::BoardState;
use crate::model::BoardView;
use crate::point::knight_offsets;
use crate::point::lemma_neighbours_on_grid;
use crate::point::Point;

verus! {

/// The most candidates that [`create_board`] draws before it gives up.
pub const MAX_DRAWS: u64 = 0xffff_ffff_ffff_ffff;

/// The mines that come of offering the candidates `draws` in turn, when
/// `mines` are wanted: a candidate is taken unless enough are placed or it
/// has been taken before.
pub open spec fn placed(draws: Seq<(usize, usize)>, mines: int) -> Seq<Point>
    decreases draws.len(),
{
    if draws.len() == 0 {
        Seq::empty()
    } else {
        let before = placed(draws.drop_last(), mines);
        let p = Point::at(draws.last().0 as int, draws.last().1 as int);
        if before.len() < mines && !before.contains(p) {
            before.push(p)
        } else {
            before
        }
    }
}

/// How many of `points` lie on a grid of the given size.
pub open spec fn on_grid(points: Seq<Point>, width: int, height: int) -> int
    decreases points.len(),
{
    if points.len() == 0 {
        0
    } else {
        on_grid(points.drop_last(), width, height) + if points.last().within(width, height) {
            1int
        } else {
            0int
        }
    }
}

/// No mine is placed twice, and no more mines are placed than are wanted or
/// than candidates were drawn.
pub proof fn lemma_placed_distinct(draws: Seq<(usize, usize)>, mines: int)
    requires
        0 <= mines,
    ensures
        placed(draws, mines).no_duplicates(),
        placed(draws, mines).len() <= mines,
        placed(draws, mines).len() <= draws.len(),
    decreases draws.len(),
{
    if draws.len() > 0 {
        lemma_placed_distinct(draws.drop_last(), mines);
    }
}

/// The points on the grid are no more than the points.
pub proof fn lemma_on_grid_bounds(points: Seq<Point>, width: int, height: int)
    ensures
        0 <= on_grid(points, width, height) <= points.len(),
    decreases points.len(),
{
    if points.len() > 0 {
        lemma_on_grid_bounds(points.drop_last(), width, height);
    }
}

/// Candidates that all lie on the grid place mines that all lie on the grid:
/// a board laid out from them has a mine for every one that was placed.
pub proof fn lemma_placed_on_grid(draws: Seq<(usize, usize)>, mines: int, width: int, height: int)
    requires
        width <= i32::MAX,
        height <= i32::MAX,
        forall|i: int| 0 <= i < draws.len() ==> (#[trigger] draws[i]).0 < width && draws[i].1 < height,
    ensures
        on_grid(placed(draws, mines), width, height) == placed(draws, mines).len(),
    decreases draws.len(),
{
    if draws.len() > 0 {
        let rest = draws.drop_last();
        assert forall|i: int| 0 <= i < rest.len() implies (#[trigger] rest[i]).0 < width
            && rest[i].1 < height by {
            assert(rest[i] == draws[i]);
        }
        lemma_placed_on_grid(rest, mines, width, height);
        let last = draws[draws.len() - 1];
        assert(last.0 < width && last.1 < height);
        let before = placed(rest, mines);
        let p = Point::at(last.0 as int, last.1 as int);
        if before.len() < mines && !before.contains(p) {
            assert(before.push(p).drop_last() =~= before);
        }
    }
}

/// A new game has as many mines as distinct points were given that lie on
/// its grid, every other cell is a closed number, and its counter is the
/// number of those: the counter of a new game counts the numbers that are
/// not open, which are all its numbers.
pub proof fn lemma_fresh_board(width: int, height: int, points: Seq<Point>)
    requires
        0 < width,
        0 < height,
        width * height <= i32::MAX,
        points.no_duplicates(),
    ensures
        BoardView::fresh(width, height, points).wf(),
        BoardView::fresh(width, height, points).width == width,
        BoardView::fresh(width, height, points).height == height,
        BoardView::fresh(width, height, points).mines == on_grid(points, width, height),
        BoardView::fresh(width, height, points).closed_numbers() == width * height - on_grid(
            points,
            width,
            height,
        ),
        BoardView::fresh(width, height, points).missing_points == BoardView::fresh(
            width,
            height,
            points,
        ).closed_numbers(),
        BoardView::fresh(width, height, points).missing_points == BoardView::fresh(
            width,
            height,
            points,
        ).unopened_numbers(),
        BoardView::fresh(width, height, points).missing_points == width * height
            - BoardView::fresh(width, height, points).mines,
        BoardView::fresh(width, height, points).state == BoardState::NotReady,
        BoardView::fresh(width, height, points).untouched(),
    decreases points.len(),
{
    let grid = BoardView::fresh_grid(width, height, points);
    assert(width <= i32::MAX && height <= i32::MAX) by (nonlinear_arith)
        requires
            0 < width,
            0 < height,
            width * height <= i32::MAX,
    ;
    assert(height * width == width * height) by (nonlinear_arith);
    if points.len() == 0 {
        assert forall|x: int, y: int| 0 <= y < grid.len() && 0 <= x < width implies (mine_pred())(
            #[trigger] grid[y][x],
        ) == false by {}
        lemma_grid_count_uniform(grid, width, mine_pred(), false);
        assert forall|x: int, y: int| 0 <= y < grid.len() && 0 <= x < width implies (
        closed_number_pred())(#[trigger] grid[y][x]) == true by {}
        lemma_grid_count_uniform(grid, width, closed_number_pred(), true);
        assert forall|x: int, y: int| 0 <= y < grid.len() && 0 <= x < width implies (
        unopened_number_pred())(#[trigger] grid[y][x]) == true by {}
        lemma_grid_count_uniform(grid, width, unopened_number_pred(), true);
    } else {
        let rest = points.drop_last();
        let q = points.last();
        let before = BoardView::fresh_grid(width, height, rest);
        assert(rest.no_duplicates());
        lemma_fresh_board(width, height, rest);
        assert forall|p: Point| points.contains(p) <==> rest.contains(p) || p == q by {
            if points.contains(p) {
                let i = choose|i: int| 0 <= i < points.len() && points[i] == p;
                if i < rest.len() {
                    assert(rest[i] == p);
                }
            }
            if rest.contains(p) {
                let i = choose|i: int| 0 <= i < rest.len() && rest[i] == p;
                assert(points[i] == p);
            }
            if p == q {
                assert(points[points.len() - 1] == p);
            }
        }
        if q.within(width, height) {
            let mine = MapElement::Mine { state: MapElementCellState::Closed };
            assert(Point::at(q.x as int, q.y as int) == q);
            assert(!rest.contains(q)) by {
                if rest.contains(q) {
                    let i = choose|i: int| 0 <= i < rest.len() && rest[i] == q;
                    assert(points[i] == points[points.len() - 1]);
                }
            }
            assert(grid =~= with_cell(before, q.x as int, q.y as int, mine)) by {
                assert forall|y: int| 0 <= y < height implies grid[y] =~= with_cell(
                    before,
                    q.x as int,
                    q.y as int,
                    mine,
                )[y] by {
                    assert forall|x: int| 0 <= x < width implies grid[y][x] == with_cell(
                        before,
                        q.x as int,
                        q.y as int,
                        mine,
                    )[y][x] by {
                        let p = Point::at(x, y);
                        assert(p == q <==> x == q.x && y == q.y);
                    }
                }
            }
            lemma_grid_count_update(before, q.x as int, q.y as int, mine, mine_pred());
            lemma_grid_count_update(before, q.x as int, q.y as int, mine, closed_number_pred());
            lemma_grid_count_update(before, q.x as int, q.y as int, mine, unopened_number_pred());
        } else {
            assert(grid =~= before) by {
                assert forall|y: int| 0 <= y < height implies grid[y] =~= before[y] by {
                    assert forall|x: int| 0 <= x < width implies grid[y][x] == before[y][x] by {
                        let p = Point::at(x, y);
                        assert(p.within(width, height));
                    }
                }
            }
        }
    }
}

/// Whether `p` is among `points`.
pub fn contains_point(points: &Vec<Point>, p: &Point) -> (r: bool)
    ensures
        r == points@.contains(*p),
{
    let mut i: usize = 0;
    while i < points.len()
        invariant
            i <= points.len(),
            forall|j: int| 0 <= j < i ==> points[j] != *p,
        decreases points.len() - i,
    {
        if points[i].x == p.x && points[i].y == p.y {
            return true;
        }
        i += 1;
    }
    false
}

/// Offers the candidate in column `x`, row `y` as the next mine. It is
/// placed, and `true` returned, unless it has been placed before.
pub fn place_mine(points: &mut Vec<Point>, x: usize, y: usize) -> (taken: bool)
    ensures
        taken == !old(points)@.contains(Point::at(x as int, y as int)),
        final(points)@ == if taken {
            old(points)@.push(Point::at(x as int, y as int))
        } else {
            old(points)@
        },
{
    let p = Point::new(x, y);
    if contains_point(points, &p) {
        false
    } else {
        points.push(p);
        true
    }
}

/// The board of a new game of the given size with a mine at each of
/// `points`: every cell is closed, every number cell shows zero, and the
/// board is `NotReady`. Points that lie off the grid place no mine.
pub fn board_with_mines(width: usize, height: usize, points: &Vec<Point>) -> (board: Board)
    requires
        0 < width,
        0 < height,
        width * height <= i32::MAX,
    ensures
        board@ == BoardView::fresh(width as int, height as int, points@),
        board.wf(),
        board.counter_has_room(),
        points@.no_duplicates() ==> board.mines == on_grid(points@, width as int, height as int),
{
    proof {
        if points@.no_duplicates() {
            lemma_fresh_board(width as int, height as int, points@);
        }
    }
    let ghost want = BoardView::fresh_grid(width as int, height as int, points@);
    let mut map: Vec<Vec<MapElement>> = Vec::new();
    let mut y: usize = 0;
    while y < height
        invariant
            y <= height,
            map.len() == y,
            want == BoardView::fresh_grid(width as int, height as int, points@),
            forall|j: int| 0 <= j < y ==> (#[trigger] map[j])@ == want[j],
        decreases height - y,
    {
        let mut row: Vec<MapElement> = Vec::new();
        let mut x: usize = 0;
        while x < width
            invariant
                x <= width,
                y < height,
                row.len() == x,
                want == BoardView::fresh_grid(width as int, height as int, points@),
                forall|i: int| 0 <= i < x ==> #[trigger] row[i] == want[y as int][i],
            decreases width - x,
        {
            let cell = if contains_point(points, &Point::new(x, y)) {
                MapElement::Mine { state: MapElementCellState::Closed }
            } else {
                MapElement::Number { state: MapElementCellState::Closed, count: 0 }
            };
            row.push(cell);
            x += 1;
        }
        assert(row@ =~= want[y as int]);
        map.push(row);
        y += 1;
    }
    assert(grid_of(map@) =~= want);
    assert(height * width == width * height) by (nonlinear_arith);
    Board::new(map)
}

/// Why no board was laid out.
#[derive(Debug, PartialEq, Eq, Clone, Copy, Structural)]
pub enum SetupError {
    /// The width or the height is zero.
    EmptyBoard,
    /// The board has more cells than an `i32` can count.
    TooLarge,
    /// More mines are asked for than the board has cells.
    TooManyMines,
}

impl SetupError {
    /// The reason in words.
    pub fn message(&self) -> (r: &'static str)
        ensures
            r@ == match self {
                SetupError::EmptyBoard => "the board has no cells"@,
                SetupError::TooLarge => "the board has too many cells"@,
                SetupError::TooManyMines => "the board has fewer cells than mines"@,
            },
    {
        match self {
            SetupError::EmptyBoard => "the board has no cells",
            SetupError::TooLarge => "the board has too many cells",
            SetupError::TooManyMines => "the board has fewer cells than mines",
        }
    }
}

/// What stands in the way of a board of the given size with `mines` mines,
/// if anything does.
pub open spec fn setup_fault(width: int, height: int, mines: int) -> Option<SetupError> {
    if width <= 0 || height <= 0 {
        Some(SetupError::EmptyBoard)
    } else if width * height > i32::MAX {
        Some(SetupError::TooLarge)
    } else if mines > width * height {
        Some(SetupError::TooManyMines)
    } else {
        None
    }
}

/// Whether a board of the given size with `mines` mines can be laid out,
/// and if not, why.
pub fn check_setup(width: usize, height: usize, mines: usize) -> (r: Result<(), SetupError>)
    ensures
        r == match setup_fault(width as int, height as int, mines as int) {
            Some(e) => Err::<(), SetupError>(e),
            None => Ok::<(), SetupError>(()),
        },
{
    if width == 0 || height == 0 {
        return Err(SetupError::EmptyBoard);
    }
    if width > i32::MAX as usize || height > (i32::MAX as usize) / width {
        proof {
            if width <= i32::MAX {
                assert(width * height > i32::MAX) by (nonlinear_arith)
                    requires
                        0 < width,
                        height > (i32::MAX as int) / (width as int),
                ;
            } else {
                assert(width * height > i32::MAX) by (nonlinear_arith)
                    requires
                        width > i32::MAX,
                        height >= 1,
                ;
            }
        }
        return Err(SetupError::TooLarge);
    }
    assert(width * height <= i32::MAX) by (nonlinear_arith)
        requires
            0 < width,
            height <= (i32::MAX as int) / (width as int),
    ;
    if mines > width * height {
        Err(SetupError::TooManyMines)
    } else {
        Ok(())
    }
}

/// `board` is the new game that comes of the candidates `draws`, each of
/// them a column and a row that `rand` has answered, and the candidates ran
/// until `mines` were placed or [`MAX_DRAWS`] were drawn. Its mines are the
/// candidates placed that lie on the grid.
pub open spec fn laid_out_by<F: FnMut(usize, usize) -> usize>(
    board: BoardView,
    width: usize,
    height: usize,
    mines: usize,
    rand: F,
    draws: Seq<(usize, usize)>,
) -> bool {
    &&& board == BoardView::fresh(width as int, height as int, placed(draws, mines as int))
    &&& board.mines == on_grid(placed(draws, mines as int), width as int, height as int)
    &&& placed(draws, mines as int).len() == mines || draws.len() == MAX_DRAWS
    &&& forall|i: int|
        0 <= i < draws.len() ==> call_ensures(rand, (0usize, width), (#[trigger] draws[i]).0)
            && call_ensures(rand, (0usize, height), draws[i].1)
}

/// With a generator that answers within the range it is asked for, every
/// candidate lies on the board: the board has a mine for each one that was
/// placed, and so it has all its mines unless [`MAX_DRAWS`] candidates were
/// not enough.
pub proof fn generator_in_range_places_every_mine<F: FnMut(usize, usize) -> usize>(
    board: BoardView,
    width: usize,
    height: usize,
    mines: usize,
    rand: F,
    draws: Seq<(usize, usize)>,
)
    requires
        0 < width,
        0 < height,
        width * height <= i32::MAX,
        laid_out_by(board, width, height, mines, rand, draws),
        forall|r: usize| call_ensures(rand, (0usize, width), r) ==> r < width,
        forall|r: usize| call_ensures(rand, (0usize, height), r) ==> r < height,
    ensures
        board.mines == placed(draws, mines as int).len(),
        board.mines == mines || draws.len() == MAX_DRAWS,
{
    assert(width <= i32::MAX && height <= i32::MAX) by (nonlinear_arith)
        requires
            0 < width,
            0 < height,
            width * height <= i32::MAX,
    ;
    lemma_placed_distinct(draws, mines as int);
    lemma_placed_on_grid(draws, mines as int, width as int, height as int);
    lemma_fresh_board(width as int, height as int, placed(draws, mines as int));
}

/// A new game of the given size with up to `mines` mines, placed where
/// `rand` says. `rand(low, high)` is asked for a column in `0..width` and a
/// row in `0..height`; a candidate that has been drawn before is dropped and
/// another is drawn, until `mines` are placed. Drawing is bounded: it stops
/// after [`MAX_DRAWS`] candidates, with the mines placed so far, which no
/// generator that draws as if by chance will live to see. The board is
/// `NotReady`, and every number cell of it is still missing. Where no mine
/// is asked for, `rand` is not called.
///
/// What the generator draws is not known here. The contract says that the
/// board is the one that [`placed`] and [`BoardView::fresh`] make of some
/// run of candidates, each of them an answer of `rand`.
pub fn create_board(
    width: usize,
    height: usize,
    mines: usize,
    mut rand: impl FnMut(usize, usize) -> usize,
) -> (board: Board)
    requires
        0 < width,
        0 < height,
        width * height <= i32::MAX,
        mines <= width * height,
        mines > 0 ==> call_requires(rand, (0usize, width)),
        mines > 0 ==> call_requires(rand, (0usize, height)),
    ensures
        board.wf(),
        board.width == width,
        board.height == height,
        board.state == BoardState::NotReady,
        board.mines <= mines,
        board.mines == grid_count(board@.grid, mine_pred()),
        mines == 0 ==> board@ == BoardView::fresh(
            width as int,
            height as int,
            Seq::<Point>::empty(),
        ),
        board@.untouched(),
        board@.missing_points == width * height - board.mines,
        board@.missing_points == board@.unopened_numbers(),
        board.counter_has_room(),
        exists|draws: Seq<(usize, usize)>| laid_out_by(board@, width, height, mines, rand, draws),
{
    let mut points: Vec<Point> = Vec::new();
    let mut drawn: u64 = 0;
    let ghost mut draws: Seq<(usize, usize)> = Seq::empty();
    let ghost generator = rand;
    while points.len() < mines && drawn < MAX_DRAWS
        invariant
            rand == generator,
            mines > 0 ==> call_requires(rand, (0usize, width)),
            mines > 0 ==> call_requires(rand, (0usize, height)),
            draws.len() == drawn,
            points@ == placed(draws, mines as int),
            points.len() <= mines,
            forall|i: int|
                0 <= i < draws.len() ==> call_ensures(rand, (0usize, width), (#[trigger] draws[i]).0)
                    && call_ensures(rand, (0usize, height), draws[i].1),
        decreases MAX_DRAWS - drawn,
    {
        let x: usize = rand(0, width);
        let y: usize = rand(0, height);
        proof {
            assert(draws.push((x, y)).drop_last() =~= draws);
            draws = draws.push((x, y));
        }
        place_mine(&mut points, x, y);
        drawn += 1;
    }
    proof {
        lemma_placed_distinct(draws, mines as int);
        lemma_fresh_board(width as int, height as int, points@);
        lemma_on_grid_bounds(points@, width as int, height as int);
    }
    let board = board_with_mines(width, height, &points);
    assert(laid_out_by(board@, width, height, mines, rand, draws));
    assert(mines == 0 ==> points@ =~= Seq::<Point>::empty());
    board
}

/// [`create_board`] for a caller that cannot vouch for the size: the board
/// is laid out where it can be, and refused with the reason where it cannot.
pub fn try_create_board(
    width: usize,
    height: usize,
    mines: usize,
    rand: impl FnMut(usize, usize) -> usize,
) -> (r: Result<Board, SetupError>)
    requires
        mines > 0 ==> call_requires(rand, (0usize, width)),
        mines > 0 ==> call_requires(rand, (0usize, height)),
    ensures
        r is Ok <==> setup_fault(width as int, height as int, mines as int) is None,
        r matches Ok(board) ==> {
            &&& board.wf()
            &&& board.width == width
            &&& board.height == height
            &&& board.state == BoardState::NotReady
            &&& board.mines <= mines
            &&& board@.untouched()
            &&& board@.missing_points == width * height - board.mines
            &&& board@.missing_points == board@.unopened_numbers()
            &&& board.counter_has_room()
            &&& exists|draws: Seq<(usize, usize)>|
                laid_out_by(board@, width, height, mines, rand, draws)
        },
        r matches Err(e) ==> setup_fault(width as int, height as int, mines as int) == Some(e),
{
    match check_setup(width, height, mines) {
        Ok(()) => Ok(create_board(width, height, mines, rand)),
        Err(e) => Err(e),
    }
}

impl Board {
    /// The number of mines a knight's move away from `p`.
    fn count_knight_mines(&self, p: &Point) -> (n: i32)
        requires
            self.wf(),
        ensures
            n == self@.knight_mines(*p),
            0 <= n <= 8,
    {
        let around = self.surrounding_knight_points(p);
        proof {
            self@.lemma_sides();
            lemma_neighbours_on_grid(self@.width, self@.height, *p, knight_offsets());
        }
        let mut n: i32 = 0;
        let mut i: usize = 0;
        while i < around.len()
            invariant
                self.wf(),
                i <= around.len(),
                around.len() <= 8,
                forall|j: int| 0 <= j < around.len() ==> self@.in_bounds(#[trigger] around[j]),
                n == self@.mines_among(around@.take(i as int)),
                0 <= n <= i,
            decreases around.len() - i,
        {
            assert(around@.take(i + 1).drop_last() == around@.take(i as int));
            assert(self@.in_bounds(around[i as int]));
            match self.at(&around[i]) {
                Some(MapElement::Mine { .. }) => {
                    n += 1;
                },
                _ => {},
            }
            i += 1;
        }
        assert(around@.take(i as int) == around@);
        n
    }
}

/// Derives the count of every number cell, the mines a knight's move away
/// from it, and makes the board `Ready`, whatever its state was. Mines,
/// marks and the counter are left as they are. The counts that the number
/// cells carried are not read.
pub fn numbers_on_board(board: Board) -> (r: Board)
    requires
        board.wf(),
    ensures
        r@ == board@.with_counts(),
        r.wf(),
        r@.same_layout(board@),
        r@.counts_derived(),
        r.missing_points == board.missing_points,
        r@.unopened_numbers() == board@.unopened_numbers(),
        board.counter_has_room() ==> r.counter_has_room(),
{
    let ghost want = board@.with_counts().grid;
    proof {
        board@.lemma_sides();
        board@.lemma_with_counts();
        lemma_grid_count_agree(board@.grid, want, unopened_number_pred());
    }
    let mut map: Vec<Vec<MapElement>> = Vec::new();
    let mut y: usize = 0;
    while y < board.height
        invariant
            board.wf(),
            board.width <= i32::MAX,
            board.height <= i32::MAX,
            y <= board.height,
            map.len() == y,
            want == board@.with_counts().grid,
            forall|j: int| 0 <= j < y ==> (#[trigger] map[j])@ == want[j],
        decreases board.height - y,
    {
        let mut row: Vec<MapElement> = Vec::new();
        let mut x: usize = 0;
        while x < board.width
            invariant
                board.wf(),
                board.width <= i32::MAX,
                board.height <= i32::MAX,
                x <= board.width,
                y < board.height,
                row.len() == x,
                want == board@.with_counts().grid,
                forall|i: int| 0 <= i < x ==> #[trigger] row[i] == want[y as int][i],
            decreases board.width - x,
        {
            let point = Point::new(x, y);
            assert(board@.in_bounds(point));
            let cell = match board.at(&point) {
                Some(MapElement::Number { state, .. }) => MapElement::Number {
                    state: *state,
                    count: board.count_knight_mines(&point),
                },
                Some(el) => *el,
                None => MapElement::Mine { state: MapElementCellState::Closed },
            };
            row.push(cell);
            x += 1;
        }
        assert(row@ =~= want[y as int]);
        map.push(row);
        y += 1;
    }
    assert(grid_of(map@) =~= want);
    proof {
        lemma_grid_count_agree(board@.grid, want, mine_pred());
    }
    Board {
        map,
        missing_points: board.missing_points,
        width: board.width,
        height: board.height,
        mines: board.mines,
        state: BoardState::Ready,
    }
}

} // verus!
