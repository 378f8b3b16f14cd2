//! The laws of the game: what holds of every board and every move.

use vstd::prelude::*;
use crate::cell::MapElement;
use crate::cell::MapElementCellState;
use crate::grid::grid_count;
use crate::grid::lemma_grid_count_agree;
use crate::grid::lemma_grid_count_uniform;
use crate::grid::mine_pred;
use crate::grid::rectangular;
use crate::grid::unopened_number_pred;
use crate::grid::with_cell;
use crate::model::state_after;
use crate::model::BoardState;
use crate::model::BoardView;
use crate::point::Point;
use crate::steps::state_after_opening;

verus! {

/// Only an opening moves the counter and the state. Where a closed number
/// is replaced by an open one the counter drops by one, and the game is won
/// if the counter then stands at zero; if not, a `Ready` board starts
/// `Playing`. Any other replacement leaves both as they are. So the game is
/// won after a replacement exactly if it was won before or the replacement
/// opened the last missing number, and no replacement loses a game.
pub proof fn only_opening_moves_the_counter(b: BoardView, p: Point, el: MapElement)
    ensures
        b.cell(p).is_opened_by(el) ==> b.replace(p, el).missing_points == b.missing_points - 1
            && b.replace(p, el).state == state_after(b.missing_points - 1, b.state),
        !b.cell(p).is_opened_by(el) ==> b.replace(p, el).missing_points == b.missing_points
            && b.replace(p, el).state == b.state,
        b.replace(p, el).state == BoardState::Won <==> b.state == BoardState::Won || (b.cell(
            p,
        ).is_opened_by(el) && b.replace(p, el).missing_points == 0),
        b.replace(p, el).state == BoardState::Failed <==> b.state == BoardState::Failed && !(
        b.cell(p).is_opened_by(el) && b.replace(p, el).missing_points == 0),
{
}

/// A flag opens nothing. Flagging changes the mark of one cell, between
/// closed and flagged, and leaves every other cell, the counter and the
/// state as they are: it neither starts nor wins nor loses a game.
pub proof fn flagging_opens_nothing(b: BoardView, p: Point)
    requires
        b.wf(),
        b.in_bounds(p),
    ensures
        b.flag(p) == (BoardView {
            grid: with_cell(b.grid, p.x as int, p.y as int, b.cell(p).toggled()),
            ..b
        }),
        b.flag(p).missing_points == b.missing_points,
        b.flag(p).state == b.state,
        b.flag(p).cell(p) == b.cell(p).toggled(),
        forall|q: Point| b.in_bounds(q) && q != p ==> #[trigger] b.flag(p).cell(q) == b.cell(q),
        b.flag(p).unopened_numbers() == b.unopened_numbers(),
{
    b.lemma_replace(p, b.cell(p).toggled());
}

/// The number of mines is the number of mine cells on the grid from the
/// moment a board is laid out, and no move changes it, nor the size of the
/// board: flagging, opening and deriving the counts all keep the invariant
/// and the layout.
pub proof fn moves_keep_the_mines(b: BoardView, p: Point)
    requires
        b.wf(),
        b.in_bounds(p),
    ensures
        b.mines == grid_count(b.grid, mine_pred()),
        b.flag(p).wf() && b.flag(p).same_layout(b),
        b.cascade_open(p) matches Some(r) ==> r.wf() && r.same_layout(b),
        b.with_counts().wf() && b.with_counts().same_layout(b),
{
    b.lemma_replace(p, b.cell(p).toggled());
    b.lemma_open_all_opens(seq![p]);
    b.lemma_with_counts();
}

/// A board that is laid out on a grid of rows of one length satisfies the
/// invariant, and its mines are those of the grid.
pub proof fn laid_out_board_is_well_formed(grid: Seq<Seq<MapElement>>)
    requires
        grid.len() > 0,
        grid[0].len() > 0,
        rectangular(grid, grid[0].len() as int, grid.len() as int),
        grid[0].len() * grid.len() <= i32::MAX,
    ensures
        BoardView::of_grid(grid).wf(),
        BoardView::of_grid(grid).mines == grid_count(grid, mine_pred()),
{
}

/// Opening counts each cell once. Where a move opens anything, every cell
/// of the board is as it was or is a closed number that is now open, and the
/// counter has dropped by exactly the number of cells that were opened,
/// which is the drop in the number of closed numbers. Opening a mine opens
/// nothing and leaves the counter alone; opening a number that is open
/// already is no move.
pub proof fn opening_counts_each_cell_once(b: BoardView, p: Point)
    requires
        b.wf(),
        b.in_bounds(p),
    ensures
        b.cascade_open(p) matches Some(r) ==> r.opened_from(b),
        b.cell(p).is_unflagged_mine() ==> b.cascade_open(p) == Some(b.failed()),
        b.cell(p) is Number && b.cell(p).state() == MapElementCellState::Open ==> b.cascade_open(
            p,
        ) is None,
        b.cell(p).is_closed_number() ==> b.cascade_open(p).unwrap().newly_open(b, p),
{
    b.lemma_open_all_opens(seq![p]);
    b.lemma_open_all_region(seq![p]);
    if b.cell(p).is_unflagged_mine() {
        assert(seq![p].drop_last() =~= Seq::<Point>::empty());
        assert(b.open_all(seq![p]) == b.failed().open_all(Seq::<Point>::empty()));
    }
    if b.cell(p).is_closed_number() {
        assert(seq![p][0] == p);
    }
}

/// On a board whose counts are derived, opening a cell never runs into a
/// mine on its way. So the game is lost by a move exactly if the move opens
/// a mine, and the state after opening a number follows from the counter
/// alone: the game is won exactly when the counter reaches zero. The counts
/// stay derived.
pub proof fn opening_ends_the_game(b: BoardView, p: Point)
    requires
        b.wf(),
        b.in_bounds(p),
        b.counts_derived(),
        b.cascade_open(p) is Some,
    ensures
        b.cascade_open(p).unwrap().counts_derived(),
        b.cell(p).is_mine() ==> b.cascade_open(p).unwrap() == b.failed(),
        !b.cell(p).is_mine() ==> b.cascade_open(p).unwrap().state == state_after_opening(
            b.state,
            b.missing_points,
            b.cascade_open(p).unwrap().missing_points,
        ),
        b.state != BoardState::Failed ==> (b.cascade_open(p).unwrap().state == BoardState::Failed
            <==> b.cell(p).is_mine()),
        b.state != BoardState::Won ==> (b.cascade_open(p).unwrap().state == BoardState::Won
            <==> !b.cell(p).is_mine() && b.cascade_open(p).unwrap().missing_points <= 0
            < b.missing_points),
{
    let r = b.cascade_open(p).unwrap();
    opening_counts_each_cell_once(b, p);
    if b.cell(p).is_mine() {
        b.lemma_same_grid_keeps_counts(b.failed());
    } else {
        assert(b.mine_free(seq![p])) by {
            assert(seq![p][0] == p);
        }
        b.lemma_open_all_state(seq![p]);
        assert(r.newly_open(b, p));
        b.lemma_replace(p, b.cell(p).opened());
    }
}

/// Flagging a cell twice gives the board back, whatever the cell is.
pub proof fn flagging_twice_restores(b: BoardView, p: Point)
    requires
        b.wf(),
        b.in_bounds(p),
    ensures
        b.flag(p).flag(p) == b,
{
    let once = b.flag(p);
    let twice = once.flag(p);
    b.lemma_replace(p, b.cell(p).toggled());
    once.lemma_replace(p, once.cell(p).toggled());
    assert(twice.grid =~= b.grid) by {
        assert forall|y: int| 0 <= y < b.height implies twice.grid[y] =~= b.grid[y] by {}
    }
}

/// Opening a closed number opens exactly the region that it reaches: the
/// cells joined to it by a trail of closed numbers a knight's move apart, of
/// which all but the last show zero. Each of them is opened once, so no more
/// cells are opened than the board has.
pub proof fn opening_opens_the_region(b: BoardView, p: Point)
    requires
        b.wf(),
        b.in_bounds(p),
        b.cell(p).is_closed_number(),
    ensures
        forall|q: Point|
            b.in_bounds(q) ==> #[trigger] b.open_all(seq![p]).cell(q) == if b.reaches(p, q) {
                b.cell(q).opened()
            } else {
                b.cell(q)
            },
        b.cascade_open(p) == Some(b.open_all(seq![p])),
        0 <= b.closed_numbers() - b.open_all(seq![p]).closed_numbers() <= b.width * b.height,
{
    let r = b.open_all(seq![p]);
    let stack = seq![p];
    b.lemma_open_all_opens(stack);
    b.lemma_open_all_region(stack);
    b.lemma_closed_numbers_bounds();
    assert(stack[0] == p);
    assert(r.newly_open(b, p));
    assert forall|q: Point| b.in_bounds(q) implies #[trigger] r.cell(q) == if b.reaches(p, q) {
        b.cell(q).opened()
    } else {
        b.cell(q)
    } by {
        assert(r.kept(b, q) || r.newly_open(b, q));
        if b.reaches(p, q) {
            let trail = choose|trail: Seq<Point>| #[trigger]
                b.is_trail(trail) && trail[0] == p && trail.last() == q;
            r.lemma_trail_opened(b, trail, trail.len() - 1);
        } else {
            if r.newly_open(b, q) {
                let i = choose|i: int| 0 <= i < stack.len() && #[trigger] b.reaches(stack[i], q);
                assert(stack[i] == p);
            }
        }
    }
}

/// Deriving the counts gives every number cell its count, and flagging a
/// cell keeps the counts derived.
pub proof fn counts_stay_derived(b: BoardView, p: Point)
    requires
        b.wf(),
        b.in_bounds(p),
    ensures
        b.with_counts().counts_derived(),
        b.counts_derived() ==> b.flag(p).counts_derived(),
{
    b.lemma_with_counts();
    if b.counts_derived() {
        b.lemma_replace_keeps_counts(p, b.cell(p).toggled());
    }
}

/// Opening a closed number one cell at a time. The cell is replaced by the
/// same number, open. If it shows zero, each of its knight neighbours is then
/// opened in turn on the board that the one before has left, and a neighbour
/// that cannot be opened leaves the board as it is; if it shows another
/// number, nothing more is done.
pub proof fn opening_goes_from_cell_to_cell(b: BoardView, p: Point)
    requires
        b.wf(),
        b.in_bounds(p),
        b.cell(p).is_closed_number(),
    ensures
        b.cascade_open(p) == Some(
            if b.cell(p).is_closed_zero() {
                b.replace(p, b.cell(p).opened()).open_each(b.knight_points(p))
            } else {
                b.replace(p, b.cell(p).opened())
            },
        ),
{
    let opened = b.replace(p, b.cell(p).opened());
    b.lemma_replace(p, b.cell(p).opened());
    assert(seq![p].last() == p);
    assert(seq![p].drop_last() =~= Seq::<Point>::empty());
    let around = b.knight_points(p);
    if b.cell(p).is_closed_zero() {
        assert(Seq::<Point>::empty() + around.reverse() =~= around.reverse());
        opened.lemma_open_all_in_turn(around);
        assert(opened.knight_points(p) == around);
    } else {
        assert(opened.open_all(Seq::<Point>::empty()) == opened);
    }
}

/// While the counter counts the numbers that are not open, as it does on a
/// new board, it stands at zero exactly when every number cell is open.
/// Every move keeps the counter so: opening a cell, flagging one and
/// deriving the counts. So on a board with derived counts, opening a number
/// wins the game exactly when no number is left that is not open.
pub proof fn counter_counts_unopened_numbers(b: BoardView, p: Point)
    requires
        b.wf(),
        b.in_bounds(p),
        b.missing_points == b.unopened_numbers(),
    ensures
        b.missing_points == 0 <==> forall|q: Point|
            b.in_bounds(q) && (#[trigger] b.cell(q)) is Number ==> b.cell(q).state()
                == MapElementCellState::Open,
        b.cascade_open(p) matches Some(r) ==> r.missing_points == r.unopened_numbers(),
        b.with_counts().missing_points == b.with_counts().unopened_numbers(),
        b.flag(p).missing_points == b.flag(p).unopened_numbers(),
        b.counts_derived() && b.cell(p).is_closed_number() ==> (b.cascade_open(p).unwrap().state
            == BoardState::Won <==> b.cascade_open(p).unwrap().unopened_numbers() == 0 || b.state
            == BoardState::Won),
{
    opening_counts_each_cell_once(b, p);
    b.lemma_replace(p, b.cell(p).toggled());
    b.lemma_sides();
    b.lemma_closed_numbers_bounds();
    lemma_grid_count_agree(b.grid, b.with_counts().grid, unopened_number_pred());
    if b.cell(p).is_closed_number() && b.counts_derived() {
        opening_ends_the_game(b, p);
    }
    if forall|q: Point|
        b.in_bounds(q) && (#[trigger] b.cell(q)) is Number ==> b.cell(q).state()
            == MapElementCellState::Open {
        assert forall|x: int, y: int| 0 <= y < b.grid.len() && 0 <= x < b.width implies (
        unopened_number_pred())(#[trigger] b.grid[y][x]) == false by {
            let q = Point::at(x, y);
            assert(b.in_bounds(q));
            assert(b.cell(q) == b.grid[y][x]);
        }
        lemma_grid_count_uniform(b.grid, b.width, unopened_number_pred(), false);
    }
    if b.missing_points == 0 {
        assert forall|q: Point| b.in_bounds(q) && (#[trigger] b.cell(q)) is Number implies b.cell(
            q,
        ).state() == MapElementCellState::Open by {
            if b.cell(q).state() != MapElementCellState::Open {
                b.lemma_replace(q, b.cell(q).opened());
            }
        }
    }
}

} // verus!
