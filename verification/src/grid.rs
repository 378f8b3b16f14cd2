//! Counting cells of a grid, and how a count moves when one cell changes.

use vstd::prelude::*;
use crate::cell::MapElement;

verus! {

/// A predicate on cells.
pub type CellPred = spec_fn(MapElement) -> bool;

/// Selects the mines.
pub open spec fn mine_pred() -> CellPred {
    |c: MapElement| c.is_mine()
}

/// Selects the number cells that are still closed.
pub open spec fn closed_number_pred() -> CellPred {
    |c: MapElement| c.is_closed_number()
}

/// Selects the number cells that are not open.
pub open spec fn unopened_number_pred() -> CellPred {
    |c: MapElement| c.is_unopened_number()
}

/// 1 if the cell is selected, else 0.
pub open spec fn weight(pred: CellPred, c: MapElement) -> int {
    if pred(c) {
        1
    } else {
        0
    }
}

/// How many cells of the row are selected.
pub open spec fn row_count(row: Seq<MapElement>, pred: CellPred) -> int
    decreases row.len(),
{
    if row.len() == 0 {
        0
    } else {
        row_count(row.drop_last(), pred) + weight(pred, row.last())
    }
}

/// How many cells of the grid are selected.
pub open spec fn grid_count(grid: Seq<Seq<MapElement>>, pred: CellPred) -> int
    decreases grid.len(),
{
    if grid.len() == 0 {
        0
    } else {
        grid_count(grid.drop_last(), pred) + row_count(grid.last(), pred)
    }
}

/// The grid has `height` rows of `width` cells each.
pub open spec fn rectangular(grid: Seq<Seq<MapElement>>, width: int, height: int) -> bool {
    &&& grid.len() == height
    &&& forall|y: int| 0 <= y < height ==> (#[trigger] grid[y]).len() == width
}

/// The grid with the cell in row `y`, column `x` replaced by `el`.
pub open spec fn with_cell(grid: Seq<Seq<MapElement>>, x: int, y: int, el: MapElement) -> Seq<Seq<MapElement>> {
    grid.update(y, grid[y].update(x, el))
}

pub proof fn lemma_row_count_bounds(row: Seq<MapElement>, pred: CellPred)
    ensures
        0 <= row_count(row, pred) <= row.len(),
    decreases row.len(),
{
    if row.len() > 0 {
        lemma_row_count_bounds(row.drop_last(), pred);
    }
}

pub proof fn lemma_grid_count_bounds(grid: Seq<Seq<MapElement>>, width: int, pred: CellPred)
    requires
        rectangular(grid, width, grid.len() as int),
    ensures
        0 <= grid_count(grid, pred) <= grid.len() * width,
    decreases grid.len(),
{
    if grid.len() > 0 {
        let rest = grid.drop_last();
        assert(rectangular(rest, width, rest.len() as int)) by {
            assert forall|y: int| 0 <= y < rest.len() implies (#[trigger] rest[y]).len() == width by {
                assert(rest[y] == grid[y]);
            }
        }
        lemma_grid_count_bounds(rest, width, pred);
        lemma_row_count_bounds(grid.last(), pred);
        assert(grid.len() * width == rest.len() * width + width) by (nonlinear_arith)
            requires
                grid.len() == rest.len() + 1,
        ;
    } else {
        assert(grid.len() * width == 0) by (nonlinear_arith)
            requires
                grid.len() == 0,
        ;
    }
}

/// Replacing one cell of a row moves the count by the difference of the two
/// cells' weights.
pub proof fn lemma_row_count_update(row: Seq<MapElement>, x: int, el: MapElement, pred: CellPred)
    requires
        0 <= x < row.len(),
    ensures
        row_count(row.update(x, el), pred) == row_count(row, pred) - weight(pred, row[x]) + weight(
            pred,
            el,
        ),
    decreases row.len(),
{
    let after = row.update(x, el);
    if x == row.len() - 1 {
        assert(after.drop_last() == row.drop_last());
    } else {
        assert(after.drop_last() == row.drop_last().update(x, el));
        lemma_row_count_update(row.drop_last(), x, el, pred);
    }
}

/// Replacing one cell of a grid moves the count by the difference of the two
/// cells' weights.
pub proof fn lemma_grid_count_update(
    grid: Seq<Seq<MapElement>>,
    x: int,
    y: int,
    el: MapElement,
    pred: CellPred,
)
    requires
        0 <= y < grid.len(),
        0 <= x < grid[y].len(),
    ensures
        grid_count(with_cell(grid, x, y, el), pred) == grid_count(grid, pred) - weight(
            pred,
            grid[y][x],
        ) + weight(pred, el),
    decreases grid.len(),
{
    let after = with_cell(grid, x, y, el);
    if y == grid.len() - 1 {
        assert(after.drop_last() == grid.drop_last());
        lemma_row_count_update(grid[y], x, el, pred);
    } else {
        assert(after.drop_last() == with_cell(grid.drop_last(), x, y, el));
        lemma_grid_count_update(grid.drop_last(), x, y, el, pred);
    }
}

/// Two rows that agree cell by cell on whether the predicate holds have the
/// same count.
pub proof fn lemma_row_count_agree(a: Seq<MapElement>, b: Seq<MapElement>, pred: CellPred)
    requires
        a.len() == b.len(),
        forall|x: int| 0 <= x < a.len() ==> pred(#[trigger] a[x]) == pred(b[x]),
    ensures
        row_count(a, pred) == row_count(b, pred),
    decreases a.len(),
{
    if a.len() > 0 {
        let a0 = a.drop_last();
        let b0 = b.drop_last();
        assert forall|x: int| 0 <= x < a0.len() implies pred(#[trigger] a0[x]) == pred(b0[x]) by {
            assert(a0[x] == a[x]);
            assert(b0[x] == b[x]);
        }
        lemma_row_count_agree(a0, b0, pred);
        assert(pred(a[a.len() - 1]) == pred(b[a.len() - 1]));
    }
}

/// Two grids that agree cell by cell on whether the predicate holds have the
/// same count.
pub proof fn lemma_grid_count_agree(a: Seq<Seq<MapElement>>, b: Seq<Seq<MapElement>>, pred: CellPred)
    requires
        a.len() == b.len(),
        forall|y: int| 0 <= y < a.len() ==> (#[trigger] a[y]).len() == b[y].len(),
        forall|x: int, y: int|
            0 <= y < a.len() && 0 <= x < a[y].len() ==> pred(#[trigger] a[y][x]) == pred(b[y][x]),
    ensures
        grid_count(a, pred) == grid_count(b, pred),
    decreases a.len(),
{
    if a.len() > 0 {
        let a0 = a.drop_last();
        let b0 = b.drop_last();
        let n = a.len() - 1;
        assert forall|y: int| 0 <= y < a0.len() implies (#[trigger] a0[y]).len() == b0[y].len() by {
            assert(a0[y] == a[y]);
            assert(b0[y] == b[y]);
        }
        assert forall|x: int, y: int| 0 <= y < a0.len() && 0 <= x < a0[y].len() implies pred(
            #[trigger] a0[y][x],
        ) == pred(b0[y][x]) by {
            assert(a0[y] == a[y]);
            assert(b0[y] == b[y]);
            assert(pred(a[y][x]) == pred(b[y][x]));
        }
        lemma_grid_count_agree(a0, b0, pred);
        assert(a[n].len() == b[n].len());
        assert forall|x: int| 0 <= x < a[n].len() implies pred(#[trigger] a[n][x]) == pred(
            b[n][x],
        ) by {
            assert(pred(a[n][x]) == pred(b[n][x]));
        }
        lemma_row_count_agree(a[n], b[n], pred);
    }
}

/// A row on which the predicate holds of every cell, or of none, counts all
/// its cells, or none.
pub proof fn lemma_row_count_uniform(row: Seq<MapElement>, pred: CellPred, holds: bool)
    requires
        forall|x: int| 0 <= x < row.len() ==> pred(#[trigger] row[x]) == holds,
    ensures
        row_count(row, pred) == if holds {
            row.len() as int
        } else {
            0
        },
    decreases row.len(),
{
    if row.len() > 0 {
        let rest = row.drop_last();
        assert forall|x: int| 0 <= x < rest.len() implies pred(#[trigger] rest[x]) == holds by {
            assert(rest[x] == row[x]);
        }
        lemma_row_count_uniform(rest, pred, holds);
        assert(pred(row[row.len() - 1]) == holds);
    }
}

/// A grid on which the predicate holds of every cell, or of none, counts all
/// its cells, or none.
pub proof fn lemma_grid_count_uniform(grid: Seq<Seq<MapElement>>, width: int, pred: CellPred, holds: bool)
    requires
        rectangular(grid, width, grid.len() as int),
        forall|x: int, y: int|
            0 <= y < grid.len() && 0 <= x < width ==> pred(#[trigger] grid[y][x]) == holds,
    ensures
        grid_count(grid, pred) == if holds {
            grid.len() * width
        } else {
            0
        },
    decreases grid.len(),
{
    if grid.len() > 0 {
        let rest = grid.drop_last();
        let n = grid.len() - 1;
        assert(rectangular(rest, width, rest.len() as int)) by {
            assert forall|y: int| 0 <= y < rest.len() implies (#[trigger] rest[y]).len() == width by {
                assert(rest[y] == grid[y]);
            }
        }
        assert forall|x: int, y: int| 0 <= y < rest.len() && 0 <= x < width implies pred(
            #[trigger] rest[y][x],
        ) == holds by {
            assert(rest[y] == grid[y]);
            assert(pred(grid[y][x]) == holds);
        }
        lemma_grid_count_uniform(rest, width, pred, holds);
        assert(grid[n].len() == width);
        assert forall|x: int| 0 <= x < grid[n].len() implies pred(#[trigger] grid[n][x])
            == holds by {
            assert(pred(grid[n][x]) == holds);
        }
        lemma_row_count_uniform(grid[n], pred, holds);
        assert(grid.len() * width == rest.len() * width + width) by (nonlinear_arith)
            requires
                grid.len() == rest.len() + 1,
        ;
    } else {
        assert(grid.len() * width == 0) by (nonlinear_arith)
            requires
                grid.len() == 0,
        ;
    }
}

/// A predicate that holds only where another holds selects no more cells of
/// a row.
pub proof fn lemma_row_count_below(row: Seq<MapElement>, narrow: CellPred, wide: CellPred)
    requires
        forall|c: MapElement| narrow(c) ==> #[trigger] wide(c),
    ensures
        row_count(row, narrow) <= row_count(row, wide),
    decreases row.len(),
{
    if row.len() > 0 {
        lemma_row_count_below(row.drop_last(), narrow, wide);
        assert(narrow(row.last()) ==> wide(row.last()));
    }
}

/// A predicate that holds only where another holds selects no more cells of
/// a grid.
pub proof fn lemma_grid_count_below(grid: Seq<Seq<MapElement>>, narrow: CellPred, wide: CellPred)
    requires
        forall|c: MapElement| narrow(c) ==> #[trigger] wide(c),
    ensures
        grid_count(grid, narrow) <= grid_count(grid, wide),
    decreases grid.len(),
{
    if grid.len() > 0 {
        lemma_grid_count_below(grid.drop_last(), narrow, wide);
        lemma_row_count_below(grid.last(), narrow, wide);
    }
}

} // verus!
