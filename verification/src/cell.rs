//! The cells of the grid.

use vstd::prelude::*;

verus! {

/// What the player has done to a cell.
#[derive(Debug, PartialEq, Eq, Clone, Copy, Structural)]
pub enum MapElementCellState {
    Closed,
    Open,
    Flagged,
}

/// One cell of the grid: a mine, or a cell that shows how many mines lie a
/// knight's move away.
#[derive(Debug, PartialEq, Eq, Clone, Copy, Structural)]
pub enum MapElement {
    Mine { state: MapElementCellState },
    Number { state: MapElementCellState, count: i32 },
}

impl MapElementCellState {
    /// The state after the player toggles a flag: closed and flagged swap,
    /// open stays open.
    pub open spec fn toggled(self) -> MapElementCellState {
        match self {
            MapElementCellState::Closed => MapElementCellState::Flagged,
            MapElementCellState::Flagged => MapElementCellState::Closed,
            MapElementCellState::Open => MapElementCellState::Open,
        }
    }

    /// The state after the player toggles a flag.
    pub fn toggle(self) -> (r: MapElementCellState)
        ensures
            r == self.toggled(),
    {
        match self {
            MapElementCellState::Closed => MapElementCellState::Flagged,
            MapElementCellState::Flagged => MapElementCellState::Closed,
            MapElementCellState::Open => MapElementCellState::Open,
        }
    }
}

impl MapElement {
    /// The player's mark on the cell, whatever its kind.
    pub open spec fn state(self) -> MapElementCellState {
        match self {
            MapElement::Mine { state } => state,
            MapElement::Number { state, .. } => state,
        }
    }

    pub open spec fn is_mine(self) -> bool {
        self is Mine
    }

    /// A number cell that has neither been opened nor flagged: the only kind
    /// of cell that a move opens.
    pub open spec fn is_closed_number(self) -> bool {
        self matches MapElement::Number { state: MapElementCellState::Closed, .. }
    }

    /// A number cell that is not open, closed or flagged: one of the cells
    /// that are still missing.
    pub open spec fn is_unopened_number(self) -> bool {
        self is Number && self.state() != MapElementCellState::Open
    }

    /// Replacing `self` by `el` opens a number: `self` is a closed number and
    /// `el` an open one. This is the only replacement that moves the counter
    /// and the state of a board.
    pub open spec fn is_opened_by(self, el: MapElement) -> bool {
        self.is_closed_number() && el is Number && el.state() == MapElementCellState::Open
    }

    /// A closed number cell that shows zero: opening it spreads to its
    /// neighbours.
    pub open spec fn is_closed_zero(self) -> bool {
        self matches MapElement::Number { state: MapElementCellState::Closed, count: 0 }
    }

    /// A mine that is not protected by a flag.
    pub open spec fn is_unflagged_mine(self) -> bool {
        self is Mine && self.state() != MapElementCellState::Flagged
    }

    /// The same cell with the given mark.
    pub open spec fn with_state(self, state: MapElementCellState) -> MapElement {
        match self {
            MapElement::Mine { .. } => MapElement::Mine { state },
            MapElement::Number { count, .. } => MapElement::Number { state, count },
        }
    }

    /// The same cell, opened.
    pub open spec fn opened(self) -> MapElement {
        self.with_state(MapElementCellState::Open)
    }

    /// The same cell after the player toggles its flag.
    pub open spec fn toggled(self) -> MapElement {
        self.with_state(self.state().toggled())
    }

    /// The same number cell showing `count`; a mine is left as it is.
    pub open spec fn with_count(self, count: i32) -> MapElement {
        match self {
            MapElement::Mine { state } => MapElement::Mine { state },
            MapElement::Number { state, .. } => MapElement::Number { state, count },
        }
    }

    /// The same cell after the player toggles its flag.
    pub fn toggle(&self) -> (r: MapElement)
        ensures
            r == self.toggled(),
    {
        match *self {
            MapElement::Mine { state } => MapElement::Mine { state: state.toggle() },
            MapElement::Number { state, count } => MapElement::Number { state: state.toggle(), count },
        }
    }
}

} // verus!
