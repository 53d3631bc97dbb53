use vstd::prelude::*;

verus! {

/// What a cell holds.
#[derive(Clone, Copy, Debug, PartialEq, Eq, Structural)]
pub enum CellType {
    Empty,
    Mine,
}

/// One position of the board.
#[derive(Clone, Copy, Debug, PartialEq, Eq, Structural)]
pub struct Cell {
    pub cell_type: CellType,
    pub revealed: bool,
    pub adjacent_mines: u8,
    pub flagged: bool,
}

impl Cell {
    /// A hidden, unflagged, empty cell.
    pub fn new() -> (r: Cell)
        ensures
            r == Cell::blank(),
    {
        Cell { cell_type: CellType::Empty, revealed: false, adjacent_mines: 0, flagged: false }
    }

    pub open spec fn blank() -> Cell {
        Cell { cell_type: CellType::Empty, revealed: false, adjacent_mines: 0, flagged: false }
    }

    pub open spec fn is_mine(self) -> bool {
        self.cell_type == CellType::Mine
    }

    /// An empty cell with no mine around it: revealing it opens its neighbours.
    pub open spec fn is_zero(self) -> bool {
        self.cell_type == CellType::Empty && self.adjacent_mines == 0
    }
}

} // verus!
