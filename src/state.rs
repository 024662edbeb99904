use vstd::prelude::*;

use crate::cell::{contains_cell, Cell};

verus! {

/// The board: its dimensions and the cells that are alive on it.
///
/// `living_cells` is kept free of duplicates, so that it stands for a set.
#[derive(Debug)]
pub struct State {
    pub width: usize,
    pub height: usize,
    pub living_cells: Vec<Cell>,
}

impl State {
    /// No cell is listed twice.
    pub open spec fn wf(&self) -> bool {
        self.living_cells@.no_duplicates()
    }

    /// The set of live cells.
    pub open spec fn live(&self) -> Set<Cell> {
        self.living_cells@.to_set()
    }

    /// Whether `cell` is alive.
    pub fn is_alive(&self, cell: &Cell) -> (r: bool)
        ensures
            r == self.live().contains(*cell),
    {
        contains_cell(&self.living_cells, cell)
    }
}

} // verus!
