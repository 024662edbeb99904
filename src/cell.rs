use vstd::prelude::*;

verus! {

/// A coordinate on the board: column `x`, row `y`.
#[derive(Debug, Hash, Clone, Copy, PartialEq, Eq, Structural)]
pub struct Cell {
    pub x: usize,
    pub y: usize,
}

/// Whether `cell` is listed in `cells`.
pub fn contains_cell(cells: &Vec<Cell>, cell: &Cell) -> (r: bool)
    ensures
        r == cells@.contains(*cell),
{
    let mut i: usize = 0;
    while i < cells.len()
        invariant
            0 <= i <= cells.len(),
            forall|j: int| 0 <= j < i ==> cells@[j] != *cell,
        decreases cells.len() - i,
    {
        if cells[i] == *cell {
            return true;
        }
        i = i + 1;
    }
    false
}

} // verus!
