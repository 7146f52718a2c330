//! Randomized carving from a stack that is shuffled after each step.
use rand::rngs::StdRng;
use vstd::prelude::*;

use crate::generator::carve_with_stack;
use crate::maze::{Change, Maze};

verus! {

/// Carves a perfect maze from a stack of cells that starts with the top left
/// one: the top cell carves into a random unvisited neighbour, which is pushed,
/// and then the whole stack is shuffled; a cell without unvisited neighbours is
/// popped. This gives shorter, bushier branches than a depth-first search.
/// Records what it changes in order: the clearing of the mark on each cell that
/// comes to the top, each carved separator, and a dot in each cell reached.
pub fn generate(rows: u16, columns: u16, rng: &mut StdRng) -> (r: (Maze, Vec<Change>))
    requires
        1 <= rows,
        1 <= columns <= 32767,
    ensures
        r.0@.rows == rows,
        r.0@.columns == columns,
        r.0@.is_carving(),
        r.0@.is_perfect(),
        forall|i: int| 0 <= i < r.1@.len() ==> r.0@.fits(#[trigger] r.1@[i]),
{
    carve_with_stack(rows, columns, rng, true, true)
}

/// Carves a perfect maze as `generate` does, without recording the changes.
pub fn generate_instant(rows: u16, columns: u16, rng: &mut StdRng) -> (m: Maze)
    requires
        1 <= rows,
        1 <= columns <= 32767,
    ensures
        m@.rows == rows,
        m@.columns == columns,
        m@.is_carving(),
        m@.is_perfect(),
{
    carve_with_stack(rows, columns, rng, true, false).0
}

} // verus!
