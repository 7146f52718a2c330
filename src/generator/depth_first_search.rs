//! Randomized depth-first carving.
use rand::rngs::StdRng;
use vstd::prelude::*;

use crate::generator::carve_with_stack;
use crate::maze::{Change, Maze};

verus! {

/// Carves a perfect maze by a randomized depth-first search from the top left
/// cell, and records what it changes in the order in which it does so: each
/// carved separator, an arrow in each cell towards the cell it carves into, and
/// the clearing of that arrow when the search leaves the cell.
pub fn generate(rows: u16, columns: u16, rng: &mut StdRng) -> (r: (Maze, Vec<Change>))
    requires
        1 <= rows,
        1 <= columns <= 32767,
    ensures
        r.0@.rows == rows,
        r.0@.columns == columns,
        r.0@.is_carving(),
        r.0@.is_perfect(),
        forall|i: int| 0 <= i < r.1@.len() ==> r.0@.fits(#[trigger] r.1@[i]),
{
    carve_with_stack(rows, columns, rng, false, true)
}

/// Carves a perfect maze as `generate` does, without recording the changes.
pub fn generate_instant(rows: u16, columns: u16, rng: &mut StdRng) -> (m: Maze)
    requires
        1 <= rows,
        1 <= columns <= 32767,
    ensures
        m@.rows == rows,
        m@.columns == columns,
        m@.is_carving(),
        m@.is_perfect(),
{
    carve_with_stack(rows, columns, rng, false, false).0
}

} // verus!
