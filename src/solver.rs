//! Solvers: each searches a path from the entrance cell to the exit cell
//! through the open separators of a maze.
use vstd::prelude::*;

use crate::maze::{adjacent, pos, step, Cell, MazeView};

pub mod a_star;
pub mod depth_first_search;

verus! {

/// A solver found no path to the exit. A perfect maze always has one, so this
/// means the maze was broken.
#[derive(Clone, Copy, Debug, PartialEq, Eq, Structural)]
pub enum SolveError {
    NoPath,
}

/// The exit cell of a maze.
pub open spec fn exit_of(m: MazeView) -> (int, int) {
    (m.columns - 1, m.rows - 1)
}

/// The cells of `p` as pairs of integers.
pub open spec fn positions(p: Seq<Cell>) -> Seq<(int, int)> {
    p.map_values(|c: Cell| pos(c))
}

/// `p` is a walk from the entrance to the exit.
pub open spec fn solves(m: MazeView, p: Seq<Cell>) -> bool {
    &&& m.is_walk(positions(p))
    &&& pos(p[0]) == (0int, 0int)
    &&& pos(p.last()) == exit_of(m)
}

/// Every cell one step from `a` lies in `s`.
pub open spec fn reach_closed_at(m: MazeView, s: Set<(int, int)>, a: (int, int)) -> bool {
    &&& (m.passable(a, step(a, 0)) ==> s.contains(step(a, 0)))
    &&& (m.passable(a, step(a, 1)) ==> s.contains(step(a, 1)))
    &&& (m.passable(a, step(a, 2)) ==> s.contains(step(a, 2)))
    &&& (m.passable(a, step(a, 3)) ==> s.contains(step(a, 3)))
}

/// A perfect maze can be solved: its exit is reachable from its entrance, so
/// each solver returns a path.
pub proof fn lemma_perfect_is_solvable(m: MazeView)
    requires
        m.wf(),
        m.is_perfect(),
    ensures
        m.connected((0, 0), exit_of(m)),
{
    assert(m.is_cell(exit_of(m)));
}

/// A walk that starts in a set closed under steps stays in it.
pub proof fn lemma_walk_stays(m: MazeView, s: Set<(int, int)>, p: Seq<(int, int)>, i: int)
    requires
        forall|a: (int, int)| #[trigger] s.contains(a) ==> reach_closed_at(m, s, a),
        m.is_walk(p),
        s.contains(p[0]),
        0 <= i < p.len(),
    ensures
        s.contains(p[i]),
    decreases i,
{
    if i > 0 {
        lemma_walk_stays(m, s, p, i - 1);
        let a = p[i - 1];
        let b = p[i];
        assert(m.passable(p[i - 1], p[(i - 1) + 1]));
        assert(adjacent(a, b));
        assert(reach_closed_at(m, s, a));
        if b == step(a, 0) {
        } else if b == step(a, 1) {
        } else if b == step(a, 2) {
        } else {
            assert(b == step(a, 3));
        }
    }
}

/// No cell outside a set that holds the entrance and is closed under steps
/// can be reached from the entrance.
pub proof fn lemma_unreachable(m: MazeView, s: Set<(int, int)>, target: (int, int))
    requires
        forall|a: (int, int)| #[trigger] s.contains(a) ==> reach_closed_at(m, s, a),
        s.contains((0, 0)),
        !s.contains(target),
    ensures
        !m.connected((0, 0), target),
{
    if m.connected((0, 0), target) {
        let p = choose|p: Seq<(int, int)>| m.is_walk(p) && p[0] == (0int, 0int) && p.last() == target;
        lemma_walk_stays(m, s, p, p.len() - 1);
    }
}

} // verus!
