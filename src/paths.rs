//! Facts about the grid: which unit separates which cells, what carving one
//! separator changes, walks and connectivity, and the size of the grid.
use vstd::prelude::*;
use vstd::set_lib::lemma_set_disjoint_lens;

use crate::maze::{adjacent, carved_unit, separator, step, MazeView};

verus! {

/// The cells of a grid of the given size.
pub open spec fn cells(rows: int, columns: int) -> Set<(int, int)> {
    Set::new(|c: (int, int)| 0 <= c.0 < columns && 0 <= c.1 < rows)
}

/// The separator between two adjacent cells lies inside the frame, between
/// cells, and does not depend on the order of the two.
pub proof fn lemma_separator(m: MazeView, a: (int, int), b: (int, int))
    requires
        m.wf(),
        m.is_cell(a),
        m.is_cell(b),
        adjacent(a, b),
    ensures
        m.is_separator(separator(a, b).0, separator(a, b).1),
        m.in_frame(separator(a, b).0, separator(a, b).1),
        separator(a, b) == separator(b, a),
        m.passable(a, b) == m.passable(b, a),
{
}

/// Two adjacent pairs with the same separator are the same pair.
pub proof fn lemma_separator_unique(a: (int, int), b: (int, int), x: (int, int), y: (int, int))
    requires
        adjacent(a, b),
        adjacent(x, y),
        separator(a, b) == separator(x, y),
    ensures
        (x == a && y == b) || (x == b && y == a),
{
}

/// Carving the separator between two adjacent cells that are not joined yet
/// joins them and nothing else, and adds that separator to the openings.
pub proof fn lemma_open(m: MazeView, a: (int, int), b: (int, int))
    requires
        m.wf(),
        m.is_cell(a),
        m.is_cell(b),
        adjacent(a, b),
        !m.passable(a, b),
    ensures
        ({
            let s = separator(a, b);
            let m2 = m.with_unit(s.0, s.1, carved_unit(s.0));
            &&& m2.wf()
            &&& m2.rows == m.rows
            &&& m2.columns == m.columns
            &&& m2.passable(a, b)
            &&& m2.passable(b, a)
            &&& forall|x: (int, int), y: (int, int)|
                #[trigger] m2.passable(x, y) <==> (m.passable(x, y) || (x == a && y == b) || (x
                    == b && y == a))
            &&& !m.openings().contains(s)
            &&& m2.openings() == m.openings().insert(s)
            &&& (m.is_carving() ==> m2.is_carving())
        }),
{
    let s = separator(a, b);
    let m2 = m.with_unit(s.0, s.1, carved_unit(s.0));
    lemma_separator(m, a, b);
    assert(forall|fx: int, fy: int|
        m.in_frame(fx, fy) ==> #[trigger] m2.unit(fx, fy) == if fx == s.0 && fy == s.1 {
            carved_unit(s.0)
        } else {
            m.unit(fx, fy)
        });
    assert forall|x: (int, int), y: (int, int)|
        #[trigger] m2.passable(x, y) <==> (m.passable(x, y) || (x == a && y == b) || (x == b && y
            == a)) by {
        if m.is_cell(x) && m.is_cell(y) && adjacent(x, y) {
            lemma_separator(m, x, y);
            if separator(x, y) == s {
                lemma_separator_unique(a, b, x, y);
            }
        }
    }
    assert(m2.openings() =~= m.openings().insert(s));
}

/// A walled maze has no openings and no passage.
pub proof fn lemma_walled(m: MazeView)
    requires
        m.is_walled(),
    ensures
        m.is_carving(),
        m.openings() == Set::<(int, int)>::empty(),
        forall|a: (int, int), b: (int, int)| !#[trigger] m.passable(a, b),
{
    assert(m.openings() =~= Set::<(int, int)>::empty());
    assert forall|a: (int, int), b: (int, int)| !#[trigger] m.passable(a, b) by {
        if m.is_cell(a) && m.is_cell(b) && adjacent(a, b) {
            lemma_separator(m, a, b);
            assert(!m.openings().contains(separator(a, b)));
        }
    }
}

/// A single cell is a walk.
pub proof fn lemma_connected_refl(m: MazeView, a: (int, int))
    requires
        m.is_cell(a),
    ensures
        m.connected(a, a),
{
    let p = seq![a];
    assert(m.is_walk(p) && p[0] == a && p.last() == a);
}

/// A walk can be extended by one step.
pub proof fn lemma_connected_step(m: MazeView, a: (int, int), b: (int, int), c: (int, int))
    requires
        m.connected(a, b),
        m.passable(b, c),
    ensures
        m.connected(a, c),
{
    let p = choose|p: Seq<(int, int)>| m.is_walk(p) && p[0] == a && p.last() == b;
    let q = p.push(c);
    assert forall|i: int| 0 <= i < q.len() - 1 implies #[trigger] m.passable(q[i], q[i + 1]) by {
        if i < p.len() - 1 {
            assert(m.passable(p[i], p[i + 1]));
        }
    }
    assert(m.is_walk(q) && q[0] == a && q.last() == c);
}

/// Walks survive a change that keeps every step possible.
pub proof fn lemma_connected_mono(m: MazeView, m2: MazeView, a: (int, int), b: (int, int))
    requires
        m.connected(a, b),
        m2.rows == m.rows,
        m2.columns == m.columns,
        forall|x: (int, int), y: (int, int)| #[trigger] m.passable(x, y) ==> m2.passable(x, y),
    ensures
        m2.connected(a, b),
{
    let p = choose|p: Seq<(int, int)>| m.is_walk(p) && p[0] == a && p.last() == b;
    assert forall|i: int| 0 <= i < p.len() - 1 implies #[trigger] m2.passable(p[i], p[i + 1]) by {
        assert(m.passable(p[i], p[i + 1]));
    }
    assert(m2.is_walk(p));
}

/// Two walks that meet make one.
pub proof fn lemma_connected_trans(m: MazeView, a: (int, int), b: (int, int), c: (int, int))
    requires
        m.connected(a, b),
        m.connected(b, c),
    ensures
        m.connected(a, c),
{
    let p = choose|p: Seq<(int, int)>| m.is_walk(p) && p[0] == a && p.last() == b;
    let q = choose|q: Seq<(int, int)>| m.is_walk(q) && q[0] == b && q.last() == c;
    let r = p + q.drop_first();
    assert forall|i: int| 0 <= i < r.len() - 1 implies #[trigger] m.passable(r[i], r[i + 1]) by {
        if i < p.len() - 1 {
            assert(m.passable(p[i], p[i + 1]));
        } else {
            let j = i - (p.len() - 1);
            assert(m.passable(q[j], q[j + 1]));
        }
    }
    assert(m.is_walk(r) && r[0] == a && r.last() == c);
}

proof fn lemma_closed_row(m: MazeView, s: Set<(int, int)>, x: int)
    requires
        m.wf(),
        s.contains((0, 0)),
        forall|a: (int, int)| #[trigger] s.contains(a) ==> m.closed_at(s, a),
        0 <= x < m.columns,
    ensures
        s.contains((x, 0)),
    decreases x,
{
    if x > 0 {
        lemma_closed_row(m, s, x - 1);
        assert(m.closed_at(s, (x - 1, 0int)));
        assert(step((x - 1, 0int), 1) == (x, 0int));
    }
}

proof fn lemma_closed_cell(m: MazeView, s: Set<(int, int)>, x: int, y: int)
    requires
        m.wf(),
        s.contains((0, 0)),
        forall|a: (int, int)| #[trigger] s.contains(a) ==> m.closed_at(s, a),
        0 <= x < m.columns,
        0 <= y < m.rows,
    ensures
        s.contains((x, y)),
    decreases y,
{
    if y == 0 {
        lemma_closed_row(m, s, x);
    } else {
        lemma_closed_cell(m, s, x, y - 1);
        assert(m.closed_at(s, (x, y - 1)));
        assert(step((x, y - 1), 3) == (x, y));
    }
}

/// A set of cells that holds the top left cell and every neighbour of each
/// of its cells holds the whole grid.
pub proof fn lemma_closed_is_all(m: MazeView, s: Set<(int, int)>)
    requires
        m.wf(),
        s.contains((0, 0)),
        forall|a: (int, int)| #[trigger] s.contains(a) ==> m.closed_at(s, a),
    ensures
        forall|c: (int, int)| m.is_cell(c) ==> #[trigger] s.contains(c),
{
    assert forall|c: (int, int)| m.is_cell(c) implies #[trigger] s.contains(c) by {
        lemma_closed_cell(m, s, c.0, c.1);
    }
}

proof fn lemma_row_len(y: int, columns: nat)
    ensures
        Set::new(|c: (int, int)| 0 <= c.0 < columns && c.1 == y).finite(),
        Set::new(|c: (int, int)| 0 <= c.0 < columns && c.1 == y).len() == columns,
    decreases columns,
{
    let r = Set::new(|c: (int, int)| 0 <= c.0 < columns && c.1 == y);
    if columns == 0 {
        assert(r =~= Set::empty());
    } else {
        let k = (columns - 1) as nat;
        lemma_row_len(y, k);
        let r0 = Set::new(|c: (int, int)| 0 <= c.0 < k && c.1 == y);
        assert(r =~= r0.insert((k as int, y)));
    }
}

/// A grid of `rows` by `columns` has `rows * columns` cells.
pub proof fn lemma_cells_len(rows: nat, columns: nat)
    ensures
        cells(rows as int, columns as int).finite(),
        cells(rows as int, columns as int).len() == rows * columns,
    decreases rows,
{
    if rows == 0 {
        assert(cells(0, columns as int) =~= Set::empty());
    } else {
        let k = (rows - 1) as nat;
        lemma_cells_len(k, columns);
        lemma_row_len(k as int, columns);
        let r = Set::new(|c: (int, int)| 0 <= c.0 < columns && c.1 == k);
        assert(cells(rows as int, columns as int) =~= cells(k as int, columns as int) + r);
        assert(cells(k as int, columns as int).disjoint(r));
        lemma_set_disjoint_lens(cells(k as int, columns as int), r);
        assert(rows * columns == k * columns + columns) by (nonlinear_arith)
            requires
                rows == k + 1,
        ;
    }
}

} // verus!
