//! Kruskal's algorithm: the separators in random order, each carved when the
//! cells on its two sides are not yet joined.
use rand::rngs::StdRng;
use vstd::arithmetic::div_mod::lemma_fundamental_div_mod;
use vstd::prelude::*;
use vstd::seq_lib::seq_to_set_is_finite;

use crate::maze::{adjacent, carved_unit, separator, separator_at, step, Change, Maze, MazeView};
use crate::paths::{
    lemma_closed_is_all, lemma_connected_mono, lemma_connected_refl, lemma_connected_step,
    lemma_connected_trans, lemma_open, lemma_separator, lemma_walled,
};
use crate::random::shuffle;
use crate::union_find::{relabeled, set_roots, union_find_equiv, union_find_new, union_find_union};

verus! {

/// The two cells that the separator at `w` lies between: left and right of a
/// vertical one, above and below a horizontal one.
pub open spec fn sides(w: (int, int)) -> ((int, int), (int, int)) {
    if w.0 % 2 == 0 {
        ((w.0 / 2 - 1, w.1 - 1), (w.0 / 2, w.1 - 1))
    } else {
        (((w.0 - 1) / 2, w.1 - 1), ((w.0 - 1) / 2, w.1))
    }
}

/// The number of a cell, row by row.
pub open spec fn cell_id(columns: int, c: (int, int)) -> int {
    c.1 * columns + c.0
}

/// The cell numbered `i`.
pub open spec fn cell_of(columns: int, i: int) -> (int, int) {
    (i % columns, i / columns)
}

/// The two cells have the same representative.
pub open spec fn same(roots: Seq<usize>, columns: int, a: (int, int), b: (int, int)) -> bool {
    roots[cell_id(columns, a)] == roots[cell_id(columns, b)]
}

/// A frame position as integers.
pub open spec fn at(w: (u16, u16)) -> (int, int) {
    (w.0 as int, w.1 as int)
}

/// The separators listed are all of them, and nothing else.
pub open spec fn lists_separators(rows: int, columns: int, order: Seq<(u16, u16)>) -> bool {
    &&& forall|j: int|
        0 <= j < order.len() ==> separator_at(rows, columns, #[trigger] order[j].0 as int, order[j].1 as int)
    &&& forall|fx: int, fy: int|
        #[trigger] separator_at(rows, columns, fx, fy) ==> order.contains((fx as u16, fy as u16))
}

proof fn lemma_sides(m: MazeView, w: (int, int))
    requires
        m.wf(),
        m.is_separator(w.0, w.1),
    ensures
        m.is_cell(sides(w).0),
        m.is_cell(sides(w).1),
        adjacent(sides(w).0, sides(w).1),
        separator(sides(w).0, sides(w).1) == w,
{
}

proof fn lemma_sides_of_separator(m: MazeView, a: (int, int), b: (int, int))
    requires
        m.wf(),
        m.is_cell(a),
        m.is_cell(b),
        adjacent(a, b),
    ensures
        sides(separator(a, b)) == (a, b) || sides(separator(a, b)) == (b, a),
{
}

proof fn lemma_cell_id(m: MazeView)
    requires
        m.wf(),
    ensures
        forall|c: (int, int)|
            m.is_cell(c) ==> 0 <= #[trigger] cell_id(m.columns, c) < m.rows * m.columns,
        forall|c: (int, int), d: (int, int)|
            m.is_cell(c) && m.is_cell(d) && #[trigger] cell_id(m.columns, c) == #[trigger] cell_id(
                m.columns,
                d,
            ) ==> c == d,
        forall|i: int|
            0 <= i < m.rows * m.columns ==> m.is_cell(#[trigger] cell_of(m.columns, i))
                && cell_id(m.columns, cell_of(m.columns, i)) == i,
{
    let r = m.rows;
    let k = m.columns;
    assert forall|c: (int, int)| m.is_cell(c) implies 0 <= #[trigger] cell_id(k, c) < r * k by {
        assert(0 <= c.1 * k + c.0 < r * k) by (nonlinear_arith)
            requires
                0 <= c.0 < k,
                0 <= c.1 < r,
        ;
    }
    assert forall|c: (int, int), d: (int, int)|
        m.is_cell(c) && m.is_cell(d) && #[trigger] cell_id(k, c) == #[trigger] cell_id(
            k,
            d,
        ) implies c == d by {
        assert(c.1 == d.1) by (nonlinear_arith)
            requires
                0 <= c.0 < k,
                0 <= d.0 < k,
                c.1 * k + c.0 == d.1 * k + d.0,
        ;
    }
    assert forall|i: int| 0 <= i < r * k implies m.is_cell(#[trigger] cell_of(k, i)) && cell_id(
        k,
        cell_of(k, i),
    ) == i by {
        lemma_fundamental_div_mod(i, k);
        assert(0 <= i % k < k);
        assert(0 <= i / k < r) by (nonlinear_arith)
            requires
                0 <= i < r * k,
                i == k * (i / k) + i % k,
                0 <= i % k < k,
        ;
        assert((i / k) * k == k * (i / k)) by (nonlinear_arith);
    }
}

/// What holds after the separators `order[k..]` have been dealt with: passages
/// join cells of one set only, cells of one set are joined by a walk, the sets
/// and the openings together number the cells, and the two sides of each
/// separator dealt with are in one set.
#[verifier::opaque]
pub(crate) open spec fn kruskal_state(
    m: MazeView,
    roots: Seq<usize>,
    order: Seq<(u16, u16)>,
    k: int,
) -> bool {
    &&& m.wf()
    &&& m.is_carving()
    &&& roots.len() == m.rows * m.columns
    &&& forall|a: (int, int), b: (int, int)|
        m.is_cell(a) && m.is_cell(b) && #[trigger] same(roots, m.columns, a, b) ==> m.connected(
            a,
            b,
        )
    &&& forall|a: (int, int), b: (int, int)|
        #[trigger] m.passable(a, b) ==> same(roots, m.columns, a, b)
    &&& m.openings().finite()
    &&& roots.to_set().len() + m.openings().len() == m.rows * m.columns
    &&& 0 <= k <= order.len()
    &&& forall|j: int|
        k <= j < order.len() ==> same(
            roots,
            m.columns,
            sides(at(#[trigger] order[j])).0,
            sides(at(order[j])).1,
        )
}

proof fn lemma_kruskal_start(m: MazeView, roots: Seq<usize>, order: Seq<(u16, u16)>)
    requires
        m.is_walled(),
        roots == Seq::new((m.rows * m.columns) as nat, |i: int| i as usize),
        m.rows * m.columns <= usize::MAX,
    ensures
        kruskal_state(m, roots, order, order.len() as int),
{
    reveal(kruskal_state);
    lemma_walled(m);
    lemma_cell_id(m);
    assert(roots.no_duplicates());
    roots.unique_seq_to_set();
    assert forall|a: (int, int), b: (int, int)|
        m.is_cell(a) && m.is_cell(b) && #[trigger] same(roots, m.columns, a, b) implies m.connected(
        a,
        b,
    ) by {
        assert(cell_id(m.columns, a) == cell_id(m.columns, b));
        lemma_connected_refl(m, a);
    }
}

/// Skipping a separator whose sides are in one set keeps the state.
proof fn lemma_kruskal_skip(m: MazeView, roots: Seq<usize>, order: Seq<(u16, u16)>, k: int)
    requires
        kruskal_state(m, roots, order, k),
        0 < k <= order.len(),
        same(roots, m.columns, sides(at(order[k - 1])).0, sides(at(order[k - 1])).1),
    ensures
        kruskal_state(m, roots, order, k - 1),
{
    reveal(kruskal_state);
}

/// Carving a separator whose sides are in two sets, and joining the sets,
/// keeps the state.
#[verifier::rlimit(60)]
proof fn lemma_kruskal_union(
    m0: MazeView,
    m: MazeView,
    r0: Seq<usize>,
    r: Seq<usize>,
    order: Seq<(u16, u16)>,
    k: int,
    from: usize,
    to: usize,
)
    requires
        kruskal_state(m0, r0, order, k),
        0 < k <= order.len(),
        forall|j: int|
            0 <= j < order.len() ==> m0.is_separator(
                #[trigger] at(order[j]).0,
                at(order[j]).1,
            ),
        !same(r0, m0.columns, sides(at(order[k - 1])).0, sides(at(order[k - 1])).1),
        m == m0.with_unit(
            at(order[k - 1]).0,
            at(order[k - 1]).1,
            carved_unit(at(order[k - 1]).0),
        ),
        relabeled(r0, r, from, to),
        ({
            let (a, b) = sides(at(order[k - 1]));
            let ia = cell_id(m0.columns, a);
            let ib = cell_id(m0.columns, b);
            (from == r0[ia] && to == r0[ib]) || (from == r0[ib] && to == r0[ia])
        }),
    ensures
        kruskal_state(m, r, order, k - 1),
        m0.openings().subset_of(m.openings()),
        m.openings().len() == m0.openings().len() + 1,
        !m0.passable(sides(at(order[k - 1])).0, sides(at(order[k - 1])).1),
{
    reveal(kruskal_state);
    let w = at(order[k - 1]);
    assert(m0.is_separator(w.0, w.1));
    let (a, b) = sides(w);
    let cs = m0.columns;
    lemma_sides(m0, w);
    lemma_cell_id(m0);
    assert(!m0.passable(a, b));
    lemma_open(m0, a, b);
    let ia = cell_id(cs, a);
    let ib = cell_id(cs, b);
    assert(r[ia] == to && r[ib] == to);
    assert forall|x: (int, int), y: (int, int)|
        m.is_cell(x) && m.is_cell(y) && #[trigger] same(r, cs, x, y) implies m.connected(x, y) by {
        let ix = cell_id(cs, x);
        let iy = cell_id(cs, y);
        assert(r[ix] == if r0[ix] == from { to } else { r0[ix] });
        assert(r[iy] == if r0[iy] == from { to } else { r0[iy] });
        if same(r0, cs, x, y) {
            lemma_connected_mono(m0, m, x, y);
        } else if same(r0, cs, x, a) && same(r0, cs, b, y) {
            lemma_connected_mono(m0, m, x, a);
            lemma_connected_mono(m0, m, b, y);
            lemma_connected_step(m, x, a, b);
            lemma_connected_trans(m, x, b, y);
        } else {
            assert(same(r0, cs, x, b) && same(r0, cs, a, y));
            lemma_connected_mono(m0, m, x, b);
            lemma_connected_mono(m0, m, a, y);
            lemma_connected_step(m, x, b, a);
            lemma_connected_trans(m, x, a, y);
        }
    }
    assert forall|x: (int, int), y: (int, int)| #[trigger] m.passable(x, y) implies same(
        r,
        cs,
        x,
        y,
    ) by {
        if m0.passable(x, y) {
            assert(same(r0, cs, x, y));
            let ix = cell_id(cs, x);
            let iy = cell_id(cs, y);
            assert(r[ix] == if r0[ix] == from { to } else { r0[ix] });
            assert(r[iy] == if r0[iy] == from { to } else { r0[iy] });
        }
    }
    assert(r0.to_set().contains(from)) by {
        assert(r0[ia] == from || r0[ib] == from);
    }
    assert(r0.to_set().contains(to)) by {
        assert(r0[ia] == to || r0[ib] == to);
    }
    assert(r.to_set() =~= r0.to_set().remove(from)) by {
        assert forall|v: usize| #[trigger] r.to_set().contains(v) implies r0.to_set().remove(
            from,
        ).contains(v) by {
            let i = choose|i: int| 0 <= i < r.len() && r[i] == v;
            assert(r[i] == if r0[i] == from { to } else { r0[i] });
            if r0[i] != from {
                assert(r0.contains(v));
            }
        }
        assert forall|v: usize| #[trigger] r0.to_set().remove(from).contains(v) implies r.to_set().contains(
            v,
        ) by {
            let i = choose|i: int| 0 <= i < r0.len() && r0[i] == v;
            assert(r[i] == if r0[i] == from { to } else { r0[i] });
            assert(r.contains(v));
        }
    }
    seq_to_set_is_finite(r0);
    assert forall|j: int| k - 1 <= j < order.len() implies same(
        r,
        cs,
        sides(at(#[trigger] order[j])).0,
        sides(at(order[j])).1,
    ) by {
        if j >= k {
            let (x, y) = sides(at(order[j]));
            assert(same(r0, cs, x, y));
            let ix = cell_id(cs, x);
            let iy = cell_id(cs, y);
            lemma_sides(m0, at(order[j]));
            assert(r[ix] == if r0[ix] == from { to } else { r0[ix] });
            assert(r[iy] == if r0[iy] == from { to } else { r0[iy] });
        }
    }
}

/// With every separator dealt with, all cells are in one set and the maze is
/// perfect.
proof fn lemma_kruskal_done(m: MazeView, roots: Seq<usize>, order: Seq<(u16, u16)>)
    requires
        kruskal_state(m, roots, order, 0),
        lists_separators(m.rows, m.columns, order),
    ensures
        m.is_perfect(),
{
    reveal(kruskal_state);
    let cs = m.columns;
    lemma_cell_id(m);
    assert forall|x: (int, int), y: (int, int)|
        m.is_cell(x) && m.is_cell(y) && adjacent(x, y) implies #[trigger] same(roots, cs, x, y) by {
        let w = separator(x, y);
        lemma_separator(m, x, y);
        assert(separator_at(m.rows, m.columns, w.0, w.1));
        let j = choose|j: int| 0 <= j < order.len() && order[j] == (w.0 as u16, w.1 as u16);
        assert(at(order[j]) == w);
        lemma_sides_of_separator(m, x, y);
    }
    let s = Set::new(|c: (int, int)| m.is_cell(c) && same(roots, cs, c, (0, 0)));
    assert forall|c: (int, int)| #[trigger] s.contains(c) implies m.closed_at(s, c) by {
        assert forall|d: int| 0 <= d < 4 && m.is_cell(#[trigger] step(c, d)) implies s.contains(
            step(c, d),
        ) by {
            assert(same(roots, cs, c, step(c, d)));
        }
        assert(m.is_cell(step(c, 0)) ==> s.contains(step(c, 0)));
        assert(m.is_cell(step(c, 1)) ==> s.contains(step(c, 1)));
        assert(m.is_cell(step(c, 2)) ==> s.contains(step(c, 2)));
        assert(m.is_cell(step(c, 3)) ==> s.contains(step(c, 3)));
    }
    assert(s.contains((0, 0)));
    lemma_closed_is_all(m, s);
    let r00 = roots[cell_id(cs, (0, 0))];
    assert(roots.to_set() =~= set![r00]) by {
        assert forall|v: usize| #[trigger] roots.to_set().contains(v) implies v == r00 by {
            let i = choose|i: int| 0 <= i < roots.len() && roots[i] == v;
            let c = cell_of(cs, i);
            assert(s.contains(c));
        }
        assert(roots.contains(r00));
    }
    assert forall|c: (int, int)| m.is_cell(c) implies #[trigger] m.connected((0, 0), c) by {
        assert(s.contains(c));
        assert(same(roots, cs, (0, 0), c));
    }
}

/// A separator whose sides are in two sets is still closed.
proof fn lemma_kruskal_unjoined(
    m: MazeView,
    roots: Seq<usize>,
    order: Seq<(u16, u16)>,
    k: int,
    a: (int, int),
    b: (int, int),
)
    requires
        kruskal_state(m, roots, order, k),
        !same(roots, m.columns, a, b),
    ensures
        !m.passable(a, b),
        m.wf(),
        roots.len() == m.rows * m.columns,
        m.rows * m.columns <= 65535 * 32767,
        forall|c: (int, int)|
            m.is_cell(c) ==> 0 <= #[trigger] cell_id(m.columns, c) < m.rows * m.columns,
{
    reveal(kruskal_state);
    lemma_cell_id(m);
    assert(m.rows * m.columns <= 65535 * 32767) by (nonlinear_arith)
        requires
            1 <= m.rows <= 65535,
            1 <= m.columns <= 32767,
    ;
}

/// Facts of the state that each step needs.
proof fn lemma_kruskal_facts(m: MazeView, roots: Seq<usize>, order: Seq<(u16, u16)>, k: int)
    requires
        kruskal_state(m, roots, order, k),
    ensures
        m.wf(),
        m.is_carving(),
        roots.len() == m.rows * m.columns,
        m.rows * m.columns <= 65535 * 32767,
        m.openings().finite(),
        forall|c: (int, int)|
            m.is_cell(c) ==> 0 <= #[trigger] cell_id(m.columns, c) < m.rows * m.columns,
{
    reveal(kruskal_state);
    lemma_cell_id(m);
    assert(m.rows * m.columns <= 65535 * 32767) by (nonlinear_arith)
        requires
            1 <= m.rows <= 65535,
            1 <= m.columns <= 32767,
    ;
}

/// Carves a perfect maze from a list of all separators, taken from its end
/// backwards: a separator is carved when the cells on its two sides are not
/// yet joined, and skipped when they are. With `record` each carved separator
/// is recorded, in order.
pub fn generate_from_order(
    rows: u16,
    columns: u16,
    order: &Vec<(u16, u16)>,
    record: bool,
) -> (r: (Maze, Vec<Change>))
    requires
        1 <= rows,
        1 <= columns <= 32767,
        lists_separators(rows as int, columns as int, order@),
    ensures
        r.0@.rows == rows,
        r.0@.columns == columns,
        r.0@.is_carving(),
        r.0@.is_perfect(),
        forall|i: int| 0 <= i < r.1@.len() ==> r.0@.fits(#[trigger] r.1@[i]),
        forall|i: int| 0 <= i < r.1@.len() ==> #[trigger] r.1@[i] is WallOpened,
        record ==> r.1@.len() == rows * columns - 1,
        !record ==> r.1@.len() == 0,
{
    let mut m = Maze::new_walled(rows, columns);
    assert(rows as int * columns as int <= 65535 * 32767) by (nonlinear_arith)
        requires
            1 <= rows <= 65535,
            1 <= columns <= 32767,
    ;
    let n: usize = rows as usize * columns as usize;
    let mut sets = union_find_new(n);
    let mut log: Vec<Change> = Vec::new();
    let mut k: usize = order.len();
    proof {
        lemma_kruskal_start(m@, set_roots(sets), order@);
        lemma_walled(m@);
    }
    while k > 0
        invariant
            m@.rows == rows,
            m@.columns == columns,
            k <= order@.len(),
            kruskal_state(m@, set_roots(sets), order@, k as int),
            lists_separators(rows as int, columns as int, order@),
            forall|i: int| 0 <= i < log@.len() ==> m@.fits(#[trigger] log@[i]),
            forall|i: int| 0 <= i < log@.len() ==> #[trigger] log@[i] is WallOpened,
            record ==> log@.len() == m@.openings().len(),
            !record ==> log@.len() == 0,
        decreases k,
    {
        proof {
            lemma_kruskal_facts(m@, set_roots(sets), order@, k as int);
        }
        k -= 1;
        let (wx, wy) = order[k];
        assert(separator_at(rows as int, columns as int, order@[k as int].0 as int, order@[k as int].1 as int));
        let (a, b) = if wx % 2 == 0 {
            (((wx - 2) / 2, wy - 1), (wx / 2, wy - 1))
        } else {
            (((wx - 1) / 2, wy - 1), ((wx - 1) / 2, wy))
        };
        assert(sides(at(order@[k as int])) == (at(a), at(b)));
        proof {
            lemma_sides(m@, at(order@[k as int]));
            assert(0 <= cell_id(m@.columns, at(a)) < m@.rows * m@.columns);
            assert(0 <= cell_id(m@.columns, at(b)) < m@.rows * m@.columns);
            assert(a.1 as int * columns as int <= cell_id(m@.columns, at(a)));
            assert(b.1 as int * columns as int <= cell_id(m@.columns, at(b)));
        }
        let ia: usize = a.1 as usize * columns as usize + a.0 as usize;
        let ib: usize = b.1 as usize * columns as usize + b.0 as usize;
        assert(ia == cell_id(columns as int, at(a)));
        assert(ib == cell_id(columns as int, at(b)));
        if !union_find_equiv(&sets, ia, ib) {
            let ghost r0 = set_roots(sets);
            let ghost m0 = m@;
            proof {
                lemma_kruskal_unjoined(m0, r0, order@, k as int + 1, at(a), at(b));
            }
            union_find_union(&mut sets, ia, ib);
            m.open(a, b);
            proof {
                let r = set_roots(sets);
                if relabeled(r0, r, r0[ia as int], r0[ib as int]) {
                    lemma_kruskal_union(m0, m@, r0, r, order@, k as int + 1, r0[ia as int], r0[ib as int]);
                } else {
                    lemma_kruskal_union(m0, m@, r0, r, order@, k as int + 1, r0[ib as int], r0[ia as int]);
                }
                assert forall|i: int| 0 <= i < log@.len() implies m@.fits(#[trigger] log@[i]) by {
                    assert(m0.fits(log@[i]));
                }
            }
            if record {
                log.push(Change::WallOpened(wx, wy));
                proof {
                    lemma_open(m0, at(a), at(b));
                }
            }
        } else {
            proof {
                lemma_kruskal_skip(m@, set_roots(sets), order@, k as int + 1);
            }
        }
    }
    proof {
        lemma_kruskal_facts(m@, set_roots(sets), order@, 0);
        lemma_kruskal_done(m@, set_roots(sets), order@);
    }
    (m, log)
}

/// Carves a perfect maze by Kruskal's algorithm over the separators in random
/// order, and records each carved separator in order.
pub fn generate(rows: u16, columns: u16, rng: &mut StdRng) -> (r: (Maze, Vec<Change>))
    requires
        1 <= rows,
        1 <= columns <= 32767,
    ensures
        r.0@.rows == rows,
        r.0@.columns == columns,
        r.0@.is_carving(),
        r.0@.is_perfect(),
        forall|i: int| 0 <= i < r.1@.len() ==> r.0@.fits(#[trigger] r.1@[i]),
        forall|i: int| 0 <= i < r.1@.len() ==> #[trigger] r.1@[i] is WallOpened,
        r.1@.len() == rows * columns - 1,
{
    let mut order = all_separators(rows, columns);
    let ghost before = order@;
    shuffle(&mut order, rng);
    proof {
        lemma_shuffle_lists(rows as int, columns as int, before, order@);
    }
    generate_from_order(rows, columns, &order, true)
}

/// Carves a perfect maze as `generate` does, without recording the changes.
pub fn generate_instant(rows: u16, columns: u16, rng: &mut StdRng) -> (m: Maze)
    requires
        1 <= rows,
        1 <= columns <= 32767,
    ensures
        m@.rows == rows,
        m@.columns == columns,
        m@.is_carving(),
        m@.is_perfect(),
{
    let mut order = all_separators(rows, columns);
    let ghost before = order@;
    shuffle(&mut order, rng);
    proof {
        lemma_shuffle_lists(rows as int, columns as int, before, order@);
    }
    generate_from_order(rows, columns, &order, false).0
}

/// A shuffled list of all separators still lists them all.
proof fn lemma_shuffle_lists(rows: int, columns: int, s: Seq<(u16, u16)>, t: Seq<(u16, u16)>)
    requires
        lists_separators(rows, columns, s),
        t.to_multiset() == s.to_multiset(),
    ensures
        lists_separators(rows, columns, t),
{
    broadcast use vstd::seq_lib::group_to_multiset_ensures;

    assert forall|j: int| 0 <= j < t.len() implies separator_at(
        rows,
        columns,
        #[trigger] t[j].0 as int,
        t[j].1 as int,
    ) by {
        assert(t.contains(t[j]));
        assert(t.to_multiset().count(t[j]) > 0);
        assert(s.contains(t[j]));
        let i = choose|i: int| 0 <= i < s.len() && s[i] == t[j];
        assert(separator_at(rows, columns, s[i].0 as int, s[i].1 as int));
    }
    assert forall|fx: int, fy: int| #[trigger] separator_at(rows, columns, fx, fy) implies t.contains(
        (fx as u16, fy as u16),
    ) by {
        assert(s.contains((fx as u16, fy as u16)));
        assert(s.to_multiset().count((fx as u16, fy as u16)) > 0);
    }
}

/// Every separator of a maze of `rows` by `columns` cells, by frame column.
pub fn all_separators(rows: u16, columns: u16) -> (order: Vec<(u16, u16)>)
    requires
        1 <= rows,
        1 <= columns <= 32767,
    ensures
        lists_separators(rows as int, columns as int, order@),
{
    let mut order: Vec<(u16, u16)> = Vec::new();
    let mut fx: u16 = 1;
    while fx < 2 * columns
        invariant
            1 <= rows,
            1 <= columns <= 32767,
            1 <= fx <= 2 * columns,
            forall|j: int|
                0 <= j < order@.len() ==> separator_at(
                    rows as int,
                    columns as int,
                    #[trigger] order@[j].0 as int,
                    order@[j].1 as int,
                ),
            forall|gx: int, gy: int|
                #[trigger] separator_at(rows as int, columns as int, gx, gy) && gx < fx
                    ==> order@.contains((gx as u16, gy as u16)),
        decreases 2 * columns - fx,
    {
        let mut fy: u32 = 1;
        while fy <= rows as u32
            invariant
                1 <= rows,
                1 <= columns <= 32767,
                1 <= fx < 2 * columns,
                1 <= fy <= rows as int + 1,
                forall|j: int|
                    0 <= j < order@.len() ==> separator_at(
                        rows as int,
                        columns as int,
                        #[trigger] order@[j].0 as int,
                        order@[j].1 as int,
                    ),
                forall|gx: int, gy: int|
                    #[trigger] separator_at(rows as int, columns as int, gx, gy) && (gx < fx || (gx
                        == fx && gy < fy)) ==> order@.contains((gx as u16, gy as u16)),
            decreases rows + 1 - fy,
        {
            if fx % 2 == 0 || fy < rows as u32 {
                let ghost before = order@;
                order.push((fx, fy as u16));
                proof {
                    assert(order@[order@.len() - 1] == (fx, fy as u16));
                    assert forall|gx: int, gy: int|
                        #[trigger] separator_at(rows as int, columns as int, gx, gy) && (gx < fx
                            || (gx == fx && gy < fy + 1)) implies order@.contains(
                        (gx as u16, gy as u16),
                    ) by {
                        if gx < fx || gy < fy {
                            let i = choose|i: int|
                                0 <= i < before.len() && before[i] == (gx as u16, gy as u16);
                            assert(order@[i] == before[i]);
                        }
                    }
                }
            }
            fy += 1;
        }
        fx += 1;
    }
    order
}

} // verus!
