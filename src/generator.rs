//! Maze generators. Each carves a spanning tree of passages into a walled
//! maze, drawing its choices from a seeded random source.
use rand::rngs::StdRng;
use vstd::prelude::*;
use vstd::set_lib::lemma_len_subset;

use crate::maze::{adjacent, carved_unit, pos, separator, step, Cell, Change, Maze, MazeView};
use crate::paths::{
    cells, lemma_cells_len, lemma_closed_is_all, lemma_connected_mono, lemma_connected_refl,
    lemma_connected_step, lemma_open, lemma_walled,
};
use crate::random::shuffle;

pub mod breadth_first_search;
pub mod depth_first_search;
pub mod kruskal;

verus! {

/// The cell `c` is marked in a grid of flags kept row by row.
pub open spec fn marked(v: Seq<Vec<bool>>, c: (int, int)) -> bool {
    v[c.1]@[c.0]
}

/// A grid of flags of `rows` rows and `columns` columns.
pub open spec fn flag_grid(v: Seq<Vec<bool>>, rows: int, columns: int) -> bool {
    &&& v.len() == rows
    &&& forall|y: int| 0 <= y < rows ==> #[trigger] v[y]@.len() == columns
}

/// A grid of flags, none of them set.
pub(crate) fn unmarked(rows: u16, columns: u16) -> (v: Vec<Vec<bool>>)
    ensures
        flag_grid(v@, rows as int, columns as int),
        forall|c: (int, int)|
            0 <= c.0 < columns && 0 <= c.1 < rows ==> !#[trigger] marked(v@, c),
{
    let mut v: Vec<Vec<bool>> = Vec::new();
    let mut y: u16 = 0;
    while y < rows
        invariant
            y <= rows,
            v@.len() == y,
            forall|j: int| 0 <= j < y ==> #[trigger] v@[j]@.len() == columns,
            forall|j: int, x: int| 0 <= j < y && 0 <= x < columns ==> !#[trigger] v@[j]@[x],
        decreases rows - y,
    {
        let mut row: Vec<bool> = Vec::new();
        let mut x: u16 = 0;
        while x < columns
            invariant
                x <= columns,
                row@.len() == x,
                forall|i: int| 0 <= i < x ==> !#[trigger] row@[i],
            decreases columns - x,
        {
            row.push(false);
            x += 1;
        }
        v.push(row);
        y += 1;
    }
    v
}

/// Sets the flag of cell `c`.
pub(crate) fn mark(v: &mut Vec<Vec<bool>>, c: Cell, rows: Ghost<int>, columns: Ghost<int>)
    requires
        flag_grid(old(v)@, rows@, columns@),
        0 <= c.0 < columns@,
        0 <= c.1 < rows@,
    ensures
        flag_grid(final(v)@, rows@, columns@),
        forall|d: (int, int)|
            0 <= d.0 < columns@ && 0 <= d.1 < rows@ ==> #[trigger] marked(final(v)@, d) == (d
                == pos(c) || marked(old(v)@, d)),
{
    v[c.1 as usize][c.0 as usize] = true;
}

/// The cell frame coordinates of `c`, where an overlay on it is shown.
pub(crate) fn cell_unit(m: &Maze, c: Cell) -> (u: (u16, u16))
    requires
        m@.wf(),
        m@.is_cell(pos(c)),
    ensures
        m@.in_frame(u.0 as int, u.1 as int),
{
    (2 * c.0 + 1, c.1 + 1)
}

/// The first direction of `dirs` that leads from `c` to a cell in the grid
/// that is not marked yet.
fn first_unmarked(m: &Maze, v: &Vec<Vec<bool>>, c: Cell, dirs: &Vec<u8>) -> (r: Option<(Cell, u8)>)
    requires
        m@.wf(),
        m@.is_cell(pos(c)),
        flag_grid(v@, m@.rows, m@.columns),
        dirs@.len() == 4,
        forall|j: int| 0 <= j < 4 ==> #[trigger] dirs@[j] < 4,
    ensures
        r matches Some((n, d)) ==> {
            &&& m@.is_cell(pos(n))
            &&& adjacent(pos(c), pos(n))
            &&& !marked(v@, pos(n))
            &&& d < 4
            &&& pos(n) == step(pos(c), d as int)
        },
        r is None ==> forall|j: int|
            0 <= j < 4 && #[trigger] m@.is_cell(step(pos(c), dirs@[j] as int)) ==> marked(
                v@,
                step(pos(c), dirs@[j] as int),
            ),
{
    let mut found: Option<(Cell, u8)> = None;
    let mut i: usize = 0;
    while i < 4
        invariant
            i <= 4,
            m@.wf(),
            m@.is_cell(pos(c)),
            flag_grid(v@, m@.rows, m@.columns),
            dirs@.len() == 4,
            forall|j: int| 0 <= j < 4 ==> #[trigger] dirs@[j] < 4,
            found matches Some((n, d)) ==> {
                &&& m@.is_cell(pos(n))
                &&& adjacent(pos(c), pos(n))
                &&& !marked(v@, pos(n))
                &&& d < 4
                &&& pos(n) == step(pos(c), d as int)
            },
            found is None ==> forall|j: int|
                0 <= j < i && #[trigger] m@.is_cell(step(pos(c), dirs@[j] as int)) ==> marked(
                    v@,
                    step(pos(c), dirs@[j] as int),
                ),
        decreases 4 - i,
    {
        if found.is_none() {
            let d = dirs[i];
            match m.neighbor(c, d) {
                Some(n) => {
                    if !v[n.1 as usize][n.0 as usize] {
                        found = Some((n, d));
                    }
                },
                None => {},
            }
        }
        i += 1;
    }
    found
}

/// The four directions in some order.
pub(crate) open spec fn is_direction_order(dirs: Seq<u8>) -> bool {
    dirs.to_multiset() == seq![0u8, 1u8, 2u8, 3u8].to_multiset()
}

/// An order of the four directions holds each of them.
proof fn lemma_direction_order(dirs: Seq<u8>)
    requires
        is_direction_order(dirs),
    ensures
        dirs.len() == 4,
        forall|j: int| 0 <= j < 4 ==> #[trigger] dirs[j] < 4,
        forall|d: u8| d < 4 ==> #[trigger] dirs.contains(d),
{
    broadcast use vstd::seq_lib::group_to_multiset_ensures;

    let all = seq![0u8, 1u8, 2u8, 3u8];
    assert(dirs.to_multiset().len() == all.to_multiset().len());
    assert forall|j: int| 0 <= j < dirs.len() implies #[trigger] dirs[j] < 4 by {
        assert(dirs.contains(dirs[j]));
        assert(all.to_multiset().count(dirs[j]) > 0);
        assert(all.contains(dirs[j]));
        let k = choose|k: int| 0 <= k < all.len() && all[k] == dirs[j];
        assert(all[0] == 0 && all[1] == 1 && all[2] == 2 && all[3] == 3);
    }
    assert forall|d: u8| d < 4 implies #[trigger] dirs.contains(d) by {
        if d == 0 {
            assert(all[0] == d);
        } else if d == 1 {
            assert(all[1] == d);
        } else if d == 2 {
            assert(all[2] == d);
        } else {
            assert(all[3] == d);
        }
        assert(all.contains(d));
        assert(all.to_multiset().count(d) > 0);
    }
}

/// A shuffle keeps a sequence free of duplicates and keeps what it holds.
proof fn lemma_shuffle_keeps(s: Seq<Cell>, t: Seq<Cell>)
    requires
        s.no_duplicates(),
        t.to_multiset() == s.to_multiset(),
    ensures
        t.no_duplicates(),
        t.len() == s.len(),
        forall|c: Cell| #[trigger] t.contains(c) == s.contains(c),
{
    broadcast use vstd::seq_lib::group_to_multiset_ensures;

    s.lemma_multiset_has_no_duplicates();
    t.lemma_multiset_has_no_duplicates_conv();
    vstd::seq_lib::to_multiset_len(t);
    vstd::seq_lib::to_multiset_len(s);
    assert forall|c: Cell| #[trigger] t.contains(c) == s.contains(c) by {
        vstd::seq_lib::to_multiset_contains(t, c);
        vstd::seq_lib::to_multiset_contains(s, c);
    }
}

/// When no direction of an order of all four leads to an unmarked cell, every
/// neighbour is marked.
proof fn lemma_all_directions_marked(
    m: MazeView,
    v: Seq<Vec<bool>>,
    vis: Set<(int, int)>,
    c: (int, int),
    dirs: Seq<u8>,
)
    requires
        is_direction_order(dirs),
        forall|x: (int, int)| m.is_cell(x) ==> (#[trigger] marked(v, x) <==> vis.contains(x)),
        forall|j: int|
            0 <= j < 4 && #[trigger] m.is_cell(step(c, dirs[j] as int)) ==> marked(
                v,
                step(c, dirs[j] as int),
            ),
    ensures
        m.closed_at(vis, c),
{
    lemma_direction_order(dirs);
    assert forall|d: u8| d < 4 && #[trigger] m.is_cell(step(c, d as int)) implies vis.contains(
        step(c, d as int),
    ) by {
        assert(dirs.contains(d));
        let j = choose|j: int| 0 <= j < dirs.len() && dirs[j] == d;
        assert(m.is_cell(step(c, dirs[j] as int)));
    }
    assert(m.is_cell(step(c, 0)) ==> vis.contains(step(c, 0u8 as int)));
    assert(m.is_cell(step(c, 1)) ==> vis.contains(step(c, 1u8 as int)));
    assert(m.is_cell(step(c, 2)) ==> vis.contains(step(c, 2u8 as int)));
    assert(m.is_cell(step(c, 3)) ==> vis.contains(step(c, 3u8 as int)));
}

/// What holds between the steps of a carving from a stack: the visited cells
/// `vis` are the marked ones, joined to the top left cell, and one more than
/// the openings; passages join visited cells only; the stack holds visited
/// cells once each; every neighbour of a visited cell off the stack is visited.
#[verifier::opaque]
pub(crate) open spec fn stack_state(
    m: MazeView,
    v: Seq<Vec<bool>>,
    vis: Set<(int, int)>,
    stack: Seq<Cell>,
) -> bool {
    &&& m.is_carving()
    &&& flag_grid(v, m.rows, m.columns)
    &&& cells(m.rows, m.columns).finite()
    &&& cells(m.rows, m.columns).len() == m.rows * m.columns
    &&& forall|c: (int, int)| m.is_cell(c) ==> (#[trigger] marked(v, c) <==> vis.contains(c))
    &&& vis.subset_of(cells(m.rows, m.columns))
    &&& vis.finite()
    &&& vis.len() <= m.rows * m.columns
    &&& vis.contains((0, 0))
    &&& m.openings().finite()
    &&& m.openings().len() + 1 == vis.len()
    &&& forall|c: (int, int)| #[trigger] vis.contains(c) ==> m.connected((0, 0), c)
    &&& forall|a: (int, int), b: (int, int)|
        #[trigger] m.passable(a, b) ==> vis.contains(a) && vis.contains(b)
    &&& forall|i: int| 0 <= i < stack.len() ==> vis.contains(pos(#[trigger] stack[i]))
    &&& stack.no_duplicates()
    &&& forall|c: Cell|
        #![trigger vis.contains(pos(c))]
        vis.contains(pos(c)) && !stack.contains(c) ==> m.closed_at(vis, pos(c))
}

proof fn lemma_stack_start(m: MazeView, v: Seq<Vec<bool>>)
    requires
        m.is_walled(),
        flag_grid(v, m.rows, m.columns),
        forall|c: (int, int)| m.is_cell(c) ==> (#[trigger] marked(v, c) <==> c == (0int, 0int)),
    ensures
        stack_state(m, v, set![(0int, 0int)], seq![(0u16, 0u16)]),
{
    reveal(stack_state);
    let vis = set![(0int, 0int)];
    let stack = seq![(0u16, 0u16)];
    lemma_walled(m);
    lemma_cells_len(m.rows as nat, m.columns as nat);
    lemma_connected_refl(m, (0, 0));
    assert(stack[0] == (0u16, 0u16));
    lemma_len_subset(vis, cells(m.rows, m.columns));
    assert(vis.len() == 1);
}

/// Carving from the top cell `c` into its unvisited neighbour `n` and pushing
/// `n` keeps the state.
proof fn lemma_stack_push(
    m0: MazeView,
    m: MazeView,
    v0: Seq<Vec<bool>>,
    v: Seq<Vec<bool>>,
    vis0: Set<(int, int)>,
    stack0: Seq<Cell>,
    c: Cell,
    n: Cell,
)
    requires
        stack_state(m0, v0, vis0, stack0),
        m0.wf(),
        stack0.len() > 0,
        stack0.last() == c,
        m0.is_cell(pos(n)),
        adjacent(pos(c), pos(n)),
        !marked(v0, pos(n)),
        m == m0.with_unit(
            separator(pos(c), pos(n)).0,
            separator(pos(c), pos(n)).1,
            carved_unit(separator(pos(c), pos(n)).0),
        ),
        flag_grid(v, m0.rows, m0.columns),
        forall|d: (int, int)|
            m0.is_cell(d) ==> #[trigger] marked(v, d) == (d == pos(n) || marked(v0, d)),
    ensures
        !m0.passable(pos(c), pos(n)),
        stack_state(m, v, vis0.insert(pos(n)), stack0.push(n)),
        m0.openings().subset_of(m.openings()),
        m.wf(),
        m.rows == m0.rows,
        m.columns == m0.columns,
{
    reveal(stack_state);
    let vis = vis0.insert(pos(n));
    let stack = stack0.push(n);
    assert(stack0.contains(c)) by {
        assert(stack0[stack0.len() - 1] == c);
    }
    assert(vis0.contains(pos(c)));
    assert(!vis0.contains(pos(n)));
    lemma_open(m0, pos(c), pos(n));
    lemma_len_subset(vis, cells(m0.rows, m0.columns));
    assert forall|x: (int, int)| #[trigger] vis.contains(x) implies m.connected((0, 0), x) by {
        if x == pos(n) {
            lemma_connected_mono(m0, m, (0, 0), pos(c));
            lemma_connected_step(m, (0, 0), pos(c), pos(n));
        } else {
            lemma_connected_mono(m0, m, (0, 0), x);
        }
    }
    assert(stack.no_duplicates()) by {
        assert(!stack0.contains(n));
    }
    assert forall|e: Cell|
        #![trigger vis.contains(pos(e))]
        vis.contains(pos(e)) && !stack.contains(e) implies m.closed_at(vis, pos(e)) by {
        assert(stack0.contains(e) ==> stack.contains(e)) by {
            if stack0.contains(e) {
                let k = choose|k: int| 0 <= k < stack0.len() && stack0[k] == e;
                assert(stack[k] == e);
            }
        }
        assert(stack[stack.len() - 1] == n);
        assert(vis0.contains(pos(e)));
        assert(m0.closed_at(vis0, pos(e)));
    }
    assert forall|i: int| 0 <= i < stack.len() implies vis.contains(pos(#[trigger] stack[i])) by {
        if i < stack0.len() {
            assert(stack[i] == stack0[i]);
        }
    }
}

/// Popping the top cell once all its neighbours are visited keeps the state.
proof fn lemma_stack_pop(m: MazeView, v: Seq<Vec<bool>>, vis: Set<(int, int)>, stack0: Seq<Cell>)
    requires
        stack_state(m, v, vis, stack0),
        stack0.len() > 0,
        m.closed_at(vis, pos(stack0.last())),
    ensures
        stack_state(m, v, vis, stack0.drop_last()),
{
    reveal(stack_state);
    let c = stack0.last();
    let stack = stack0.drop_last();
    assert(stack0 == stack.push(c));
    assert forall|e: Cell|
        #![trigger vis.contains(pos(e))]
        vis.contains(pos(e)) && !stack.contains(e) implies m.closed_at(vis, pos(e)) by {
        if e != c {
            if stack0.contains(e) {
                let k = choose|k: int| 0 <= k < stack0.len() && stack0[k] == e;
                assert(stack[k] == e);
            }
        }
    }
    assert forall|i: int| 0 <= i < stack.len() implies vis.contains(pos(#[trigger] stack[i])) by {
        assert(stack[i] == stack0[i]);
    }
}

/// Shuffling the stack keeps the state.
proof fn lemma_stack_shuffle(
    m: MazeView,
    v: Seq<Vec<bool>>,
    vis: Set<(int, int)>,
    stack0: Seq<Cell>,
    stack: Seq<Cell>,
)
    requires
        stack_state(m, v, vis, stack0),
        stack.to_multiset() == stack0.to_multiset(),
    ensures
        stack_state(m, v, vis, stack),
        stack.len() == stack0.len(),
{
    reveal(stack_state);
    lemma_shuffle_keeps(stack0, stack);
    assert forall|i: int| 0 <= i < stack.len() implies vis.contains(pos(#[trigger] stack[i])) by {
        assert(stack.contains(stack[i]));
        let k = choose|k: int| 0 <= k < stack0.len() && stack0[k] == stack[i];
    }
}

/// Facts of the state that the loop needs at each step.
proof fn lemma_stack_facts(m: MazeView, v: Seq<Vec<bool>>, vis: Set<(int, int)>, stack: Seq<Cell>)
    requires
        stack_state(m, v, vis, stack),
    ensures
        m.is_carving(),
        flag_grid(v, m.rows, m.columns),
        forall|c: (int, int)| m.is_cell(c) ==> (#[trigger] marked(v, c) <==> vis.contains(c)),
        vis.finite(),
        vis.len() <= m.rows * m.columns,
        stack.len() > 0 ==> m.is_cell(pos(stack.last())),
{
    reveal(stack_state);
    if stack.len() > 0 {
        assert(vis.contains(pos(stack[stack.len() - 1])));
    }
}

/// A cell not visited yet is joined to no cell.
proof fn lemma_stack_unjoined(
    m: MazeView,
    v: Seq<Vec<bool>>,
    vis: Set<(int, int)>,
    stack: Seq<Cell>,
    a: (int, int),
    b: (int, int),
)
    requires
        stack_state(m, v, vis, stack),
        m.is_cell(b),
        !marked(v, b),
    ensures
        !m.passable(a, b),
{
    reveal(stack_state);
}

/// With the stack empty, every cell has been visited and the maze is perfect.
#[verifier::rlimit(40)]
proof fn lemma_stack_done(m: MazeView, v: Seq<Vec<bool>>, vis: Set<(int, int)>)
    requires
        stack_state(m, v, vis, Seq::<Cell>::empty()),
        m.wf(),
    ensures
        m.is_perfect(),
{
    reveal(stack_state);
    assert forall|a: (int, int)| #[trigger] vis.contains(a) implies m.closed_at(vis, a) by {
        let e: Cell = (a.0 as u16, a.1 as u16);
        assert(cells(m.rows, m.columns).contains(a));
        assert(pos(e) == a);
        assert(!Seq::<Cell>::empty().contains(e));
    }
    lemma_closed_is_all(m, vis);
    assert(vis =~= cells(m.rows, m.columns));
    assert(m.openings().len() == m.rows * m.columns - 1);
    assert forall|c: (int, int)| m.is_cell(c) implies #[trigger] m.connected((0, 0), c) by {
        assert(vis.contains(c));
    }
}

/// Carves a perfect maze with a stack of cells. The top cell of the stack
/// joins a random unvisited neighbour, which goes on the stack; a cell without
/// one leaves it. With `reshuffle` the whole stack is shuffled after each
/// carving step, else the search is depth first. With `record` the changes are
/// recorded for display.
pub(crate) fn carve_with_stack(
    rows: u16,
    columns: u16,
    rng: &mut StdRng,
    reshuffle: bool,
    record: bool,
) -> (r: (Maze, Vec<Change>))
    requires
        1 <= rows,
        1 <= columns <= 32767,
    ensures
        r.0@.rows == rows,
        r.0@.columns == columns,
        r.0@.is_carving(),
        r.0@.is_perfect(),
        forall|i: int| 0 <= i < r.1@.len() ==> r.0@.fits(#[trigger] r.1@[i]),
        !record ==> r.1@.len() == 0,
{
    let mut m = Maze::new_walled(rows, columns);
    let mut log: Vec<Change> = Vec::new();
    let mut visited = unmarked(rows, columns);
    let mut stack: Vec<Cell> = Vec::new();
    mark(&mut visited, (0, 0), Ghost(rows as int), Ghost(columns as int));
    stack.push((0, 0));
    let ghost mut vis: Set<(int, int)> = set![(0int, 0int)];
    proof {
        assert(stack@ == seq![(0u16, 0u16)]);
        lemma_stack_start(m@, visited@);
    }
    while stack.len() > 0
        invariant
            m@.wf(),
            m@.rows == rows,
            m@.columns == columns,
            stack_state(m@, visited@, vis, stack@),
            forall|i: int| 0 <= i < log@.len() ==> m@.fits(#[trigger] log@[i]),
            !record ==> log@.len() == 0,
        decreases 2 * (rows * columns - vis.len()) + stack@.len(),
    {
        proof {
            lemma_stack_facts(m@, visited@, vis, stack@);
        }
        let c = stack[stack.len() - 1];
        if reshuffle && record {
            let (cx, cy) = cell_unit(&m, c);
            log.push(Change::OverlayCleared(cx, cy));
        }
        let mut dirs: Vec<u8> = vec![0u8, 1u8, 2u8, 3u8];
        assert(dirs@ == seq![0u8, 1u8, 2u8, 3u8]);
        shuffle(&mut dirs, rng);
        proof {
            lemma_direction_order(dirs@);
        }
        match first_unmarked(&m, &visited, c, &dirs) {
            Some((n, d)) => {
                let ghost m0 = m@;
                let ghost v0 = visited@;
                let ghost stack0 = stack@;
                proof {
                    lemma_stack_unjoined(m0, v0, vis, stack0, pos(c), pos(n));
                }
                m.open(c, n);
                mark(&mut visited, n, Ghost(rows as int), Ghost(columns as int));
                stack.push(n);
                proof {
                    lemma_stack_push(m0, m@, v0, visited@, vis, stack0, c, n);
                    vis = vis.insert(pos(n));
                    assert forall|i: int| 0 <= i < log@.len() implies m@.fits(#[trigger] log@[i]) by {
                        assert(m0.fits(log@[i]));
                    }
                }
                if record {
                    let (wx, wy) = m.wall_between(c, n);
                    log.push(Change::WallOpened(wx, wy));
                    if reshuffle {
                        let (nx, ny) = cell_unit(&m, n);
                        log.push(Change::OverlaySet(nx, ny, '\u{b7}'));
                    } else {
                        let (cx, cy) = cell_unit(&m, c);
                        let arrow = if d == 0 {
                            '\u{2190}'
                        } else if d == 1 {
                            '\u{2192}'
                        } else if d == 2 {
                            '\u{2191}'
                        } else {
                            '\u{2193}'
                        };
                        log.push(Change::OverlaySet(cx, cy, arrow));
                    }
                }
                if reshuffle {
                    let ghost before = stack@;
                    shuffle(&mut stack, rng);
                    proof {
                        lemma_stack_shuffle(m@, visited@, vis, before, stack@);
                    }
                }
            },
            None => {
                proof {
                    lemma_all_directions_marked(m@, visited@, vis, pos(c), dirs@);
                    lemma_stack_pop(m@, visited@, vis, stack@);
                }
                stack.pop();
                if !reshuffle && record {
                    let (cx, cy) = cell_unit(&m, c);
                    log.push(Change::OverlayCleared(cx, cy));
                }
            },
        }
    }
    proof {
        assert(stack@ =~= Seq::<Cell>::empty());
        lemma_stack_done(m@, visited@, vis);
        lemma_stack_facts(m@, visited@, vis, stack@);
    }
    (m, log)
}

} // verus!
