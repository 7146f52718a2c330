//! Depth-first search with backtracking: the stack of the search is the path.
use vstd::prelude::*;
use vstd::set_lib::lemma_len_subset;

use crate::generator::{cell_unit, flag_grid, mark, marked, unmarked};
use crate::maze::{adjacent, pos, step, Cell, Change, Maze, MazeView};
use crate::paths::{cells, lemma_cells_len};
use crate::solver::{exit_of, lemma_unreachable, positions, reach_closed_at, solves, SolveError};

verus! {

/// What holds between the steps of the search: the visited cells `vis` are
/// the marked ones; the stack is a walk from the entrance through visited
/// cells, each once; every cell one step from a visited cell off the stack is
/// visited; and the exit, once visited, is on top of the stack.
#[verifier::opaque]
pub(crate) open spec fn search_state(
    m: MazeView,
    v: Seq<Vec<bool>>,
    vis: Set<(int, int)>,
    stack: Seq<Cell>,
) -> bool {
    &&& m.wf()
    &&& flag_grid(v, m.rows, m.columns)
    &&& cells(m.rows, m.columns).finite()
    &&& cells(m.rows, m.columns).len() == m.rows * m.columns
    &&& forall|c: (int, int)| m.is_cell(c) ==> (#[trigger] marked(v, c) <==> vis.contains(c))
    &&& vis.subset_of(cells(m.rows, m.columns))
    &&& vis.finite()
    &&& vis.len() <= m.rows * m.columns
    &&& vis.contains((0, 0))
    &&& stack.len() > 0 ==> m.is_walk(positions(stack)) && pos(stack[0]) == (0int, 0int)
    &&& forall|i: int| 0 <= i < stack.len() ==> vis.contains(pos(#[trigger] stack[i]))
    &&& stack.no_duplicates()
    &&& forall|c: Cell|
        #![trigger vis.contains(pos(c))]
        vis.contains(pos(c)) && !stack.contains(c) ==> reach_closed_at(m, vis, pos(c))
    &&& forall|c: Cell|
        #![trigger vis.contains(pos(c))]
        vis.contains(pos(c)) && pos(c) == exit_of(m) ==> stack.len() > 0 && stack.last() == c
}

proof fn lemma_search_start(m: MazeView, v: Seq<Vec<bool>>)
    requires
        m.wf(),
        flag_grid(v, m.rows, m.columns),
        forall|c: (int, int)| m.is_cell(c) ==> (#[trigger] marked(v, c) <==> c == (0int, 0int)),
    ensures
        search_state(m, v, set![(0int, 0int)], seq![(0u16, 0u16)]),
{
    reveal(search_state);
    let vis = set![(0int, 0int)];
    let stack = seq![(0u16, 0u16)];
    lemma_cells_len(m.rows as nat, m.columns as nat);
    assert(stack[0] == (0u16, 0u16));
    assert(positions(stack) =~= seq![(0int, 0int)]);
    lemma_len_subset(vis, cells(m.rows, m.columns));
    assert(vis.len() == 1);
}

/// Stepping from the top cell to an unvisited cell one step away and pushing
/// it keeps the state.
proof fn lemma_search_push(
    m: MazeView,
    v0: Seq<Vec<bool>>,
    v: Seq<Vec<bool>>,
    vis0: Set<(int, int)>,
    stack0: Seq<Cell>,
    n: Cell,
)
    requires
        search_state(m, v0, vis0, stack0),
        stack0.len() > 0,
        pos(stack0.last()) != exit_of(m),
        m.passable(pos(stack0.last()), pos(n)),
        !marked(v0, pos(n)),
        flag_grid(v, m.rows, m.columns),
        forall|d: (int, int)|
            m.is_cell(d) ==> #[trigger] marked(v, d) == (d == pos(n) || marked(v0, d)),
    ensures
        search_state(m, v, vis0.insert(pos(n)), stack0.push(n)),
        vis0.len() < m.rows * m.columns,
{
    reveal(search_state);
    let vis = vis0.insert(pos(n));
    let stack = stack0.push(n);
    let c = stack0.last();
    assert(stack0.contains(c)) by {
        assert(stack0[stack0.len() - 1] == c);
    }
    assert(vis0.contains(pos(c)));
    assert(!vis0.contains(pos(n)));
    lemma_len_subset(vis, cells(m.rows, m.columns));
    assert(stack.no_duplicates()) by {
        assert(!stack0.contains(n));
    }
    assert(positions(stack) =~= positions(stack0).push(pos(n)));
    assert(m.is_walk(positions(stack))) by {
        assert forall|i: int| 0 <= i < positions(stack).len() - 1 implies #[trigger] m.passable(
            positions(stack)[i],
            positions(stack)[i + 1],
        ) by {
            if i < stack0.len() - 1 {
                assert(m.passable(positions(stack0)[i], positions(stack0)[i + 1]));
            }
        }
    }
    assert(stack[0] == stack0[0]);
    assert forall|e: Cell|
        #![trigger vis.contains(pos(e))]
        vis.contains(pos(e)) && !stack.contains(e) implies reach_closed_at(m, vis, pos(e)) by {
        assert(stack0.contains(e) ==> stack.contains(e)) by {
            if stack0.contains(e) {
                let k = choose|k: int| 0 <= k < stack0.len() && stack0[k] == e;
                assert(stack[k] == e);
            }
        }
        assert(stack[stack.len() - 1] == n);
        assert(vis0.contains(pos(e)));
    }
    assert forall|i: int| 0 <= i < stack.len() implies vis.contains(pos(#[trigger] stack[i])) by {
        if i < stack0.len() {
            assert(stack[i] == stack0[i]);
        }
    }
    assert forall|e: Cell|
        #![trigger vis.contains(pos(e))]
        vis.contains(pos(e)) && pos(e) == exit_of(m) implies stack.len() > 0 && stack.last()
        == e by {
        if pos(e) != pos(n) {
            assert(vis0.contains(pos(e)));
        }
    }
}

/// Popping a top cell that is not the exit and whose every step leads to a
/// visited cell keeps the state.
proof fn lemma_search_pop(m: MazeView, v: Seq<Vec<bool>>, vis: Set<(int, int)>, stack0: Seq<Cell>)
    requires
        search_state(m, v, vis, stack0),
        stack0.len() > 0,
        pos(stack0.last()) != exit_of(m),
        reach_closed_at(m, vis, pos(stack0.last())),
    ensures
        search_state(m, v, vis, stack0.drop_last()),
{
    reveal(search_state);
    let c = stack0.last();
    let stack = stack0.drop_last();
    assert(stack0 == stack.push(c));
    assert forall|e: Cell|
        #![trigger vis.contains(pos(e))]
        vis.contains(pos(e)) && !stack.contains(e) implies reach_closed_at(m, vis, pos(e)) by {
        if e != c {
            if stack0.contains(e) {
                let k = choose|k: int| 0 <= k < stack0.len() && stack0[k] == e;
                assert(stack[k] == e);
            }
        }
    }
    assert forall|i: int| 0 <= i < stack.len() implies vis.contains(pos(#[trigger] stack[i])) by {
        assert(stack[i] == stack0[i]);
    }
    if stack.len() > 0 {
        assert(positions(stack) =~= positions(stack0).drop_last());
        assert forall|i: int| 0 <= i < positions(stack).len() - 1 implies #[trigger] m.passable(
            positions(stack)[i],
            positions(stack)[i + 1],
        ) by {
            assert(m.passable(positions(stack0)[i], positions(stack0)[i + 1]));
        }
        assert(stack[0] == stack0[0]);
    }
    assert forall|e: Cell|
        #![trigger vis.contains(pos(e))]
        vis.contains(pos(e)) && pos(e) == exit_of(m) implies stack.len() > 0 && stack.last()
        == e by {
        assert(stack0.last() == e);
    }
}

/// Facts of the state that each step needs.
proof fn lemma_search_facts(m: MazeView, v: Seq<Vec<bool>>, vis: Set<(int, int)>, stack: Seq<Cell>)
    requires
        search_state(m, v, vis, stack),
    ensures
        flag_grid(v, m.rows, m.columns),
        forall|c: (int, int)| m.is_cell(c) ==> (#[trigger] marked(v, c) <==> vis.contains(c)),
        vis.finite(),
        vis.len() <= m.rows * m.columns,
        stack.len() > 0 ==> m.is_cell(pos(stack.last())),
        stack.len() > 0 && pos(stack.last()) == exit_of(m) ==> solves(m, stack),
        stack.no_duplicates(),
{
    reveal(search_state);
    if stack.len() > 0 {
        assert(vis.contains(pos(stack[stack.len() - 1])));
        assert(positions(stack)[stack.len() - 1] == pos(stack.last()));
        assert(positions(stack)[0] == pos(stack[0]));
    }
}

/// With the stack empty and the exit not found, the exit cannot be reached.
proof fn lemma_search_failed(m: MazeView, v: Seq<Vec<bool>>, vis: Set<(int, int)>)
    requires
        search_state(m, v, vis, Seq::<Cell>::empty()),
    ensures
        !m.connected((0, 0), exit_of(m)),
{
    reveal(search_state);
    assert forall|a: (int, int)| #[trigger] vis.contains(a) implies reach_closed_at(m, vis, a) by {
        let e: Cell = (a.0 as u16, a.1 as u16);
        assert(cells(m.rows, m.columns).contains(a));
        assert(pos(e) == a);
        assert(!Seq::<Cell>::empty().contains(e));
    }
    let x: Cell = ((m.columns - 1) as u16, (m.rows - 1) as u16);
    assert(pos(x) == exit_of(m));
    assert(!vis.contains(pos(x)));
    lemma_unreachable(m, vis, exit_of(m));
}

/// The first cell one step from `c`, in the order left, right, up, down, that
/// is not marked yet.
fn first_open_unmarked(m: &Maze, v: &Vec<Vec<bool>>, c: Cell) -> (r: Option<Cell>)
    requires
        m@.wf(),
        m@.is_cell(pos(c)),
        flag_grid(v@, m@.rows, m@.columns),
    ensures
        r matches Some(n) ==> m@.passable(pos(c), pos(n)) && !marked(v@, pos(n)),
        r is None ==> forall|d: int|
            0 <= d < 4 && #[trigger] m@.passable(pos(c), step(pos(c), d)) ==> marked(
                v@,
                step(pos(c), d),
            ),
{
    let mut found: Option<Cell> = None;
    let mut d: u8 = 0;
    while d < 4
        invariant
            d <= 4,
            m@.wf(),
            m@.is_cell(pos(c)),
            flag_grid(v@, m@.rows, m@.columns),
            found matches Some(n) ==> m@.passable(pos(c), pos(n)) && !marked(v@, pos(n)),
            found is None ==> forall|j: int|
                0 <= j < d && #[trigger] m@.passable(pos(c), step(pos(c), j)) ==> marked(
                    v@,
                    step(pos(c), j),
                ),
        decreases 4 - d,
    {
        if found.is_none() {
            match m.neighbor(c, d) {
                Some(n) => {
                    if m.is_passable(c, n) && !v[n.1 as usize][n.0 as usize] {
                        found = Some(n);
                    }
                },
                None => {},
            }
        }
        d += 1;
    }
    found
}

/// The arrow that points from cell `a` to the adjacent cell `b`.
pub fn arrow(a: Cell, b: Cell) -> (r: char)
    ensures
        b.0 > a.0 ==> r == '\u{2192}',
        b.0 < a.0 ==> r == '\u{2190}',
        b.0 == a.0 && b.1 > a.1 ==> r == '\u{2193}',
        b.0 == a.0 && b.1 <= a.1 ==> r == '\u{2191}',
{
    if b.0 > a.0 {
        '\u{2192}'
    } else if b.0 < a.0 {
        '\u{2190}'
    } else if b.1 > a.1 {
        '\u{2193}'
    } else {
        '\u{2191}'
    }
}

/// Searches depth first from the entrance, trying the steps of each cell in
/// the order left, right, up, down, and backtracking from cells with no
/// unvisited cell one step away. Returns the path from the entrance to the
/// exit, which is the stack of the search when it reaches the exit, and, with
/// `trace`, the changes that show the search: a dot in each cell visited, then
/// arrows along the path, the last one pointing down out of the exit.
pub fn solve(maze: &Maze, trace: bool) -> (r: Result<(Vec<Cell>, Vec<Change>), SolveError>)
    requires
        maze@.wf(),
    ensures
        r is Ok <==> maze@.connected((0, 0), exit_of(maze@)),
        r matches Ok((path, changes)) ==> {
            &&& solves(maze@, path@)
            &&& path@.no_duplicates()
            &&& forall|i: int| 0 <= i < changes@.len() ==> maze@.fits(#[trigger] changes@[i])
            &&& !trace ==> changes@.len() == 0
        },
{
    let ghost m = maze@;
    let rows = maze.rows();
    let columns = maze.columns();
    let end = maze.get_end();
    let mut log: Vec<Change> = Vec::new();
    let mut visited = unmarked(rows, columns);
    let mut stack: Vec<Cell> = Vec::new();
    mark(&mut visited, (0, 0), Ghost(m.rows), Ghost(m.columns));
    stack.push((0, 0));
    let ghost mut vis: Set<(int, int)> = set![(0int, 0int)];
    proof {
        assert(stack@ == seq![(0u16, 0u16)]);
        lemma_search_start(m, visited@);
    }
    let mut found = false;
    while stack.len() > 0 && !found
        invariant
            m == maze@,
            m.wf(),
            pos(end) == exit_of(m),
            search_state(m, visited@, vis, stack@),
            found ==> stack@.len() > 0 && pos(stack@.last()) == exit_of(m),
            forall|i: int| 0 <= i < log@.len() ==> m.fits(#[trigger] log@[i]),
            !trace ==> log@.len() == 0,
        decreases 2 * (m.rows * m.columns - vis.len()) + stack@.len() + if found {
            0int
        } else {
            1int
        },
    {
        proof {
            lemma_search_facts(m, visited@, vis, stack@);
        }
        let c = stack[stack.len() - 1];
        if trace {
            let (cx, cy) = cell_unit(maze, c);
            log.push(Change::OverlaySet(cx, cy, '\u{b7}'));
        }
        if c.0 == end.0 && c.1 == end.1 {
            found = true;
        } else {
            match first_open_unmarked(maze, &visited, c) {
                Some(n) => {
                    let ghost v0 = visited@;
                    let ghost stack0 = stack@;
                    mark(&mut visited, n, Ghost(m.rows), Ghost(m.columns));
                    stack.push(n);
                    proof {
                        lemma_search_push(m, v0, visited@, vis, stack0, n);
                        vis = vis.insert(pos(n));
                    }
                },
                None => {
                    proof {
                        assert(reach_closed_at(m, vis, pos(c))) by {
                            assert(m.passable(pos(c), step(pos(c), 0)) ==> marked(visited@, step(pos(c), 0)));
                            assert(m.passable(pos(c), step(pos(c), 1)) ==> marked(visited@, step(pos(c), 1)));
                            assert(m.passable(pos(c), step(pos(c), 2)) ==> marked(visited@, step(pos(c), 2)));
                            assert(m.passable(pos(c), step(pos(c), 3)) ==> marked(visited@, step(pos(c), 3)));
                        }
                        lemma_search_pop(m, visited@, vis, stack@);
                    }
                    stack.pop();
                },
            }
        }
    }
    proof {
        lemma_search_facts(m, visited@, vis, stack@);
    }
    if !found {
        proof {
            assert(stack@ =~= Seq::<Cell>::empty());
            lemma_search_failed(m, visited@, vis);
        }
        return Err(SolveError::NoPath);
    }
    if trace {
        let mut i: usize = 0;
        let len = stack.len();
        assert(positions(stack@).len() == stack@.len());
        while i + 1 < len
            invariant
                len == stack@.len(),
                m == maze@,
                m.wf(),
                solves(m, stack@),
                stack@.no_duplicates(),
                i < stack@.len(),
                forall|j: int| 0 <= j < log@.len() ==> m.fits(#[trigger] log@[j]),
            decreases stack@.len() - i,
        {
            assert(m.passable(positions(stack@)[i as int], positions(stack@)[i as int + 1]));
            assert(positions(stack@)[i as int] == pos(stack@[i as int]));
            let (cx, cy) = cell_unit(maze, stack[i]);
            log.push(Change::OverlaySet(cx, cy, arrow(stack[i], stack[i + 1])));
            i += 1;
        }
        let (cx, cy) = cell_unit(maze, end);
        log.push(Change::OverlaySet(cx, cy, '\u{2193}'));
    }
    proof {
        assert(m.connected((0, 0), exit_of(m))) by {
            assert(positions(stack@)[0] == (0int, 0int));
            assert(positions(stack@).last() == exit_of(m));
        }
    }
    Ok((stack, log))
}

} // verus!
