//! A* search, estimating the rest of the way by the Manhattan distance to the
//! exit, with a predecessor for each cell reached to rebuild the path.
use binary_heap_plus::{BinaryHeap, MinComparator};
use vstd::multiset::Multiset;
use vstd::prelude::*;
use vstd::set_lib::lemma_len_subset;

use crate::generator::cell_unit;
use crate::heap::{heap_items, heap_new, heap_pop, heap_push, Entry};
use crate::maze::{pos, step, Cell, Change, Maze, MazeView};
use crate::paths::{cells, lemma_cells_len};
use crate::solver::depth_first_search::arrow;
use crate::solver::{exit_of, lemma_unreachable, positions, reach_closed_at, solves, SolveError};

verus! {

/// The Manhattan distance between two cells.
pub open spec fn manhattan(a: (int, int), b: (int, int)) -> int {
    (if a.0 >= b.0 {
        a.0 - b.0
    } else {
        b.0 - a.0
    }) + (if a.1 >= b.1 {
        a.1 - b.1
    } else {
        b.1 - a.1
    })
}

/// Returns the Manhattan distance between two cells: the fewest steps between
/// them in a grid without walls.
pub fn distance(a: Cell, b: Cell) -> (r: u32)
    ensures
        r == manhattan(pos(a), pos(b)),
{
    let dx: u32 = if a.0 >= b.0 {
        (a.0 - b.0) as u32
    } else {
        (b.0 - a.0) as u32
    };
    let dy: u32 = if a.1 >= b.1 {
        (a.1 - b.1) as u32
    } else {
        (b.1 - a.1) as u32
    };
    dx + dy
}

/// What the search knows of a cell: whether it has been reached and
/// expanded, the cost of the best way found to it, and the cell before it on
/// that way.
#[derive(Clone, Copy)]
pub(crate) struct Node {
    pub(crate) seen: bool,
    pub(crate) closed: bool,
    pub(crate) cost: u32,
    pub(crate) pred: Cell,
}

pub(crate) open spec fn node(v: Seq<Vec<Node>>, c: (int, int)) -> Node {
    v[c.1]@[c.0]
}

pub(crate) open spec fn node_shape(v: Seq<Vec<Node>>, rows: int, columns: int) -> bool {
    &&& v.len() == rows
    &&& forall|y: int| 0 <= y < rows ==> #[trigger] v[y]@.len() == columns
}

/// The cell of a heap item.
pub(crate) open spec fn entry_cell(e: Entry) -> (int, int) {
    (e.1 as int, e.2 as int)
}

/// The heap holds an item for cell `c`.
pub(crate) open spec fn in_heap(heap: Multiset<Entry>, c: (int, int)) -> bool {
    exists|e: Entry| #[trigger] heap.contains(e) && entry_cell(e) == c
}

/// The predecessor of `c` has been reached, is one step away, and costs less.
pub(crate) open spec fn pred_ok(m: MazeView, v: Seq<Vec<Node>>, c: (int, int)) -> bool {
    let p = pos(node(v, c).pred);
    &&& m.is_cell(p)
    &&& node(v, p).seen
    &&& m.passable(p, c)
    &&& node(v, p).cost < node(v, c).cost
}

/// The first `k` steps from `c` lead to cells that have been reached.
pub(crate) open spec fn expanded_at(m: MazeView, v: Seq<Vec<Node>>, c: (int, int), k: int) -> bool {
    &&& (0 < k && m.passable(c, step(c, 0)) ==> node(v, step(c, 0)).seen)
    &&& (1 < k && m.passable(c, step(c, 1)) ==> node(v, step(c, 1)).seen)
    &&& (2 < k && m.passable(c, step(c, 2)) ==> node(v, step(c, 2)).seen)
    &&& (3 < k && m.passable(c, step(c, 3)) ==> node(v, step(c, 3)).seen)
}

/// What holds between the steps of the search. `closed` are the expanded
/// cells, and `busy` is being expanded, its first `k` steps done.
#[verifier::opaque]
pub(crate) open spec fn search_state(
    m: MazeView,
    v: Seq<Vec<Node>>,
    closed: Set<(int, int)>,
    heap: Multiset<Entry>,
    busy: (int, int),
    k: int,
) -> bool {
    &&& m.wf()
    &&& node_shape(v, m.rows, m.columns)
    &&& cells(m.rows, m.columns).finite()
    &&& cells(m.rows, m.columns).len() == m.rows * m.columns
    &&& closed.subset_of(cells(m.rows, m.columns))
    &&& closed.finite()
    &&& closed.len() <= m.rows * m.columns
    &&& forall|c: (int, int)|
        #![trigger node(v, c)]
        m.is_cell(c) ==> (node(v, c).closed <==> closed.contains(c))
    &&& node(v, (0, 0)).seen
    &&& node(v, (0, 0)).cost == 0
    &&& forall|c: (int, int)|
        #![trigger node(v, c)]
        m.is_cell(c) && node(v, c).closed ==> node(v, c).seen
    &&& forall|c: (int, int)|
        #![trigger node(v, c)]
        m.is_cell(c) && node(v, c).seen && c != (0int, 0int) ==> pred_ok(m, v, c)
    &&& forall|c: (int, int)|
        #![trigger node(v, c)]
        m.is_cell(c) && node(v, c).seen ==> node(v, c).cost <= closed.len()
    &&& forall|e: Entry|
        #[trigger] heap.contains(e) ==> m.is_cell(entry_cell(e)) && node(v, entry_cell(e)).seen
    &&& forall|c: (int, int)|
        #![trigger node(v, c)]
        m.is_cell(c) && node(v, c).seen && !node(v, c).closed ==> in_heap(heap, c)
    &&& forall|c: (int, int)|
        #![trigger node(v, c)]
        m.is_cell(c) && node(v, c).closed ==> expanded_at(
            m,
            v,
            c,
            if c == busy {
                k
            } else {
                4
            },
        )
    &&& !node(v, exit_of(m)).closed
}

/// A grid of nodes, none reached.
fn node_grid(rows: u16, columns: u16) -> (v: Vec<Vec<Node>>)
    ensures
        node_shape(v@, rows as int, columns as int),
        forall|c: (int, int)|
            #![trigger node(v@, c)]
            0 <= c.0 < columns && 0 <= c.1 < rows ==> !node(v@, c).seen && !node(v@, c).closed,
{
    let blank = Node { seen: false, closed: false, cost: 0, pred: (0, 0) };
    let mut v: Vec<Vec<Node>> = Vec::new();
    let mut y: u16 = 0;
    while y < rows
        invariant
            y <= rows,
            v@.len() == y,
            !blank.seen && !blank.closed,
            forall|j: int| 0 <= j < y ==> #[trigger] v@[j]@.len() == columns,
            forall|j: int, x: int|
                0 <= j < y && 0 <= x < columns ==> #[trigger] v@[j]@[x] == blank,
        decreases rows - y,
    {
        let mut row: Vec<Node> = Vec::new();
        let mut x: u16 = 0;
        while x < columns
            invariant
                x <= columns,
                row@.len() == x,
                forall|i: int| 0 <= i < x ==> #[trigger] row@[i] == blank,
            decreases columns - x,
        {
            row.push(blank);
            x += 1;
        }
        v.push(row);
        y += 1;
    }
    v
}

/// Replaces the node of cell `c`.
fn set_node(v: &mut Vec<Vec<Node>>, c: Cell, x: Node, rows: Ghost<int>, columns: Ghost<int>)
    requires
        node_shape(old(v)@, rows@, columns@),
        0 <= c.0 < columns@,
        0 <= c.1 < rows@,
    ensures
        node_shape(final(v)@, rows@, columns@),
        forall|d: (int, int)|
            #![trigger node(final(v)@, d)]
            0 <= d.0 < columns@ && 0 <= d.1 < rows@ ==> node(final(v)@, d) == if d == pos(c) {
                x
            } else {
                node(old(v)@, d)
            },
{
    v[c.1 as usize][c.0 as usize] = x;
}

proof fn lemma_search_start(
    m: MazeView,
    v: Seq<Vec<Node>>,
    heap: Multiset<Entry>,
    e: Entry,
)
    requires
        m.wf(),
        node_shape(v, m.rows, m.columns),
        forall|c: (int, int)|
            #![trigger node(v, c)]
            m.is_cell(c) ==> (node(v, c).seen <==> c == (0int, 0int)) && !node(v, c).closed,
        node(v, (0, 0)).cost == 0,
        heap == Multiset::<Entry>::empty().insert(e),
        entry_cell(e) == (0int, 0int),
    ensures
        search_state(m, v, Set::empty(), heap, (0, 0), 4),
{
    reveal(search_state);
    lemma_cells_len(m.rows as nat, m.columns as nat);
    assert(heap.contains(e));
    assert forall|x: Entry| #[trigger] heap.contains(x) implies m.is_cell(entry_cell(x)) && node(
        v,
        entry_cell(x),
    ).seen by {
        assert(x == e);
    }
}

/// Popping an item of a cell already expanded keeps the state.
#[verifier::rlimit(40)]
proof fn lemma_search_skip(
    m: MazeView,
    v: Seq<Vec<Node>>,
    closed: Set<(int, int)>,
    heap: Multiset<Entry>,
    busy: (int, int),
    e: Entry,
)
    requires
        search_state(m, v, closed, heap, busy, 4),
        heap.contains(e),
        node(v, entry_cell(e)).closed,
    ensures
        search_state(m, v, closed, heap.remove(e), busy, 4),
{
    reveal(search_state);
    let h = heap.remove(e);
    assert forall|x: Entry| #[trigger] h.contains(x) implies heap.contains(x) by {}
    assert forall|c: (int, int)|
        #![trigger node(v, c)]
        m.is_cell(c) && node(v, c).seen && !node(v, c).closed implies in_heap(h, c) by {
        let x = choose|x: Entry| #[trigger] heap.contains(x) && entry_cell(x) == c;
        assert(h.contains(x));
    }
}

/// Popping an item of a cell not yet expanded, other than the exit, and
/// marking the cell expanded starts its expansion.
#[verifier::rlimit(60)]
proof fn lemma_search_close(
    m: MazeView,
    v0: Seq<Vec<Node>>,
    v: Seq<Vec<Node>>,
    closed: Set<(int, int)>,
    heap: Multiset<Entry>,
    busy: (int, int),
    e: Entry,
)
    requires
        search_state(m, v0, closed, heap, busy, 4),
        heap.contains(e),
        !node(v0, entry_cell(e)).closed,
        entry_cell(e) != exit_of(m),
        node_shape(v, m.rows, m.columns),
        forall|d: (int, int)|
            #![trigger node(v, d)]
            m.is_cell(d) ==> node(v, d) == if d == entry_cell(e) {
                Node { closed: true, ..node(v0, d) }
            } else {
                node(v0, d)
            },
    ensures
        search_state(m, v, closed.insert(entry_cell(e)), heap.remove(e), entry_cell(e), 0),
        node(v, entry_cell(e)).cost + 1 <= closed.insert(entry_cell(e)).len(),
        closed.len() < m.rows * m.columns,
        closed.insert(entry_cell(e)).len() <= m.rows * m.columns,
        closed.insert(entry_cell(e)).len() == closed.len() + 1,
        node(v, entry_cell(e)).closed,
        m.is_cell(entry_cell(e)),
{
    reveal(search_state);
    let c = entry_cell(e);
    let cl = closed.insert(c);
    let h = heap.remove(e);
    assert(m.is_cell(c) && node(v0, c).seen);
    assert(node(v, c).closed);
    assert(!closed.contains(c));
    lemma_len_subset(cl, cells(m.rows, m.columns));
    assert forall|x: (int, int)|
        #![trigger node(v, x)]
        m.is_cell(x) && node(v, x).seen && x != (0int, 0int) implies pred_ok(m, v, x) by {
        assert(pred_ok(m, v0, x));
        let p = pos(node(v0, x).pred);
        assert(node(v, p).seen == node(v0, p).seen);
    }
    assert forall|x: Entry| #[trigger] h.contains(x) implies m.is_cell(entry_cell(x)) && node(
        v,
        entry_cell(x),
    ).seen by {
        assert(heap.contains(x));
    }
    assert forall|x: (int, int)|
        #![trigger node(v, x)]
        m.is_cell(x) && node(v, x).seen && !node(v, x).closed implies in_heap(h, x) by {
        let y = choose|y: Entry| #[trigger] heap.contains(y) && entry_cell(y) == x;
        assert(h.contains(y));
    }
    assert forall|x: (int, int)|
        #![trigger node(v, x)]
        m.is_cell(x) && node(v, x).closed implies expanded_at(
        m,
        v,
        x,
        if x == c {
            0
        } else {
            4
        },
    ) by {
        if x != c {
            assert(expanded_at(m, v0, x, if x == busy { 4int } else { 4 }));
            assert(node(v, step(x, 0)).seen == node(v0, step(x, 0)).seen || !m.is_cell(step(x, 0)));
            assert(node(v, step(x, 1)).seen == node(v0, step(x, 1)).seen || !m.is_cell(step(x, 1)));
            assert(node(v, step(x, 2)).seen == node(v0, step(x, 2)).seen || !m.is_cell(step(x, 2)));
            assert(node(v, step(x, 3)).seen == node(v0, step(x, 3)).seen || !m.is_cell(step(x, 3)));
        }
    }
    assert(node(v, exit_of(m)) == node(v0, exit_of(m)));
}

/// A step that leads nowhere new, or to a cell reached no worse, leaves
/// the nodes as they are.
proof fn lemma_search_keep(
    m: MazeView,
    v: Seq<Vec<Node>>,
    closed: Set<(int, int)>,
    heap: Multiset<Entry>,
    c: (int, int),
    d: int,
)
    requires
        search_state(m, v, closed, heap, c, d),
        0 <= d < 4,
        m.passable(c, step(c, d)) ==> node(v, step(c, d)).seen || node(v, step(c, d)).closed,
    ensures
        search_state(m, v, closed, heap, c, d + 1),
{
    reveal(search_state);
    assert forall|x: (int, int)|
        #![trigger node(v, x)]
        m.is_cell(x) && node(v, x).closed implies expanded_at(
        m,
        v,
        x,
        if x == c {
            d + 1
        } else {
            4
        },
    ) by {
        assert(expanded_at(m, v, x, if x == c { d } else { 4 }));
    }
}

/// Reaching a cell one step from the busy cell more cheaply than before, and
/// pushing an item for it, keeps the state.
#[verifier::rlimit(60)]
proof fn lemma_search_improve(
    m: MazeView,
    v0: Seq<Vec<Node>>,
    v: Seq<Vec<Node>>,
    closed: Set<(int, int)>,
    heap0: Multiset<Entry>,
    heap: Multiset<Entry>,
    c: Cell,
    d: int,
    n: (int, int),
    e: Entry,
)
    requires
        search_state(m, v0, closed, heap0, pos(c), d),
        0 <= d < 4,
        m.is_cell(pos(c)),
        node(v0, pos(c)).closed,
        node(v0, pos(c)).cost + 1 <= closed.len(),
        node(v0, pos(c)).cost < u32::MAX,
        n == step(pos(c), d),
        m.passable(pos(c), n),
        !node(v0, n).closed,
        !node(v0, n).seen || node(v0, pos(c)).cost + 1 < node(v0, n).cost,
        node_shape(v, m.rows, m.columns),
        forall|x: (int, int)|
            #![trigger node(v, x)]
            m.is_cell(x) ==> node(v, x) == if x == n {
                Node { seen: true, closed: false, cost: (node(v0, pos(c)).cost + 1) as u32, pred: c }
            } else {
                node(v0, x)
            },
        heap == heap0.insert(e),
        entry_cell(e) == n,
    ensures
        search_state(m, v, closed, heap, pos(c), d + 1),
        node(v, pos(c)) == node(v0, pos(c)),
{
    reveal(search_state);
    assert(n != pos(c));
    assert(n != (0int, 0int)) by {
        assert(node(v0, (0, 0)).cost == 0);
    }
    assert(node(v, exit_of(m)).closed == node(v0, exit_of(m)).closed);
    assert forall|x: (int, int)|
        #![trigger node(v, x)]
        m.is_cell(x) && node(v, x).seen && x != (0int, 0int) implies pred_ok(m, v, x) by {
        if x != n {
            assert(pred_ok(m, v0, x));
            let p = pos(node(v0, x).pred);
            assert(node(v, x) == node(v0, x));
            if p == n {
                assert(node(v0, n).seen);
                assert(node(v, n).cost == node(v0, pos(c)).cost + 1);
            } else {
                assert(node(v, p) == node(v0, p));
            }
        } else {
            assert(node(v, pos(c)) == node(v0, pos(c)));
            assert(node(v0, pos(c)).seen);
        }
    }
    assert forall|x: Entry| #[trigger] heap.contains(x) implies m.is_cell(entry_cell(x)) && node(
        v,
        entry_cell(x),
    ).seen by {
        if x != e {
            assert(heap0.contains(x));
        }
    }
    assert forall|x: (int, int)|
        #![trigger node(v, x)]
        m.is_cell(x) && node(v, x).seen && !node(v, x).closed implies in_heap(heap, x) by {
        if x == n {
            assert(heap.contains(e));
        } else {
            let y = choose|y: Entry| #[trigger] heap0.contains(y) && entry_cell(y) == x;
            assert(heap.contains(y));
        }
    }
    assert forall|x: (int, int)|
        #![trigger node(v, x)]
        m.is_cell(x) && node(v, x).closed implies expanded_at(
        m,
        v,
        x,
        if x == pos(c) {
            d + 1
        } else {
            4
        },
    ) by {
        assert(expanded_at(m, v0, x, if x == pos(c) { d } else { 4 }));
        assert(node(v, step(x, 0)).seen || !node(v0, step(x, 0)).seen || !m.is_cell(step(x, 0)));
        assert(node(v, step(x, 1)).seen || !node(v0, step(x, 1)).seen || !m.is_cell(step(x, 1)));
        assert(node(v, step(x, 2)).seen || !node(v0, step(x, 2)).seen || !m.is_cell(step(x, 2)));
        assert(node(v, step(x, 3)).seen || !node(v0, step(x, 3)).seen || !m.is_cell(step(x, 3)));
    }
}

/// Facts of the state that each step needs.
proof fn lemma_search_facts(
    m: MazeView,
    v: Seq<Vec<Node>>,
    closed: Set<(int, int)>,
    heap: Multiset<Entry>,
    busy: (int, int),
    k: int,
)
    requires
        search_state(m, v, closed, heap, busy, k),
    ensures
        m.wf(),
        node_shape(v, m.rows, m.columns),
        closed.len() <= m.rows * m.columns,
        m.rows * m.columns <= 65535 * 32767,
        forall|e: Entry|
            #[trigger] heap.contains(e) ==> m.is_cell(entry_cell(e)) && node(v, entry_cell(e)).seen,
        forall|c: (int, int)|
            #![trigger node(v, c)]
            m.is_cell(c) && node(v, c).seen ==> node(v, c).cost <= closed.len(),
        forall|c: (int, int)|
            #![trigger node(v, c)]
            m.is_cell(c) && node(v, c).seen && c != (0int, 0int) ==> pred_ok(m, v, c),
        node(v, (0, 0)).seen,
        !node(v, exit_of(m)).closed,
{
    reveal(search_state);
    assert(m.rows * m.columns <= 65535 * 32767) by (nonlinear_arith)
        requires
            1 <= m.rows <= 65535,
            1 <= m.columns <= 32767,
    ;
}

/// With the heap empty, the exit cannot be reached.
proof fn lemma_search_failed(
    m: MazeView,
    v: Seq<Vec<Node>>,
    closed: Set<(int, int)>,
    heap: Multiset<Entry>,
    busy: (int, int),
)
    requires
        search_state(m, v, closed, heap, busy, 4),
        heap.len() == 0,
    ensures
        !m.connected((0, 0), exit_of(m)),
{
    reveal(search_state);
    let s = Set::new(|c: (int, int)| m.is_cell(c) && node(v, c).seen);
    assert forall|c: (int, int)| #[trigger] s.contains(c) implies reach_closed_at(m, s, c) by {
        if !node(v, c).closed {
            let y = choose|y: Entry| #[trigger] heap.contains(y) && entry_cell(y) == c;
        }
        assert(expanded_at(m, v, c, if c == busy { 4int } else { 4 }));
    }
    if node(v, exit_of(m)).seen {
        let y = choose|y: Entry| #[trigger] heap.contains(y) && entry_cell(y) == exit_of(m);
    }
    assert(!s.contains(exit_of(m)));
    assert(s.contains((0, 0)));
    lemma_unreachable(m, s, exit_of(m));
}

/// Follows the predecessors back from the exit and returns the cells from the
/// entrance to the exit.
fn rebuild(maze: &Maze, v: &Vec<Vec<Node>>, end: Cell) -> (path: Vec<Cell>)
    requires
        maze@.wf(),
        node_shape(v@, maze@.rows, maze@.columns),
        pos(end) == exit_of(maze@),
        node(v@, pos(end)).seen,
        forall|c: (int, int)|
            #![trigger node(v@, c)]
            maze@.is_cell(c) && node(v@, c).seen && c != (0int, 0int) ==> pred_ok(maze@, v@, c),
    ensures
        solves(maze@, path@),
        path@.no_duplicates(),
{
    let ghost m = maze@;
    let mut back: Vec<Cell> = Vec::new();
    back.push(end);
    let mut cur = end;
    while !(cur.0 == 0 && cur.1 == 0)
        invariant
            m == maze@,
            m.wf(),
            node_shape(v@, m.rows, m.columns),
            forall|c: (int, int)|
                #![trigger node(v@, c)]
                m.is_cell(c) && node(v@, c).seen && c != (0int, 0int) ==> pred_ok(m, v@, c),
            m.is_cell(pos(cur)),
            node(v@, pos(cur)).seen,
            back@.len() >= 1,
            back@[0] == end,
            back@.last() == cur,
            forall|i: int|
                0 <= i < back@.len() - 1 ==> #[trigger] m.passable(
                    pos(back@[i + 1]),
                    pos(back@[i]),
                ),
            forall|i: int|
                0 <= i < back@.len() ==> m.is_cell(pos(#[trigger] back@[i])) && node(
                    v@,
                    pos(back@[i]),
                ).cost >= node(v@, pos(cur)).cost,
            forall|i: int, j: int|
                0 <= i < j < back@.len() ==> node(v@, pos(#[trigger] back@[j])).cost < node(
                    v@,
                    pos(#[trigger] back@[i]),
                ).cost,
        decreases node(v@, pos(cur)).cost,
    {
        assert(pred_ok(m, v@, pos(cur)));
        let p = v[cur.1 as usize][cur.0 as usize].pred;
        let ghost before = back@;
        back.push(p);
        proof {
            assert forall|i: int| 0 <= i < back@.len() - 1 implies #[trigger] m.passable(
                pos(back@[i + 1]),
                pos(back@[i]),
            ) by {
                if i < before.len() - 1 {
                    assert(m.passable(pos(before[i + 1]), pos(before[i])));
                }
            }
            assert forall|i: int| 0 <= i < back@.len() implies m.is_cell(
                pos(#[trigger] back@[i]),
            ) && node(v@, pos(back@[i])).cost >= node(v@, pos(p)).cost by {
                if i < before.len() {
                    assert(before[i] == back@[i]);
                }
            }
            assert forall|i: int, j: int|
                0 <= i < j < back@.len() implies node(v@, pos(#[trigger] back@[j])).cost < node(
                v@,
                pos(#[trigger] back@[i]),
            ).cost by {
                if j < before.len() {
                    assert(before[i] == back@[i] && before[j] == back@[j]);
                } else {
                    assert(before[i] == back@[i]);
                }
            }
        }
        cur = p;
    }
    let mut path: Vec<Cell> = Vec::new();
    let len = back.len();
    let mut i: usize = len;
    while i > 0
        invariant
            len == back@.len(),
            len >= 1,
            i <= len,
            path@.len() == len - i,
            forall|j: int| 0 <= j < path@.len() ==> #[trigger] path@[j] == back@[len - 1 - j],
            forall|i: int, j: int|
                0 <= i < j < back@.len() ==> node(v@, pos(#[trigger] back@[j])).cost < node(
                    v@,
                    pos(#[trigger] back@[i]),
                ).cost,
        decreases i,
    {
        i -= 1;
        path.push(back[i]);
    }
    proof {
        let p = positions(path@);
        assert(p.len() == len);
        assert forall|j: int| 0 <= j < p.len() - 1 implies #[trigger] m.passable(p[j], p[j + 1]) by {
            let i = len - 2 - j;
            assert(m.passable(pos(back@[i + 1]), pos(back@[i])));
            assert(path@[j] == back@[len - 1 - j]);
            assert(path@[j + 1] == back@[len - 1 - (j + 1)]);
        }
        assert(path@[0] == back@[len - 1]);
        assert(path@[len - 1] == back@[0]);
        assert forall|a: int, b: int| 0 <= a < path@.len() && 0 <= b < path@.len() && a != b implies path@[a]
            != path@[b] by {
            let ia = len - 1 - a;
            let ib = len - 1 - b;
            assert(path@[a] == back@[ia] && path@[b] == back@[ib]);
            if ia < ib {
                assert(node(v@, pos(back@[ib])).cost < node(v@, pos(back@[ia])).cost);
            } else {
                assert(node(v@, pos(back@[ia])).cost < node(v@, pos(back@[ib])).cost);
            }
        }
        assert(pos(back@[len - 1]) == (0int, 0int));
    }
    path
}

/// Searches by A*: it expands cells in the order of the cost of the way to
/// them plus their Manhattan distance to the exit, least first (ties by
/// column, then row), and remembers for each cell the cell before it on the
/// cheapest way found. Returns the path from the entrance to the exit that
/// those predecessors give, and, with `trace`, the changes that show the
/// search: a dot in each cell expanded, then arrows along the path, the last
/// one pointing down out of the exit.
pub fn solve(maze: &Maze, trace: bool) -> (r: Result<(Vec<Cell>, Vec<Change>), SolveError>)
    requires
        maze@.wf(),
    ensures
        r is Ok <==> maze@.connected((0, 0), exit_of(maze@)),
        r matches Ok((path, changes)) ==> {
            &&& solves(maze@, path@)
            &&& path@.no_duplicates()
            &&& forall|i: int| 0 <= i < changes@.len() ==> maze@.fits(#[trigger] changes@[i])
            &&& !trace ==> changes@.len() == 0
        },
{
    let ghost m = maze@;
    let rows = maze.rows();
    let columns = maze.columns();
    let end = maze.get_end();
    let mut log: Vec<Change> = Vec::new();
    let mut v = node_grid(rows, columns);
    set_node(
        &mut v,
        (0, 0),
        Node { seen: true, closed: false, cost: 0, pred: (0, 0) },
        Ghost(m.rows),
        Ghost(m.columns),
    );
    let mut heap: BinaryHeap<Entry, MinComparator> = heap_new();
    let first: Entry = (distance((0, 0), end) as u64, 0, 0);
    heap_push(&mut heap, first);
    let ghost mut closed: Set<(int, int)> = Set::empty();
    let ghost mut busy: (int, int) = (0, 0);
    let ghost mut hs = heap_items(heap);
    proof {
        lemma_search_start(m, v@, heap_items(heap), first);
    }
    let mut done = false;
    let mut found = false;
    while !done
        invariant
            m == maze@,
            m.wf(),
            pos(end) == exit_of(m),
            search_state(m, v@, closed, hs, busy, 4),
            !found ==> hs == heap_items(heap),
            found ==> done,
            found ==> node(v@, exit_of(m)).seen,
            done && !found ==> heap_items(heap).len() == 0,
            forall|i: int| 0 <= i < log@.len() ==> m.fits(#[trigger] log@[i]),
            !trace ==> log@.len() == 0,
        decreases m.rows * m.columns - closed.len(), heap_items(heap).len() + if done {
            0int
        } else {
            1int
        },
    {
        proof {
            lemma_search_facts(m, v@, closed, hs, busy, 4);
        }
        let ghost hp = heap_items(heap);
        match heap_pop(&mut heap) {
            None => {
                done = true;
            },
            Some(e) => {
                let c: Cell = (e.1, e.2);
                assert(m.is_cell(pos(c)));
                let nc = v[c.1 as usize][c.0 as usize];
                if nc.closed {
                    proof {
                        lemma_search_skip(m, v@, closed, hp, busy, e);
                        hs = heap_items(heap);
                    }
                } else if c.0 == end.0 && c.1 == end.1 {
                    done = true;
                    found = true;
                } else {
                    let ghost v0 = v@;
                    set_node(&mut v, c, Node { closed: true, ..nc }, Ghost(m.rows), Ghost(m.columns));
                    proof {
                        lemma_search_close(m, v0, v@, closed, hp, busy, e);
                        closed = closed.insert(pos(c));
                        busy = pos(c);
                        hs = heap_items(heap);
                    }
                    if trace {
                        let (cx, cy) = cell_unit(maze, c);
                        log.push(Change::OverlaySet(cx, cy, '\u{b7}'));
                    }
                    let mut d: u8 = 0;
                    while d < 4
                        invariant
                            m == maze@,
                            m.wf(),
                            pos(end) == exit_of(m),
                            d <= 4,
                            busy == pos(c),
                            m.is_cell(pos(c)),
                            search_state(m, v@, closed, heap_items(heap), busy, d as int),
                            hs == heap_items(heap),
                            node(v@, pos(c)).closed,
                            node(v@, pos(c)).cost + 1 <= closed.len(),
                            closed.len() <= m.rows * m.columns,
                            forall|i: int| 0 <= i < log@.len() ==> m.fits(#[trigger] log@[i]),
                            !trace ==> log@.len() == 0,
                        decreases 4 - d,
                    {
                        proof {
                            lemma_search_facts(m, v@, closed, heap_items(heap), busy, d as int);
                        }
                        let cost = v[c.1 as usize][c.0 as usize].cost;
                        match maze.neighbor(c, d) {
                            Some(n) => {
                                let nn = v[n.1 as usize][n.0 as usize];
                                if maze.is_passable(c, n) && !nn.closed && (!nn.seen || cost + 1
                                    < nn.cost) {
                                    let ghost v0 = v@;
                                    let ghost h0 = heap_items(heap);
                                    let item: Entry = (
                                        (cost + 1) as u64 + distance(n, end) as u64,
                                        n.0,
                                        n.1,
                                    );
                                    set_node(
                                        &mut v,
                                        n,
                                        Node { seen: true, closed: false, cost: cost + 1, pred: c },
                                        Ghost(m.rows),
                                        Ghost(m.columns),
                                    );
                                    heap_push(&mut heap, item);
                                    proof {
                                        hs = heap_items(heap);
                                        lemma_search_improve(
                                            m,
                                            v0,
                                            v@,
                                            closed,
                                            h0,
                                            heap_items(heap),
                                            c,
                                            d as int,
                                            pos(n),
                                            item,
                                        );
                                    }
                                } else {
                                    proof {
                                        lemma_search_keep(m, v@, closed, heap_items(heap), busy, d as int);
                                    }
                                }
                            },
                            None => {
                                proof {
                                    lemma_search_keep(m, v@, closed, heap_items(heap), busy, d as int);
                                }
                            },
                        }
                        d += 1;
                    }
                }
            },
        }
    }
    proof {
        lemma_search_facts(m, v@, closed, hs, busy, 4);
    }
    if !found {
        proof {
            lemma_search_failed(m, v@, closed, hs, busy);
        }
        return Err(SolveError::NoPath);
    }
    let path = rebuild(maze, &v, end);
    if trace {
        let mut i: usize = 0;
        let len = path.len();
        assert(positions(path@).len() == path@.len());
        while i + 1 < len
            invariant
                len == path@.len(),
                m == maze@,
                m.wf(),
                solves(m, path@),
                path@.no_duplicates(),
                i < path@.len(),
                forall|j: int| 0 <= j < log@.len() ==> m.fits(#[trigger] log@[j]),
            decreases path@.len() - i,
        {
            assert(m.passable(positions(path@)[i as int], positions(path@)[i as int + 1]));
            assert(positions(path@)[i as int] == pos(path@[i as int]));
            let (cx, cy) = cell_unit(maze, path[i]);
            log.push(Change::OverlaySet(cx, cy, arrow(path[i], path[i + 1])));
            i += 1;
        }
        let (cx, cy) = cell_unit(maze, end);
        log.push(Change::OverlaySet(cx, cy, '\u{2193}'));
    }
    proof {
        assert(m.connected((0, 0), exit_of(m))) by {
            assert(positions(path@)[0] == (0int, 0int));
            assert(positions(path@).last() == exit_of(m));
        }
    }
    Ok((path, log))
}

} // verus!
