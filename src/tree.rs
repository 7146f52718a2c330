//! A perfect maze is a tree: each passage joins a cell to the cell before it
//! on a shortest way from the entrance, so a way from the entrance that visits
//! no cell twice is unique.
use vstd::prelude::*;
use vstd::relations::injective_on;
use vstd::set_lib::{lemma_map_size, lemma_subset_equality};

use crate::maze::{pos, separator, Cell, MazeView};
use crate::paths::{cells, lemma_cells_len, lemma_separator, lemma_separator_unique};
use crate::solver::{positions, solves};

verus! {

/// `p` is a walk of `k` steps from the entrance to `c`.
pub open spec fn is_way(m: MazeView, p: Seq<(int, int)>, c: (int, int), k: nat) -> bool {
    m.is_walk(p) && p[0] == (0int, 0int) && p.last() == c && p.len() == k + 1
}

/// `c` can be reached from the entrance in `k` steps.
pub open spec fn reach_in(m: MazeView, c: (int, int), k: nat) -> bool {
    exists|p: Seq<(int, int)>| #[trigger] is_way(m, p, c, k)
}

/// The fewest steps from the entrance to `c`.
pub open spec fn depth(m: MazeView, c: (int, int)) -> nat {
    choose|j: nat| reach_in(m, c, j) && forall|i: nat| i < j ==> !#[trigger] reach_in(m, c, i)
}

/// A shortest walk from the entrance to `c`.
pub open spec fn shortest(m: MazeView, c: (int, int)) -> Seq<(int, int)> {
    choose|p: Seq<(int, int)>| #[trigger] is_way(m, p, c, depth(m, c))
}

/// The cell before `c` on a shortest way from the entrance to `c`.
pub open spec fn parent(m: MazeView, c: (int, int)) -> (int, int) {
    shortest(m, c)[shortest(m, c).len() - 2]
}

/// The separators between each cell but the entrance and its parent.
pub open spec fn links(m: MazeView) -> Set<(int, int)> {
    cells(m.rows, m.columns).remove((0, 0)).map(|c: (int, int)| separator(c, parent(m, c)))
}

proof fn lemma_least_steps(m: MazeView, c: (int, int), k: nat)
    requires
        reach_in(m, c, k),
    ensures
        exists|j: nat| reach_in(m, c, j) && forall|i: nat| i < j ==> !#[trigger] reach_in(m, c, i),
    decreases k,
{
    if exists|i: nat| i < k && #[trigger] reach_in(m, c, i) {
        let i = choose|i: nat| i < k && #[trigger] reach_in(m, c, i);
        lemma_least_steps(m, c, i);
    } else {
        assert(reach_in(m, c, k) && forall|i: nat| i < k ==> !#[trigger] reach_in(m, c, i));
    }
}

proof fn lemma_depth(m: MazeView, c: (int, int))
    requires
        m.connected((0, 0), c),
    ensures
        reach_in(m, c, depth(m, c)),
        forall|i: nat| i < depth(m, c) ==> !#[trigger] reach_in(m, c, i),
{
    let p = choose|p: Seq<(int, int)>| m.is_walk(p) && p[0] == (0int, 0int) && p.last() == c;
    assert(is_way(m, p, c, (p.len() - 1) as nat));
    lemma_least_steps(m, c, (p.len() - 1) as nat);
}

/// The parent of a reachable cell other than the entrance is reachable, one
/// step away, and one step nearer the entrance.
proof fn lemma_parent(m: MazeView, c: (int, int))
    requires
        m.connected((0, 0), c),
        c != (0int, 0int),
    ensures
        depth(m, c) >= 1,
        m.passable(parent(m, c), c),
        m.connected((0, 0), parent(m, c)),
        depth(m, parent(m, c)) + 1 == depth(m, c),
{
    lemma_depth(m, c);
    let d = depth(m, c);
    let p = shortest(m, c);
    assert(is_way(m, p, c, d));
    assert(d >= 1) by {
        if d == 0 {
            assert(p[0] == p.last());
        }
    }
    let n = p.len();
    let y = p[n - 2];
    assert(y == parent(m, c));
    assert(m.passable(p[n - 2], p[(n - 2) + 1]));
    let q = p.take(n - 1);
    assert forall|i: int| 0 <= i < q.len() - 1 implies #[trigger] m.passable(q[i], q[i + 1]) by {
        assert(m.passable(p[i], p[i + 1]));
    }
    assert(is_way(m, q, y, (d - 1) as nat));
    assert(m.connected((0, 0), y));
    lemma_depth(m, y);
    let e = depth(m, y);
    assert(e <= d - 1) by {
        if e > d - 1 {
            assert(!reach_in(m, y, (d - 1) as nat));
        }
    }
    let r = choose|r: Seq<(int, int)>| #[trigger] is_way(m, r, y, e);
    let s = r.push(c);
    assert forall|i: int| 0 <= i < s.len() - 1 implies #[trigger] m.passable(s[i], s[i + 1]) by {
        if i < r.len() - 1 {
            assert(m.passable(r[i], r[i + 1]));
        }
    }
    assert(is_way(m, s, c, e + 1));
    if e + 1 < d {
        assert(!reach_in(m, c, e + 1));
    }
}

/// A perfect maze has no cycle: each of its openings joins a cell other than
/// the entrance to that cell's parent, one step nearer the entrance.
pub proof fn lemma_links_are_openings(m: MazeView)
    requires
        m.wf(),
        m.is_perfect(),
    ensures
        links(m) == m.openings(),
{
    let dom = cells(m.rows, m.columns).remove((0, 0));
    let f = |c: (int, int)| separator(c, parent(m, c));
    lemma_cells_len(m.rows as nat, m.columns as nat);
    assert(cells(m.rows, m.columns).contains((0, 0)));
    assert(dom.len() == m.rows * m.columns - 1);
    assert forall|c: (int, int)| #[trigger] dom.contains(c) implies m.passable(parent(m, c), c)
        && depth(m, parent(m, c)) + 1 == depth(m, c) by {
        assert(m.is_cell(c));
        lemma_parent(m, c);
    }
    assert(injective_on(f, dom)) by {
        assert forall|c1: (int, int), c2: (int, int)|
            dom.contains(c1) && dom.contains(c2) && #[trigger] f(c1) == #[trigger] f(c2) implies c1
            == c2 by {
            let p1 = parent(m, c1);
            let p2 = parent(m, c2);
            assert(m.passable(p1, c1));
            assert(m.passable(p2, c2));
            lemma_separator_unique(c1, p1, c2, p2);
        }
    }
    lemma_map_size(dom, links(m), f);
    assert forall|w: (int, int)| #[trigger] links(m).contains(w) implies m.openings().contains(
        w,
    ) by {
        let c = choose|c: (int, int)| dom.contains(c) && w == f(c);
        let p = parent(m, c);
        assert(m.passable(p, c));
        lemma_separator(m, p, c);
    }
    lemma_subset_equality(links(m), m.openings());
}

/// A way from the entrance that visits no cell twice follows the parents:
/// it takes as many steps as the depth of its last cell.
proof fn lemma_simple_walk(m: MazeView, p: Seq<(int, int)>)
    requires
        m.wf(),
        m.is_perfect(),
        links(m) == m.openings(),
        m.is_walk(p),
        p[0] == (0int, 0int),
        p.no_duplicates(),
    ensures
        p.len() == depth(m, p.last()) + 1,
        forall|i: int| 0 < i < p.len() ==> p[i - 1] == parent(m, #[trigger] p[i]),
    decreases p.len(),
{
    let n = p.len();
    if n == 1 {
        let s = seq![(0int, 0int)];
        assert(is_way(m, s, (0, 0), 0));
        lemma_depth(m, (0, 0));
        if depth(m, (0, 0)) > 0 {
            assert(!reach_in(m, (0, 0), 0));
        }
    } else {
        let q = p.drop_last();
        assert forall|i: int| 0 <= i < q.len() - 1 implies #[trigger] m.passable(q[i], q[i + 1]) by {
            assert(m.passable(p[i], p[i + 1]));
        }
        lemma_simple_walk(m, q);
        let x = p[n - 1];
        let y = p[n - 2];
        assert(m.passable(p[n - 2], p[(n - 2) + 1]));
        let w = separator(y, x);
        lemma_separator(m, y, x);
        assert(m.openings().contains(w));
        let dom = cells(m.rows, m.columns).remove((0, 0));
        let c = choose|c: (int, int)| dom.contains(c) && w == separator(c, parent(m, c));
        assert(m.is_cell(c));
        lemma_parent(m, c);
        lemma_separator_unique(y, x, c, parent(m, c));
        if c == y {
            assert(y != (0int, 0int));
            assert(q.len() >= 2);
            assert(q[q.len() - 2] == parent(m, q[q.len() - 1]));
            assert(p[n - 3] == x);
            assert(false);
        }
        assert(c == x && parent(m, x) == y);
        assert forall|i: int| 0 < i < p.len() implies p[i - 1] == parent(m, #[trigger] p[i]) by {
            if i < n - 1 {
                assert(q[i - 1] == parent(m, q[i]));
            }
        }
    }
}

/// In a perfect maze, two paths from the entrance to the exit that visit no
/// cell twice are the same path, so they take the same number of steps. Both
/// solvers return such paths.
pub proof fn lemma_simple_solutions_agree(m: MazeView, p: Seq<Cell>, q: Seq<Cell>)
    requires
        m.wf(),
        m.is_perfect(),
        solves(m, p),
        solves(m, q),
        p.no_duplicates(),
        q.no_duplicates(),
    ensures
        p.len() == q.len(),
        p == q,
{
    lemma_links_are_openings(m);
    let a = positions(p);
    let b = positions(q);
    assert(a.no_duplicates()) by {
        assert forall|i: int, j: int| 0 <= i < a.len() && 0 <= j < a.len() && i != j implies a[i]
            != a[j] by {
            assert(p[i] != p[j]);
        }
    }
    assert(b.no_duplicates()) by {
        assert forall|i: int, j: int| 0 <= i < b.len() && 0 <= j < b.len() && i != j implies b[i]
            != b[j] by {
            assert(q[i] != q[j]);
        }
    }
    assert(a[0] == pos(p[0]) && b[0] == pos(q[0]));
    lemma_simple_walk(m, a);
    lemma_simple_walk(m, b);
    assert(a.last() == pos(p.last()) && b.last() == pos(q.last()));
    let n = a.len();
    assert forall|k: int| 0 <= k < n implies #[trigger] a[n - 1 - k] == b[n - 1 - k] by {
        lemma_same_from_end(m, a, b, k);
    }
    assert forall|i: int| 0 <= i < p.len() implies p[i] == q[i] by {
        assert(a[n - 1 - (n - 1 - i)] == b[n - 1 - (n - 1 - i)]);
        assert(a[i] == pos(p[i]) && b[i] == pos(q[i]));
    }
    assert(p =~= q);
}

proof fn lemma_same_from_end(m: MazeView, a: Seq<(int, int)>, b: Seq<(int, int)>, k: int)
    requires
        a.len() == b.len(),
        a.len() >= 1,
        a.last() == b.last(),
        forall|i: int| 0 < i < a.len() ==> a[i - 1] == parent(m, #[trigger] a[i]),
        forall|i: int| 0 < i < b.len() ==> b[i - 1] == parent(m, #[trigger] b[i]),
        0 <= k < a.len(),
    ensures
        a[a.len() - 1 - k] == b[b.len() - 1 - k],
    decreases k,
{
    if k > 0 {
        lemma_same_from_end(m, a, b, k - 1);
        let i = a.len() - k;
        assert(a[i - 1] == parent(m, a[i]));
        assert(b[i - 1] == parent(m, b[i]));
    }
}

} // verus!
