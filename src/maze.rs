use vstd::prelude::*;

verus! {

/// One unit of the frame that draws a maze.
///
/// * `Horizontal` is drawn as an underline: below a cell it blocks the way down,
///   in a separator column it stands for a removed vertical wall.
/// * `Vertical` blocks the way between two cells side by side.
/// * `Open` blocks nothing.
///
/// `Horizontal` and `Open` carry a character that is only ever displayed.
#[derive(Clone, Copy, Debug, PartialEq, Eq, Structural)]
pub enum Wall {
    Horizontal(char),
    Vertical,
    Open(char),
}

impl Wall {
    /// The same kind of unit with another displayed character (a `Vertical`
    /// stays as it is).
    pub open spec fn spec_with_char(self, c: char) -> Wall {
        match self {
            Wall::Horizontal(_) => Wall::Horizontal(c),
            Wall::Vertical => Wall::Vertical,
            Wall::Open(_) => Wall::Open(c),
        }
    }

    pub fn with_char(self, c: char) -> (r: Wall)
        ensures
            r == self.spec_with_char(c),
    {
        match self {
            Wall::Horizontal(_) => Wall::Horizontal(c),
            Wall::Vertical => Wall::Vertical,
            Wall::Open(_) => Wall::Open(c),
        }
    }

    /// The units are equal up to their displayed characters.
    pub open spec fn same_kind(self, o: Wall) -> bool {
        match (self, o) {
            (Wall::Horizontal(_), Wall::Horizontal(_)) => true,
            (Wall::Vertical, Wall::Vertical) => true,
            (Wall::Open(_), Wall::Open(_)) => true,
            _ => false,
        }
    }
}

/// A change of what is shown of a maze, in the order in which an algorithm
/// makes it. Each one names a unit by its frame coordinates.
#[derive(Clone, Copy, Debug, PartialEq, Eq, Structural)]
pub enum Change {
    /// The unit was carved open; show it as it now is.
    WallOpened(u16, u16),
    /// Show this character in the unit.
    OverlaySet(u16, u16, char),
    /// Show the unit as it is again, without a character of its own.
    OverlayCleared(u16, u16),
}

/// A cell, as column and row.
pub type Cell = (u16, u16);

/// A cell as a pair of mathematical integers.
pub open spec fn pos(c: Cell) -> (int, int) {
    (c.0 as int, c.1 as int)
}

/// Two cells share a side.
pub open spec fn adjacent(a: (int, int), b: (int, int)) -> bool {
    (a.1 == b.1 && (a.0 - b.0 == 1 || b.0 - a.0 == 1)) || (a.0 == b.0 && (a.1 - b.1 == 1 || b.1
        - a.1 == 1))
}

/// The frame coordinates of the unit that separates two adjacent cells.
pub open spec fn separator(a: (int, int), b: (int, int)) -> (int, int) {
    (a.0 + b.0 + 1, if a.1 < b.1 {
        a.1
    } else {
        b.1
    } + 1)
}

/// The cell one step from `a` in direction `d`: left, right, up, down for
/// `d` = 0, 1, 2, 3.
pub open spec fn step(a: (int, int), d: int) -> (int, int) {
    if d == 0 {
        (a.0 - 1, a.1)
    } else if d == 1 {
        (a.0 + 1, a.1)
    } else if d == 2 {
        (a.0, a.1 - 1)
    } else {
        (a.0, a.1 + 1)
    }
}

/// In a maze of `rows` by `columns` cells, the frame position `(fx, fy)` holds
/// a unit between two cells: a vertical one between cells side by side (even
/// `fx`), or a horizontal one between cells one above the other (odd `fx`).
pub open spec fn separator_at(rows: int, columns: int, fx: int, fy: int) -> bool {
    ||| (fx % 2 == 0 && 2 <= fx <= 2 * columns - 2 && 1 <= fy <= rows)
    ||| (fx % 2 == 1 && 1 <= fx <= 2 * columns - 1 && 1 <= fy <= rows - 1)
}

/// The unit at `(fx, fy)` of a maze with all walls up, with the entrance above
/// the top left cell and the exit below the bottom right one.
pub open spec fn walled_unit(rows: int, columns: int, fx: int, fy: int) -> Wall {
    if fy == 0 {
        if fx == 1 {
            Wall::Open(' ')
        } else {
            Wall::Horizontal(' ')
        }
    } else if fy == rows && fx == 2 * columns - 1 {
        Wall::Open(' ')
    } else if fx % 2 == 0 {
        Wall::Vertical
    } else {
        Wall::Horizontal(' ')
    }
}

/// The unit that a carved separator at frame column `fx` holds.
pub open spec fn carved_unit(fx: int) -> Wall {
    if fx % 2 == 0 {
        Wall::Horizontal(' ')
    } else {
        Wall::Open(' ')
    }
}

/// What a maze is: its size and its frame, row by row.
pub struct MazeView {
    pub rows: int,
    pub columns: int,
    pub units: Seq<Seq<Wall>>,
}

impl MazeView {
    pub open spec fn width(self) -> int {
        2 * self.columns + 1
    }

    pub open spec fn height(self) -> int {
        self.rows + 1
    }

    pub open spec fn wf(self) -> bool {
        &&& 1 <= self.rows <= u16::MAX
        &&& 1 <= self.columns
        &&& 2 * self.columns + 1 <= u16::MAX
        &&& self.units.len() == self.height()
        &&& forall|fy: int| 0 <= fy < self.height() ==> #[trigger] self.units[fy].len() == self.width()
    }

    pub open spec fn in_frame(self, fx: int, fy: int) -> bool {
        0 <= fx < self.width() && 0 <= fy < self.height()
    }

    pub open spec fn unit(self, fx: int, fy: int) -> Wall {
        self.units[fy][fx]
    }

    /// The same maze with the unit at `(fx, fy)` replaced.
    pub open spec fn with_unit(self, fx: int, fy: int, w: Wall) -> MazeView {
        MazeView { units: self.units.update(fy, self.units[fy].update(fx, w)), ..self }
    }

    pub open spec fn is_cell(self, c: (int, int)) -> bool {
        0 <= c.0 < self.columns && 0 <= c.1 < self.rows
    }

    /// The frame position holds a unit between two cells (not the border).
    pub open spec fn is_separator(self, fx: int, fy: int) -> bool {
        separator_at(self.rows, self.columns, fx, fy)
    }

    /// The separator at `(fx, fy)` lets a path through.
    pub open spec fn separator_open(self, fx: int, fy: int) -> bool {
        if fx % 2 == 0 {
            self.unit(fx, fy) != Wall::Vertical
        } else {
            self.unit(fx, fy) is Open
        }
    }

    /// The frame positions of the open separators.
    pub open spec fn openings(self) -> Set<(int, int)> {
        Set::new(|w: (int, int)| self.is_separator(w.0, w.1) && self.separator_open(w.0, w.1))
    }

    /// One step from `a` to `b` is possible.
    pub open spec fn passable(self, a: (int, int), b: (int, int)) -> bool {
        &&& self.is_cell(a)
        &&& self.is_cell(b)
        &&& adjacent(a, b)
        &&& self.separator_open(separator(a, b).0, separator(a, b).1)
    }

    /// `p` is a sequence of cells, each one step from the one before.
    pub open spec fn is_walk(self, p: Seq<(int, int)>) -> bool {
        &&& p.len() >= 1
        &&& self.is_cell(p[0])
        &&& forall|i: int| 0 <= i < p.len() - 1 ==> #[trigger] self.passable(p[i], p[i + 1])
    }

    /// Every neighbour of `a` in the grid lies in `s`.
    pub open spec fn closed_at(self, s: Set<(int, int)>, a: (int, int)) -> bool {
        &&& (self.is_cell(step(a, 0)) ==> s.contains(step(a, 0)))
        &&& (self.is_cell(step(a, 1)) ==> s.contains(step(a, 1)))
        &&& (self.is_cell(step(a, 2)) ==> s.contains(step(a, 2)))
        &&& (self.is_cell(step(a, 3)) ==> s.contains(step(a, 3)))
    }

    pub open spec fn connected(self, a: (int, int), b: (int, int)) -> bool {
        exists|p: Seq<(int, int)>| self.is_walk(p) && p[0] == a && p.last() == b
    }

    /// The frame of a maze of this size before any carving.
    pub open spec fn is_walled(self) -> bool {
        &&& self.wf()
        &&& forall|fx: int, fy: int|
            self.in_frame(fx, fy) ==> #[trigger] self.unit(fx, fy) == walled_unit(
                self.rows,
                self.columns,
                fx,
                fy,
            )
    }

    /// The frame arises from the walled one by carving separators: the border
    /// and the cells are as they were, each separator is either as it was or
    /// carved.
    pub open spec fn is_carving(self) -> bool {
        &&& self.wf()
        &&& forall|fx: int, fy: int|
            self.in_frame(fx, fy) ==> {
                let w = #[trigger] self.unit(fx, fy);
                w == walled_unit(self.rows, self.columns, fx, fy) || (self.is_separator(fx, fy)
                    && w == carved_unit(fx))
            }
    }

    /// The change is about this maze: an opened unit is one of its openings,
    /// any other unit lies in its frame.
    pub open spec fn fits(self, e: Change) -> bool {
        match e {
            Change::WallOpened(x, y) => self.openings().contains((x as int, y as int)),
            Change::OverlaySet(x, y, _) => self.in_frame(x as int, y as int),
            Change::OverlayCleared(x, y) => self.in_frame(x as int, y as int),
        }
    }

    /// A perfect maze: `rows * columns - 1` open separators, and every cell
    /// reachable from the top left one. A connected graph with one edge fewer
    /// than it has nodes is a spanning tree.
    pub open spec fn is_perfect(self) -> bool {
        &&& self.openings().finite()
        &&& self.openings().len() == self.rows * self.columns - 1
        &&& forall|c: (int, int)| self.is_cell(c) ==> #[trigger] self.connected((0, 0), c)
    }
}

/// A maze: its size in cells and the frame that draws it, with
/// `2 * columns + 1` units in each of `rows + 1` rows. Cell `(x, y)` is drawn at
/// `(2 * x + 1, y + 1)`, where its unit also stands for the wall below it.
#[derive(Debug)]
pub struct Maze {
    rows: u16,
    columns: u16,
    frame: Vec<Vec<Wall>>,
}

impl View for Maze {
    type V = MazeView;

    closed spec fn view(&self) -> MazeView {
        MazeView {
            rows: self.rows as int,
            columns: self.columns as int,
            units: self.frame@.map_values(|r: Vec<Wall>| r@),
        }
    }
}

/// Builds the row of a walled frame at `fy`.
fn walled_row(rows: u16, columns: u16, fy: u16) -> (r: Vec<Wall>)
    requires
        1 <= rows,
        1 <= columns,
        fy <= rows,
    ensures
        r@.len() == 2 * columns + 1,
        forall|fx: int|
            0 <= fx < 2 * columns + 1 ==> #[trigger] r@[fx] == walled_unit(
                rows as int,
                columns as int,
                fx,
                fy as int,
            ),
{
    let width: usize = 2 * columns as usize + 1;
    let mut r: Vec<Wall> = Vec::new();
    let mut fx: usize = 0;
    while fx < width
        invariant
            width == 2 * columns + 1,
            1 <= columns,
            fx <= width,
            r@.len() == fx,
            forall|i: int|
                0 <= i < fx ==> #[trigger] r@[i] == walled_unit(
                    rows as int,
                    columns as int,
                    i,
                    fy as int,
                ),
        decreases width - fx,
    {
        let w = if fy == 0 {
            if fx == 1 {
                Wall::Open(' ')
            } else {
                Wall::Horizontal(' ')
            }
        } else if fy == rows && fx == width - 2 {
            Wall::Open(' ')
        } else if fx % 2 == 0 {
            Wall::Vertical
        } else {
            Wall::Horizontal(' ')
        };
        r.push(w);
        fx += 1;
    }
    r
}

/// The frame of a maze with walls around every cell, open only above the top
/// left cell and below the bottom right one.
pub fn walled_maze(rows: u16, columns: u16) -> (frame: Vec<Vec<Wall>>)
    requires
        rows >= 1,
        columns >= 1,
    ensures
        frame@.len() == rows + 1,
        forall|y: int| 0 <= y < rows + 1 ==> #[trigger] frame@[y]@.len() == 2 * columns + 1,
        forall|y: int, x: int|
            0 <= y < rows + 1 && 0 <= x < 2 * columns + 1 ==> #[trigger] frame@[y]@[x]
                == walled_unit(rows as int, columns as int, x, y),
{
        let mut frame: Vec<Vec<Wall>> = Vec::new();
        let mut fy: u32 = 0;
        while fy <= rows as u32
            invariant
                1 <= rows,
                1 <= columns,
                fy <= rows + 1,
                frame@.len() == fy,
                forall|y: int, x: int|
                    0 <= y < fy && 0 <= x < 2 * columns + 1 ==> #[trigger] frame@[y]@[x]
                        == walled_unit(rows as int, columns as int, x, y),
                forall|y: int| 0 <= y < fy ==> #[trigger] frame@[y]@.len() == 2 * columns + 1,
            decreases rows + 1 - fy,
        {
            frame.push(walled_row(rows, columns, fy as u16));
            fy += 1;
        }
    frame
}

impl Maze {
    /// A maze with walls around every cell, open only at the entrance above
    /// `(0, 0)` and the exit below `(columns - 1, rows - 1)`.
    pub fn new_walled(rows: u16, columns: u16) -> (m: Maze)
        requires
            rows >= 1,
            1 <= columns <= 32767,
        ensures
            m@.rows == rows,
            m@.columns == columns,
            m@.is_walled(),
    {
        let frame = walled_maze(rows, columns);
        let m = Maze { rows, columns, frame };
        assert forall|y: int| 0 <= y < m@.height() implies #[trigger] m@.units[y]
            == m.frame@[y]@ by {}
        m
    }

    /// Constructs a maze from its size and frame.
    pub(crate) fn from_frame(rows: u16, columns: u16, frame: Vec<Vec<Wall>>) -> (m: Maze)
        ensures
            m@.rows == rows,
            m@.columns == columns,
            m@.units == frame@.map_values(|r: Vec<Wall>| r@),
    {
        Maze { rows, columns, frame }
    }

    pub fn rows(&self) -> (r: u16)
        ensures
            r == self@.rows,
    {
        self.rows
    }

    pub fn columns(&self) -> (r: u16)
        ensures
            r == self@.columns,
    {
        self.columns
    }

    /// Returns the unit at frame coordinates `(column, row)`.
    pub fn get_wall(&self, column: u16, row: u16) -> (w: Wall)
        requires
            self@.wf(),
            self@.in_frame(column as int, row as int),
        ensures
            w == self@.unit(column as int, row as int),
    {
        assert(self@.units[row as int] == self.frame@[row as int]@);
        self.frame[row as usize][column as usize]
    }

    /// Replaces the unit at frame coordinates `(column, row)`.
    pub fn set_wall(&mut self, column: u16, row: u16, cell: Wall)
        requires
            old(self)@.wf(),
            old(self)@.in_frame(column as int, row as int),
        ensures
            final(self)@ == old(self)@.with_unit(column as int, row as int, cell),
    {
        assert(old(self)@.units[row as int] == old(self).frame@[row as int]@);
        self.frame[row as usize][column as usize] = cell;
        assert(self@.units =~= old(self)@.with_unit(column as int, row as int, cell).units);
    }

    /// The neighbour of `c` in direction `d` (left, right, up, down for 0 to 3),
    /// if it lies in the grid.
    pub fn neighbor(&self, c: Cell, d: u8) -> (r: Option<Cell>)
        requires
            self@.wf(),
            self@.is_cell(pos(c)),
            d < 4,
        ensures
            r is Some <==> self@.is_cell(step(pos(c), d as int)),
            r matches Some(n) ==> pos(n) == step(pos(c), d as int),
    {
        let (x, y) = c;
        if d == 0 {
            if x == 0 { None } else { Some((x - 1, y)) }
        } else if d == 1 {
            if x + 1 >= self.columns { None } else { Some((x + 1, y)) }
        } else if d == 2 {
            if y == 0 { None } else { Some((x, y - 1)) }
        } else {
            if y + 1 >= self.rows { None } else { Some((x, y + 1)) }
        }
    }

    /// The neighbours of `c` in the grid, in the order left, right, up, down.
    pub fn neighbors(&self, c: Cell) -> (r: Vec<Cell>)
        requires
            self@.wf(),
            self@.is_cell(pos(c)),
        ensures
            r@.len() <= 4,
            r@.no_duplicates(),
            forall|n: Cell| #[trigger] r@.contains(n) <==> self@.is_cell(pos(n)) && adjacent(pos(c), pos(n)),
    {
        let mut r: Vec<Cell> = Vec::new();
        let mut d: u8 = 0;
        while d < 4
            invariant
                self@.wf(),
                self@.is_cell(pos(c)),
                d <= 4,
                r@.len() <= d,
                r@.no_duplicates(),
                forall|n: Cell|
                    #[trigger] r@.contains(n) <==> self@.is_cell(pos(n)) && exists|j: int|
                        0 <= j < d && pos(n) == step(pos(c), j),
            decreases 4 - d,
        {
            let ghost before = r@;
            match self.neighbor(c, d) {
                Some(n) => {
                    assert(!before.contains(n)) by {
                        if before.contains(n) {
                            let j = choose|j: int| 0 <= j < d && pos(n) == step(pos(c), j);
                        }
                    }
                    r.push(n);
                    assert forall|e: Cell| #[trigger] r@.contains(e) <==> self@.is_cell(pos(e))
                        && exists|j: int| 0 <= j < d + 1 && pos(e) == step(pos(c), j) by {
                        if e == n {
                            assert(r@[r@.len() - 1] == n);
                        }
                        if r@.contains(e) && e != n {
                            let k = choose|k: int| 0 <= k < r@.len() && r@[k] == e;
                            assert(before[k] == e);
                            assert(before.contains(e));
                        }
                        if self@.is_cell(pos(e)) && exists|j: int|
                            0 <= j < d + 1 && pos(e) == step(pos(c), j) {
                            if pos(e) != step(pos(c), d as int) {
                                let j = choose|j: int| 0 <= j < d + 1 && pos(e) == step(pos(c), j);
                                assert(0 <= j < d);
                                assert(before.contains(e));
                                let k = choose|k: int| 0 <= k < before.len() && before[k] == e;
                                assert(r@[k] == e);
                            } else {
                                assert(e == n);
                            }
                        }
                    }
                },
                None => {
                    assert forall|e: Cell| #[trigger] r@.contains(e) <==> self@.is_cell(pos(e))
                        && exists|j: int| 0 <= j < d + 1 && pos(e) == step(pos(c), j) by {
                        if self@.is_cell(pos(e)) && exists|j: int|
                            0 <= j < d + 1 && pos(e) == step(pos(c), j) {
                            let j = choose|j: int| 0 <= j < d + 1 && pos(e) == step(pos(c), j);
                            assert(j != d);
                        }
                    }
                },
            }
            d += 1;
        }
        assert forall|n: Cell| #[trigger] r@.contains(n) <==> self@.is_cell(pos(n)) && adjacent(
            pos(c),
            pos(n),
        ) by {
            if self@.is_cell(pos(n)) && adjacent(pos(c), pos(n)) {
                if pos(n) == step(pos(c), 0) {
                } else if pos(n) == step(pos(c), 1) {
                } else if pos(n) == step(pos(c), 2) {
                } else {
                    assert(pos(n) == step(pos(c), 3));
                }
            }
        }
        r
    }

    /// The frame coordinates of the unit between two adjacent cells.
    pub fn wall_between(&self, a: Cell, b: Cell) -> (w: (u16, u16))
        requires
            self@.wf(),
            self@.is_cell(pos(a)),
            self@.is_cell(pos(b)),
            adjacent(pos(a), pos(b)),
        ensures
            pos(w) == separator(pos(a), pos(b)),
            self@.in_frame(w.0 as int, w.1 as int),
    {
        let wy = if a.1 < b.1 { a.1 } else { b.1 };
        (a.0 + b.0 + 1, wy + 1)
    }

    /// One step between the two cells is possible.
    pub fn is_passable(&self, a: Cell, b: Cell) -> (r: bool)
        requires
            self@.wf(),
            self@.is_cell(pos(a)),
            self@.is_cell(pos(b)),
            adjacent(pos(a), pos(b)),
        ensures
            r == self@.passable(pos(a), pos(b)),
    {
        let (wx, wy) = self.wall_between(a, b);
        let w = self.get_wall(wx, wy);
        if wx % 2 == 0 {
            !(w == Wall::Vertical)
        } else {
            match w {
                Wall::Open(_) => true,
                _ => false,
            }
        }
    }

    /// Carves the passage between two adjacent cells that are not yet joined:
    /// a vertical wall becomes an underline, an underline becomes open.
    pub fn open(&mut self, a: Cell, b: Cell)
        requires
            old(self)@.wf(),
            old(self)@.is_cell(pos(a)),
            old(self)@.is_cell(pos(b)),
            adjacent(pos(a), pos(b)),
            !old(self)@.passable(pos(a), pos(b)),
        ensures
            final(self)@ == old(self)@.with_unit(
                separator(pos(a), pos(b)).0,
                separator(pos(a), pos(b)).1,
                carved_unit(separator(pos(a), pos(b)).0),
            ),
    {
        let (wx, wy) = self.wall_between(a, b);
        if wx % 2 == 0 {
            self.set_wall(wx, wy, Wall::Horizontal(' '));
        } else {
            self.set_wall(wx, wy, Wall::Open(' '));
        }
    }

    /// The entrance cell, below the opening in the top border.
    pub fn get_start(&self) -> (c: Cell)
        ensures
            c == (0u16, 0u16),
    {
        (0, 0)
    }

    /// The exit cell, above the opening in the bottom border.
    pub fn get_end(&self) -> (c: Cell)
        requires
            self@.wf(),
        ensures
            pos(c) == (self@.columns - 1, self@.rows - 1),
    {
        (self.columns - 1, self.rows - 1)
    }
}

} // verus!
