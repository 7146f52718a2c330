//! The text form of a maze: one line per frame row, `_` for a horizontal
//! wall, `|` for a vertical one and a space for an open unit.
use vstd::prelude::*;

use crate::maze::{carved_unit, walled_unit, Maze, MazeView, Wall};

verus! {

/// Why a text is not a maze. Rows and columns count from 1.
#[derive(Clone, Copy, Debug, PartialEq, Eq, Structural)]
pub enum ParsingError {
    BadCharacter(usize, usize, char),
    NotEnoughRows,
    NotEnoughColumns,
    EvenNumberOfColumns,
    VaryingRowLengths(usize),
    TooManyRows,
    TooManyColumns,
}

/// The character that stands for a unit.
pub open spec fn char_of(w: Wall) -> char {
    match w {
        Wall::Horizontal(_) => '_',
        Wall::Vertical => '|',
        Wall::Open(_) => ' ',
    }
}

/// The character stands for a unit.
pub open spec fn is_unit_char(c: char) -> bool {
    c == '_' || c == '|' || c == ' '
}

/// The unit a character stands for, with a blank displayed character.
pub open spec fn unit_for(c: char) -> Wall {
    if c == '_' {
        Wall::Horizontal(' ')
    } else if c == '|' {
        Wall::Vertical
    } else {
        Wall::Open(' ')
    }
}

/// A line without the carriage return that ends it, if any.
pub open spec fn strip_cr(l: Seq<char>) -> Seq<char> {
    if l.len() > 0 && l.last() == '\r' {
        l.drop_last()
    } else {
        l
    }
}

/// The text cut at each line feed, each piece before a line feed without its
/// final carriage return. There is always at least one piece.
pub open spec fn pieces(t: Seq<char>) -> Seq<Seq<char>>
    decreases t.len(),
{
    if t.len() == 0 {
        seq![Seq::<char>::empty()]
    } else {
        let p = pieces(t.drop_last());
        if t.last() == '\n' {
            p.update(p.len() - 1, strip_cr(p.last())).push(Seq::<char>::empty())
        } else {
            p.update(p.len() - 1, p.last().push(t.last()))
        }
    }
}

/// The lines of a text as `str::lines` gives them: an empty piece after the
/// last line feed is no line.
pub open spec fn lines_of(t: Seq<char>) -> Seq<Seq<char>> {
    let p = pieces(t);
    if p.last().len() == 0 {
        p.drop_last()
    } else {
        p
    }
}

/// The index of the first character of `l` from `i` on that stands for no
/// unit, or the length of `l`.
pub open spec fn first_bad(l: Seq<char>, i: int) -> int
    decreases l.len() - i,
{
    if i >= l.len() {
        l.len() as int
    } else if !is_unit_char(l[i]) {
        i
    } else {
        first_bad(l, i + 1)
    }
}

/// What is wrong with line `r` of a text of lines `w` long, if anything.
pub open spec fn row_problem(l: Seq<char>, w: int, r: int) -> Option<ParsingError> {
    if l.len() != w {
        Some(ParsingError::VaryingRowLengths((r + 1) as usize))
    } else if first_bad(l, 0) < l.len() {
        Some(
            ParsingError::BadCharacter(
                (r + 1) as usize,
                (first_bad(l, 0) + 1) as usize,
                l[first_bad(l, 0)],
            ),
        )
    } else {
        None
    }
}

/// The problem of the first line from `r` on that has one.
pub open spec fn first_problem(ls: Seq<Seq<char>>, w: int, r: int) -> Option<ParsingError>
    decreases ls.len() - r,
{
    if r < 0 || r >= ls.len() {
        None
    } else if row_problem(ls[r], w, r) is Some {
        row_problem(ls[r], w, r)
    } else {
        first_problem(ls, w, r + 1)
    }
}

/// The maze a text describes, or what is wrong with it: too many lines, none,
/// too long a first line, a single line, a first line shorter than three or
/// of even length, and then, line by line, a line of another length or a
/// character that stands for no unit.
pub open spec fn parse_view(t: Seq<char>) -> Result<MazeView, ParsingError> {
    let ls = lines_of(t);
    if ls.len() > u16::MAX {
        Err(ParsingError::TooManyRows)
    } else if ls.len() == 0 {
        Err(ParsingError::NotEnoughRows)
    } else if ls[0].len() > u16::MAX {
        Err(ParsingError::TooManyColumns)
    } else if ls.len() <= 1 {
        Err(ParsingError::NotEnoughRows)
    } else if ls[0].len() <= 2 {
        Err(ParsingError::NotEnoughColumns)
    } else if ls[0].len() % 2 == 0 {
        Err(ParsingError::EvenNumberOfColumns)
    } else {
        match first_problem(ls, ls[0].len() as int, 0) {
            Some(e) => Err(e),
            None => Ok(
                MazeView {
                    rows: ls.len() - 1,
                    columns: (ls[0].len() - 1) / 2,
                    units: ls.map_values(|l: Seq<char>| l.map_values(|c: char| unit_for(c))),
                },
            ),
        }
    }
}

/// The frame rows of a maze as characters.
pub open spec fn char_rows(m: MazeView) -> Seq<Seq<char>> {
    m.units.map_values(|row: Seq<Wall>| row.map_values(|w: Wall| char_of(w)))
}

/// The rows, each followed by a line feed.
pub open spec fn joined(rows: Seq<Seq<char>>) -> Seq<char>
    decreases rows.len(),
{
    if rows.len() == 0 {
        Seq::<char>::empty()
    } else {
        joined(rows.drop_last()) + rows.last().push('\n')
    }
}

/// The text form of a maze.
pub open spec fn text_of(m: MazeView) -> Seq<char> {
    joined(char_rows(m))
}

proof fn lemma_pieces_nonempty(t: Seq<char>)
    ensures
        pieces(t).len() >= 1,
    decreases t.len(),
{
    if t.len() > 0 {
        lemma_pieces_nonempty(t.drop_last());
    }
}

/// Text without line feeds extends the last piece.
proof fn lemma_pieces_append(s: Seq<char>, l: Seq<char>)
    requires
        forall|i: int| 0 <= i < l.len() ==> l[i] != '\n',
    ensures
        pieces(s + l) == pieces(s).update(pieces(s).len() - 1, pieces(s).last() + l),
    decreases l.len(),
{
    lemma_pieces_nonempty(s);
    if l.len() == 0 {
        assert(s + l =~= s);
        assert(pieces(s).last() + l =~= pieces(s).last());
        assert(pieces(s).update(pieces(s).len() - 1, pieces(s).last()) =~= pieces(s));
    } else {
        let l0 = l.drop_last();
        lemma_pieces_append(s, l0);
        assert((s + l).drop_last() =~= s + l0);
        assert((s + l).last() == l.last());
        assert(pieces(s).last() + l0 + seq![l.last()] =~= pieces(s).last() + l);
        assert((pieces(s).last() + l0).push(l.last()) =~= pieces(s).last() + l);
        let p0 = pieces(s + l0);
        assert(p0.update(p0.len() - 1, p0.last().push(l.last())) =~= pieces(s).update(
            pieces(s).len() - 1,
            pieces(s).last() + l,
        ));
    }
}

/// Rows without line feeds, none ending in a carriage return, joined with
/// line feeds, come back as the pieces, with an empty one after the last.
proof fn lemma_pieces_joined(rows: Seq<Seq<char>>)
    requires
        forall|r: int, i: int|
            0 <= r < rows.len() && 0 <= i < rows[r].len() ==> #[trigger] rows[r][i] != '\n'
                && rows[r][i] != '\r',
    ensures
        pieces(joined(rows)) == rows.push(Seq::<char>::empty()),
    decreases rows.len(),
{
    if rows.len() == 0 {
        assert(pieces(joined(rows)) =~= rows.push(Seq::<char>::empty()));
    } else {
        let r0 = rows.drop_last();
        let l = rows.last();
        lemma_pieces_joined(r0);
        let s = joined(r0);
        assert forall|i: int| 0 <= i < l.len() implies l[i] != '\n' by {
            assert(rows[rows.len() - 1][i] != '\n');
        }
        lemma_pieces_append(s, l);
        let t = joined(rows);
        assert(t =~= (s + l).push('\n'));
        assert(t.drop_last() =~= s + l);
        let p = pieces(s + l);
        assert(p =~= rows);
        if l.len() > 0 {
            assert(l.last() != '\r') by {
                assert(rows[rows.len() - 1][l.len() - 1] != '\r');
            }
        }
        assert(strip_cr(p.last()) == p.last());
        assert(p.update(p.len() - 1, p.last()) =~= p);
    }
}

proof fn lemma_first_bad_none(l: Seq<char>, i: int)
    requires
        0 <= i <= l.len(),
        forall|j: int| 0 <= j < l.len() ==> is_unit_char(#[trigger] l[j]),
    ensures
        first_bad(l, i) == l.len(),
    decreases l.len() - i,
{
    if i < l.len() {
        lemma_first_bad_none(l, i + 1);
    }
}

proof fn lemma_first_problem_none(ls: Seq<Seq<char>>, w: int, r: int)
    requires
        0 <= r <= ls.len(),
        forall|j: int| 0 <= j < ls.len() ==> (#[trigger] ls[j]).len() == w,
        forall|j: int, i: int|
            0 <= j < ls.len() && 0 <= i < ls[j].len() ==> is_unit_char(#[trigger] ls[j][i]),
    ensures
        first_problem(ls, w, r) is None,
    decreases ls.len() - r,
{
    if r < ls.len() {
        assert forall|i: int| 0 <= i < ls[r].len() implies is_unit_char(#[trigger] ls[r][i]) by {
            assert(is_unit_char(ls[r][i]));
        }
        lemma_first_bad_none(ls[r], 0);
        lemma_first_problem_none(ls, w, r + 1);
    }
}

/// Writing a generated maze as text and reading the text back gives the same
/// maze, for every size whose text has at most `u16::MAX` lines.
pub proof fn lemma_text_round_trip(m: MazeView)
    requires
        m.is_carving(),
        m.rows < u16::MAX,
    ensures
        parse_view(text_of(m)) == Ok::<MazeView, ParsingError>(m),
{
    let rows = char_rows(m);
    assert forall|r: int, i: int|
        0 <= r < rows.len() && 0 <= i < rows[r].len() implies #[trigger] rows[r][i] != '\n'
        && rows[r][i] != '\r' && is_unit_char(rows[r][i]) by {
        assert(rows[r][i] == char_of(m.units[r][i]));
    }
    lemma_pieces_joined(rows);
    assert(lines_of(text_of(m)) =~= rows);
    let w = rows[0].len() as int;
    assert(w == m.width());
    assert forall|j: int| 0 <= j < rows.len() implies (#[trigger] rows[j]).len() == w by {
        assert(m.units[j].len() == m.width());
    }
    lemma_first_problem_none(rows, w, 0);
    let units = rows.map_values(|l: Seq<char>| l.map_values(|c: char| unit_for(c)));
    assert(units.len() == m.units.len());
    assert forall|j: int| 0 <= j < units.len() implies #[trigger] units[j] == m.units[j] by {
        assert(units[j].len() == m.units[j].len());
        assert forall|i: int| 0 <= i < units[j].len() implies units[j][i] == m.units[j][i] by {
            assert(m.in_frame(i, j));
            assert(m.unit(i, j) == m.units[j][i]);
            let u = m.units[j][i];
            assert(u == walled_unit(m.rows, m.columns, i, j) || u == carved_unit(i));
        }
        assert(units[j] =~= m.units[j]);
    }
    assert(units =~= m.units);
    assert((w - 1) / 2 == m.columns);
}

/// Cuts a text into its lines.
fn split_lines(text: &Vec<char>) -> (ls: Vec<Vec<char>>)
    ensures
        ls@.map_values(|l: Vec<char>| l@) == lines_of(text@),
{
    let mut done: Vec<Vec<char>> = Vec::new();
    let mut cur: Vec<char> = Vec::new();
    let mut i: usize = 0;
    while i < text.len()
        invariant
            i <= text@.len(),
            pieces(text@.take(i as int)) == done@.map_values(|l: Vec<char>| l@).push(cur@),
        decreases text@.len() - i,
    {
        let ch = text[i];
        let ghost t1 = text@.take(i as int + 1);
        assert(t1.drop_last() =~= text@.take(i as int));
        assert(t1.last() == ch);
        if ch == '\n' {
            let ghost before = cur@;
            if cur.len() > 0 && cur[cur.len() - 1] == '\r' {
                cur.pop();
            }
            assert(cur@ == strip_cr(before));
            let ghost d0 = done@;
            done.push(cur);
            cur = Vec::new();
            assert(done@.map_values(|l: Vec<char>| l@) =~= d0.map_values(|l: Vec<char>| l@).push(
                strip_cr(before),
            ));
            assert(pieces(t1) =~= done@.map_values(|l: Vec<char>| l@).push(cur@));
        } else {
            cur.push(ch);
            assert(pieces(t1) =~= done@.map_values(|l: Vec<char>| l@).push(cur@));
        }
        i += 1;
    }
    assert(text@.take(text@.len() as int) =~= text@);
    let ghost d0 = done@;
    if cur.len() > 0 {
        done.push(cur);
        assert(done@.map_values(|l: Vec<char>| l@) =~= d0.map_values(|l: Vec<char>| l@).push(
            pieces(text@).last(),
        ));
    } else {
        assert(d0.map_values(|l: Vec<char>| l@) =~= pieces(text@).drop_last());
    }
    done
}

impl Maze {
    /// Reads a maze from its text form. Each character becomes a unit with a
    /// blank displayed character.
    pub fn parse(text: &Vec<char>) -> (r: Result<Maze, ParsingError>)
        ensures
            match r {
                Ok(m) => parse_view(text@) == Ok::<MazeView, ParsingError>(m@) && m@.wf(),
                Err(e) => parse_view(text@) == Err::<MazeView, ParsingError>(e),
            },
    {
        let ls = split_lines(text);
        let ghost lv = ls@.map_values(|l: Vec<char>| l@);
        if ls.len() > 65535 {
            return Err(ParsingError::TooManyRows);
        }
        if ls.len() == 0 {
            return Err(ParsingError::NotEnoughRows);
        }
        assert(lv[0] == ls@[0]@);
        let w = ls[0].len();
        if w > 65535 {
            return Err(ParsingError::TooManyColumns);
        }
        if ls.len() <= 1 {
            return Err(ParsingError::NotEnoughRows);
        }
        if w <= 2 {
            return Err(ParsingError::NotEnoughColumns);
        }
        if w % 2 == 0 {
            return Err(ParsingError::EvenNumberOfColumns);
        }
        let mut frame: Vec<Vec<Wall>> = Vec::new();
        let mut r: usize = 0;
        while r < ls.len()
            invariant
                lv == ls@.map_values(|l: Vec<char>| l@),
                lv == lines_of(text@),
                lv.len() == ls@.len(),
                2 <= lv.len() <= 65535,
                3 <= w <= 65535,
                w % 2 == 1,
                w == lv[0].len(),
                r <= ls@.len(),
                frame@.len() == r,
                first_problem(lv, w as int, 0) == first_problem(lv, w as int, r as int),
                forall|j: int|
                    0 <= j < r ==> (#[trigger] frame@[j])@ == lv[j].map_values(
                        |c: char| unit_for(c),
                    ),
                forall|j: int| 0 <= j < r ==> (#[trigger] lv[j]).len() == w,
            decreases ls@.len() - r,
        {
            let line = &ls[r];
            assert(lv[r as int] == line@);
            if line.len() != w {
                return Err(ParsingError::VaryingRowLengths(r + 1));
            }
            let mut row: Vec<Wall> = Vec::new();
            let mut c: usize = 0;
            while c < w
                invariant
                    line@ == lv[r as int],
                    line@.len() == w,
                    lv == lines_of(text@),
                    2 <= lv.len() <= 65535,
                    r < lv.len(),
                    3 <= w <= 65535,
                    w % 2 == 1,
                    w == lv[0].len(),
                    first_problem(lv, w as int, 0) == first_problem(lv, w as int, r as int),
                    c <= w,
                    first_bad(line@, 0) == first_bad(line@, c as int),
                    row@ == line@.take(c as int).map_values(|ch: char| unit_for(ch)),
                decreases w - c,
            {
                let ch = line[c];
                let u = if ch == '_' {
                    Wall::Horizontal(' ')
                } else if ch == '|' {
                    Wall::Vertical
                } else if ch == ' ' {
                    Wall::Open(' ')
                } else {
                    return Err(ParsingError::BadCharacter(r + 1, c + 1, ch));
                };
                row.push(u);
                assert(line@.take(c as int + 1).map_values(|ch: char| unit_for(ch)) =~= line@.take(
                    c as int,
                ).map_values(|ch: char| unit_for(ch)).push(unit_for(ch)));
                c += 1;
            }
            assert(line@.take(w as int) =~= line@);
            assert(first_bad(line@, 0) == w);
            frame.push(row);
            r += 1;
        }
        assert(first_problem(lv, w as int, r as int) is None);
        assert(lines_of(text@) == lv);
        let m = Maze::from_frame((ls.len() - 1) as u16, ((w - 1) / 2) as u16, frame);
        assert(m@.units =~= lv.map_values(|l: Seq<char>| l.map_values(|c: char| unit_for(c))));
        assert forall|fy: int| 0 <= fy < m@.height() implies #[trigger] m@.units[fy].len()
            == m@.width() by {
            assert(lv[fy].len() == w);
        }
        Ok(m)
    }

    /// Writes the maze in its text form, each frame row followed by a line
    /// feed.
    pub fn to_text(&self) -> (t: Vec<char>)
        requires
            self@.wf(),
        ensures
            t@ == text_of(self@),
    {
        let ghost rows = char_rows(self@);
        let mut t: Vec<char> = Vec::new();
        let height = self.rows() as usize + 1;
        let width = 2 * self.columns() as usize + 1;
        let mut fy: usize = 0;
        while fy < height
            invariant
                self@.wf(),
                height == self@.height(),
                width == self@.width(),
                rows == char_rows(self@),
                fy <= height,
                t@ == joined(rows.take(fy as int)),
            decreases height - fy,
        {
            let ghost row = rows[fy as int];
            let ghost before = t@;
            let mut fx: usize = 0;
            while fx < width
                invariant
                    self@.wf(),
                    height == self@.height(),
                    width == self@.width(),
                    fy < height,
                    rows == char_rows(self@),
                    row == rows[fy as int],
                    row.len() == width,
                    fx <= width,
                    t@ == before + row.take(fx as int),
                decreases width - fx,
            {
                let w = self.get_wall(fx as u16, fy as u16);
                let ch = match w {
                    Wall::Horizontal(_) => '_',
                    Wall::Vertical => '|',
                    Wall::Open(_) => ' ',
                };
                t.push(ch);
                assert(row[fx as int] == char_of(self@.unit(fx as int, fy as int)));
                assert(row.take(fx as int + 1) =~= row.take(fx as int).push(ch));
                assert(t@ =~= before + row.take(fx as int + 1));
                fx += 1;
            }
            t.push('\n');
            proof {
                assert(row.take(width as int) =~= row);
                assert(rows.take(fy as int + 1).drop_last() =~= rows.take(fy as int));
                assert(t@ =~= joined(rows.take(fy as int + 1)));
            }
            fy += 1;
        }
        assert(rows.take(height as int) =~= rows);
        t
    }
}

} // verus!
