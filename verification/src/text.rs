//! Reading a grid out of the lines of a puzzle file, and rendering a grid
//! as printable lines. Both ends work on plain bytes; opening files and
//! writing to the terminal stay with the caller.

use vstd::prelude::*;

use crate::grid::Grid;
use crate::grid::cell_of;
use crate::grid::grid_wf;

verus! {

/// Why a batch of lines does not make a grid. Line numbers are 1-based and
/// count every line of the file, skipped ones included.
#[derive(Clone, Copy, Debug, PartialEq, Eq, Structural)]
pub enum ParseError {
    /// A puzzle line does not hold exactly 9 cells once whitespace is gone.
    BadLineLength { line: usize },
    /// A puzzle line holds a byte that is neither a digit nor a dot.
    BadCharacter { line: usize },
    /// A tenth puzzle line follows a complete grid.
    TooManyRows { line: usize },
    /// The lines ran out before 9 puzzle rows were read.
    TooFewRows { rows: usize },
}

/// An ASCII whitespace byte.
pub open spec fn is_ws(b: u8) -> bool {
    b == 32 || (9 <= b <= 13)
}

/// The line with all whitespace removed, outer and inner alike.
pub open spec fn stripped(line: Seq<u8>) -> Seq<u8>
    decreases line.len(),
{
    if line.len() == 0 {
        Seq::empty()
    } else {
        stripped(line.drop_last()) + if is_ws(line.last()) {
            Seq::<u8>::empty()
        } else {
            seq![line.last()]
        }
    }
}

/// A line the reader passes over: blank, or a comment opened by '#'.
pub open spec fn is_skip(t: Seq<u8>) -> bool {
    t.len() == 0 || t[0] == 35
}

/// A byte that may stand in a puzzle row: a digit, or '.' for a blank.
pub open spec fn is_cell_byte(b: u8) -> bool {
    b == 46 || (48 <= b <= 57)
}

/// The cell value a puzzle byte stands for.
pub open spec fn cell_value(b: u8) -> u8 {
    if b == 46 {
        0u8
    } else {
        (b - 48) as u8
    }
}

/// The cell values of one stripped puzzle row.
pub open spec fn row_values(t: Seq<u8>) -> Seq<u8> {
    Seq::new(t.len(), |k: int| cell_value(t[k]))
}

/// One step of reading: line `i` is skipped, rejected, or turned into nine
/// more cells; the lines run out into a complete grid or a row-count error.
pub open spec fn parse_rec(lines: Seq<Seq<u8>>, i: int, cells: Seq<u8>) -> Result<
    Seq<u8>,
    ParseError,
>
    decreases lines.len() - i when 0 <= i <= lines.len()
{
    if i >= lines.len() {
        if cells.len() == 81 {
            Ok(cells)
        } else {
            Err(ParseError::TooFewRows { rows: (cells.len() / 9) as usize })
        }
    } else {
        let t = stripped(lines[i]);
        if is_skip(t) {
            parse_rec(lines, i + 1, cells)
        } else if t.len() != 9 {
            Err(ParseError::BadLineLength { line: (i + 1) as usize })
        } else if cells.len() >= 81 {
            Err(ParseError::TooManyRows { line: (i + 1) as usize })
        } else if exists|k: int| 0 <= k < 9 && !is_cell_byte(t[k]) {
            Err(ParseError::BadCharacter { line: (i + 1) as usize })
        } else {
            parse_rec(lines, i + 1, cells + row_values(t))
        }
    }
}

/// What the lines of a puzzle file denote: a grid, or the first error.
pub open spec fn parse_spec(lines: Seq<Seq<u8>>) -> Result<Seq<u8>, ParseError> {
    parse_rec(lines, 0, Seq::empty())
}

/// Removes every whitespace byte of a line.
fn strip_line(line: &Vec<u8>) -> (t: Vec<u8>)
    ensures
        t@ == stripped(line@),
{
    let mut t: Vec<u8> = Vec::new();
    let mut i: usize = 0;
    while i < line.len()
        invariant
            i <= line.len(),
            t@ == stripped(line@.take(i as int)),
        decreases line.len() - i,
    {
        let b = line[i];
        proof {
            assert(line@.take(i + 1).drop_last() =~= line@.take(i as int));
            assert(line@.take(i + 1).last() == b);
        }
        if !(b == 32 || (9 <= b && b <= 13)) {
            t.push(b);
            proof {
                assert(t@ =~= stripped(line@.take(i + 1)));
            }
        } else {
            proof {
                assert(t@ =~= stripped(line@.take(i + 1)));
            }
        }
        i += 1;
    }
    proof {
        assert(line@.take(line@.len() as int) =~= line@);
    }
    t
}

/// Builds a grid from the lines of a puzzle file. Blank lines and '#'
/// comments are passed over; the other lines, whitespace removed, must be
/// exactly nine rows of nine cells, digits or '.'. The error names the
/// offending line by its 1-based number among all lines.
pub fn sud_parse(lines: &Vec<Vec<u8>>) -> (r: Result<Grid, ParseError>)
    requires
        lines.len() < usize::MAX,
    ensures
        match r {
            Ok(g) => g.wf() && parse_spec(lines.deep_view()) == Ok::<Seq<u8>, ParseError>(g@),
            Err(e) => parse_spec(lines.deep_view()) == Err::<Seq<u8>, ParseError>(e),
        },
{
    let ghost dv: Seq<Seq<u8>> = lines.deep_view();
    let mut cells: Vec<u8> = Vec::new();
    let mut i: usize = 0;
    while i < lines.len()
        invariant
            i <= lines.len(),
            lines.len() < usize::MAX,
            dv == lines.deep_view(),
            dv.len() == lines.len(),
            cells.len() <= 81,
            cells.len() % 9 == 0,
            forall|q: int| 0 <= q < cells.len() ==> cells@[q] <= 9,
            parse_spec(dv) == parse_rec(dv, i as int, cells@),
        decreases lines.len() - i,
    {
        proof {
            assert(dv[i as int] == lines@[i as int]@);
        }
        let t = strip_line(&lines[i]);
        if t.len() == 0 || t[0] == 35 {
            i += 1;
            continue;
        }
        if t.len() != 9 {
            return Err(ParseError::BadLineLength { line: i + 1 });
        }
        if cells.len() >= 81 {
            return Err(ParseError::TooManyRows { line: i + 1 });
        }
        let mut k: usize = 0;
        while k < 9
            invariant
                k <= 9,
                i < lines.len(),
                lines.len() < usize::MAX,
                dv == lines.deep_view(),
                dv.len() == lines.len(),
                t@ == stripped(dv[i as int]),
                !is_skip(t@),
                t.len() == 9,
                cells.len() < 81,
                parse_spec(dv) == parse_rec(dv, i as int, cells@),
                forall|q: int| 0 <= q < k ==> is_cell_byte(t@[q]),
            decreases 9 - k,
        {
            let b = t[k];
            if !(b == 46 || (48 <= b && b <= 57)) {
                assert(!is_cell_byte(t@[k as int]));
                return Err(ParseError::BadCharacter { line: i + 1 });
            }
            k += 1;
        }
        assert(!(exists|q: int| 0 <= q < 9 && !is_cell_byte(t@[q])));
        let ghost cells0 = cells@;
        proof {
            assert(cells0 + row_values(t@).take(0) =~= cells0);
        }
        let mut c: usize = 0;
        while c < 9
            invariant
                c <= 9,
                t.len() == 9,
                forall|q: int| 0 <= q < 9 ==> is_cell_byte(t@[q]),
                cells@ == cells0 + row_values(t@).take(c as int),
                forall|q: int| 0 <= q < cells0.len() ==> cells0[q] <= 9,
                forall|q: int| 0 <= q < cells.len() ==> cells@[q] <= 9,
                cells0.len() <= 72,
                cells.len() == cells0.len() + c,
            decreases 9 - c,
        {
            let b = t[c];
            let v: u8 = if b == 46 {
                0
            } else {
                b - 48
            };
            assert(v == cell_value(t@[c as int]));
            cells.push(v);
            proof {
                assert(cells@ =~= cells0 + row_values(t@).take(c + 1));
            }
            c += 1;
        }
        proof {
            assert(row_values(t@).take(9) =~= row_values(t@));
            assert(cells@ == cells0 + row_values(t@));
        }
        i += 1;
    }
    if cells.len() == 81 {
        let g = Grid { cells };
        assert(g.wf());
        Ok(g)
    } else {
        Err(ParseError::TooFewRows { rows: cells.len() / 9 })
    }
}

/// The byte a cell is shown as: '.' for a blank, the digit otherwise.
pub open spec fn digit_byte(v: u8) -> u8 {
    if v == 0 {
        46u8
    } else {
        (48 + v) as u8
    }
}

/// One printed row: the nine cells in three groups of three, the groups
/// parted by single spaces.
pub open spec fn row_bytes(s: Seq<u8>, r: int) -> Seq<u8> {
    seq![
        digit_byte(s[cell_of(r, 0)]),
        digit_byte(s[cell_of(r, 1)]),
        digit_byte(s[cell_of(r, 2)]),
        32u8,
        digit_byte(s[cell_of(r, 3)]),
        digit_byte(s[cell_of(r, 4)]),
        digit_byte(s[cell_of(r, 5)]),
        32u8,
        digit_byte(s[cell_of(r, 6)]),
        digit_byte(s[cell_of(r, 7)]),
        digit_byte(s[cell_of(r, 8)]),
    ]
}

/// The grid's row shown on printed line `i`: rows 0 to 8 stand on lines
/// 0 to 2, 4 to 6 and 8 to 10; lines 3 and 7 are the blank separators.
pub open spec fn line_row(i: int) -> int {
    if i < 3 {
        i
    } else if i < 7 {
        i - 1
    } else {
        i - 2
    }
}

/// The bytes of printed line `i`.
pub open spec fn render_line(s: Seq<u8>, i: int) -> Seq<u8> {
    if i == 3 || i == 7 {
        Seq::empty()
    } else {
        row_bytes(s, line_row(i))
    }
}

/// Renders one row of the grid as its printed bytes.
fn fmt_row(sud: &Grid, r: usize) -> (line: Vec<u8>)
    requires
        sud.wf(),
        r < 9,
    ensures
        line@ == row_bytes(sud@, r as int),
{
    let mut line: Vec<u8> = Vec::new();
    let mut c: usize = 0;
    while c < 9
        invariant
            c <= 9,
            sud.wf(),
            r < 9,
            line@ == row_bytes(sud@, r as int).take(c as int + if c > 6 { 2int } else if c > 3 { 1int } else { 0int }),
        decreases 9 - c,
    {
        if c == 3 || c == 6 {
            line.push(32);
        }
        let v = sud.get(r, c);
        let b: u8 = if v == 0 {
            46
        } else {
            48 + v
        };
        line.push(b);
        proof {
            assert(line@ =~= row_bytes(sud@, r as int).take(
                c + 1 + if c + 1 > 6 { 2int } else if c + 1 > 3 { 1int } else { 0int }));
        }
        c += 1;
    }
    proof {
        assert(row_bytes(sud@, r as int).take(11) =~= row_bytes(sud@, r as int));
    }
    line
}

/// Renders the grid as its 11 printed lines: nine rows in three groups of
/// three columns, a blank line after the third and the sixth row.
pub fn sud_format(sud: &Grid) -> (out: Vec<Vec<u8>>)
    requires
        sud.wf(),
    ensures
        out.len() == 11,
        forall|i: int| 0 <= i < 11 ==> out@[i]@ == render_line(sud@, i),
{
    let mut out: Vec<Vec<u8>> = Vec::new();
    let mut r: usize = 0;
    while r < 9
        invariant
            r <= 9,
            sud.wf(),
            out.len() == r + if r > 5 { 2int } else if r > 2 { 1int } else { 0int },
            forall|i: int| 0 <= i < out.len() ==> out@[i]@ == render_line(sud@, i),
        decreases 9 - r,
    {
        let line = fmt_row(sud, r);
        out.push(line);
        if r == 2 || r == 5 {
            out.push(Vec::new());
        }
        r += 1;
    }
    out
}

} // verus!
