//! The grid model: a 9x9 sudoku held row major in a vector of 81 cells,
//! with the predicates that drive the search (fixed mask, per-cell validity,
//! whole-grid validity, solved check).

use vstd::prelude::*;

verus! {

/// A 9x9 sudoku grid. Cell (r, c) is `cells[r * 9 + c]`; 0 is a blank,
/// 1 through 9 a placed digit.
#[derive(Debug)]
pub struct Grid {
    pub cells: Vec<u8>,
}

impl View for Grid {
    type V = Seq<u8>;

    open spec fn view(&self) -> Seq<u8> {
        self.cells@
    }
}

/// A well-formed grid: exactly 81 cells, each in 0 ..= 9.
pub open spec fn grid_wf(s: Seq<u8>) -> bool {
    &&& s.len() == 81
    &&& forall|p: int| 0 <= p < 81 ==> s[p] <= 9
}

/// The row-major position of cell (r, c).
pub open spec fn cell_of(r: int, c: int) -> int {
    r * 9 + c
}

pub open spec fn in_grid(r: int, c: int) -> bool {
    &&& 0 <= r < 9
    &&& 0 <= c < 9
}

/// Two cells see each other: same row, same column, or same 3x3 box.
pub open spec fn same_unit(r1: int, c1: int, r2: int, c2: int) -> bool {
    ||| r1 == r2
    ||| c1 == c2
    ||| (r1 / 3 == r2 / 3 && c1 / 3 == c2 / 3)
}

/// Cell (r, c) is valid: no other cell of its row, column or box holds the
/// same value as (r, c), whatever that value is (0 included).
pub open spec fn cell_valid(s: Seq<u8>, r: int, c: int) -> bool {
    forall|r2: int, c2: int|
        in_grid(r2, c2) && !(r2 == r && c2 == c) && same_unit(r, c, r2, c2)
            ==> s[cell_of(r2, c2)] != s[cell_of(r, c)]
}

/// Every nonzero cell of the grid is valid.
pub open spec fn grid_valid(s: Seq<u8>) -> bool {
    forall|r: int, c: int|
        in_grid(r, c) && s[cell_of(r, c)] != 0 ==> #[trigger] cell_valid(s, r, c)
}

/// No cell is blank.
pub open spec fn solved(s: Seq<u8>) -> bool {
    forall|p: int| 0 <= p < 81 ==> s[p] != 0
}

/// `sol` keeps every given (nonzero) cell of `orig`.
pub open spec fn extends(sol: Seq<u8>, orig: Seq<u8>) -> bool {
    forall|p: int| 0 <= p < 81 && orig[p] != 0 ==> sol[p] == orig[p]
}

/// `sol` is a solution of the puzzle `orig`: a well-formed, complete,
/// conflict-free grid that keeps all of `orig`'s givens.
pub open spec fn is_solution(sol: Seq<u8>, orig: Seq<u8>) -> bool {
    &&& grid_wf(sol)
    &&& solved(sol)
    &&& grid_valid(sol)
    &&& extends(sol, orig)
}

impl Grid {
    pub open spec fn wf(&self) -> bool {
        grid_wf(self@)
    }

    /// Wraps a vector of cells as a grid when it is well formed.
    pub fn from_vec(cells: Vec<u8>) -> (r: Option<Grid>)
        ensures
            match r {
                Some(g) => g.wf() && g@ == cells@,
                None => !grid_wf(cells@),
            },
    {
        if cells.len() != 81 {
            return None;
        }
        let mut p: usize = 0;
        while p < 81
            invariant
                p <= 81,
                cells.len() == 81,
                forall|q: int| 0 <= q < p ==> cells@[q] <= 9,
            decreases 81 - p,
        {
            if cells[p] > 9 {
                return None;
            }
            p += 1;
        }
        Some(Grid { cells })
    }

    /// The value of cell (r, c).
    pub fn get(&self, r: usize, c: usize) -> (v: u8)
        requires
            self.wf(),
            r < 9,
            c < 9,
        ensures
            v == self@[cell_of(r as int, c as int)],
    {
        self.cells[r * 9 + c]
    }
}

/// The fixed mask of a grid: true exactly where the given value is nonzero.
/// Those cells are the ones the search must never touch.
pub fn sud_get_fixed(sud: &Grid) -> (fixed: Vec<bool>)
    requires
        sud.wf(),
    ensures
        fixed.len() == 81,
        forall|p: int| 0 <= p < 81 ==> fixed@[p] == (sud@[p] != 0),
{
    let mut fixed: Vec<bool> = Vec::new();
    let mut p: usize = 0;
    while p < 81
        invariant
            p <= 81,
            sud.wf(),
            fixed.len() == p,
            forall|q: int| 0 <= q < p ==> fixed@[q] == (sud@[q] != 0),
        decreases 81 - p,
    {
        fixed.push(sud.cells[p] > 0);
        p += 1;
    }
    fixed
}

/// True iff the grid has no blank cell.
pub fn sud_is_solved(sud: &Grid) -> (r: bool)
    requires
        sud.wf(),
    ensures
        r == solved(sud@),
{
    let mut p: usize = 0;
    while p < 81
        invariant
            p <= 81,
            sud.wf(),
            forall|q: int| 0 <= q < p ==> sud@[q] != 0,
        decreases 81 - p,
    {
        if sud.cells[p] == 0 {
            return false;
        }
        p += 1;
    }
    true
}

/// True iff cell (row, col) is valid: no other cell of its row, column or
/// 3x3 box holds the same value, the comparison being made against the
/// literal stored value (0 included).
pub fn sud_cell_is_valid(sud: &Grid, row: usize, col: usize) -> (r: bool)
    requires
        sud.wf(),
        row < 9,
        col < 9,
    ensures
        r == cell_valid(sud@, row as int, col as int),
{
    let val = sud.cells[row * 9 + col];

    // Check the row first: row-major order makes this the cheap scan.
    let mut c: usize = 0;
    while c < 9
        invariant
            c <= 9,
            sud.wf(),
            row < 9,
            col < 9,
            val == sud@[cell_of(row as int, col as int)],
            forall|c2: int|
                0 <= c2 < c && c2 != col ==> sud@[cell_of(row as int, c2)] != val,
        decreases 9 - c,
    {
        if c != col && sud.cells[row * 9 + c] == val {
            assert(!cell_valid(sud@, row as int, col as int)) by {
                assert(in_grid(row as int, c as int));
                assert(same_unit(row as int, col as int, row as int, c as int));
            }
            return false;
        }
        c += 1;
    }

    // Then the column.
    let mut r: usize = 0;
    while r < 9
        invariant
            r <= 9,
            sud.wf(),
            row < 9,
            col < 9,
            val == sud@[cell_of(row as int, col as int)],
            forall|r2: int|
                0 <= r2 < r && r2 != row ==> sud@[cell_of(r2, col as int)] != val,
        decreases 9 - r,
    {
        if r != row && sud.cells[r * 9 + col] == val {
            assert(!cell_valid(sud@, row as int, col as int)) by {
                assert(in_grid(r as int, col as int));
                assert(same_unit(row as int, col as int, r as int, col as int));
            }
            return false;
        }
        r += 1;
    }

    // Then the 3x3 box.
    let row_start = 3 * (row / 3);
    let col_start = 3 * (col / 3);
    let mut br: usize = row_start;
    while br < row_start + 3
        invariant
            sud.wf(),
            row < 9,
            col < 9,
            row_start == 3 * (row as int / 3),
            col_start == 3 * (col as int / 3),
            row_start <= br <= row_start + 3,
            val == sud@[cell_of(row as int, col as int)],
            forall|r2: int, c2: int|
                row_start <= r2 < br && col_start <= c2 < col_start + 3
                    && !(r2 == row && c2 == col) ==> sud@[cell_of(r2, c2)] != val,
        decreases row_start + 3 - br,
    {
        let mut bc: usize = col_start;
        while bc < col_start + 3
            invariant
                sud.wf(),
                row < 9,
                col < 9,
                row_start == 3 * (row as int / 3),
                col_start == 3 * (col as int / 3),
                row_start <= br < row_start + 3,
                col_start <= bc <= col_start + 3,
                val == sud@[cell_of(row as int, col as int)],
                forall|r2: int, c2: int|
                    row_start <= r2 < br && col_start <= c2 < col_start + 3
                        && !(r2 == row && c2 == col) ==> sud@[cell_of(r2, c2)] != val,
                forall|c2: int|
                    col_start <= c2 < bc && !(br == row && c2 == col)
                        ==> sud@[cell_of(br as int, c2)] != val,
            decreases col_start + 3 - bc,
        {
            if !(br == row && bc == col) && sud.cells[br * 9 + bc] == val {
                assert(!cell_valid(sud@, row as int, col as int)) by {
                    assert(in_grid(br as int, bc as int));
                    assert(br as int / 3 == row as int / 3);
                    assert(bc as int / 3 == col as int / 3);
                    assert(same_unit(row as int, col as int, br as int, bc as int));
                }
                return false;
            }
            bc += 1;
        }
        br += 1;
    }

    // No scan found a clash: every cell that sees (row, col) differs.
    assert(cell_valid(sud@, row as int, col as int)) by {
        assert forall|r2: int, c2: int|
            in_grid(r2, c2) && !(r2 == row && c2 == col)
                && same_unit(row as int, col as int, r2, c2)
            implies sud@[cell_of(r2, c2)] != val by {
            if r2 == row {
            } else if c2 == col {
            } else {
                assert(r2 / 3 == row as int / 3 && c2 / 3 == col as int / 3);
                assert(row_start <= r2 < row_start + 3);
                assert(col_start <= c2 < col_start + 3);
            }
        }
    }
    true
}

/// True iff every nonzero cell of the grid is valid.
pub fn sud_is_valid(sud: &Grid) -> (r: bool)
    requires
        sud.wf(),
    ensures
        r == grid_valid(sud@),
{
    let mut row: usize = 0;
    while row < 9
        invariant
            row <= 9,
            sud.wf(),
            forall|r2: int, c2: int|
                0 <= r2 < row && 0 <= c2 < 9 && sud@[cell_of(r2, c2)] != 0
                    ==> #[trigger] cell_valid(sud@, r2, c2),
        decreases 9 - row,
    {
        let mut col: usize = 0;
        while col < 9
            invariant
                row < 9,
                col <= 9,
                sud.wf(),
                forall|r2: int, c2: int|
                    0 <= r2 < row && 0 <= c2 < 9 && sud@[cell_of(r2, c2)] != 0
                        ==> #[trigger] cell_valid(sud@, r2, c2),
                forall|c2: int|
                    0 <= c2 < col && sud@[cell_of(row as int, c2)] != 0
                        ==> #[trigger] cell_valid(sud@, row as int, c2),
            decreases 9 - col,
        {
            if sud.cells[row * 9 + col] > 0 && !sud_cell_is_valid(sud, row, col) {
                return false;
            }
            col += 1;
        }
        row += 1;
    }
    true
}

/// A cell holding a digit is invalid exactly when a duplicate of that
/// nonzero value stands elsewhere in its row, column or box.
pub proof fn lemma_cell_valid_nonzero_duplicate(s: Seq<u8>, r: int, c: int)
    requires
        grid_wf(s),
        in_grid(r, c),
        s[cell_of(r, c)] != 0,
    ensures
        cell_valid(s, r, c) <==> !(exists|r2: int, c2: int|
            {
                &&& in_grid(r2, c2)
                &&& !(r2 == r && c2 == c)
                &&& same_unit(r, c, r2, c2)
                &&& s[cell_of(r2, c2)] != 0
                &&& s[cell_of(r2, c2)] == s[cell_of(r, c)]
            }),
{
    if !cell_valid(s, r, c) {
        let (r2, c2) = choose|r2: int, c2: int|
            in_grid(r2, c2) && !(r2 == r && c2 == c) && same_unit(r, c, r2, c2)
                && s[cell_of(r2, c2)] == s[cell_of(r, c)];
        assert(s[cell_of(r2, c2)] != 0);
    }
}

/// Placing equal nonzero values on two distinct cells that see each other
/// makes the grid invalid.
pub proof fn lemma_duplicate_invalidates(s: Seq<u8>, r1: int, c1: int, r2: int, c2: int)
    requires
        grid_wf(s),
        in_grid(r1, c1),
        in_grid(r2, c2),
        !(r1 == r2 && c1 == c2),
        same_unit(r1, c1, r2, c2),
        s[cell_of(r1, c1)] == s[cell_of(r2, c2)],
        s[cell_of(r1, c1)] != 0,
    ensures
        !grid_valid(s),
{
    assert(!cell_valid(s, r1, c1));
}

/// A grid whose givens already clash has no solution at all: the clash
/// survives in every extension.
pub proof fn lemma_invalid_givens_no_solution(orig: Seq<u8>)
    requires
        grid_wf(orig),
        !grid_valid(orig),
    ensures
        forall|s: Seq<u8>| !is_solution(s, orig),
{
    let (r, c) = choose|r: int, c: int|
        in_grid(r, c) && orig[cell_of(r, c)] != 0 && !cell_valid(orig, r, c);
    let (r2, c2) = choose|r2: int, c2: int|
        in_grid(r2, c2) && !(r2 == r && c2 == c) && same_unit(r, c, r2, c2)
            && orig[cell_of(r2, c2)] == orig[cell_of(r, c)];
    assert forall|s: Seq<u8>| !is_solution(s, orig) by {
        if is_solution(s, orig) {
            assert(0 <= cell_of(r, c) < 81);
            assert(0 <= cell_of(r2, c2) < 81);
            assert(s[cell_of(r, c)] == orig[cell_of(r, c)]);
            assert(s[cell_of(r2, c2)] == orig[cell_of(r2, c2)]);
            assert(!cell_valid(s, r, c));
        }
    }
}

/// A complete, conflict-free grid is a solution of itself.
pub proof fn lemma_full_valid_is_solution(orig: Seq<u8>)
    requires
        grid_wf(orig),
        solved(orig),
        grid_valid(orig),
    ensures
        is_solution(orig, orig),
{
}

/// A complete, conflict-free grid is its own one and only solution.
pub proof fn lemma_full_grid_unique_solution(orig: Seq<u8>)
    requires
        grid_wf(orig),
        solved(orig),
        grid_valid(orig),
    ensures
        forall|s: Seq<u8>| #[trigger] is_solution(s, orig) <==> s == orig,
{
    lemma_full_valid_is_solution(orig);
    assert forall|s: Seq<u8>| #[trigger] is_solution(s, orig) <==> s == orig by {
        if is_solution(s, orig) {
            lemma_solution_of_full(s, orig);
        }
    }
}

/// A fully given puzzle has no solution but itself.
pub proof fn lemma_solution_of_full(s: Seq<u8>, orig: Seq<u8>)
    requires
        grid_wf(orig),
        solved(orig),
        is_solution(s, orig),
    ensures
        s == orig,
{
    assert forall|p: int| 0 <= p < 81 implies s[p] == orig[p] by {
        assert(orig[p] != 0);
    }
    assert(s =~= orig);
}

} // verus!
