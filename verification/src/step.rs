//! The cursor stepper: from a position, find the next (or previous)
//! non-fixed cell in row-major order, or report that the walk left the grid.

use vstd::prelude::*;

verus! {

/// The row-major position a step starts from. The synthetic start "one step
/// before the first cell" is passed as column `usize::MAX` on row 0 and
/// stands for position -1.
pub open spec fn start_pos(row: int, col: int) -> int {
    if col == usize::MAX {
        -1
    } else {
        row * 9 + col
    }
}

/// What a forward step must return: the sentinel (9, 9) when every position
/// after `start` is fixed, else the first non-fixed position after `start`.
pub open spec fn step_fwd_ok(m: Seq<bool>, start: int, rr: int, rc: int) -> bool {
    ||| (rr == 9 && rc == 9 && (forall|j: int| start < j < 81 ==> m[j]))
    ||| {
        &&& 0 <= rr < 9
        &&& 0 <= rc < 9
        &&& start < rr * 9 + rc
        &&& !m[rr * 9 + rc]
        &&& forall|j: int| start < j < rr * 9 + rc ==> m[j]
    }
}

/// What a backward step must return: the sentinel (9, 9) when every position
/// before `start` is fixed, else the last non-fixed position before `start`.
pub open spec fn step_bwd_ok(m: Seq<bool>, start: int, rr: int, rc: int) -> bool {
    ||| (rr == 9 && rc == 9 && (forall|j: int| 0 <= j < start ==> m[j]))
    ||| {
        &&& 0 <= rr < 9
        &&& 0 <= rc < 9
        &&& rr * 9 + rc < start
        &&& !m[rr * 9 + rc]
        &&& forall|j: int| rr * 9 + rc < j < start ==> m[j]
    }
}

/// Steps to the nearest non-fixed cell in row-major order: forward for
/// `inc == 1`, backward for `inc == -1`. Returns (9, 9) when the walk leaves
/// the grid. The synthetic start before the first cell is (0, usize::MAX)
/// with `inc == 1`.
pub fn sud_step(fixed: &Vec<bool>, row: usize, col: usize, inc: isize) -> (r: (usize, usize))
    requires
        fixed.len() == 81,
        inc == 1 || inc == -1,
        (row < 9 && col < 9) || (inc == 1 && row == 0 && col == usize::MAX),
    ensures
        inc == 1 ==> step_fwd_ok(fixed@, start_pos(row as int, col as int), r.0 as int, r.1 as int),
        inc == -1 ==> step_bwd_ok(fixed@, row as int * 9 + col as int, r.0 as int, r.1 as int),
{
    if inc == 1 {
        let ghost start: int = start_pos(row as int, col as int);
        let mut p: usize = if col == usize::MAX { 0 } else { row * 9 + col + 1 };
        while p < 81
            invariant
                fixed.len() == 81,
                inc == 1,
                start == start_pos(row as int, col as int),
                start + 1 <= p,
                forall|j: int| start < j < p ==> fixed@[j],
            decreases 81 - p,
        {
            if !fixed[p] {
                let rr = p / 9;
                let rc = p % 9;
                assert(rr * 9 + rc == p);
                return (rr, rc);
            }
            p += 1;
        }
        (9, 9)
    } else {
        let ghost start: int = (row * 9 + col) as int;
        let mut p: usize = row * 9 + col;
        while p > 0
            invariant
                fixed.len() == 81,
                inc == -1,
                start == row as int * 9 + col as int,
                p <= start < 81,
                forall|j: int| p <= j < start ==> fixed@[j],
            decreases p,
        {
            let q = p - 1;
            if !fixed[q] {
                let rr = q / 9;
                let rc = q % 9;
                assert(rr * 9 + rc == q);
                return (rr, rc);
            }
            p = q;
        }
        (9, 9)
    }
}

/// On a mask with exactly one non-fixed cell, the forward step from before
/// the grid lands on that cell, and the forward step from there leaves the
/// grid.
pub proof fn lemma_step_single_free(m: Seq<bool>, f: int, r1: int, c1: int, r2: int, c2: int)
    requires
        m.len() == 81,
        0 <= f < 81,
        !m[f],
        forall|p: int| 0 <= p < 81 && p != f ==> m[p],
        step_fwd_ok(m, -1, r1, c1),
        step_fwd_ok(m, r1 * 9 + c1, r2, c2),
    ensures
        r1 * 9 + c1 == f,
        r2 == 9 && c2 == 9,
{
    assert(!(r1 == 9 && c1 == 9));
    assert(r1 * 9 + c1 == f);
    if !(r2 == 9 && c2 == 9) {
        assert(!m[r2 * 9 + c2]);
    }
}

} // verus!
