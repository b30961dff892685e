//! The backtracking engine. A cursor walks the non-fixed cells in row-major
//! order; at each cell the candidate value is incremented, validated in
//! place, and the cursor steps forward on success or backward when the
//! digits are exhausted. The contract is total: a returned grid is a
//! solution of the input, and `Unsolvable` means no solution exists at all.

use vstd::prelude::*;

use crate::grid::Grid;
use crate::grid::cell_of;
use crate::grid::cell_valid;
use crate::grid::grid_valid;
use crate::grid::grid_wf;
use crate::grid::in_grid;
use crate::grid::is_solution;
use crate::grid::same_unit;
use crate::grid::solved;
use crate::grid::lemma_invalid_givens_no_solution;
use crate::grid::sud_cell_is_valid;
use crate::grid::sud_get_fixed;
use crate::grid::sud_is_valid;
use crate::step::step_bwd_ok;
use crate::step::step_fwd_ok;
use crate::step::sud_step;

verus! {

/// What one solve ends in: a completed grid, or the knowledge that none
/// exists.
pub enum SudOutcome {
    Solved(Grid),
    Unsolvable,
}

/// Every solution of the puzzle lies at or above the current attempt, in the
/// lexicographic order of the non-fixed cells: it disagrees upward with the
/// attempt at some non-fixed position `j` at or before the cursor, agreeing
/// with it on every non-fixed position before `j`.
pub open spec fn sol_bound(s: Seq<u8>, g: Seq<u8>, m: Seq<bool>, cur: int) -> bool {
    exists|j: int|
        {
            &&& 0 <= j <= cur
            &&& !(#[trigger] m[j])
            &&& s[j] > g[j]
            &&& forall|p: int| 0 <= p < j && !m[p] ==> s[p] == g[p]
        }
}

/// The search has ruled out everything lexicographically below the current
/// attempt: each solution of `orig` is bounded below by it.
pub open spec fn all_solutions_bounded(orig: Seq<u8>, g: Seq<u8>, m: Seq<bool>, cur: int) -> bool {
    forall|s: Seq<u8>| #[trigger] is_solution(s, orig) ==> sol_bound(s, g, m, cur)
}

/// Powers of 11, the weight base of the termination measure.
pub open spec fn pow11(e: nat) -> int
    decreases e,
{
    if e == 0 {
        1
    } else {
        11 * pow11((e - 1) as nat)
    }
}

/// The termination measure: the attempt read as a base-11 number over the
/// non-fixed positions up to the cursor, with digit `10 - value` so that
/// raising a value, giving a cell up, and moving on all shrink it.
pub open spec fn search_measure(g: Seq<u8>, m: Seq<bool>, cur: int) -> int
    decreases cur + 1 when cur >= -1
{
    if cur < 0 {
        0
    } else {
        search_measure(g, m, cur - 1) + if m[cur] {
            0int
        } else {
            (10 - g[cur]) * pow11((81 - cur) as nat)
        }
    }
}

proof fn lemma_pow11_pos(e: nat)
    ensures
        pow11(e) >= 1,
    decreases e,
{
    if e > 0 {
        lemma_pow11_pos((e - 1) as nat);
    }
}

proof fn lemma_pow11_mul(e1: nat, e2: nat)
    requires
        e1 < e2,
    ensures
        11 * pow11(e1) <= pow11(e2),
    decreases e2,
{
    lemma_pow11_pos(e1);
    if e1 + 1 == e2 {
    } else {
        lemma_pow11_mul(e1, (e2 - 1) as nat);
    }
}

proof fn lemma_measure_nonneg(g: Seq<u8>, m: Seq<bool>, cur: int)
    requires
        -1 <= cur <= 80,
        forall|p: int| 0 <= p <= cur ==> g[p] <= 9,
    ensures
        search_measure(g, m, cur) >= 0,
    decreases cur + 1,
{
    if cur >= 0 {
        lemma_measure_nonneg(g, m, cur - 1);
        lemma_pow11_pos((81 - cur) as nat);
    }
}

proof fn lemma_measure_frame(g1: Seq<u8>, g2: Seq<u8>, m: Seq<bool>, cur: int)
    requires
        -1 <= cur,
        forall|p: int| 0 <= p <= cur ==> g1[p] == g2[p],
    ensures
        search_measure(g1, m, cur) == search_measure(g2, m, cur),
    decreases cur + 1,
{
    if cur >= 0 {
        lemma_measure_frame(g1, g2, m, cur - 1);
    }
}

proof fn lemma_measure_skip(g: Seq<u8>, m: Seq<bool>, a: int, b: int)
    requires
        -1 <= a <= b,
        forall|j: int| a < j <= b ==> m[j],
    ensures
        search_measure(g, m, b) == search_measure(g, m, a),
    decreases b - a,
{
    if a < b {
        lemma_measure_skip(g, m, a, b - 1);
    }
}

/// Distinct cells have distinct row-major positions.
proof fn lemma_cell_of_inj(r1: int, c1: int, r2: int, c2: int)
    requires
        in_grid(r1, c1),
        in_grid(r2, c2),
        cell_of(r1, c1) == cell_of(r2, c2),
    ensures
        r1 == r2 && c1 == c2,
{
}

/// Blanking a cell cannot introduce a clash.
proof fn lemma_blank_preserves_valid(s: Seq<u8>, pos: int)
    requires
        s.len() == 81,
        0 <= pos < 81,
        grid_valid(s),
    ensures
        grid_valid(s.update(pos, 0u8)),
{
    let s2 = s.update(pos, 0u8);
    assert forall|r: int, c: int|
        in_grid(r, c) && s2[cell_of(r, c)] != 0 implies #[trigger] cell_valid(s2, r, c) by {
        let q = cell_of(r, c);
        assert(0 <= q < 81);
        assert(q != pos);
        assert(s[q] == s2[q]);
        assert(cell_valid(s, r, c));
        assert forall|r2: int, c2: int|
            in_grid(r2, c2) && !(r2 == r && c2 == c) && same_unit(r, c, r2, c2)
                implies s2[cell_of(r2, c2)] != s2[q] by {
            let q2 = cell_of(r2, c2);
            assert(0 <= q2 < 81);
            if q2 == pos {
                assert(s2[q2] == 0);
            } else {
                assert(s2[q2] == s[q2]);
                assert(s[q2] != s[q]);
            }
        }
    }
}

/// If the grid without the cursor's value is clash-free and the cursor's
/// cell checks out against everything it sees, the whole grid is clash-free.
proof fn lemma_place_valid(s: Seq<u8>, r: int, c: int)
    requires
        s.len() == 81,
        in_grid(r, c),
        grid_valid(s.update(cell_of(r, c), 0u8)),
        cell_valid(s, r, c),
    ensures
        grid_valid(s),
{
    let q = cell_of(r, c);
    let s0 = s.update(q, 0u8);
    assert(0 <= q < 81);
    assert forall|r3: int, c3: int|
        in_grid(r3, c3) && s[cell_of(r3, c3)] != 0 implies #[trigger] cell_valid(s, r3, c3) by {
        let q3 = cell_of(r3, c3);
        assert(0 <= q3 < 81);
        if r3 == r && c3 == c {
        } else {
            assert(q3 != q) by {
                if q3 == q {
                    lemma_cell_of_inj(r3, c3, r, c);
                }
            }
            assert(s0[q3] == s[q3]);
            assert(cell_valid(s0, r3, c3));
            assert forall|r2: int, c2: int|
                in_grid(r2, c2) && !(r2 == r3 && c2 == c3) && same_unit(r3, c3, r2, c2)
                    implies s[cell_of(r2, c2)] != s[q3] by {
                let q2 = cell_of(r2, c2);
                assert(0 <= q2 < 81);
                if r2 == r && c2 == c {
                    // the cursor's cell: its own check already compared it
                    // against (r3, c3), which it sees just as well
                    assert(same_unit(r, c, r3, c3));
                    assert(s[q3] != s[q]);
                } else {
                    assert(q2 != q) by {
                        if q2 == q {
                            lemma_cell_of_inj(r2, c2, r, c);
                        }
                    }
                    assert(s0[q2] == s[q2]);
                    assert(s0[q2] != s0[q3]);
                }
            }
        }
    }
}

/// Copies the cell vector of a grid.
fn copy_cells(v: &Vec<u8>) -> (r: Vec<u8>)
    ensures
        r@ == v@,
{
    let mut r: Vec<u8> = Vec::new();
    let mut i: usize = 0;
    while i < v.len()
        invariant
            i <= v.len(),
            r.len() == i,
            forall|q: int| 0 <= q < i ==> r@[q] == v@[q],
        decreases v.len() - i,
    {
        r.push(v[i]);
        i += 1;
    }
    assert(r@ =~= v@);
    r
}

/// Solves the puzzle by exhaustive backtracking. Returns `Solved` with a
/// complete, conflict-free grid that keeps every given of the input, and
/// `Unsolvable` exactly when no such grid exists. The input is not changed.
pub fn sud_solve(sud: &Grid) -> (r: SudOutcome)
    requires
        sud.wf(),
    ensures
        match r {
            SudOutcome::Solved(g) => g.wf() && is_solution(g@, sud@),
            SudOutcome::Unsolvable => forall|s: Seq<u8>| !is_solution(s, sud@),
        },
{
    let ghost orig: Seq<u8> = sud@;

    // Givens that already clash rule every extension out at once.
    if !sud_is_valid(sud) {
        proof {
            lemma_invalid_givens_no_solution(orig);
        }
        return SudOutcome::Unsolvable;
    }

    let mut work = Grid { cells: copy_cells(&sud.cells) };
    let fixed = sud_get_fixed(sud);
    let ghost m: Seq<bool> = fixed@;

    // Step to the first non-fixed cell, starting one step before the grid.
    let (first_row, first_col) = sud_step(&fixed, 0, usize::MAX, 1);
    if first_row == 9 {
        // Every cell is given; the grid was just checked to be clash-free.
        proof {
            assert forall|p: int| 0 <= p < 81 implies orig[p] != 0 by {
                assert(m[p]);
            }
        }
        return SudOutcome::Solved(work);
    }
    let mut row: usize = first_row;
    let mut col: usize = first_col;

    proof {
        let cur = row as int * 9 + col as int;
        assert(work@.update(cur, 0u8) =~= work@);
        assert forall|s: Seq<u8>| #[trigger] is_solution(s, orig)
            implies sol_bound(s, work@, m, cur) by {
            assert(s[cur] != 0);
            assert(!m[cur] && s[cur] > work@[cur]);
            assert(forall|p: int| 0 <= p < cur && !m[p] ==> s[p] == work@[p]);
        }
    }

    loop
        invariant
            orig == sud@,
            grid_wf(orig),
            work.cells.len() == 81,
            forall|p: int| 0 <= p < 81 ==> work@[p] <= 9,
            fixed.len() == 81,
            m == fixed@,
            forall|p: int| 0 <= p < 81 ==> m[p] == (orig[p] != 0),
            forall|p: int| 0 <= p < 81 && m[p] ==> work@[p] == orig[p],
            row < 9,
            col < 9,
            !m[row as int * 9 + col as int],
            forall|p: int|
                0 <= p < (row as int * 9 + col as int) && !m[p] ==> 1 <= work@[p] <= 9,
            forall|p: int|
                (row as int * 9 + col as int) < p < 81 && !m[p] ==> work@[p] == 0,
            grid_valid(work@.update(row as int * 9 + col as int, 0u8)),
            all_solutions_bounded(orig, work@, m, row as int * 9 + col as int),
        decreases search_measure(work@, m, row as int * 9 + col as int),
    {
        let ghost g0 = work@;
        let ghost cur0: int = row as int * 9 + col as int;
        let cur: usize = row * 9 + col;
        let val: u8 = work.cells[cur] + 1;
        if val > 9 {
            // Digits exhausted here: blank the cell and step back.
            work.cells[cur] = 0;
            let ghost g1 = work@;
            let (r2, c2) = sud_step(&fixed, row, col, -1);
            if r2 == 9 {
                // Backed off the start: everything below the givens'
                // first choice is ruled out, so nothing is left.
                proof {
                    assert forall|s: Seq<u8>| !is_solution(s, orig) by {
                        if is_solution(s, orig) {
                            assert(sol_bound(s, g0, m, cur0));
                            let j = choose|j: int|
                                {
                                    &&& 0 <= j <= cur0
                                    &&& !(#[trigger] m[j])
                                    &&& s[j] > g0[j]
                                    &&& forall|p: int| 0 <= p < j && !m[p] ==> s[p] == g0[p]
                                };
                            assert(j == cur0);
                            assert(g0[cur0] == 9);
                            assert(s[cur0] <= 9);
                        }
                    }
                }
                return SudOutcome::Unsolvable;
            }
            proof {
                let cur1 = r2 as int * 9 + c2 as int;
                assert(g1 == g0.update(cur0, 0u8));
                lemma_blank_preserves_valid(g1, cur1);
                assert forall|s: Seq<u8>| #[trigger] is_solution(s, orig)
                    implies sol_bound(s, g1, m, cur1) by {
                    assert(sol_bound(s, g0, m, cur0));
                    let j = choose|j: int|
                        {
                            &&& 0 <= j <= cur0
                            &&& !(#[trigger] m[j])
                            &&& s[j] > g0[j]
                            &&& forall|p: int| 0 <= p < j && !m[p] ==> s[p] == g0[p]
                        };
                    assert(j != cur0) by {
                        if j == cur0 {
                            assert(g0[cur0] == 9);
                            assert(s[cur0] <= 9);
                        }
                    }
                    assert(j <= cur1) by {
                        if j > cur1 {
                            assert(m[j]);
                        }
                    }
                    assert(g1[j] == g0[j]);
                    assert(forall|p: int| 0 <= p < j && !m[p] ==> s[p] == g1[p]);
                }
                // the measure shrinks: the cursor's own weight is gone
                lemma_measure_frame(g1, g0, m, cur1);
                lemma_measure_skip(g0, m, cur1, cur0 - 1);
                lemma_pow11_pos((81 - cur0) as nat);
                lemma_measure_nonneg(g1, m, cur1);
                assert(search_measure(g0, m, cur0)
                    == search_measure(g0, m, cur0 - 1) + (10 - g0[cur0]) * pow11(
                    (81 - cur0) as nat));
                assert(search_measure(g1, m, cur1) == search_measure(g0, m, cur0 - 1));
                assert(g0[cur0] == 9);
                assert((10 - g0[cur0]) * pow11((81 - cur0) as nat) == pow11((81 - cur0) as nat))
                    by (nonlinear_arith)
                    requires g0[cur0] == 9;
                assert(search_measure(g1, m, cur1) < search_measure(g0, m, cur0));
            }
            row = r2;
            col = c2;
        } else {
            work.cells[cur] = val;
            let ghost g1 = work@;
            proof {
                assert(g1 == g0.update(cur0, val));
                assert(g1.update(cur0, 0u8) =~= g0.update(cur0, 0u8));
            }
            if sud_cell_is_valid(&work, row, col) {
                proof {
                    lemma_place_valid(g1, row as int, col as int);
                }
                let (r2, c2) = sud_step(&fixed, row, col, 1);
                if r2 == 9 {
                    // Stepped past the end: the grid is complete and, every
                    // placement having been checked in place, clash-free.
                    proof {
                        assert forall|p: int| 0 <= p < 81 implies g1[p] != 0 by {
                            if p < cur0 {
                                if m[p] {
                                    assert(g1[p] == orig[p]);
                                } else {
                                    assert(1 <= g0[p]);
                                }
                            } else if p == cur0 {
                            } else {
                                assert(m[p]);
                                assert(g1[p] == orig[p]);
                            }
                        }
                        assert(is_solution(g1, orig));
                    }
                    return SudOutcome::Solved(work);
                }
                proof {
                    let cur2 = r2 as int * 9 + c2 as int;
                    assert(cur0 < cur2);
                    lemma_blank_preserves_valid(g1, cur2);
                    assert forall|s: Seq<u8>| #[trigger] is_solution(s, orig)
                        implies sol_bound(s, g1, m, cur2) by {
                        assert(sol_bound(s, g0, m, cur0));
                        let j = choose|j: int|
                            {
                                &&& 0 <= j <= cur0
                                &&& !(#[trigger] m[j])
                                &&& s[j] > g0[j]
                                &&& forall|p: int| 0 <= p < j && !m[p] ==> s[p] == g0[p]
                            };
                        if j < cur0 {
                            assert(g1[j] == g0[j]);
                            assert(forall|p: int| 0 <= p < j && !m[p] ==> s[p] == g1[p]);
                        } else {
                            assert(s[cur0] >= val);
                            if s[cur0] > val {
                                assert(!m[cur0] && s[cur0] > g1[cur0]);
                                assert(forall|p: int| 0 <= p < cur0 && !m[p] ==> s[p] == g1[p]);
                            } else {
                                assert(s[cur2] != 0);
                                assert(!m[cur2] && s[cur2] > g1[cur2]);
                                assert forall|p: int| 0 <= p < cur2 && !m[p]
                                    implies s[p] == g1[p] by {
                                    if p < cur0 {
                                        assert(s[p] == g0[p]);
                                    } else if p == cur0 {
                                    } else {
                                        assert(m[p]);
                                    }
                                }
                            }
                        }
                    }
                    // the measure shrinks: the raised digit outweighs the
                    // fresh cell's full weight
                    let pc = pow11((81 - cur0) as nat);
                    let pn = pow11((81 - cur2) as nat);
                    lemma_measure_frame(g1, g0, m, cur0 - 1);
                    lemma_measure_skip(g1, m, cur0, cur2 - 1);
                    lemma_pow11_mul((81 - cur2) as nat, (81 - cur0) as nat);
                    lemma_pow11_pos((81 - cur2) as nat);
                    lemma_measure_nonneg(g1, m, cur2);
                    assert(search_measure(g0, m, cur0)
                        == search_measure(g0, m, cur0 - 1) + (10 - g0[cur0]) * pc);
                    assert(search_measure(g1, m, cur2)
                        == search_measure(g1, m, cur0 - 1) + (10 - val) * pc + 10 * pn);
                    assert((10 - g0[cur0]) * pc - (10 - val) * pc == pc) by (nonlinear_arith)
                        requires val == g0[cur0] + 1;
                    assert(search_measure(g1, m, cur2) < search_measure(g0, m, cur0));
                }
                row = r2;
                col = c2;
            } else {
                // The value clashes: keep the cursor; the next turn of the
                // loop raises it again.
                proof {
                    assert forall|s: Seq<u8>| #[trigger] is_solution(s, orig)
                        implies sol_bound(s, g1, m, cur0) by {
                        assert(sol_bound(s, g0, m, cur0));
                        let j = choose|j: int|
                            {
                                &&& 0 <= j <= cur0
                                &&& !(#[trigger] m[j])
                                &&& s[j] > g0[j]
                                &&& forall|p: int| 0 <= p < j && !m[p] ==> s[p] == g0[p]
                            };
                        if j < cur0 {
                            assert(g1[j] == g0[j]);
                            assert(forall|p: int| 0 <= p < j && !m[p] ==> s[p] == g1[p]);
                        } else {
                            assert(s[cur0] >= val);
                            if s[cur0] > val {
                                assert(!m[cur0] && s[cur0] > g1[cur0]);
                                assert(forall|p: int| 0 <= p < cur0 && !m[p] ==> s[p] == g1[p]);
                            } else {
                                // a solution that picks this very value here
                                // would carry the same clash
                                assert(!cell_valid(g1, row as int, col as int));
                                let (r2, c2) = choose|r2: int, c2: int|
                                    {
                                        &&& in_grid(r2, c2)
                                        &&& !(r2 == row as int && c2 == col as int)
                                        &&& same_unit(row as int, col as int, r2, c2)
                                        &&& g1[cell_of(r2, c2)]
                                            == g1[cell_of(row as int, col as int)]
                                    };
                                let q2 = cell_of(r2, c2);
                                assert(0 <= q2 < 81);
                                assert(q2 != cur0) by {
                                    if q2 == cur0 {
                                        lemma_cell_of_inj(r2, c2, row as int, col as int);
                                    }
                                }
                                assert(g1[cur0] == val);
                                assert(g1[q2] == val);
                                assert(s[q2] == val) by {
                                    if m[q2] {
                                        assert(g0[q2] == orig[q2]);
                                        assert(orig[q2] != 0);
                                        assert(s[q2] == orig[q2]);
                                    } else if q2 > cur0 {
                                        assert(g0[q2] == 0);
                                    } else {
                                        assert(s[q2] == g0[q2]);
                                    }
                                }
                                assert(s[cur0] == val);
                                assert(!cell_valid(s, row as int, col as int)) by {
                                    assert(s[cell_of(r2, c2)] == s[cell_of(row as int, col as int)]);
                                }
                                assert(s[cell_of(row as int, col as int)] != 0);
                                assert(cell_valid(s, row as int, col as int));
                            }
                        }
                    }
                    lemma_measure_frame(g1, g0, m, cur0 - 1);
                    lemma_pow11_pos((81 - cur0) as nat);
                    lemma_measure_nonneg(g1, m, cur0);
                    let pc = pow11((81 - cur0) as nat);
                    assert((10 - g0[cur0]) * pc - (10 - val) * pc == pc) by (nonlinear_arith)
                        requires val == g0[cur0] + 1;
                    assert(search_measure(g1, m, cur0) < search_measure(g0, m, cur0));
                }
            }
        }
    }
}

} // verus!
