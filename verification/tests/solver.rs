use sudoku_solver::grid::Grid;
use sudoku_solver::grid::sud_get_fixed;
use sudoku_solver::grid::sud_is_solved;
use sudoku_solver::grid::sud_is_valid;
use sudoku_solver::solve::SudOutcome;
use sudoku_solver::solve::sud_solve;
use sudoku_solver::step::sud_step;
use sudoku_solver::text::sud_parse;

const PUZZLE: [&str; 9] = [
    "53..7....",
    "6..195...",
    ".98....6.",
    "8...6...3",
    "4..8.3..1",
    "7...2...6",
    ".6....28.",
    "...419..5",
    "....8..79",
];

const SOLVED: [&str; 9] = [
    "534678912",
    "672195348",
    "198342567",
    "859761423",
    "426853791",
    "713924856",
    "961537284",
    "287419635",
    "345286179",
];

fn lines_of(strs: &[&str]) -> Vec<Vec<u8>> {
    strs.iter().map(|s| s.as_bytes().to_vec()).collect()
}

fn grid_of_strs(strs: &[&str]) -> Grid {
    let mut cells = Vec::new();
    for s in strs {
        for b in s.bytes() {
            cells.push(if b == b'.' { 0 } else { b - b'0' });
        }
    }
    Grid::from_vec(cells).expect("well-formed grid")
}

#[test]
fn known_puzzle_solves_to_canonical_solution() {
    let g = sud_parse(&lines_of(&PUZZLE)).expect("puzzle parses");
    match sud_solve(&g) {
        SudOutcome::Solved(sol) => {
            let want = grid_of_strs(&SOLVED);
            for r in 0..9 {
                for c in 0..9 {
                    assert_eq!(sol.get(r, c), want.get(r, c));
                }
            }
        }
        SudOutcome::Unsolvable => panic!("the puzzle has a solution"),
    }
}

#[test]
fn solving_keeps_givens_and_completes_the_grid() {
    let g = sud_parse(&lines_of(&PUZZLE)).expect("puzzle parses");
    match sud_solve(&g) {
        SudOutcome::Solved(sol) => {
            assert!(sud_is_valid(&sol));
            assert!(sud_is_solved(&sol));
            for r in 0..9 {
                for c in 0..9 {
                    if g.get(r, c) != 0 {
                        assert_eq!(sol.get(r, c), g.get(r, c));
                    }
                }
            }
        }
        SudOutcome::Unsolvable => panic!("the puzzle has a solution"),
    }
}

#[test]
fn full_valid_grid_is_returned_unchanged() {
    let g = grid_of_strs(&SOLVED);
    match sud_solve(&g) {
        SudOutcome::Solved(sol) => {
            for r in 0..9 {
                for c in 0..9 {
                    assert_eq!(sol.get(r, c), g.get(r, c));
                }
            }
        }
        SudOutcome::Unsolvable => panic!("a solved grid is its own solution"),
    }
}

#[test]
fn duplicate_givens_are_unsolvable() {
    let mut lines = PUZZLE.map(|s| s.to_string());
    // a second 5 in the first row clashes with the given one
    lines[0] = "55..7....".to_string();
    let strs: Vec<&str> = lines.iter().map(|s| s.as_str()).collect();
    let g = sud_parse(&lines_of(&strs)).expect("puzzle parses");
    assert!(matches!(sud_solve(&g), SudOutcome::Unsolvable));
}

#[test]
fn blocked_cell_is_unsolvable() {
    // row 0 holds 1..8 and its last cell is blank, but the 9 it would need
    // already stands in that column
    let mut cells = vec![0u8; 81];
    for c in 0..8 {
        cells[c] = (c + 1) as u8;
    }
    cells[9 + 8] = 9;
    let g = Grid::from_vec(cells).expect("well-formed grid");
    assert!(sud_is_valid(&g));
    assert!(matches!(sud_solve(&g), SudOutcome::Unsolvable));
}

#[test]
fn empty_grid_has_a_solution() {
    let g = Grid::from_vec(vec![0u8; 81]).expect("well-formed grid");
    match sud_solve(&g) {
        SudOutcome::Solved(sol) => {
            assert!(sud_is_valid(&sol));
            assert!(sud_is_solved(&sol));
        }
        SudOutcome::Unsolvable => panic!("the empty grid has solutions"),
    }
}

#[test]
fn step_finds_the_single_free_cell_then_the_sentinel() {
    let mut rows = grid_of_strs(&SOLVED);
    rows.cells[4 * 9 + 7] = 0;
    let fixed = sud_get_fixed(&rows);
    let (r1, c1) = sud_step(&fixed, 0, usize::MAX, 1);
    assert_eq!((r1, c1), (4, 7));
    let (r2, c2) = sud_step(&fixed, r1, c1, 1);
    assert_eq!((r2, c2), (9, 9));
}

#[test]
fn step_backward_from_first_cell_leaves_the_grid() {
    let g = Grid::from_vec(vec![0u8; 81]).expect("well-formed grid");
    let fixed = sud_get_fixed(&g);
    let (r, c) = sud_step(&fixed, 0, 0, -1);
    assert_eq!((r, c), (9, 9));
}

#[test]
fn step_forward_skips_fixed_cells() {
    let mut cells = vec![0u8; 81];
    cells[1] = 4;
    cells[2] = 7;
    let g = Grid::from_vec(cells).expect("well-formed grid");
    let fixed = sud_get_fixed(&g);
    let (r, c) = sud_step(&fixed, 0, 0, 1);
    assert_eq!((r, c), (0, 3));
    let (r2, c2) = sud_step(&fixed, 0, 3, -1);
    assert_eq!((r2, c2), (0, 0));
}
