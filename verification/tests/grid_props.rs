use sudoku_solver::grid::Grid;
use sudoku_solver::grid::sud_cell_is_valid;
use sudoku_solver::grid::sud_get_fixed;
use sudoku_solver::grid::sud_is_solved;
use sudoku_solver::grid::sud_is_valid;

fn grid_of(rows: [[u8; 9]; 9]) -> Grid {
    let mut cells = Vec::new();
    for r in 0..9 {
        for c in 0..9 {
            cells.push(rows[r][c]);
        }
    }
    Grid::from_vec(cells).expect("well-formed grid")
}

fn empty_grid() -> Grid {
    Grid::from_vec(vec![0u8; 81]).expect("well-formed grid")
}

const SOLUTION: [[u8; 9]; 9] = [
    [5, 3, 4, 6, 7, 8, 9, 1, 2],
    [6, 7, 2, 1, 9, 5, 3, 4, 8],
    [1, 9, 8, 3, 4, 2, 5, 6, 7],
    [8, 5, 9, 7, 6, 1, 4, 2, 3],
    [4, 2, 6, 8, 5, 3, 7, 9, 1],
    [7, 1, 3, 9, 2, 4, 8, 5, 6],
    [9, 6, 1, 5, 3, 7, 2, 8, 4],
    [2, 8, 7, 4, 1, 9, 6, 3, 5],
    [3, 4, 5, 2, 8, 6, 1, 7, 9],
];

#[test]
fn from_vec_rejects_wrong_length_or_values() {
    assert!(Grid::from_vec(vec![0u8; 80]).is_none());
    assert!(Grid::from_vec(vec![0u8; 82]).is_none());
    let mut cells = vec![0u8; 81];
    cells[40] = 10;
    assert!(Grid::from_vec(cells).is_none());
    assert!(Grid::from_vec(vec![9u8; 81]).is_some());
}

#[test]
fn fixed_mask_marks_nonzero_cells() {
    let mut rows = [[0u8; 9]; 9];
    rows[0][0] = 5;
    rows[3][7] = 9;
    rows[8][8] = 1;
    let g = grid_of(rows);
    let fixed = sud_get_fixed(&g);
    assert_eq!(fixed.len(), 81);
    for r in 0..9 {
        for c in 0..9 {
            assert_eq!(fixed[r * 9 + c], rows[r][c] != 0);
        }
    }
}

#[test]
fn cell_valid_detects_row_duplicate() {
    let mut rows = [[0u8; 9]; 9];
    rows[2][1] = 7;
    rows[2][8] = 7;
    let g = grid_of(rows);
    assert!(!sud_cell_is_valid(&g, 2, 1));
    assert!(!sud_cell_is_valid(&g, 2, 8));
}

#[test]
fn cell_valid_detects_column_duplicate() {
    let mut rows = [[0u8; 9]; 9];
    rows[0][4] = 3;
    rows[7][4] = 3;
    let g = grid_of(rows);
    assert!(!sud_cell_is_valid(&g, 0, 4));
    assert!(!sud_cell_is_valid(&g, 7, 4));
}

#[test]
fn cell_valid_detects_box_duplicate() {
    let mut rows = [[0u8; 9]; 9];
    rows[3][3] = 2;
    rows[5][5] = 2;
    let g = grid_of(rows);
    assert!(!sud_cell_is_valid(&g, 3, 3));
    assert!(!sud_cell_is_valid(&g, 5, 5));
}

#[test]
fn cell_valid_accepts_lone_value() {
    let mut rows = [[0u8; 9]; 9];
    rows[4][4] = 6;
    rows[4][2] = 1;
    rows[0][4] = 2;
    let g = grid_of(rows);
    assert!(sud_cell_is_valid(&g, 4, 4));
}

#[test]
fn grid_valid_accepts_clean_grids() {
    assert!(sud_is_valid(&empty_grid()));
    assert!(sud_is_valid(&grid_of(SOLUTION)));
}

#[test]
fn grid_valid_rejects_single_duplicate() {
    let mut rows = SOLUTION;
    // copy one digit onto a row mate
    rows[0][1] = rows[0][0];
    assert!(!sud_is_valid(&grid_of(rows)));
}

#[test]
fn solved_means_no_blank_cell() {
    assert!(sud_is_solved(&grid_of(SOLUTION)));
    let mut rows = SOLUTION;
    rows[6][2] = 0;
    assert!(!sud_is_solved(&grid_of(rows)));
    assert!(!sud_is_solved(&empty_grid()));
}
