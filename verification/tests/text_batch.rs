use sudoku_solver::batch::sud_load_plan;
use sudoku_solver::grid::Grid;
use sudoku_solver::text::ParseError;
use sudoku_solver::text::sud_format;
use sudoku_solver::text::sud_parse;

fn byte_lines(strs: &[&str]) -> Vec<Vec<u8>> {
    strs.iter().map(|s| s.as_bytes().to_vec()).collect()
}

const SOLVED: [&str; 9] = [
    "534678912",
    "672195348",
    "198342567",
    "859761423",
    "426853791",
    "713924856",
    "961537284",
    "287419635",
    "345286179",
];

#[test]
fn parse_reads_digits_and_dots() {
    let g = sud_parse(&byte_lines(&[
        "53..7....",
        "6..195...",
        ".98....6.",
        "8...6...3",
        "4..8.3..1",
        "7...2...6",
        ".6....28.",
        "...419..5",
        "....8..79",
    ]))
    .expect("puzzle parses");
    assert_eq!(g.get(0, 0), 5);
    assert_eq!(g.get(0, 1), 3);
    assert_eq!(g.get(0, 2), 0);
    assert_eq!(g.get(1, 3), 1);
    assert_eq!(g.get(8, 8), 9);
}

#[test]
fn parse_skips_blanks_comments_and_whitespace() {
    let g = sud_parse(&byte_lines(&[
        "# a classic puzzle",
        "",
        "  534 678 912",
        "672195348\t",
        "198 342 567",
        "# halfway",
        "859761423",
        "426853791",
        "713924856",
        "961537284",
        "287419635",
        "  345286179  ",
    ]))
    .expect("puzzle parses");
    assert_eq!(g.get(0, 0), 5);
    assert_eq!(g.get(2, 3), 3);
    assert_eq!(g.get(8, 0), 3);
}

#[test]
fn short_line_is_an_error_naming_its_line_number() {
    let r = sud_parse(&byte_lines(&[
        "# heading",
        "",
        "12345678",
    ]));
    assert_eq!(r.unwrap_err(), ParseError::BadLineLength { line: 3 });
}

#[test]
fn long_line_is_an_error() {
    let r = sud_parse(&byte_lines(&["1234567890"]));
    assert_eq!(r.unwrap_err(), ParseError::BadLineLength { line: 1 });
}

#[test]
fn stray_letter_is_an_error() {
    let r = sud_parse(&byte_lines(&["...x5...."]));
    assert_eq!(r.unwrap_err(), ParseError::BadCharacter { line: 1 });
}

#[test]
fn tenth_row_is_an_error() {
    let mut lines: Vec<&str> = SOLVED.to_vec();
    lines.push("534678912");
    let r = sud_parse(&byte_lines(&lines));
    assert_eq!(r.unwrap_err(), ParseError::TooManyRows { line: 10 });
}

#[test]
fn missing_rows_are_an_error() {
    let r = sud_parse(&byte_lines(&["534678912", "672195348"]));
    assert_eq!(r.unwrap_err(), ParseError::TooFewRows { rows: 2 });
}

#[test]
fn format_groups_rows_and_columns_in_threes() {
    let mut cells = Vec::new();
    for s in SOLVED.iter() {
        for b in s.bytes() {
            cells.push(b - b'0');
        }
    }
    let g = Grid::from_vec(cells).expect("well-formed grid");
    let out = sud_format(&g);
    let want = [
        "534 678 912",
        "672 195 348",
        "198 342 567",
        "",
        "859 761 423",
        "426 853 791",
        "713 924 856",
        "",
        "961 537 284",
        "287 419 635",
        "345 286 179",
    ];
    assert_eq!(out.len(), want.len());
    for (line, expect) in out.iter().zip(want.iter()) {
        assert_eq!(line.as_slice(), expect.as_bytes());
    }
}

#[test]
fn format_shows_blanks_as_dots() {
    let mut cells = vec![0u8; 81];
    cells[0] = 5;
    cells[80] = 9;
    let g = Grid::from_vec(cells).expect("well-formed grid");
    let out = sud_format(&g);
    assert_eq!(out[0].as_slice(), b"5.. ... ...");
    assert_eq!(out[10].as_slice(), b"... ... ..9");
}

#[test]
fn repeated_path_is_not_reloaded() {
    let plan = sud_load_plan(&byte_lines(&["p1.sud", "p1.sud"]));
    assert_eq!(plan, vec![true, false]);
}

#[test]
fn changed_path_is_reloaded() {
    let plan = sud_load_plan(&byte_lines(&["p1.sud", "p2.sud", "p1.sud", "p1.sud"]));
    assert_eq!(plan, vec![true, true, true, false]);
}

#[test]
fn empty_batch_has_an_empty_plan() {
    let plan = sud_load_plan(&Vec::new());
    assert!(plan.is_empty());
}
