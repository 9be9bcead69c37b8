use sudoku::{solve_line, ParseError, Status, Sudoku};

const PUZZLE: &str =
    "530070000600195000098000060800060003400803001700020006060000280000419005000080079";
const SOLUTION: &str =
    "534678912672195348198342567859761423426853791713924856961537284287419635345286179";

fn digits(s: &str) -> [[u8; 9]; 9] {
    let mut g = [[0u8; 9]; 9];
    for (i, b) in s.bytes().enumerate() {
        g[i / 9][i % 9] = b - b'0';
    }
    g
}

fn is_valid_solution(g: &[[u8; 9]; 9]) -> bool {
    for u in 0..9 {
        let mut row = [false; 10];
        let mut col = [false; 10];
        let mut block = [false; 10];
        for v in 0..9 {
            let r = g[u][v] as usize;
            let c = g[v][u] as usize;
            let b = g[u / 3 * 3 + v / 3][u % 3 * 3 + v % 3] as usize;
            if r == 0 || r > 9 || c == 0 || c > 9 || b == 0 || b > 9 {
                return false;
            }
            if row[r] || col[c] || block[b] {
                return false;
            }
            row[r] = true;
            col[c] = true;
            block[b] = true;
        }
    }
    true
}

fn keeps_givens(g: &[[u8; 9]; 9], puzzle: &str) -> bool {
    puzzle
        .bytes()
        .enumerate()
        .all(|(i, b)| b == b'0' || g[i / 9][i % 9] == b - b'0')
}

#[test]
fn solves_known_puzzle() {
    let mut s = Sudoku::new(PUZZLE).unwrap();
    assert_eq!(s.solve(0), Some(digits(SOLUTION)));
}

#[test]
fn solves_known_puzzle_in_static_order() {
    let mut s = Sudoku::new(PUZZLE).unwrap();
    s.set_heuristic(false);
    assert_eq!(s.solve(0), Some(digits(SOLUTION)));
}

#[test]
fn length_80_is_invalid_length() {
    assert!(matches!(Sudoku::new(&PUZZLE[..80]), Err(ParseError::InvalidLength)));
}

#[test]
fn length_82_is_invalid_length() {
    let line = format!("{PUZZLE}0");
    assert!(matches!(Sudoku::new(&line), Err(ParseError::InvalidLength)));
}

#[test]
fn empty_line_is_invalid_length() {
    assert!(matches!(Sudoku::new(""), Err(ParseError::InvalidLength)));
}

#[test]
fn letter_is_invalid_character() {
    let line = format!("x{}", &PUZZLE[1..]);
    assert_eq!(line.len(), 81);
    assert!(matches!(Sudoku::new(&line), Err(ParseError::InvalidCharacter)));
}

#[test]
fn letter_at_end_is_invalid_character() {
    let line = format!("{}x", &PUZZLE[..80]);
    assert!(matches!(Sudoku::new(&line), Err(ParseError::InvalidCharacter)));
}

#[test]
fn error_messages() {
    assert_eq!(ParseError::InvalidLength.message(), "length is not 81");
    assert_eq!(ParseError::InvalidCharacter.message(), "non-digit character(s) found");
}

#[test]
fn blank_grid_gets_a_valid_completion() {
    let blank = "0".repeat(81);
    let mut s = Sudoku::new(&blank).unwrap();
    let g = s.solve(0).expect("a blank grid has completions");
    assert!(is_valid_solution(&g));
}

#[test]
fn blank_grid_in_static_order_gets_a_valid_completion() {
    let blank = "0".repeat(81);
    let mut s = Sudoku::new(&blank).unwrap();
    s.set_heuristic(false);
    let g = s.solve(0).expect("a blank grid has completions");
    assert!(is_valid_solution(&g));
    assert_eq!(g[0], [1, 2, 3, 4, 5, 6, 7, 8, 9]);
}

/// Row 0 leaves only 9 for its last cell, and column 8 already holds a 9;
/// row 2 repeats a 5.
const CONTRADICTORY: &str =
    "123456780000000009505000000000000000000000000000000000000000000000000000000000000";

#[test]
fn dead_first_cell_ends_search() {
    // The first empty cell in scan order, row 0 column 8, has no free digit.
    let mut s = Sudoku::new(CONTRADICTORY).unwrap();
    assert_eq!(s.solve(0), None);
    assert!(matches!(solve_line(CONTRADICTORY, None, true), Status::Unsolved(None)));
}

#[test]
fn contradictory_grid_has_no_solution() {
    let mut s = Sudoku::new(CONTRADICTORY).unwrap();
    assert_eq!(s.solve(0), None);
}

#[test]
fn contradictory_grid_in_static_order_has_no_solution() {
    let mut s = Sudoku::new(CONTRADICTORY).unwrap();
    s.set_heuristic(false);
    assert_eq!(s.solve(0), None);
}

#[test]
fn full_grid_of_ones_has_no_solution() {
    let ones = "1".repeat(81);
    let mut s = Sudoku::new(&ones).unwrap();
    assert_eq!(s.solve(0), None);
    assert!(matches!(solve_line(&ones, Some(4), true), Status::Unsolved(Some(4))));
    assert!(matches!(solve_line(&ones, Some(4), false), Status::Unsolved(Some(4))));
}

#[test]
fn full_grid_with_repeated_digit_has_no_solution() {
    // The known solution with its first cell changed from 5 to 3, which row 0
    // already holds.
    let line = format!("3{}", &SOLUTION[1..]);
    let mut s = Sudoku::new(&line).unwrap();
    assert_eq!(s.solve(0), None);
}

#[test]
fn duplicate_givens_in_row_have_no_solution() {
    // The known puzzle with its 3 in row 0 turned into a second 5.
    let line = format!("55{}", &PUZZLE[2..]);
    let mut s = Sudoku::new(&line).unwrap();
    s.set_heuristic(false);
    assert_eq!(s.solve(0), None);
    assert!(matches!(solve_line(&line, None, true), Status::Unsolved(None)));
}

#[test]
fn full_valid_grid_is_its_own_solution() {
    let mut s = Sudoku::new(SOLUTION).unwrap();
    assert_eq!(s.solve(0), Some(digits(SOLUTION)));
}

#[test]
fn solving_twice_gives_the_same_board() {
    let mut a = Sudoku::new(PUZZLE).unwrap();
    let mut b = Sudoku::new(PUZZLE).unwrap();
    a.set_heuristic(false);
    b.set_heuristic(false);
    assert_eq!(a.solve(0), b.solve(0));
    let blank = "0".repeat(81);
    let mut c = Sudoku::new(&blank).unwrap();
    let mut d = Sudoku::new(&blank).unwrap();
    c.set_heuristic(false);
    d.set_heuristic(false);
    assert_eq!(c.solve(0), d.solve(0));
}

#[test]
fn heuristics_agree_on_unique_puzzle() {
    let mut mrv = Sudoku::new(PUZZLE).unwrap();
    let mut plain = Sudoku::new(PUZZLE).unwrap();
    plain.set_heuristic(false);
    assert_eq!(mrv.solve(0), plain.solve(0));
}

#[test]
fn failed_search_leaves_state_reusable() {
    let mut s = Sudoku::new(CONTRADICTORY).unwrap();
    assert_eq!(s.solve(0), None);
    assert_eq!(s.solve(0), None);
}

#[test]
fn hard_puzzle_is_solved_validly() {
    let hard =
        "800000000003600000070090200050007000000045700000100030001000068008500010090000400";
    let mut s = Sudoku::new(hard).unwrap();
    let g = s.solve(0).expect("solvable");
    assert!(is_valid_solution(&g));
    assert!(keeps_givens(&g, hard));
}

#[test]
fn solve_line_reports_each_outcome() {
    match solve_line(PUZZLE, Some(1), true) {
        Status::Solved(g) => assert_eq!(g, digits(SOLUTION)),
        _ => panic!("expected a solution"),
    }
    assert!(matches!(solve_line(CONTRADICTORY, Some(2), true), Status::Unsolved(Some(2))));
    match solve_line("123", Some(3), false) {
        Status::Invalid(Some(3), m) => assert_eq!(m, "length is not 81"),
        _ => panic!("expected invalid length"),
    }
    let bad = format!("{}?", &PUZZLE[..80]);
    match solve_line(&bad, None, true) {
        Status::Invalid(None, m) => assert_eq!(m, "non-digit character(s) found"),
        _ => panic!("expected invalid character"),
    }
}
