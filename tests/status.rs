use sudoku::status::push_decimal;
use sudoku::{count_solved, Status};

const SOLUTION: &str =
    "534678912672195348198342567859761423426853791713924856961537284287419635345286179";

fn digits(s: &str) -> [[u8; 9]; 9] {
    let mut g = [[0u8; 9]; 9];
    for (i, b) in s.bytes().enumerate() {
        g[i / 9][i % 9] = b - b'0';
    }
    g
}

#[test]
fn compact_text_is_one_line_of_digits() {
    let s = Status::Solved(digits(SOLUTION));
    assert_eq!(s.text(), format!("{SOLUTION}\n"));
}

#[test]
fn pretty_text_is_boxed() {
    let s = Status::Solved(digits(SOLUTION));
    let expected = "\
+-------+-------+-------+
| 5 3 4 | 6 7 8 | 9 1 2 |
| 6 7 2 | 1 9 5 | 3 4 8 |
| 1 9 8 | 3 4 2 | 5 6 7 |
+-------+-------+-------+
| 8 5 9 | 7 6 1 | 4 2 3 |
| 4 2 6 | 8 5 3 | 7 9 1 |
| 7 1 3 | 9 2 4 | 8 5 6 |
+-------+-------+-------+
| 9 6 1 | 5 3 7 | 2 8 4 |
| 2 8 7 | 4 1 9 | 6 3 5 |
| 3 4 5 | 2 8 6 | 1 7 9 |
+-------+-------+-------+
";
    assert_eq!(s.pretty(), expected);
    assert_eq!(s.pretty().lines().count(), 13);
}

#[test]
fn unsolved_text() {
    assert_eq!(Status::Unsolved(Some(3)).text(), "Grid on line 3 has no solution\n");
    assert_eq!(Status::Unsolved(None).text(), "Grid has no solution\n");
    assert_eq!(Status::Unsolved(Some(120)).pretty(), "Grid on line 120 has no solution\n");
}

#[test]
fn invalid_text() {
    let s = Status::Invalid(Some(12), "length is not 81".to_string());
    assert_eq!(s.text(), "Invalid grid on line 12: length is not 81\n");
    assert_eq!(s.pretty(), s.text());
    let s = Status::Invalid(None, "non-digit character(s) found".to_string());
    assert_eq!(s.text(), "Invalid grid: non-digit character(s) found\n");
}

#[test]
fn decimal_text() {
    let mut s = String::from("n=");
    push_decimal(&mut s, 0);
    assert_eq!(s, "n=0");
    let mut s = String::new();
    push_decimal(&mut s, 1_234_509);
    assert_eq!(s, "1234509");
    let mut s = String::new();
    push_decimal(&mut s, usize::MAX);
    assert_eq!(s, usize::MAX.to_string());
}

#[test]
fn counts_solved() {
    let v = vec![
        Status::Solved(digits(SOLUTION)),
        Status::Unsolved(Some(2)),
        Status::Invalid(Some(3), "length is not 81".to_string()),
        Status::Solved(digits(SOLUTION)),
    ];
    assert_eq!(count_solved(&v), 2);
    assert_eq!(count_solved(&Vec::new()), 0);
}
