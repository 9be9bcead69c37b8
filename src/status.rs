//! The outcome of a solve for one line, and its two text forms.
use vstd::prelude::*;
use vstd::string::StringExecFns;

verus! {

/// The text of a digit 0..=9.
pub open spec fn digit_text(d: nat) -> Seq<char> {
    if d == 0 {
        "0"@
    } else if d == 1 {
        "1"@
    } else if d == 2 {
        "2"@
    } else if d == 3 {
        "3"@
    } else if d == 4 {
        "4"@
    } else if d == 5 {
        "5"@
    } else if d == 6 {
        "6"@
    } else if d == 7 {
        "7"@
    } else if d == 8 {
        "8"@
    } else {
        "9"@
    }
}

/// The decimal text of `n`, without leading zeros.
pub open spec fn decimal(n: nat) -> Seq<char>
    decreases n,
{
    if n < 10 {
        digit_text(n)
    } else {
        decimal(n / 10) + digit_text(n % 10)
    }
}

/// The separator line of the boxed form.
pub open spec fn border() -> Seq<char> {
    "+-------+-------+-------+\n"@
}

/// The first `n` cells of a row in the boxed form, a bar before each group
/// of three.
pub open spec fn cells_text(row: Seq<u8>, n: int) -> Seq<char>
    decreases n,
{
    if n <= 0 {
        Seq::empty()
    } else {
        cells_text(row, n - 1) + (if (n - 1) % 3 == 0 {
            "| "@
        } else {
            Seq::empty()
        }) + decimal(row[n - 1] as nat) + " "@
    }
}

/// The first `n` rows of the boxed form, a border before each group of three.
pub open spec fn rows_text(g: [[u8; 9]; 9], n: int) -> Seq<char>
    decreases n,
{
    if n <= 0 {
        Seq::empty()
    } else {
        rows_text(g, n - 1) + (if (n - 1) % 3 == 0 {
            border()
        } else {
            Seq::empty()
        }) + cells_text(g[n - 1]@, 9) + "|\n"@
    }
}

/// The boxed form: 13 lines, three bands of three rows between borders.
pub open spec fn boxed_text(g: [[u8; 9]; 9]) -> Seq<char> {
    rows_text(g, 9) + border()
}

/// The first `n` cells, row by row, as digits.
pub open spec fn digits_text(g: [[u8; 9]; 9], n: int) -> Seq<char>
    decreases n,
{
    if n <= 0 {
        Seq::empty()
    } else {
        digits_text(g, n - 1) + decimal(g[(n - 1) / 9][(n - 1) % 9] as nat)
    }
}

/// The compact form: the 81 cells on one line.
pub open spec fn line_text(g: [[u8; 9]; 9]) -> Seq<char> {
    digits_text(g, 81) + "\n"@
}

/// What happened to one grid: solved, proved to have no solution, or refused
/// by the parser. The line number is set when the grid came from a file.
#[derive(Clone)]
pub enum Status {
    Solved([[u8; 9]; 9]),
    Unsolved(Option<usize>),
    Invalid(Option<usize>, String),
}

/// The one-line text of a status.
pub open spec fn status_text(s: Status) -> Seq<char> {
    match s {
        Status::Solved(g) => line_text(g),
        Status::Unsolved(Some(n)) => "Grid on line "@ + decimal(n as nat) + " has no solution\n"@,
        Status::Unsolved(None) => "Grid has no solution\n"@,
        Status::Invalid(Some(n), m) => "Invalid grid on line "@ + decimal(n as nat) + ": "@ + m@
            + "\n"@,
        Status::Invalid(None, m) => "Invalid grid: "@ + m@ + "\n"@,
    }
}

fn digit_str(d: u8) -> (r: &'static str)
    requires
        d < 10,
    ensures
        r@ == digit_text(d as nat),
{
    match d {
        0 => "0",
        1 => "1",
        2 => "2",
        3 => "3",
        4 => "4",
        5 => "5",
        6 => "6",
        7 => "7",
        8 => "8",
        _ => "9",
    }
}

/// Appends the decimal text of `n`.
pub fn push_decimal(s: &mut String, n: usize)
    ensures
        final(s)@ == old(s)@ + decimal(n as nat),
    decreases n,
{
    if n >= 10 {
        push_decimal(s, n / 10);
    }
    s.append(digit_str((n % 10) as u8));
    proof {
        if n >= 10 {
            assert(final(s)@ =~= old(s)@ + decimal(n as nat));
        }
    }
}

impl Status {
    /// The compact text: the solved grid as 81 digits on one line, or a
    /// sentence that says why there is none.
    pub fn text(&self) -> (r: String)
        ensures
            r@ == status_text(*self),
    {
        match self {
            Status::Solved(grid) => {
                let mut s = String::new();
                let mut i: usize = 0;
                while i < 81
                    invariant
                        i <= 81,
                        s@ == digits_text(*grid, i as int),
                    decreases 81 - i,
                {
                    push_decimal(&mut s, grid[i / 9][i % 9] as usize);
                    i = i + 1;
                }
                s.append("\n");
                s
            },
            Status::Unsolved(Some(n)) => {
                let mut s = String::from_str("Grid on line ");
                push_decimal(&mut s, *n);
                s.append(" has no solution\n");
                s
            },
            Status::Unsolved(None) => String::from_str("Grid has no solution\n"),
            Status::Invalid(Some(n), message) => {
                let mut s = String::from_str("Invalid grid on line ");
                push_decimal(&mut s, *n);
                s.append(": ");
                s.append(message.as_str());
                s.append("\n");
                s
            },
            Status::Invalid(None, message) => {
                let mut s = String::from_str("Invalid grid: ");
                s.append(message.as_str());
                s.append("\n");
                s
            },
        }
    }

    /// The boxed text of a solved grid; for any other status, the compact text.
    pub fn pretty(&self) -> (r: String)
        ensures
            self is Solved ==> r@ == boxed_text(self->Solved_0),
            !(self is Solved) ==> r@ == status_text(*self),
    {
        match self {
            Status::Solved(grid) => {
                let mut s = String::new();
                let mut i: usize = 0;
                while i < 9
                    invariant
                        i <= 9,
                        s@ == rows_text(*grid, i as int),
                    decreases 9 - i,
                {
                    if i % 3 == 0 {
                        s.append("+-------+-------+-------+\n");
                    }
                    let ghost head = s@;
                    let row = grid[i];
                    let mut j: usize = 0;
                    while j < 9
                        invariant
                            j <= 9,
                            row@ == grid[i as int]@,
                            s@ == head + cells_text(row@, j as int),
                        decreases 9 - j,
                    {
                        if j % 3 == 0 {
                            s.append("| ");
                        }
                        push_decimal(&mut s, row[j] as usize);
                        s.append(" ");
                        assert(s@ =~= head + cells_text(row@, j + 1));
                        j = j + 1;
                    }
                    s.append("|\n");
                    assert(s@ =~= rows_text(*grid, i + 1));
                    i = i + 1;
                }
                s.append("+-------+-------+-------+\n");
                s
            },
            _ => self.text(),
        }
    }
}

/// How many of the statuses are `Solved`.
pub open spec fn solved_count(s: Seq<Status>) -> nat
    decreases s.len(),
{
    if s.len() == 0 {
        0
    } else {
        solved_count(s.drop_last()) + if s.last() is Solved {
            1nat
        } else {
            0nat
        }
    }
}

/// Counts the solved grids of a batch.
pub fn count_solved(results: &Vec<Status>) -> (n: usize)
    ensures
        n == solved_count(results@),
{
    let mut n: usize = 0;
    let mut i: usize = 0;
    while i < results.len()
        invariant
            i <= results@.len(),
            n == solved_count(results@.subrange(0, i as int)),
            n <= i,
        decreases results@.len() - i,
    {
        assert(results@.subrange(0, i + 1).drop_last() =~= results@.subrange(0, i as int));
        if let Status::Solved(_) = &results[i] {
            n = n + 1;
        }
        i = i + 1;
    }
    assert(results@.subrange(0, i as int) =~= results@);
    n
}

} // verus!
