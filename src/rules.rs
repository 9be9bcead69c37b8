//! The mathematical model of a board and of what a solution is.
//!
//! A board is a `Seq<int>` of 81 cells in row-major order; cell `i` lies in
//! row `i / 9`, column `i % 9`, and 0 marks an empty cell.
use vstd::prelude::*;
use vstd::set_lib::{lemma_int_range, lemma_map_size, lemma_subset_equality, set_int_range};

verus! {

pub open spec fn block_of(row: int, col: int) -> int {
    (row / 3) * 3 + col / 3
}

pub open spec fn row_of(i: int) -> int {
    i / 9
}

pub open spec fn col_of(i: int) -> int {
    i % 9
}

pub open spec fn blk_of(i: int) -> int {
    block_of(i / 9, i % 9)
}

/// Unit `u` of kind 0 is row `u`, of kind 1 column `u`, of kind 2 block `u`.
pub open spec fn unit_of(kind: int, i: int) -> int {
    if kind == 0 {
        row_of(i)
    } else if kind == 1 {
        col_of(i)
    } else {
        blk_of(i)
    }
}

/// Two cells share a row, a column or a block.
pub open spec fn same_unit(i: int, j: int) -> bool {
    row_of(i) == row_of(j) || col_of(i) == col_of(j) || blk_of(i) == blk_of(j)
}

/// 81 cells, each 0 (empty) or a digit 1..=9.
pub open spec fn is_board(p: Seq<int>) -> bool {
    p.len() == 81 && forall|i: int| 0 <= i < 81 ==> 0 <= #[trigger] p[i] <= 9
}

/// 81 cells, each a digit 1..=9.
pub open spec fn is_full(s: Seq<int>) -> bool {
    s.len() == 81 && forall|i: int| 0 <= i < 81 ==> 1 <= #[trigger] s[i] <= 9
}

/// `s` keeps every filled cell of `p`.
pub open spec fn completes(s: Seq<int>, p: Seq<int>) -> bool {
    forall|i: int| 0 <= i < 81 && #[trigger] p[i] != 0 ==> s[i] == p[i]
}

/// A full board in which no two cells of one row, column or block are equal.
pub open spec fn is_solution(s: Seq<int>) -> bool {
    is_full(s) && forall|i: int, j: int|
        0 <= i < 81 && 0 <= j < 81 && i != j && same_unit(i, j) ==> #[trigger] s[i] != #[trigger] s[j]
}

/// No two given cells of `p` in one row, column or block are equal.
pub open spec fn consistent(p: Seq<int>) -> bool {
    forall|i: int, j: int|
        0 <= i < 81 && 0 <= j < 81 && i != j && same_unit(i, j) && p[i] != 0 && p[j] != 0
            ==> #[trigger] p[i] != #[trigger] p[j]
}

/// `s` is a full board that completes `p`, and every cell that is empty in `p`
/// differs from every other cell of its row, column and block.
///
/// This is what the search builds cell by cell; it never compares two given
/// cells with each other, so the search first rejects givens that clash.
/// Where `p` is consistent a fill is exactly a solution that completes `p`
/// (see `lemma_fill_is_solution` and `lemma_solution_is_fill`).
pub open spec fn is_fill(s: Seq<int>, p: Seq<int>) -> bool {
    &&& is_full(s)
    &&& completes(s, p)
    &&& forall|i: int, j: int|
        0 <= i < 81 && 0 <= j < 81 && i != j && same_unit(i, j) && p[i] == 0
            ==> #[trigger] s[i] != #[trigger] s[j]
}

/// Some fill of `g` keeps every filled cell of `p`.
pub open spec fn extendable(g: Seq<int>, p: Seq<int>) -> bool {
    exists|s: Seq<int>| is_fill(s, g) && completes(s, p)
}

pub open spec fn solvable(p: Seq<int>) -> bool {
    exists|s: Seq<int>| is_solution(s) && completes(s, p)
}

/// The filled cells of `p`, and those of `g` where `p` is empty.
pub open spec fn overlay(g: Seq<int>, p: Seq<int>) -> Seq<int> {
    Seq::new(81, |i: int| if p[i] != 0 { p[i] } else { g[i] })
}

/// A 9x9 array read as a board.
pub open spec fn flat(g: [[u8; 9]; 9]) -> Seq<int> {
    Seq::new(81, |i: int| g[i / 9][i % 9] as int)
}

/// Where the given cells agree, a fill is a solution.
pub proof fn lemma_fill_is_solution(s: Seq<int>, p: Seq<int>)
    requires
        is_fill(s, p),
        consistent(p),
    ensures
        is_solution(s),
        completes(s, p),
{
    assert forall|i: int, j: int|
        0 <= i < 81 && 0 <= j < 81 && i != j && same_unit(i, j) implies #[trigger] s[i]
        != #[trigger] s[j] by {
        if p[i] == 0 {
        } else if p[j] == 0 {
            assert(same_unit(j, i));
        } else {
            assert(p[i] != p[j]);
        }
    }
}

/// Every solution that completes a board is a fill of it.
pub proof fn lemma_solution_is_fill(s: Seq<int>, p: Seq<int>)
    requires
        is_solution(s),
        completes(s, p),
    ensures
        is_fill(s, p),
{
}

/// A digit that some other cell of the same unit already holds cannot go in
/// `x`, a cell that is empty in `g`.
pub proof fn lemma_clash(g: Seq<int>, p: Seq<int>, x: int, y: int, d: int)
    requires
        0 <= x < 81,
        0 <= y < 81,
        x != y,
        same_unit(x, y),
        g[x] == 0,
        p.len() == 81,
        1 <= d <= 9,
        p[y] == d,
    ensures
        !extendable(g, p.update(x, d)),
{
    let q = p.update(x, d);
    if extendable(g, q) {
        let s = choose|s: Seq<int>| is_fill(s, g) && completes(s, q);
        assert(q[x] == d);
        assert(q[y] == d);
        assert(s[x] == d && s[y] == d);
        assert(s[x] != s[y]);
    }
}

/// If no digit can go in the empty cell `x`, no fill of `g` keeps `p`.
pub proof fn lemma_no_digit(g: Seq<int>, p: Seq<int>, x: int)
    requires
        p.len() == 81,
        0 <= x < 81,
        p[x] == 0,
        forall|d: int| 1 <= d <= 9 ==> !extendable(g, #[trigger] p.update(x, d)),
    ensures
        !extendable(g, p),
{
    if extendable(g, p) {
        let s = choose|s: Seq<int>| is_fill(s, g) && completes(s, p);
        let d = s[x];
        let q = p.update(x, d);
        assert(completes(s, q)) by {
            assert forall|i: int| 0 <= i < 81 && #[trigger] q[i] != 0 implies s[i] == q[i] by {
                if i != x {
                    assert(p[i] == q[i]);
                }
            }
        }
        assert(!extendable(g, q));
    }
}

/// `a` comes before `b` in row-major lexicographic order.
pub open spec fn precedes(a: Seq<int>, b: Seq<int>) -> bool {
    exists|m: int| 0 <= m < 81 && #[trigger] a[m] < b[m] && forall|i: int| 0 <= i < m ==> #[trigger] a[i] == b[i]
}

/// `s` is the first fill of `g` in row-major lexicographic order.
pub open spec fn first_fill(s: Seq<int>, g: Seq<int>) -> bool {
    is_fill(s, g) && forall|u: Seq<int>| is_fill(u, g) ==> !precedes(u, s)
}

/// Exactly one solution completes `g`.
pub open spec fn unique_solution(g: Seq<int>) -> bool {
    &&& solvable(g)
    &&& forall|s: Seq<int>, t: Seq<int>|
        is_solution(s) && completes(s, g) && is_solution(t) && completes(t, g) ==> s == t
}

/// Givens that some solution completes do not clash.
pub proof fn lemma_solvable_consistent(g: Seq<int>)
    requires
        solvable(g),
    ensures
        consistent(g),
{
    let s = choose|s: Seq<int>| is_solution(s) && completes(s, g);
    assert forall|i: int, j: int|
        0 <= i < 81 && 0 <= j < 81 && i != j && same_unit(i, j) && g[i] != 0 && g[j] != 0
            implies #[trigger] g[i] != #[trigger] g[j] by {
        assert(s[i] != s[j]);
    }
}

/// Whatever cell order a search takes, on a puzzle with exactly one solution
/// any two fills it can return are the same board.
pub proof fn lemma_heuristics_agree(g: Seq<int>, a: Seq<int>, b: Seq<int>)
    requires
        unique_solution(g),
        is_fill(a, g),
        is_fill(b, g),
    ensures
        a == b,
{
    lemma_solvable_consistent(g);
    lemma_fill_is_solution(a, g);
    lemma_fill_is_solution(b, g);
}

proof fn lemma_lex_total(a: Seq<int>, b: Seq<int>, n: int)
    requires
        a.len() == 81,
        b.len() == 81,
        0 <= n <= 81,
        forall|i: int| 0 <= i < n ==> a[i] == b[i],
    ensures
        precedes(a, b) || precedes(b, a) || a == b,
    decreases 81 - n,
{
    if n == 81 {
        assert(a =~= b);
    } else if a[n] < b[n] {
        assert(forall|i: int| 0 <= i < n ==> #[trigger] a[i] == b[i]);
    } else if b[n] < a[n] {
        assert(forall|i: int| 0 <= i < n ==> #[trigger] b[i] == a[i]);
    } else {
        lemma_lex_total(a, b, n + 1);
    }
}

/// The first fill of a board is unique: a search that always returns the
/// first fill returns the same board every time it runs on the same givens.
pub proof fn lemma_first_fill_unique(g: Seq<int>, s1: Seq<int>, s2: Seq<int>)
    requires
        first_fill(s1, g),
        first_fill(s2, g),
    ensures
        s1 == s2,
{
    lemma_lex_total(s1, s2, 0);
}

/// The `m`-th cell (0..9) of unit `u` of the given kind.
pub open spec fn unit_cell(kind: int, u: int, m: int) -> int {
    if kind == 0 {
        u * 9 + m
    } else if kind == 1 {
        m * 9 + u
    } else {
        ((u / 3) * 3 + m / 3) * 9 + (u % 3) * 3 + m % 3
    }
}

proof fn lemma_unit_cell(kind: int, u: int, m: int)
    requires
        0 <= kind < 3,
        0 <= u < 9,
        0 <= m < 9,
    ensures
        0 <= unit_cell(kind, u, m) < 81,
        unit_of(kind, unit_cell(kind, u, m)) == u,
        row_of(unit_cell(kind, u, m)) * 9 + col_of(unit_cell(kind, u, m)) == unit_cell(kind, u, m),
        kind == 0 ==> col_of(unit_cell(kind, u, m)) == m,
        kind == 1 ==> row_of(unit_cell(kind, u, m)) == m,
        kind == 2 ==> (row_of(unit_cell(kind, u, m)) % 3) * 3 + col_of(unit_cell(kind, u, m)) % 3 == m,
{
    let c = unit_cell(kind, u, m);
    if kind == 2 {
        let r = (u / 3) * 3 + m / 3;
        let q = (u % 3) * 3 + m % 3;
        assert(0 <= q < 9);
        assert(0 <= r < 9);
        assert(c == r * 9 + q);
        assert(c / 9 == r);
        assert(c % 9 == q);
        assert(r / 3 == u / 3);
        assert(q / 3 == u % 3);
        assert(r % 3 == m / 3);
        assert(q % 3 == m % 3);
    }
}

/// In a solution, each row, column and block holds each digit 1..=9 exactly
/// once.
pub proof fn lemma_each_digit_once(s: Seq<int>, kind: int, u: int, d: int)
    requires
        is_solution(s),
        0 <= kind < 3,
        0 <= u < 9,
        1 <= d <= 9,
    ensures
        exists|i: int| 0 <= i < 81 && unit_of(kind, i) == u && #[trigger] s[i] == d,
        forall|i: int, j: int|
            0 <= i < 81 && 0 <= j < 81 && unit_of(kind, i) == u && unit_of(kind, j) == u && #[trigger] s[i] == d
                && #[trigger] s[j] == d ==> i == j,
{
    let f = |m: int| s[unit_cell(kind, u, m)];
    let x = set_int_range(0, 9);
    let y = x.map(f);
    let digits = set_int_range(1, 10);
    assert forall|m1: int, m2: int| x.contains(m1) && x.contains(m2) && #[trigger] f(m1) == #[trigger] f(m2) implies m1 == m2 by {
        lemma_unit_cell(kind, u, m1);
        lemma_unit_cell(kind, u, m2);
        let c1 = unit_cell(kind, u, m1);
        let c2 = unit_cell(kind, u, m2);
        if m1 != m2 {
            assert(c1 != c2);
            assert(same_unit(c1, c2));
            assert(s[c1] != s[c2]);
        }
    }
    lemma_int_range(0, 9);
    lemma_int_range(1, 10);
    lemma_map_size(x, y, f);
    assert forall|v: int| y.contains(v) implies digits.contains(v) by {
        let m = choose|m: int| x.contains(m) && f(m) == v;
        lemma_unit_cell(kind, u, m);
    }
    lemma_subset_equality(y, digits);
    assert(digits.contains(d));
    let m = choose|m: int| x.contains(m) && f(m) == d;
    lemma_unit_cell(kind, u, m);
    assert(s[unit_cell(kind, u, m)] == d);
    assert forall|i: int, j: int|
        0 <= i < 81 && 0 <= j < 81 && unit_of(kind, i) == u && unit_of(kind, j) == u && #[trigger] s[i] == d
            && #[trigger] s[j] == d implies i == j by {
        if i != j {
            assert(same_unit(i, j));
        }
    }
}

/// A fixed solution: row `r` is the digits shifted by `3 * r + r / 3`.
pub open spec fn pattern_cell(i: int) -> int {
    ((i / 9) * 3 + (i / 9) / 3 + i % 9) % 9 + 1
}

/// Cell `i` read as band `a`, row in band `b`, stack `x`, column in stack `y`.
proof fn lemma_pattern_digits(i: int)
    requires
        0 <= i < 81,
    ensures
        ({
            let (a, b, x, y) = ((i / 9) / 3, (i / 9) % 3, (i % 9) / 3, (i % 9) % 3);
            &&& 0 <= a < 3 && 0 <= b < 3 && 0 <= x < 3 && 0 <= y < 3
            &&& row_of(i) == 3 * a + b
            &&& col_of(i) == 3 * x + y
            &&& blk_of(i) == 3 * a + x
            &&& pattern_cell(i) == (3 * b + a + 3 * x + y) % 9 + 1
        }),
{
    let r = i / 9;
    let c = i % 9;
    let (a, b, x, y) = (r / 3, r % 3, c / 3, c % 3);
    assert(r == 3 * a + b);
    assert(c == 3 * x + y);
    assert(r * 3 + r / 3 + c == 9 * a + (3 * b + a + 3 * x + y));
    assert((9 * a + (3 * b + a + 3 * x + y)) % 9 == (3 * b + a + 3 * x + y) % 9);
}

proof fn lemma_pattern_values(a1: int, b1: int, x1: int, y1: int, a2: int, b2: int, x2: int, y2: int)
    requires
        0 <= a1 < 3 && 0 <= b1 < 3 && 0 <= x1 < 3 && 0 <= y1 < 3,
        0 <= a2 < 3 && 0 <= b2 < 3 && 0 <= x2 < 3 && 0 <= y2 < 3,
        (3 * b1 + a1 + 3 * x1 + y1) % 9 == (3 * b2 + a2 + 3 * x2 + y2) % 9,
    ensures
        a1 == a2 && b1 == b2 ==> x1 == x2 && y1 == y2,
        x1 == x2 && y1 == y2 ==> a1 == a2 && b1 == b2,
        a1 == a2 && x1 == x2 ==> b1 == b2 && y1 == y2,
{
    let v1 = 3 * b1 + a1 + 3 * x1 + y1;
    let v2 = 3 * b2 + a2 + 3 * x2 + y2;
    assert(v1 - v2 == 0 || v1 - v2 == 9 || v1 - v2 == -9);
}

proof fn lemma_pattern_pair(i: int, j: int)
    requires
        0 <= i < 81,
        0 <= j < 81,
        i != j,
        same_unit(i, j),
    ensures
        pattern_cell(i) != pattern_cell(j),
{
    lemma_pattern_digits(i);
    lemma_pattern_digits(j);
    let (a1, b1, x1, y1) = ((i / 9) / 3, (i / 9) % 3, (i % 9) / 3, (i % 9) % 3);
    let (a2, b2, x2, y2) = ((j / 9) / 3, (j / 9) % 3, (j % 9) / 3, (j % 9) % 3);
    assert(i == 9 * row_of(i) + col_of(i));
    assert(j == 9 * row_of(j) + col_of(j));
    if pattern_cell(i) == pattern_cell(j) {
        lemma_pattern_values(a1, b1, x1, y1, a2, b2, x2, y2);
    }
}

/// A blank board has a solution, so a search on it always finds one.
pub proof fn lemma_blank_solvable()
    ensures
        solvable(Seq::new(81, |i: int| 0int)),
{
    let s = Seq::new(81, |i: int| pattern_cell(i));
    assert forall|i: int, j: int|
        0 <= i < 81 && 0 <= j < 81 && i != j && same_unit(i, j) implies #[trigger] s[i] != #[trigger] s[j] by {
        lemma_pattern_pair(i, j);
    }
    assert(is_solution(s) && completes(s, Seq::new(81, |i: int| 0int)));
}

} // verus!
