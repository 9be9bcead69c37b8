//! The grid state and the backtracking search over it.
use vstd::prelude::*;
use vstd::string::StringSliceAdditionalSpecFns;
use vstd::string::StringExecFns;

use crate::bits::{
    has_bit,
    lemma_complement,
    lemma_lowest_bit,
    lemma_ones_nine,
    lemma_set_bit,
    lemma_toggle_back,
    lemma_union,
    ones,
};
use crate::rules::{
    blk_of,
    block_of,
    col_of,
    completes,
    consistent,
    extendable,
    first_fill,
    flat,
    is_board,
    is_fill,
    is_full,
    is_solution,
    lemma_clash,
    lemma_fill_is_solution,
    lemma_no_digit,
    lemma_solution_is_fill,
    lemma_solvable_consistent,
    overlay,
    precedes,
    row_of,
    same_unit,
    solvable,
    unit_of,
};
use crate::status::Status;

verus! {

/// Why a line is not a grid.
#[derive(Clone, Copy, Debug, PartialEq, Eq, Structural)]
pub enum ParseError {
    /// The line is not 81 bytes long.
    InvalidLength,
    /// A byte of the line is not an ASCII digit.
    InvalidCharacter,
}

pub open spec fn parse_error_text(e: ParseError) -> Seq<char> {
    match e {
        ParseError::InvalidLength => "length is not 81"@,
        ParseError::InvalidCharacter => "non-digit character(s) found"@,
    }
}

impl ParseError {
    /// What went wrong, in words.
    pub fn message(&self) -> (r: &'static str)
        ensures
            r@ == parse_error_text(*self),
    {
        match self {
            ParseError::InvalidLength => "length is not 81",
            ParseError::InvalidCharacter => "non-digit character(s) found",
        }
    }
}

pub open spec fn is_digit_byte(c: u8) -> bool {
    48 <= c <= 57
}

pub open spec fn all_digits(b: Seq<u8>) -> bool {
    forall|i: int| 0 <= i < b.len() ==> is_digit_byte(#[trigger] b[i])
}

/// The board that an 81-digit line writes, row by row.
pub open spec fn digits_of(b: Seq<u8>) -> Seq<int> {
    Seq::new(81, |i: int| b[i] as int - 48)
}

/// The cell index of an empty-cell entry (row, column, block).
pub open spec fn cell_of(e: (usize, usize, usize)) -> int {
    e.0 * 9 + e.1
}

/// `m` has bit `t` exactly when some cell of unit `u` of the given kind holds
/// digit `t + 1` in `p`.
pub open spec fn mask_ok(m: u32, p: Seq<int>, kind: int, u: int) -> bool {
    &&& m < 512
    &&& forall|t: u32|
        t < 9 ==> (#[trigger] has_bit(m, t) <==> exists|i: int|
            0 <= i < 81 && unit_of(kind, i) == u && #[trigger] p[i] == t + 1)
}

pub open spec fn masks_ok(rows: Seq<u32>, cols: Seq<u32>, blocks: Seq<u32>, p: Seq<int>) -> bool {
    &&& rows.len() == 9
    &&& cols.len() == 9
    &&& blocks.len() == 9
    &&& forall|u: int| 0 <= u < 9 ==> mask_ok(#[trigger] rows[u], p, 0, u)
    &&& forall|u: int| 0 <= u < 9 ==> mask_ok(#[trigger] cols[u], p, 1, u)
    &&& forall|u: int| 0 <= u < 9 ==> mask_ok(#[trigger] blocks[u], p, 2, u)
}

/// In `p`, no cell that is empty in `g` and filled in `p` equals another cell
/// of its row, column or block.
pub open spec fn placed_ok(g: Seq<int>, p: Seq<int>) -> bool {
    forall|i: int, j: int|
        0 <= i < 81 && 0 <= j < 81 && i != j && same_unit(i, j) && g[i] == 0 && p[i] != 0
            ==> #[trigger] p[i] != #[trigger] p[j]
}

/// A puzzle with its occupancy masks and the list of its empty cells.
pub struct Sudoku {
    grid: [[u8; 9]; 9],
    row_mask: [u32; 9],
    col_mask: [u32; 9],
    block_mask: [u32; 9],
    empty_cells: Vec<(usize, usize, usize)>,
    use_mrv: bool,
    /// Two givens of one row, column or block are equal.
    clash: bool,
    /// The givens together with the digits that the search has committed.
    trail: Ghost<Seq<int>>,
}

proof fn lemma_cell(r: int, c: int)
    requires
        0 <= r < 9,
        0 <= c < 9,
    ensures
        0 <= r * 9 + c < 81,
        row_of(r * 9 + c) == r,
        col_of(r * 9 + c) == c,
        blk_of(r * 9 + c) == block_of(r, c),
        0 <= block_of(r, c) < 9,
{
}

/// Committing digit `t + 1` to the empty cell `x` sets bit `t` in the three
/// masks of its units.
proof fn lemma_mask_add(m: u32, p: Seq<int>, kind: int, u: int, x: int, t: u32)
    requires
        mask_ok(m, p, kind, u),
        p.len() == 81,
        0 <= x < 81,
        p[x] == 0,
        t < 9,
    ensures
        unit_of(kind, x) == u ==> mask_ok(m | (1u32 << t), p.update(x, t + 1), kind, u),
        unit_of(kind, x) != u ==> mask_ok(m, p.update(x, t + 1), kind, u),
{
    let q = p.update(x, t + 1);
    if unit_of(kind, x) == u {
        lemma_set_bit(m, t, 0);
        assert forall|j: u32| j < 9 implies (#[trigger] has_bit(m | (1u32 << t), j) <==> exists|i: int|
            0 <= i < 81 && unit_of(kind, i) == u && #[trigger] q[i] == j + 1) by {
            lemma_set_bit(m, t, j);
            if has_bit(m, j) {
                let i = choose|i: int| 0 <= i < 81 && unit_of(kind, i) == u && #[trigger] p[i] == j + 1;
                assert(q[i] == j + 1);
            }
            if j == t {
                assert(q[x] == j + 1);
            }
            if exists|i: int| 0 <= i < 81 && unit_of(kind, i) == u && #[trigger] q[i] == j + 1 {
                let i = choose|i: int| 0 <= i < 81 && unit_of(kind, i) == u && #[trigger] q[i] == j + 1;
                if i != x {
                    assert(p[i] == j + 1);
                }
            }
        }
    } else {
        assert forall|j: u32| j < 9 implies (#[trigger] has_bit(m, j) <==> exists|i: int|
            0 <= i < 81 && unit_of(kind, i) == u && #[trigger] q[i] == j + 1) by {
            if has_bit(m, j) {
                let i = choose|i: int| 0 <= i < 81 && unit_of(kind, i) == u && #[trigger] p[i] == j + 1;
                assert(q[i] == j + 1);
            }
            if exists|i: int| 0 <= i < 81 && unit_of(kind, i) == u && #[trigger] q[i] == j + 1 {
                let i = choose|i: int| 0 <= i < 81 && unit_of(kind, i) == u && #[trigger] q[i] == j + 1;
                assert(p[i] == j + 1);
            }
        }
    }
}

/// Committing digit `t + 1` to the empty cell `x` of row `r`, column `c`
/// and block `b` sets bit `t` in those three masks.
proof fn lemma_masks_add(rows: Seq<u32>, cols: Seq<u32>, blocks: Seq<u32>, p: Seq<int>, x: int, r: int, c: int, b: int, t: u32)
    requires
        masks_ok(rows, cols, blocks, p),
        p.len() == 81,
        0 <= x < 81,
        p[x] == 0,
        t < 9,
        r == row_of(x),
        c == col_of(x),
        b == blk_of(x),
        0 <= b < 9,
    ensures
        masks_ok(
            rows.update(r, rows[r] | (1u32 << t)),
            cols.update(c, cols[c] | (1u32 << t)),
            blocks.update(b, blocks[b] | (1u32 << t)),
            p.update(x, t + 1),
        ),
{
    let q = p.update(x, t + 1);
    assert forall|u: int| 0 <= u < 9 implies mask_ok(#[trigger] rows.update(r, rows[r] | (1u32 << t))[u], q, 0, u) by {
        lemma_mask_add(rows[u], p, 0, u, x, t);
    }
    assert forall|u: int| 0 <= u < 9 implies mask_ok(#[trigger] cols.update(c, cols[c] | (1u32 << t))[u], q, 1, u) by {
        lemma_mask_add(cols[u], p, 1, u, x, t);
    }
    assert forall|u: int| 0 <= u < 9 implies mask_ok(#[trigger] blocks.update(b, blocks[b] | (1u32 << t))[u], q, 2, u) by {
        lemma_mask_add(blocks[u], p, 2, u, x, t);
    }
}

/// Adding digit `d` in the empty cell `x` keeps the givens apart exactly when
/// no cell of its row, column or block already holds `d`.
proof fn lemma_consistent_add(p: Seq<int>, x: int, d: int)
    requires
        p.len() == 81,
        0 <= x < 81,
        p[x] == 0,
        1 <= d <= 9,
    ensures
        consistent(p.update(x, d)) == (consistent(p) && !exists|z: int|
            0 <= z < 81 && same_unit(x, z) && #[trigger] p[z] == d),
{
    let q = p.update(x, d);
    if exists|z: int| 0 <= z < 81 && same_unit(x, z) && #[trigger] p[z] == d {
        let z = choose|z: int| 0 <= z < 81 && same_unit(x, z) && #[trigger] p[z] == d;
        assert(q[x] == d && q[z] == d && x != z);
    }
    if consistent(q) {
        assert forall|i: int, j: int|
            0 <= i < 81 && 0 <= j < 81 && i != j && same_unit(i, j) && p[i] != 0 && p[j] != 0
                implies #[trigger] p[i] != #[trigger] p[j] by {
            assert(q[i] == p[i] && q[j] == p[j]);
        }
    }
    if consistent(p) && !exists|z: int| 0 <= z < 81 && same_unit(x, z) && #[trigger] p[z] == d {
        assert forall|i: int, j: int|
            0 <= i < 81 && 0 <= j < 81 && i != j && same_unit(i, j) && q[i] != 0 && q[j] != 0
                implies #[trigger] q[i] != #[trigger] q[j] by {
            if i == x {
                assert(p[j] != d);
            } else if j == x {
                assert(same_unit(x, i));
                assert(p[i] != d);
            } else {
                assert(p[i] != p[j]);
            }
        }
    }
}

/// The board of the first `n` cells of `g`, the rest empty.
spec fn prefix_board(g: Seq<int>, n: int) -> Seq<int> {
    Seq::new(81, |i: int| if i < n { g[i] } else { 0 })
}

spec fn entry_ok(e: (usize, usize, usize)) -> bool {
    e.0 < 9 && e.1 < 9 && e.2 as int == block_of(e.0 as int, e.1 as int)
}

/// The empty cells `e` of the givens `g`: each once, the first `k` filled in
/// `p`, the rest empty in `p`; `p` keeps the givens.
spec fn cells_ok(g: Seq<int>, p: Seq<int>, e: Seq<(usize, usize, usize)>, k: int) -> bool {
    &&& 0 <= k <= e.len() <= 81
    &&& forall|i: int| 0 <= i < 81 && #[trigger] g[i] != 0 ==> p[i] == g[i]
    &&& forall|i: int|
        0 <= i < 81 && #[trigger] g[i] == 0 ==> exists|j: int|
            0 <= j < e.len() && #[trigger] cell_of(e[j]) == i
    &&& forall|j: int| 0 <= j < e.len() ==> entry_ok(#[trigger] e[j]) && g[cell_of(e[j])] == 0
    &&& forall|j1: int, j2: int|
        0 <= j1 < e.len() && 0 <= j2 < e.len() && j1 != j2 ==> cell_of(#[trigger] e[j1])
            != cell_of(#[trigger] e[j2])
    &&& forall|j: int| 0 <= j < k ==> p[cell_of(#[trigger] e[j])] != 0
    &&& forall|j: int| k <= j < e.len() ==> p[cell_of(#[trigger] e[j])] == 0
}

/// Swapping two entries at or after `k` keeps the list valid.
proof fn lemma_swap(g: Seq<int>, p: Seq<int>, e: Seq<(usize, usize, usize)>, k: int, a: int, b: int)
    requires
        cells_ok(g, p, e, k),
        k <= a < e.len(),
        k <= b < e.len(),
    ensures
        cells_ok(g, p, e.update(a, e[b]).update(b, e[a]), k),
{
    let f = e.update(a, e[b]).update(b, e[a]);
    assert forall|i: int| 0 <= i < 81 && #[trigger] g[i] == 0 implies exists|j: int|
        0 <= j < f.len() && #[trigger] cell_of(f[j]) == i by {
        let j = choose|j: int| 0 <= j < e.len() && #[trigger] cell_of(e[j]) == i;
        if j == a {
            assert(cell_of(f[b]) == i);
        } else if j == b {
            assert(cell_of(f[a]) == i);
        } else {
            assert(cell_of(f[j]) == i);
        }
    }
    assert forall|j1: int, j2: int|
        0 <= j1 < f.len() && 0 <= j2 < f.len() && j1 != j2 implies cell_of(#[trigger] f[j1])
        != cell_of(#[trigger] f[j2]) by {
        let o1 = if j1 == a { b } else if j1 == b { a } else { j1 };
        let o2 = if j2 == a { b } else if j2 == b { a } else { j2 };
        assert(f[j1] == e[o1]);
        assert(f[j2] == e[o2]);
    }
    assert forall|j: int| 0 <= j < f.len() implies entry_ok(#[trigger] f[j]) && g[cell_of(f[j])] == 0 by {
        let o = if j == a { b } else if j == b { a } else { j };
        assert(f[j] == e[o]);
    }
    assert forall|j: int| k <= j < f.len() implies p[cell_of(#[trigger] f[j])] == 0 by {
        let o = if j == a { b } else if j == b { a } else { j };
        assert(f[j] == e[o]);
    }
    assert forall|j: int| 0 <= j < k implies p[cell_of(#[trigger] f[j])] != 0 by {
        assert(f[j] == e[j]);
    }
}

/// The digits that the three masks of entry `e` hold are those of its row,
/// column and block in `p`.
proof fn lemma_used(rows: Seq<u32>, cols: Seq<u32>, blocks: Seq<u32>, p: Seq<int>, e: (usize, usize, usize), t: u32)
    requires
        masks_ok(rows, cols, blocks, p),
        p.len() == 81,
        entry_ok(e),
        t < 9,
    ensures
        (rows[e.0 as int] | cols[e.1 as int] | blocks[e.2 as int]) < 512,
        has_bit(rows[e.0 as int] | cols[e.1 as int] | blocks[e.2 as int], t) <==> exists|z: int|
            0 <= z < 81 && same_unit(cell_of(e), z) && #[trigger] p[z] == t + 1,
        !has_bit(rows[e.0 as int] | cols[e.1 as int] | blocks[e.2 as int], t) ==> {
            &&& !has_bit(rows[e.0 as int], t)
            &&& !has_bit(cols[e.1 as int], t)
            &&& !has_bit(blocks[e.2 as int], t)
        },
{
    let (r, c, b) = e;
    let x = cell_of(e);
    lemma_cell(r as int, c as int);
    assert(mask_ok(rows[r as int], p, 0, r as int));
    assert(mask_ok(cols[c as int], p, 1, c as int));
    assert(mask_ok(blocks[b as int], p, 2, b as int));
    lemma_union(rows[r as int], cols[c as int], blocks[b as int], t);
    if exists|z: int| 0 <= z < 81 && same_unit(x, z) && #[trigger] p[z] == t + 1 {
        let z = choose|z: int| 0 <= z < 81 && same_unit(x, z) && #[trigger] p[z] == t + 1;
        if row_of(z) == r {
            assert(unit_of(0, z) == r);
            assert(has_bit(rows[r as int], t));
        } else if col_of(z) == c {
            assert(unit_of(1, z) == c);
            assert(has_bit(cols[c as int], t));
        } else {
            assert(unit_of(2, z) == b);
            assert(has_bit(blocks[b as int], t));
        }
    }
    if has_bit(rows[r as int], t) {
        let z = choose|z: int| 0 <= z < 81 && unit_of(0, z) == r && #[trigger] p[z] == t + 1;
        assert(same_unit(x, z));
    } else if has_bit(cols[c as int], t) {
        let z = choose|z: int| 0 <= z < 81 && unit_of(1, z) == c && #[trigger] p[z] == t + 1;
        assert(same_unit(x, z));
    } else if has_bit(blocks[b as int], t) {
        let z = choose|z: int| 0 <= z < 81 && unit_of(2, z) == b && #[trigger] p[z] == t + 1;
        assert(same_unit(x, z));
    }
}

/// A digit that the masks of an uncommitted empty cell hold leads to no fill.
proof fn lemma_excluded(g: Seq<int>, p: Seq<int>, rows: Seq<u32>, cols: Seq<u32>, blocks: Seq<u32>, e: Seq<(usize, usize, usize)>, k: int, j: int, t: u32)
    requires
        is_board(p),
        masks_ok(rows, cols, blocks, p),
        cells_ok(g, p, e, k),
        k <= j < e.len(),
        t < 9,
        has_bit(rows[e[j].0 as int] | cols[e[j].1 as int] | blocks[e[j].2 as int], t),
    ensures
        !extendable(g, p.update(cell_of(e[j]), t + 1)),
{
    let y = cell_of(e[j]);
    assert(entry_ok(e[j]));
    lemma_cell(e[j].0 as int, e[j].1 as int);
    lemma_used(rows, cols, blocks, p, e[j], t);
    let z = choose|z: int| 0 <= z < 81 && same_unit(y, z) && #[trigger] p[z] == t + 1;
    assert(p[y] == 0);
    lemma_clash(g, p, y, z, t + 1);
}

/// Committing a free digit to the next empty cell gives the state one level
/// deeper.
proof fn lemma_commit(g: Seq<int>, p: Seq<int>, rows: Seq<u32>, cols: Seq<u32>, blocks: Seq<u32>, e: Seq<(usize, usize, usize)>, k: int, t: u32)
    requires
        is_board(g),
        is_board(p),
        masks_ok(rows, cols, blocks, p),
        placed_ok(g, p),
        cells_ok(g, p, e, k),
        k < e.len(),
        t < 9,
        !has_bit(rows[e[k].0 as int] | cols[e[k].1 as int] | blocks[e[k].2 as int], t),
    ensures
        is_board(p.update(cell_of(e[k]), t + 1)),
        masks_ok(
            rows.update(e[k].0 as int, rows[e[k].0 as int] | (1u32 << t)),
            cols.update(e[k].1 as int, cols[e[k].1 as int] | (1u32 << t)),
            blocks.update(e[k].2 as int, blocks[e[k].2 as int] | (1u32 << t)),
            p.update(cell_of(e[k]), t + 1),
        ),
        placed_ok(g, p.update(cell_of(e[k]), t + 1)),
        cells_ok(g, p.update(cell_of(e[k]), t + 1), e, k + 1),
        !has_bit(rows[e[k].0 as int], t),
        !has_bit(cols[e[k].1 as int], t),
        !has_bit(blocks[e[k].2 as int], t),
        p[cell_of(e[k])] == 0,
{
    let (r, c, b) = e[k];
    let x = cell_of(e[k]);
    let q = p.update(x, t + 1);
    assert(entry_ok(e[k]));
    lemma_cell(r as int, c as int);
    lemma_used(rows, cols, blocks, p, e[k], t);
    assert(p[x] == 0);
    lemma_masks_add(rows, cols, blocks, p, x, r as int, c as int, b as int, t);
    assert forall|i: int, j: int|
        0 <= i < 81 && 0 <= j < 81 && i != j && same_unit(i, j) && g[i] == 0 && q[i] != 0
            implies #[trigger] q[i] != #[trigger] q[j] by {
        if i == x {
            assert(p[j] != t + 1);
        } else if j == x {
            assert(same_unit(x, i));
            assert(p[i] != t + 1);
        } else {
            assert(p[i] != p[j]);
        }
    }
    assert forall|j: int| 0 <= j < k + 1 implies q[cell_of(#[trigger] e[j])] != 0 by {
        if j < k {
            assert(cell_of(e[j]) != x);
        }
    }
    assert forall|j: int| k + 1 <= j < e.len() implies q[cell_of(#[trigger] e[j])] == 0 by {
        assert(cell_of(e[j]) != x);
    }
    assert forall|i: int| 0 <= i < 81 && #[trigger] g[i] != 0 implies q[i] == g[i] by {
        assert(i != x);
    }
}

/// Taking back the digit of the empty cell at `k` gives the state at `k`.
proof fn lemma_uncommit(g: Seq<int>, p: Seq<int>, e: Seq<(usize, usize, usize)>, k: int, d: int)
    requires
        0 <= k < e.len(),
        p[cell_of(e[k])] == 0,
        p.len() == 81,
        cells_ok(g, p.update(cell_of(e[k]), d), e, k + 1),
    ensures
        cells_ok(g, p, e, k),
{
    let x = cell_of(e[k]);
    let q = p.update(x, d);
    assert forall|j: int| 0 <= j < k implies p[cell_of(#[trigger] e[j])] != 0 by {
        assert(cell_of(e[j]) != x);
        assert(q[cell_of(e[j])] != 0);
    }
    assert forall|j: int| k <= j < e.len() implies p[cell_of(#[trigger] e[j])] == 0 by {
        if j != k {
            assert(cell_of(e[j]) != x);
            assert(q[cell_of(e[j])] == 0);
        }
    }
    assert forall|i: int| 0 <= i < 81 && #[trigger] g[i] != 0 implies p[i] == g[i] by {
        let jx = k;
        assert(g[cell_of(e[jx])] == 0);
        assert(i != x);
        assert(q[i] == g[i]);
    }
}

/// Before any digit is committed, the filled cells of the board are the givens.
proof fn lemma_top(g: Seq<int>, p: Seq<int>, e: Seq<(usize, usize, usize)>, s: Seq<int>)
    requires
        cells_ok(g, p, e, 0),
        completes(s, g),
        s.len() == 81,
    ensures
        overlay(s, p) == s,
        forall|i: int| 0 <= i < 81 && #[trigger] p[i] != 0 ==> g[i] == p[i],
{
    assert forall|i: int| 0 <= i < 81 && #[trigger] p[i] != 0 implies g[i] == p[i] by {
        if g[i] == 0 {
            let j = choose|j: int| 0 <= j < e.len() && #[trigger] cell_of(e[j]) == i;
        }
    }
    assert forall|i: int| 0 <= i < 81 implies #[trigger] overlay(s, p)[i] == s[i] by {
        if p[i] != 0 && g[i] == 0 {
            let j = choose|j: int| 0 <= j < e.len() && #[trigger] cell_of(e[j]) == i;
        }
    }
    assert(overlay(s, p) =~= s);
}

/// Taking the empty cells in row-major order, every cell before the one at
/// `k` is filled.
proof fn lemma_filled_before(g: Seq<int>, p: Seq<int>, e: Seq<(usize, usize, usize)>, k: int)
    requires
        cells_ok(g, p, e, k),
        k < e.len(),
        forall|j1: int, j2: int| 0 <= j1 < j2 < e.len() ==> cell_of(#[trigger] e[j1]) < cell_of(#[trigger] e[j2]),
    ensures
        forall|i: int| 0 <= i < cell_of(e[k]) ==> #[trigger] p[i] != 0,
{
    assert forall|i: int| 0 <= i < cell_of(e[k]) implies #[trigger] p[i] != 0 by {
        assert(entry_ok(e[k]));
        if g[i] == 0 {
            let j = choose|j: int| 0 <= j < e.len() && #[trigger] cell_of(e[j]) == i;
            if j > k {
                assert(cell_of(e[k]) < cell_of(e[j]));
            }
        }
    }
}

/// The step of the first-fill argument: digit `t + 1` is the least that can
/// go in `x`, every cell before `x` is filled, and `s` is first among the fills
/// that hold `t + 1` at `x`; then `s` is first among all fills.
proof fn lemma_first_step(g: Seq<int>, p: Seq<int>, x: int, t: int, s: Seq<int>)
    requires
        p.len() == 81,
        0 <= x < 81,
        p[x] == 0,
        s[x] == t + 1,
        completes(s, p),
        forall|i: int| 0 <= i < x ==> #[trigger] p[i] != 0,
        forall|d: int| 1 <= d <= t ==> !extendable(g, #[trigger] p.update(x, d)),
        forall|u: Seq<int>| is_fill(u, g) && completes(u, p.update(x, t + 1)) ==> !precedes(u, s),
    ensures
        forall|u: Seq<int>| is_fill(u, g) && completes(u, p) ==> !precedes(u, s),
{
    assert forall|u: Seq<int>| is_fill(u, g) && completes(u, p) implies !precedes(u, s) by {
        if precedes(u, s) {
            let m = choose|m: int| 0 <= m < 81 && #[trigger] u[m] < s[m] && forall|i: int| 0 <= i < m ==> #[trigger] u[i] == s[i];
            if m < x {
                assert(p[m] != 0);
            } else if m == x {
                let d = u[x];
                let q = p.update(x, d);
                assert(completes(u, q)) by {
                    assert forall|i: int| 0 <= i < 81 && #[trigger] q[i] != 0 implies u[i] == q[i] by {
                        if i != x {
                            assert(p[i] == q[i]);
                        }
                    }
                }
                assert(is_fill(u, g) && completes(u, q));
                assert(!extendable(g, p.update(x, d)));
            } else {
                assert(u[x] == s[x]);
                let q = p.update(x, t + 1);
                assert(completes(u, q)) by {
                    assert forall|i: int| 0 <= i < 81 && #[trigger] q[i] != 0 implies u[i] == q[i] by {
                        if i != x {
                            assert(p[i] == q[i]);
                        }
                    }
                }
            }
        }
    }
}

/// Before any digit is committed, a fill of consistent givens that keeps the
/// board exists exactly when the givens have a solution.
proof fn lemma_top_solvable(g: Seq<int>, p: Seq<int>, e: Seq<(usize, usize, usize)>)
    requires
        cells_ok(g, p, e, 0),
        p.len() == 81,
        g.len() == 81,
    ensures
        (consistent(g) && extendable(g, p)) == solvable(g),
{
    assert forall|i: int| 0 <= i < 81 implies #[trigger] p[i] == g[i] by {
        if g[i] == 0 {
            let j = choose|j: int| 0 <= j < e.len() && #[trigger] cell_of(e[j]) == i;
        }
    }
    assert(p =~= g);
    if solvable(g) {
        lemma_solvable_consistent(g);
        let s = choose|s: Seq<int>| is_solution(s) && completes(s, g);
        lemma_solution_is_fill(s, g);
        assert(is_fill(s, g) && completes(s, p));
    }
    if consistent(g) && extendable(g, p) {
        let s = choose|s: Seq<int>| is_fill(s, g) && completes(s, p);
        lemma_fill_is_solution(s, g);
        assert(is_solution(s) && completes(s, g));
    }
}

/// With every empty cell committed, the board is a fill of the givens.
proof fn lemma_complete(g: Seq<int>, p: Seq<int>, e: Seq<(usize, usize, usize)>)
    requires
        is_board(p),
        placed_ok(g, p),
        cells_ok(g, p, e, e.len() as int),
    ensures
        is_full(p),
        is_fill(p, g),
{
    assert forall|i: int| 0 <= i < 81 implies 1 <= #[trigger] p[i] <= 9 by {
        if g[i] == 0 {
            let j = choose|j: int| 0 <= j < e.len() && #[trigger] cell_of(e[j]) == i;
            assert(p[cell_of(e[j])] != 0);
        } else {
            assert(p[i] == g[i]);
        }
    }
    assert forall|i: int| 0 <= i < 81 && #[trigger] g[i] != 0 implies p[i] == g[i] by {
    }
}

impl Sudoku {
    /// The grid as a board: the givens, 0 for an empty cell, until a search
    /// succeeds; the solution after.
    pub closed spec fn grid(&self) -> Seq<int> {
        flat(self.grid)
    }

    /// The givens and the digits that the search has committed so far.
    pub closed spec fn board(&self) -> Seq<int> {
        self.trail@
    }

    /// Whether the search picks the cell with fewest candidates next.
    pub closed spec fn mrv(&self) -> bool {
        self.use_mrv
    }

    /// The empty cells, as cell indices, in the order the search takes them.
    pub closed spec fn order(&self) -> Seq<int> {
        Seq::new(self.empty_cells@.len(), |j: int| cell_of(self.empty_cells@[j]))
    }

    /// The state of a search that has committed a digit to each of the first
    /// `k` empty cells: the masks hold exactly the digits of `board()`, no
    /// committed digit repeats one of its row, column or block, and whether
    /// two givens clash is recorded.
    pub closed spec fn searching(&self, k: int) -> bool {
        &&& is_board(flat(self.grid))
        &&& is_board(self.trail@)
        &&& masks_ok(self.row_mask@, self.col_mask@, self.block_mask@, self.trail@)
        &&& placed_ok(flat(self.grid), self.trail@)
        &&& cells_ok(flat(self.grid), self.trail@, self.empty_cells@, k)
        &&& self.clash == !consistent(flat(self.grid))
    }

    /// The three masks: rows, columns, blocks.
    pub closed spec fn masks(&self) -> (Seq<u32>, Seq<u32>, Seq<u32>) {
        (self.row_mask@, self.col_mask@, self.block_mask@)
    }

    /// How many digits the masks leave free for the empty cell at `j`.
    pub closed spec fn free_count(&self, j: int) -> int {
        let e = self.empty_cells@[j];
        9 - ones((self.row_mask@[e.0 as int] | self.col_mask@[e.1 as int] | self.block_mask@[
            e.2 as int]) as nat)
    }

    /// Scanning the empty cells from `k` on, one with no free digit comes
    /// before any with a single one.
    pub closed spec fn dead_first(&self, k: int) -> bool {
        exists|j: int|
            k <= j < self.empty_cells@.len() && self.free_count(j) == 0 && forall|i: int|
                k <= i < j ==> #[trigger] self.free_count(i) >= 2
    }

    /// Switches the fewest-candidates heuristic on or off; the search then
    /// takes the empty cells in their stored order.
    pub fn set_heuristic(&mut self, use_mrv: bool)
        ensures
            final(self).mrv() == use_mrv,
            final(self).grid() == old(self).grid(),
            final(self).board() == old(self).board(),
            final(self).masks() == old(self).masks(),
            final(self).order() == old(self).order(),
            forall|k: int| old(self).searching(k) ==> #[trigger] final(self).searching(k),
            old(self).row_major() ==> final(self).row_major(),
    {
        let ghost before = self.order();
        self.use_mrv = use_mrv;
        assert(self.order() =~= before);
    }

    /// The empty cells stand in row-major order.
    pub open spec fn row_major(&self) -> bool {
        forall|j1: int, j2: int|
            0 <= j1 < j2 < self.order().len() ==> #[trigger] self.order()[j1] < #[trigger] self.order()[j2]
    }

    /// Parses a line of 81 digits, 0 for an empty cell, into a grid ready to
    /// be solved from index 0, with the fewest-candidates heuristic on.
    pub fn new(line: &str) -> (r: Result<Sudoku, ParseError>)
        ensures
            line.spec_bytes().len() != 81 ==> r == Err::<Sudoku, ParseError>(
                ParseError::InvalidLength,
            ),
            line.spec_bytes().len() == 81 && !all_digits(line.spec_bytes()) ==> r == Err::<
                Sudoku,
                ParseError,
            >(ParseError::InvalidCharacter),
            line.spec_bytes().len() == 81 && all_digits(line.spec_bytes()) ==> r is Ok,
            r matches Ok(s) ==> {
                &&& s.grid() == digits_of(line.spec_bytes())
                &&& s.board() == s.grid()
                &&& s.searching(0)
                &&& masks_ok(s.masks().0, s.masks().1, s.masks().2, s.grid())
                &&& s.row_major()
                &&& forall|j: int|
                    0 <= j < s.order().len() ==> 0 <= #[trigger] s.order()[j] < 81 && s.grid()[s.order()[j]] == 0
                &&& forall|i: int| 0 <= i < 81 && s.grid()[i] == 0 ==> #[trigger] s.order().contains(i)
                &&& s.mrv()
            },
    {
        let bytes = line.as_bytes();
        if bytes.len() != 81 {
            return Err(ParseError::InvalidLength);
        }
        let ghost b = line.spec_bytes();
        let mut grid = [[0u8; 9]; 9];
        let mut i: usize = 0;
        while i < 81
            invariant
                bytes@ == b,
                b == line.spec_bytes(),
                b.len() == 81,
                i <= 81,
                forall|j: int| 0 <= j < i ==> is_digit_byte(#[trigger] b[j]),
                forall|j: int| 0 <= j < i ==> #[trigger] flat(grid)[j] == b[j] - 48,
                forall|j: int| i <= j < 81 ==> #[trigger] flat(grid)[j] == 0,
            decreases 81 - i,
        {
            let byte = bytes[i];
            if !(byte >= 48 && byte <= 57) {
                assert(!is_digit_byte(b[i as int]));
                assert(line.spec_bytes().len() == 81);
                assert(!all_digits(line.spec_bytes()));
                return Err(ParseError::InvalidCharacter);
            }
            let ghost before = flat(grid);
            grid[i / 9][i % 9] = byte - 48;
            assert(flat(grid) =~= before.update(i as int, b[i as int] - 48));
            i = i + 1;
        }
        let ghost g = flat(grid);
        assert(g =~= digits_of(b));
        let mut row_mask = [0u32; 9];
        let mut col_mask = [0u32; 9];
        let mut block_mask = [0u32; 9];
        let mut empty_cells: Vec<(usize, usize, usize)> = Vec::new();
        let mut clash = false;
        proof {
            assert(prefix_board(g, 0) =~= Seq::new(81, |i: int| 0int));
            assert forall|u: int| 0 <= u < 9 implies mask_ok(#[trigger] row_mask@[u], prefix_board(g, 0), 0, u)
                && mask_ok(col_mask@[u], prefix_board(g, 0), 1, u) && mask_ok(block_mask@[u], prefix_board(g, 0), 2, u) by {
                assert forall|t: u32| t < 9 implies !#[trigger] has_bit(0u32, t) by {
                    assert(t < 9 ==> (0u32 >> t) & 1u32 == 0u32) by (bit_vector);
                }
            }
        }
        let mut i: usize = 0;
        while i < 81
            invariant
                g == flat(grid),
                is_board(g),
                i <= 81,
                masks_ok(row_mask@, col_mask@, block_mask@, prefix_board(g, i as int)),
                clash == !consistent(prefix_board(g, i as int)),
                empty_cells@.len() <= i,
                forall|j: int|
                    0 <= j < empty_cells@.len() ==> entry_ok(#[trigger] empty_cells@[j])
                        && g[cell_of(empty_cells@[j])] == 0 && cell_of(empty_cells@[j]) < i,
                forall|j1: int, j2: int|
                    0 <= j1 < j2 < empty_cells@.len() ==> cell_of(#[trigger] empty_cells@[j1])
                        < cell_of(#[trigger] empty_cells@[j2]),
                forall|c: int|
                    0 <= c < i && #[trigger] g[c] == 0 ==> exists|j: int|
                        0 <= j < empty_cells@.len() && #[trigger] cell_of(empty_cells@[j]) == c,
            decreases 81 - i,
        {
            let row = i / 9;
            let col = i % 9;
            let block = row / 3 * 3 + col / 3;
            proof {
                lemma_cell(row as int, col as int);
            }
            let digit = grid[row][col];
            assert(digit as int == g[i as int]);
            let ghost pb = prefix_board(g, i as int);
            let ghost old_cells = empty_cells@;
            if digit == 0 {
                empty_cells.push((row, col, block));
                assert(cell_of(empty_cells@[empty_cells@.len() - 1]) == i);
                assert forall|c: int|
                    0 <= c < i + 1 && #[trigger] g[c] == 0 implies exists|j: int|
                        0 <= j < empty_cells@.len() && #[trigger] cell_of(empty_cells@[j]) == c by {
                    if c < i {
                        let j = choose|j: int| 0 <= j < old_cells.len() && #[trigger] cell_of(old_cells[j]) == c;
                        assert(empty_cells@[j] == old_cells[j]);
                    } else {
                        assert(cell_of(empty_cells@[empty_cells@.len() - 1]) == c);
                    }
                }
                assert(prefix_board(g, i + 1) =~= pb);
            } else {
                let t: u32 = (digit - 1) as u32;
                assert(prefix_board(g, i + 1) =~= pb.update(i as int, t + 1));
                proof {
                    lemma_masks_add(row_mask@, col_mask@, block_mask@, pb, i as int, row as int, col as int, block as int, t);
                    lemma_used(row_mask@, col_mask@, block_mask@, pb, (row, col, block), t);
                    lemma_consistent_add(pb, i as int, t + 1);
                }
                let used = row_mask[row] | col_mask[col] | block_mask[block];
                let seen = used & (1u32 << t) != 0;
                assert(seen == has_bit(used, t)) by (bit_vector)
                    requires
                        t < 9,
                        seen == (used & (1u32 << t) != 0),
                ;
                clash = clash || seen;
                row_mask[row] = row_mask[row] | (1u32 << t);
                col_mask[col] = col_mask[col] | (1u32 << t);
                block_mask[block] = block_mask[block] | (1u32 << t);
            }
            i = i + 1;
        }
        assert(prefix_board(g, 81) =~= g);
        let ghost e = empty_cells@;
        let ghost ord = Seq::new(e.len(), |j: int| cell_of(e[j]));
        assert forall|j1: int, j2: int| 0 <= j1 < j2 < ord.len() implies #[trigger] ord[j1] < #[trigger] ord[j2] by {
            assert(cell_of(e[j1]) < cell_of(e[j2]));
        }
        assert forall|i: int| 0 <= i < 81 && g[i] == 0 implies #[trigger] ord.contains(i) by {
            let j = choose|j: int| 0 <= j < e.len() && #[trigger] cell_of(e[j]) == i;
            assert(ord[j] == i);
        }
        assert forall|j: int| 0 <= j < ord.len() implies 0 <= #[trigger] ord[j] < 81 && g[ord[j]] == 0 by {
            assert(entry_ok(e[j]));
            lemma_cell(e[j].0 as int, e[j].1 as int);
        }
        let s = Sudoku {
            grid,
            row_mask,
            col_mask,
            block_mask,
            empty_cells,
            use_mrv: true,
            clash,
            trail: Ghost(g),
        };
        proof {
            assert(placed_ok(g, g));
        }
        Ok(s)
    }

    /// Searches for a fill of the givens that keeps the board, taking the
    /// empty cells from `current_index` on; 0 starts a whole search.
    ///
    /// On success the grid holds the givens with the found digits written
    /// into every empty cell from `current_index` on, and that grid is
    /// returned. On failure nothing observable has changed: board, grid and
    /// masks are as they were, the cells before `current_index` in place.
    ///
    /// With the heuristic off and the cells in row-major order, the fill found
    /// is the first in row-major order, so every run on the same givens gives
    /// the same grid. With it on, a cell with no free digit that the scan
    /// meets before any cell with a single one ends the search at once.
    pub fn solve(&mut self, current_index: usize) -> (r: Option<[[u8; 9]; 9]>)
        requires
            old(self).searching(current_index as int),
        ensures
            r is Some <==> consistent(old(self).grid()) && extendable(old(self).grid(), old(self).board()),
            current_index == 0 ==> (r is Some <==> solvable(old(self).grid())),
            current_index == 0 ==> (r matches Some(g) ==> is_solution(flat(g)) && completes(flat(g), old(self).grid())),
            r matches Some(g) ==> {
                &&& flat(g) == final(self).grid()
                &&& final(self).board() == overlay(flat(g), old(self).board())
                &&& masks_ok(final(self).masks().0, final(self).masks().1, final(self).masks().2, final(self).board())
                &&& is_fill(overlay(flat(g), old(self).board()), old(self).grid())
                &&& completes(overlay(flat(g), old(self).board()), old(self).board())
                &&& completes(flat(g), old(self).grid())
            },
            current_index == 0 ==> (r matches Some(g) ==> is_fill(flat(g), old(self).grid())),
            !old(self).mrv() && old(self).row_major() ==> (r matches Some(g) ==> forall|u: Seq<int>|
                is_fill(u, old(self).grid()) && completes(u, old(self).board()) ==> !precedes(
                    u,
                    overlay(flat(g), old(self).board()),
                )),
            current_index == 0 && !old(self).mrv() && old(self).row_major() ==> (r matches Some(g)
                ==> first_fill(flat(g), old(self).grid())),
            !old(self).mrv() && r is None ==> final(self).order() == old(self).order(),
            old(self).mrv() && old(self).dead_first(current_index as int) ==> r is None && *final(self) == *old(self),
            r is None ==> {
                &&& final(self).searching(current_index as int)
                &&& final(self).board() == old(self).board()
                &&& final(self).grid() == old(self).grid()
                &&& final(self).masks() == old(self).masks()
                &&& final(self).mrv() == old(self).mrv()
                &&& final(self).order().len() == old(self).order().len()
                &&& forall|j: int|
                    0 <= j < current_index ==> #[trigger] final(self).order()[j]
                        == old(self).order()[j]
            },
        decreases old(self).order().len() - current_index,
    {
        let ghost p = self.trail@;
        let ghost g0 = flat(self.grid);
        let ghost k = current_index as int;
        proof {
            if k == 0 {
                lemma_top_solvable(g0, p, self.empty_cells@);
            }
        }
        if self.clash {
            proof {
                if k == 0 && solvable(g0) {
                    lemma_solvable_consistent(g0);
                }
            }
            return None;
        }
        if current_index == self.empty_cells.len() {
            proof {
                lemma_complete(g0, p, self.empty_cells@);
                assert(overlay(g0, p) =~= p);
                assert(is_fill(p, g0) && completes(p, p));
                assert(extendable(g0, p));
                assert forall|u: Seq<int>| is_fill(u, g0) && completes(u, p) implies !precedes(u, p) by {
                    if precedes(u, p) {
                        let m = choose|m: int| 0 <= m < 81 && #[trigger] u[m] < p[m] && forall|i: int| 0 <= i < m ==> #[trigger] u[i] == p[i];
                        assert(p[m] != 0);
                    }
                }
                if k == 0 {
                    lemma_top(g0, p, self.empty_cells@, g0);
                    if consistent(g0) {
                        lemma_fill_is_solution(g0, g0);
                    }
                    assert forall|u: Seq<int>| is_fill(u, g0) implies !precedes(u, g0) by {
                        assert(completes(u, p));
                    }
                }
            }
            return Some(self.grid);
        }
        let mut best_index = current_index;
        if self.use_mrv {
            let mut fewest_candidates: u32 = 9;
            let mut i: usize = current_index;
            let ghost mut single = false;
            while i < self.empty_cells.len()
                invariant
                    forall|j: int| k <= j < i ==> #[trigger] self.free_count(j) >= 2,
                    single ==> i < self.empty_cells@.len() && self.free_count(i as int) == 1,
                    self.searching(k),
                    self.trail@ == p,
                    flat(self.grid) == g0,
                    current_index <= best_index < self.empty_cells@.len(),
                    current_index <= i <= self.empty_cells@.len(),
                    k == current_index,
                    self.masks() == old(self).masks(),
                    self.empty_cells@ == old(self).empty_cells@,
                    self.use_mrv == old(self).use_mrv,
                    self.grid == old(self).grid,
                    self.trail == old(self).trail,
                    self.clash == old(self).clash,
                    consistent(g0),
                    g0 == old(self).grid(),
                    p == old(self).board(),
                    k == 0 ==> ((consistent(g0) && extendable(g0, p)) == solvable(g0)),
                ensures
                    single || i >= self.empty_cells@.len(),
                decreases self.empty_cells@.len() - i,
            {
                let (row, col, block) = self.empty_cells[i];
                proof {
                    assert(entry_ok(self.empty_cells@[i as int]));
                }
                let mask = self.row_mask[row] | self.col_mask[col] | self.block_mask[block];
                proof {
                    lemma_used(self.row_mask@, self.col_mask@, self.block_mask@, p, self.empty_cells@[i as int], 0);
                    lemma_ones_nine(mask);
                }
                let current_candidates = 9 - mask.count_ones();
                assert(current_candidates as int == self.free_count(i as int));
                if current_candidates == 0 {
                    proof {
                        let e = self.empty_cells@;
                        let y = cell_of(e[i as int]);
                        assert forall|d: int| 1 <= d <= 9 implies !extendable(g0, #[trigger] p.update(y, d)) by {
                            let t = (d - 1) as u32;
                            assert(has_bit(mask, t));
                            lemma_excluded(g0, p, self.row_mask@, self.col_mask@, self.block_mask@, e, k, i as int, t);
                        }
                        lemma_cell(e[i as int].0 as int, e[i as int].1 as int);
                        lemma_no_digit(g0, p, y);
                    }
                    return None;
                }
                if current_candidates == 1 {
                    best_index = i;
                    proof {
                        single = true;
                    }
                    break;
                }
                if fewest_candidates > current_candidates {
                    fewest_candidates = current_candidates;
                    best_index = i;
                }
                i = i + 1;
            }
            proof {
                if old(self).dead_first(k) {
                    let j = choose|j: int|
                        k <= j < old(self).empty_cells@.len() && old(self).free_count(j) == 0 && forall|i: int|
                            k <= i < j ==> #[trigger] old(self).free_count(i) >= 2;
                    assert(self.free_count(j) == 0);
                    if j < i {
                        assert(self.free_count(j) >= 2);
                    } else if j > i {
                        assert(old(self).free_count(i as int) >= 2);
                    }
                }
            }
            let first = self.empty_cells[current_index];
            let best = self.empty_cells[best_index];
            proof {
                lemma_swap(g0, p, self.empty_cells@, k, k, best_index as int);
            }
            self.empty_cells[current_index] = best;
            self.empty_cells[best_index] = first;
        }
        assert(!(old(self).mrv() && old(self).dead_first(k)));
        let ghost e = self.empty_cells@;
        let ghost rows = self.row_mask@;
        let ghost cols = self.col_mask@;
        let ghost blocks = self.block_mask@;
        let (row, col, block) = self.empty_cells[current_index];
        let ghost x = cell_of(e[k]);
        proof {
            assert(entry_ok(e[k]));
            lemma_cell(row as int, col as int);
        }
        let mask = self.row_mask[row] | self.col_mask[col] | self.block_mask[block];
        let mut candidates_mask = !mask & 511;
        proof {
            if !old(self).mrv() && old(self).row_major() {
                assert forall|j1: int, j2: int| 0 <= j1 < j2 < e.len() implies cell_of(#[trigger] e[j1]) < cell_of(#[trigger] e[j2]) by {
                    assert(self.order()[j1] == cell_of(e[j1]));
                    assert(self.order()[j2] == cell_of(e[j2]));
                }
                lemma_filled_before(g0, p, e, k);
            }
            lemma_used(rows, cols, blocks, p, e[k], 0);
            assert forall|t: u32| t < 9 && !has_bit(candidates_mask, t) implies !extendable(g0, #[trigger] p.update(x, t + 1)) by {
                lemma_complement(mask, t);
                lemma_excluded(g0, p, rows, cols, blocks, e, k, k, t);
            }
            assert forall|t: u32| t < 9 && has_bit(candidates_mask, t) implies !#[trigger] has_bit(mask, t) by {
                lemma_complement(mask, t);
            }
            lemma_complement(mask, 0);
        }
        while candidates_mask != 0
            invariant
                self.searching(k),
                self.trail@ == p,
                flat(self.grid) == g0,
                self.masks() == (rows, cols, blocks),
                self.use_mrv == old(self).use_mrv,
                self.empty_cells@.len() == e.len(),
                e.len() == old(self).empty_cells@.len(),
                p == old(self).board(),
                g0 == old(self).grid(),
                !(old(self).mrv() && old(self).dead_first(k)),
                consistent(g0),
                k == 0 ==> ((consistent(g0) && extendable(g0, p)) == solvable(g0)),
                !old(self).mrv() ==> self.order() == old(self).order(),
                !old(self).mrv() && old(self).row_major() ==> forall|i: int| 0 <= i < x ==> #[trigger] p[i] != 0,
                forall|j: int| 0 <= j < k ==> #[trigger] self.order()[j] == old(self).order()[j],
                self.empty_cells@[k] == (row, col, block),
                masks_ok(rows, cols, blocks, p),
                placed_ok(g0, p),
                e[k] == (row, col, block),
                x == cell_of(e[k]),
                k == current_index,
                k < e.len(),
                0 <= x < 81,
                p[x] == 0,
                is_board(p),
                is_board(g0),
                g0[x] == 0,
                row < 9,
                col < 9,
                block < 9,
                mask == rows[row as int] | cols[col as int] | blocks[block as int],
                candidates_mask < 512,
                forall|t: u32| t < 9 && has_bit(candidates_mask, t) ==> !#[trigger] has_bit(mask, t),
                forall|t: u32| t < 9 && !has_bit(candidates_mask, t) ==> !extendable(g0, #[trigger] p.update(x, t + 1)),
            decreases candidates_mask,
        {
            proof {
                assert(!candidates_mask < 0xffff_ffffu32) by (bit_vector)
                    requires
                        candidates_mask != 0,
                ;
            }
            let candidate_bit = candidates_mask & (!candidates_mask + 1);
            let t = candidate_bit.trailing_zeros();
            let ghost e_cur = self.empty_cells@;
            let ghost cm_now = candidates_mask;
            let ghost ord_cur = self.order();
            assert(forall|j: int| 0 <= j < k ==> ord_cur[j] == old(self).order()[j]);
            let ghost q = p.update(x, t + 1);
            proof {
                lemma_lowest_bit(candidates_mask, t, 0);
                lemma_commit(g0, p, rows, cols, blocks, e_cur, k, t);
            }
            self.row_mask[row] = self.row_mask[row] | candidate_bit;
            self.col_mask[col] = self.col_mask[col] | candidate_bit;
            self.block_mask[block] = self.block_mask[block] | candidate_bit;
            self.trail = Ghost(q);
            let found = self.solve(current_index + 1);
            if found.is_some() {
                let ghost g1 = flat(self.grid);
                self.grid[row][col] = (t + 1) as u8;
                proof {
                    assert(flat(self.grid) =~= g1.update(x, t + 1));
                    assert(overlay(flat(self.grid), p) =~= overlay(g1, q));
                    let s = overlay(flat(self.grid), p);
                    assert(completes(s, p));
                    assert(is_fill(s, g0) && completes(s, p));
                    assert(extendable(g0, p));
                    if !old(self).mrv() && old(self).row_major() {
                        assert forall|d: int| 1 <= d <= t as int implies !extendable(g0, #[trigger] p.update(x, d)) by {
                            lemma_lowest_bit(cm_now, t, (d - 1) as u32);
                            assert(!has_bit(cm_now, (d - 1) as u32));
                            assert(p.update(x, ((d - 1) as u32) + 1) == p.update(x, d));
                        }
                        lemma_first_step(g0, p, x, t as int, s);
                    }
                    if k == 0 {
                        lemma_top(g0, p, e_cur, flat(self.grid));
                        if consistent(g0) {
                            lemma_fill_is_solution(flat(self.grid), g0);
                        }
                        if !old(self).mrv() && old(self).row_major() {
                            assert forall|u: Seq<int>| is_fill(u, g0) implies !precedes(u, flat(self.grid)) by {
                                assert(completes(u, p));
                            }
                        }
                    }
                }
                return Some(self.grid);
            }
            let ghost e_new = self.empty_cells@;
            proof {
                assert(self.order()[k] == cell_of(e_new[k]));
                assert(cell_of(e_new[k]) == x);
                assert(entry_ok(e_new[k]));
                lemma_toggle_back(rows[row as int], t);
                lemma_toggle_back(cols[col as int], t);
                lemma_toggle_back(blocks[block as int], t);
                lemma_uncommit(g0, p, e_new, k, t + 1);
            }
            self.row_mask[row] = self.row_mask[row] ^ candidate_bit;
            self.col_mask[col] = self.col_mask[col] ^ candidate_bit;
            self.block_mask[block] = self.block_mask[block] ^ candidate_bit;
            self.trail = Ghost(p);
            let ghost before = candidates_mask;
            candidates_mask = candidates_mask & (candidates_mask - 1);
            proof {
                assert(self.row_mask@ =~= rows);
                assert(self.col_mask@ =~= cols);
                assert(self.block_mask@ =~= blocks);
                assert forall|j: int| 0 <= j < k implies #[trigger] self.order()[j] == old(self).order()[j] by {
                    assert(self.order()[j] == cell_of(e_new[j]));
                    assert(ord_cur[j] == old(self).order()[j]);
                }
                assert forall|u: u32| u < 9 && !has_bit(candidates_mask, u) implies !extendable(g0, #[trigger] p.update(x, u + 1)) by {
                    lemma_lowest_bit(before, t, u);
                }
                assert forall|u: u32| u < 9 && has_bit(candidates_mask, u) implies !#[trigger] has_bit(mask, u) by {
                    lemma_lowest_bit(before, t, u);
                }
            }
        }
        proof {
            assert forall|d: int| 1 <= d <= 9 implies !extendable(g0, #[trigger] p.update(x, d)) by {
                let t = (d - 1) as u32;
                assert(!has_bit(0u32, t)) by (bit_vector);
                assert(!has_bit(candidates_mask, t));
                assert(!extendable(g0, p.update(x, t + 1)));
                assert(t + 1 == d);
            }
            lemma_no_digit(g0, p, x);
        }
        None
    }


}

/// Parses one line and solves it: `Invalid` with the parser's message where
/// the line is not 81 digits, `Solved` with a solution that keeps its givens
/// where one exists, `Unsolved` otherwise (givens that clash included).
/// `line_number` is carried into the status.
pub fn solve_line(line: &str, line_number: Option<usize>, use_mrv: bool) -> (r: Status)
    ensures
        line.spec_bytes().len() != 81 ==> (r matches Status::Invalid(n, m) && n == line_number
            && m@ == parse_error_text(ParseError::InvalidLength)),
        line.spec_bytes().len() == 81 && !all_digits(line.spec_bytes()) ==> (r matches Status::Invalid(
            n,
            m,
        ) && n == line_number && m@ == parse_error_text(ParseError::InvalidCharacter)),
        line.spec_bytes().len() == 81 && all_digits(line.spec_bytes()) ==> {
            &&& r is Solved <==> solvable(digits_of(line.spec_bytes()))
            &&& r matches Status::Solved(g) ==> is_solution(flat(g)) && completes(
                flat(g),
                digits_of(line.spec_bytes()),
            )
            &&& !(r is Solved) ==> r == Status::Unsolved(line_number)
        },
{
    match Sudoku::new(line) {
        Ok(mut sudoku) => {
            sudoku.set_heuristic(use_mrv);
            match sudoku.solve(0) {
                Some(grid) => Status::Solved(grid),
                None => Status::Unsolved(line_number),
            }
        },
        Err(e) => Status::Invalid(line_number, String::from_str(e.message())),
    }
}

} // verus!
