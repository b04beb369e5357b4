//! The per-cell candidate computation: which digits may still be placed in a
//! blank cell given the digits already standing in its row, column and box.

use vstd::prelude::*;

use crate::grid::cell;
use crate::grid::cell_in_grid;
use crate::grid::conflict_cells;
use crate::grid::is_completion;
use crate::grid::Grid;

verus! {

/// Digit `d` already stands in row `row` among the first `k` columns,
/// the cell `(row, col)` itself excluded.
pub open spec fn row_hit_upto(g: Grid, row: int, col: int, d: u8, k: int) -> bool {
    exists|t: int| 0 <= t < k && t != col && (#[trigger] cell(g, row, t)) == d
}

/// Digit `d` already stands in column `col` among the first `k` rows,
/// the cell `(row, col)` itself excluded.
pub open spec fn col_hit_upto(g: Grid, row: int, col: int, d: u8, k: int) -> bool {
    exists|t: int| 0 <= t < k && t != row && (#[trigger] cell(g, t, col)) == d
}

/// Digit `d` stands in the 3x3 box of `(row, col)`, in a cell strictly before
/// position `(i, j)` in the box's row-major order, the cell itself excluded.
pub open spec fn box_hit_upto(g: Grid, row: int, col: int, d: u8, i: int, j: int) -> bool {
    exists|a: int, b: int|
        #![trigger cell(g, a, b)]
        3 * (row / 3) <= a < 3 * (row / 3) + 3 && 3 * (col / 3) <= b < 3 * (col / 3) + 3 && (a < i
            || (a == i && b < j)) && !(a == row && b == col) && cell(g, a, b) == d
}

/// Digit `d` may not be placed at `(row, col)`: it already stands elsewhere in
/// that cell's row, column or box.
pub open spec fn blocked(g: Grid, row: int, col: int, d: u8) -> bool {
    ||| row_hit_upto(g, row, col, d, 9)
    ||| col_hit_upto(g, row, col, d, 9)
    ||| box_hit_upto(g, row, col, d, 3 * (row / 3) + 3, 3 * (col / 3))
}

/// Digit `d` is a candidate for the cell `(row, col)`: a digit `1..=9` that no
/// other cell of the row, column or box already holds.
pub open spec fn is_candidate(g: Grid, row: int, col: int, d: u8) -> bool {
    1 <= d <= 9 && !blocked(g, row, col, d)
}

/// In a puzzle that some solution completes, the solution's digit for any
/// blank cell is among that cell's candidates: no cell of the blank's row,
/// column or box can already hold it, or the solution would repeat it there.
pub proof fn lemma_completion_candidate(g: Grid, s: Grid, r: int, c: int)
    requires
        is_completion(g, s),
        cell_in_grid(r, c),
        cell(g, r, c) == 0,
    ensures
        is_candidate(g, r, c, cell(s, r, c)),
{
    let d = cell(s, r, c);
    assert(d != 0 && d <= 9);
    if blocked(g, r, c, d) {
        if row_hit_upto(g, r, c, d, 9) {
            let t = choose|t: int| 0 <= t < 9 && t != c && (#[trigger] cell(g, r, t)) == d;
            assert(cell(s, r, t) == d);
            assert(conflict_cells(s, r, t, r, c));
            assert(false);
        } else if col_hit_upto(g, r, c, d, 9) {
            let t = choose|t: int| 0 <= t < 9 && t != r && (#[trigger] cell(g, t, c)) == d;
            assert(cell(s, t, c) == d);
            assert(conflict_cells(s, t, c, r, c));
            assert(false);
        } else {
            let (a, b) = choose|a: int, b: int|
                #![trigger cell(g, a, b)]
                3 * (r / 3) <= a < 3 * (r / 3) + 3 && 3 * (c / 3) <= b < 3 * (c / 3) + 3 && (a < 3
                    * (r / 3) + 3 || (a == 3 * (r / 3) + 3 && b < 3 * (c / 3))) && !(a == r && b
                    == c) && cell(g, a, b) == d;
            assert(cell(s, a, b) == d);
            assert(a / 3 == r / 3 && b / 3 == c / 3);
            assert(conflict_cells(s, a, b, r, c));
            assert(false);
        }
    }
}

/// The candidate digits for the blank cell `(row, col)`, in ascending order:
/// exactly the digits `1..=9` that no other cell of the row, the column or
/// the 3x3 box holds. A value above 9 in a scanned cell blocks nothing, and
/// the digit 9 is tallied like every other digit.
#[verifier::loop_isolation(false)]
pub fn possible_nums(board: &Grid, row: usize, col: usize) -> (res: Vec<u8>)
    requires
        row < 9,
        col < 9,
    ensures
        forall|d: u8| #[trigger] res@.contains(d) <==> is_candidate(*board, row as int, col as int, d),
        forall|a: int, b: int| 0 <= a < b < res@.len() ==> res@[a] < res@[b],
        res@.len() <= 9,
{
    let mut seen: [bool; 9] = [false, false, false, false, false, false, false, false, false];
    let mut k: usize = 0;
    while k < 9
        invariant
            k <= 9,
            forall|d: u8|
                1 <= d <= 9 ==> ((#[trigger] seen@[d as int - 1]) <==> row_hit_upto(
                    *board,
                    row as int,
                    col as int,
                    d,
                    k as int,
                )),
        decreases 9 - k,
    {
        let v = board[row][k];
        proof {
            assert(cell(*board, row as int, k as int) == v);
        }
        if k != col && v != 0 && v <= 9 {
            seen[(v - 1) as usize] = true;
        }
        k += 1;
    }
    let mut k: usize = 0;
    while k < 9
        invariant
            k <= 9,
            forall|d: u8|
                1 <= d <= 9 ==> ((#[trigger] seen@[d as int - 1]) <==> row_hit_upto(
                    *board,
                    row as int,
                    col as int,
                    d,
                    9,
                ) || col_hit_upto(*board, row as int, col as int, d, k as int)),
        decreases 9 - k,
    {
        let v = board[k][col];
        proof {
            assert(cell(*board, k as int, col as int) == v);
        }
        if k != row && v != 0 && v <= 9 {
            seen[(v - 1) as usize] = true;
        }
        k += 1;
    }
    let r0 = (row / 3) * 3;
    let c0 = (col / 3) * 3;
    let mut i: usize = r0;
    while i < r0 + 3
        invariant
            r0 <= i <= r0 + 3,
            forall|d: u8|
                1 <= d <= 9 ==> ((#[trigger] seen@[d as int - 1]) <==> row_hit_upto(
                    *board,
                    row as int,
                    col as int,
                    d,
                    9,
                ) || col_hit_upto(*board, row as int, col as int, d, 9) || box_hit_upto(
                    *board,
                    row as int,
                    col as int,
                    d,
                    i as int,
                    c0 as int,
                )),
        decreases r0 + 3 - i,
    {
        let mut j: usize = c0;
        while j < c0 + 3
            invariant
                c0 <= j <= c0 + 3,
                forall|d: u8|
                    1 <= d <= 9 ==> ((#[trigger] seen@[d as int - 1]) <==> row_hit_upto(
                        *board,
                        row as int,
                        col as int,
                        d,
                        9,
                    ) || col_hit_upto(*board, row as int, col as int, d, 9) || box_hit_upto(
                        *board,
                        row as int,
                        col as int,
                        d,
                        i as int,
                        j as int,
                    )),
            decreases c0 + 3 - j,
        {
            let v = board[i][j];
            proof {
                assert(cell(*board, i as int, j as int) == v);
            }
            if !(i == row && j == col) && v != 0 && v <= 9 {
                seen[(v - 1) as usize] = true;
            }
            j += 1;
        }
        i += 1;
    }
    let mut res: Vec<u8> = Vec::new();
    let mut d: u8 = 1;
    while d <= 9
        invariant
            1 <= d <= 10,
            forall|x: u8|
                1 <= x <= 9 ==> ((#[trigger] seen@[x as int - 1]) <==> blocked(
                    *board,
                    row as int,
                    col as int,
                    x,
                )),
            forall|x: u8| #[trigger] res@.contains(x) ==> 1 <= x < d,
            forall|x: u8|
                1 <= x < d ==> ((#[trigger] res@.contains(x)) <==> is_candidate(
                    *board,
                    row as int,
                    col as int,
                    x,
                )),
            forall|a: int, b: int| 0 <= a < b < res@.len() ==> res@[a] < res@[b],
            res@.len() <= d - 1,
        decreases 10 - d,
    {
        if !seen[(d - 1) as usize] {
            let ghost old_res = res@;
            res.push(d);
            proof {
                assert(res@[old_res.len() as int] == d);
                assert(res@.contains(d));
                assert forall|x: u8| #[trigger] res@.contains(x) implies (old_res.contains(x) || x
                    == d) by {
                    let idx = choose|idx: int| 0 <= idx < res@.len() && res@[idx] == x;
                    if idx < old_res.len() {
                        assert(old_res[idx] == x);
                        assert(old_res.contains(x));
                    }
                }
                assert forall|x: u8| old_res.contains(x) implies #[trigger] res@.contains(x) by {
                    let idx = choose|idx: int| 0 <= idx < old_res.len() && old_res[idx] == x;
                    assert(res@[idx] == x);
                }
                assert forall|a: int, b: int| 0 <= a < b < res@.len() implies res@[a] < res@[b] by {
                    if b == res@.len() - 1 {
                        assert(old_res.contains(old_res[a]));
                    }
                }
            }
        }
        d += 1;
    }
    res
}

} // verus!
