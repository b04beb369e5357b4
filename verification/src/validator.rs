//! The validator: classifies a grid as `Valid`, `Invalid` or `NotCompleted`
//! by scanning cell values and the 27 regions (9 rows, 9 columns, 9 boxes).

use vstd::prelude::*;

use crate::grid::cell;
use crate::grid::complete;
use crate::grid::conflict_cells;
use crate::grid::has_conflict;
use crate::grid::in_range;
use crate::grid::is_solution;
use crate::grid::same_box;
use crate::grid::Grid;

verus! {

/// The classification of a grid: free of conflicts but holding blanks, fully
/// and correctly filled, or corrupt (an out-of-range value or a repeated
/// digit in some region).
#[derive(PartialEq, Eq, Structural, Debug)]
pub enum Status {
    NotCompleted,
    Valid,
    Invalid,
}

/// What `sudoku_check` returns: `Invalid` exactly when a cell exceeds 9 or a
/// region repeats a non-zero digit; otherwise `NotCompleted` exactly when a
/// blank remains; otherwise `Valid`.
pub open spec fn spec_classify(g: Grid) -> Status {
    if !in_range(g) || has_conflict(g) {
        Status::Invalid
    } else if !complete(g) {
        Status::NotCompleted
    } else {
        Status::Valid
    }
}

/// A grid is a solution exactly when the validator classifies it `Valid`:
/// what the solver promises of a returned grid is what `sudoku_check`
/// confirms.
pub proof fn lemma_solution_classify(g: Grid)
    ensures
        is_solution(g) <==> spec_classify(g) == Status::Valid,
{
}

/// Row `r` repeats a non-zero value.
pub open spec fn row_dup(g: Grid, r: int) -> bool {
    exists|c1: int, c2: int|
        #![trigger cell(g, r, c1), cell(g, r, c2)]
        0 <= c1 < 9 && 0 <= c2 < 9 && c1 != c2 && cell(g, r, c1) == cell(g, r, c2) && cell(g, r, c1)
            != 0
}

/// Column `c` repeats a non-zero value.
pub open spec fn col_dup(g: Grid, c: int) -> bool {
    exists|r1: int, r2: int|
        #![trigger cell(g, r1, c), cell(g, r2, c)]
        0 <= r1 < 9 && 0 <= r2 < 9 && r1 != r2 && cell(g, r1, c) == cell(g, r2, c) && cell(g, r1, c)
            != 0
}

/// The box whose upper-left cell is `(3 * br, 3 * bc)` repeats a non-zero
/// value.
pub open spec fn box_dup(g: Grid, br: int, bc: int) -> bool {
    exists|r1: int, c1: int, r2: int, c2: int|
        #![trigger cell(g, r1, c1), cell(g, r2, c2)]
        3 * br <= r1 < 3 * br + 3 && 3 * bc <= c1 < 3 * bc + 3 && 3 * br <= r2 < 3 * br + 3 && 3
            * bc <= c2 < 3 * bc + 3 && !(r1 == r2 && c1 == c2) && cell(g, r1, c1) == cell(
            g,
            r2,
            c2,
        ) && cell(g, r1, c1) != 0
}

/// A conflict somewhere in the grid is the same thing as a repeated non-zero
/// value in one of the 27 regions: one of the 9 rows, 9 columns or 9 boxes.
pub proof fn lemma_conflict_regions(g: Grid)
    ensures
        has_conflict(g) <==> ((exists|r: int| 0 <= r < 9 && #[trigger] row_dup(g, r)) || (
        exists|c: int| 0 <= c < 9 && #[trigger] col_dup(g, c)) || (exists|br: int, bc: int|
            0 <= br < 3 && 0 <= bc < 3 && #[trigger] box_dup(g, br, bc))),
{
    if has_conflict(g) {
        let (r1, c1, r2, c2) = choose|r1: int, c1: int, r2: int, c2: int|
            #[trigger] conflict_cells(g, r1, c1, r2, c2);
        if r1 == r2 {
            assert(row_dup(g, r1));
        } else if c1 == c2 {
            assert(col_dup(g, c1));
        } else {
            assert(same_box(r1, c1, r2, c2));
            let br = r1 / 3;
            let bc = c1 / 3;
            assert(0 <= br < 3 && 0 <= bc < 3);
            assert(3 * br <= r1 < 3 * br + 3 && 3 * bc <= c1 < 3 * bc + 3);
            assert(3 * br <= r2 < 3 * br + 3 && 3 * bc <= c2 < 3 * bc + 3);
            assert(box_dup(g, br, bc));
        }
    }
    if exists|r: int| 0 <= r < 9 && #[trigger] row_dup(g, r) {
        let r = choose|r: int| 0 <= r < 9 && #[trigger] row_dup(g, r);
        let (c1, c2) = choose|c1: int, c2: int|
            #![trigger cell(g, r, c1), cell(g, r, c2)]
            0 <= c1 < 9 && 0 <= c2 < 9 && c1 != c2 && cell(g, r, c1) == cell(g, r, c2) && cell(
                g,
                r,
                c1,
            ) != 0;
        assert(conflict_cells(g, r, c1, r, c2));
    }
    if exists|c: int| 0 <= c < 9 && #[trigger] col_dup(g, c) {
        let c = choose|c: int| 0 <= c < 9 && #[trigger] col_dup(g, c);
        let (r1, r2) = choose|r1: int, r2: int|
            #![trigger cell(g, r1, c), cell(g, r2, c)]
            0 <= r1 < 9 && 0 <= r2 < 9 && r1 != r2 && cell(g, r1, c) == cell(g, r2, c) && cell(
                g,
                r1,
                c,
            ) != 0;
        assert(conflict_cells(g, r1, c, r2, c));
    }
    if exists|br: int, bc: int| 0 <= br < 3 && 0 <= bc < 3 && #[trigger] box_dup(g, br, bc) {
        let (br, bc) = choose|br: int, bc: int|
            0 <= br < 3 && 0 <= bc < 3 && #[trigger] box_dup(g, br, bc);
        let (r1, c1, r2, c2) = choose|r1: int, c1: int, r2: int, c2: int|
            #![trigger cell(g, r1, c1), cell(g, r2, c2)]
            3 * br <= r1 < 3 * br + 3 && 3 * bc <= c1 < 3 * bc + 3 && 3 * br <= r2 < 3 * br + 3
                && 3 * bc <= c2 < 3 * bc + 3 && !(r1 == r2 && c1 == c2) && cell(g, r1, c1) == cell(
                g,
                r2,
                c2,
            ) && cell(g, r1, c1) != 0;
        assert(r1 / 3 == br && r2 / 3 == br && c1 / 3 == bc && c2 / 3 == bc);
        assert(conflict_cells(g, r1, c1, r2, c2));
    }
}

/// Whether the nine values repeat a non-zero value. Values must not exceed 9;
/// the caller has already screened the grid for out-of-range values.
#[verifier::loop_isolation(false)]
pub fn is_duplicate(arr: &[u8; 9]) -> (dup: bool)
    requires
        forall|t: int| 0 <= t < 9 ==> (#[trigger] arr@[t]) <= 9,
    ensures
        dup <==> exists|t1: int, t2: int|
            #![trigger arr@[t1], arr@[t2]]
            0 <= t1 < 9 && 0 <= t2 < 9 && t1 != t2 && arr@[t1] == arr@[t2] && arr@[t1] != 0,
{
    let mut seen: [bool; 9] = [false, false, false, false, false, false, false, false, false];
    let mut k: usize = 0;
    while k < 9
        invariant
            k <= 9,
            forall|d: u8|
                1 <= d <= 9 ==> ((#[trigger] seen@[d as int - 1]) <==> exists|t: int|
                    0 <= t < k && (#[trigger] arr@[t]) == d),
            forall|t1: int, t2: int|
                #![trigger arr@[t1], arr@[t2]]
                0 <= t1 < k && 0 <= t2 < k && t1 != t2 ==> !(arr@[t1] == arr@[t2] && arr@[t1]
                    != 0),
        decreases 9 - k,
    {
        let v = arr[k];
        if v != 0 {
            if seen[(v - 1) as usize] {
                proof {
                    let t = choose|t: int| 0 <= t < k && (#[trigger] arr@[t]) == v;
                    assert(arr@[t] == arr@[k as int] && t != k as int);
                }
                return true;
            }
            seen[(v - 1) as usize] = true;
        }
        k += 1;
    }
    false
}

/// Whether every cell of the grid holds at most 9.
#[verifier::loop_isolation(false)]
fn scan_in_range(board: &Grid) -> (ok: bool)
    ensures
        ok == in_range(*board),
{
    let mut i: usize = 0;
    while i < 9
        invariant
            i <= 9,
            forall|r: int, c: int|
                0 <= r < i && 0 <= c < 9 ==> (#[trigger] cell(*board, r, c)) <= 9,
        decreases 9 - i,
    {
        let mut j: usize = 0;
        while j < 9
            invariant
                j <= 9,
                forall|c: int| 0 <= c < j ==> (#[trigger] cell(*board, i as int, c)) <= 9,
            decreases 9 - j,
        {
            if board[i][j] > 9 {
                proof {
                    assert(cell(*board, i as int, j as int) > 9);
                }
                return false;
            }
            j += 1;
        }
        i += 1;
    }
    true
}

/// Whether some row repeats a non-zero value.
#[verifier::loop_isolation(false)]
fn scan_rows(board: &Grid) -> (dup: bool)
    requires
        in_range(*board),
    ensures
        dup <==> exists|k: int| 0 <= k < 9 && #[trigger] row_dup(*board, k),
{
    let mut r: usize = 0;
    while r < 9
        invariant
            r <= 9,
            forall|k: int| 0 <= k < r ==> !(#[trigger] row_dup(*board, k)),
        decreases 9 - r,
    {
        let rowv = board[r];
        proof {
            assert(forall|t: int|
                0 <= t < 9 ==> (#[trigger] rowv@[t]) == cell(*board, r as int, t));
        }
        if is_duplicate(&rowv) {
            proof {
                let (t1, t2) = choose|t1: int, t2: int|
                    #![trigger rowv@[t1], rowv@[t2]]
                    0 <= t1 < 9 && 0 <= t2 < 9 && t1 != t2 && rowv@[t1] == rowv@[t2] && rowv@[t1]
                        != 0;
                assert(row_dup(*board, r as int));
            }
            return true;
        }
        proof {
            assert(!row_dup(*board, r as int)) by {
                if row_dup(*board, r as int) {
                    let (c1, c2) = choose|c1: int, c2: int|
                        #![trigger cell(*board, r as int, c1), cell(*board, r as int, c2)]
                        0 <= c1 < 9 && 0 <= c2 < 9 && c1 != c2 && cell(*board, r as int, c1)
                            == cell(*board, r as int, c2) && cell(*board, r as int, c1) != 0;
                    assert(rowv@[c1] == rowv@[c2] && rowv@[c1] != 0);
                    assert(false);
                }
            }
        }
        r += 1;
    }
    false
}

/// Whether some column repeats a non-zero value.
#[verifier::loop_isolation(false)]
fn scan_cols(board: &Grid) -> (dup: bool)
    requires
        in_range(*board),
    ensures
        dup <==> exists|k: int| 0 <= k < 9 && #[trigger] col_dup(*board, k),
{
    let mut c: usize = 0;
    while c < 9
        invariant
            c <= 9,
            forall|k: int| 0 <= k < c ==> !(#[trigger] col_dup(*board, k)),
        decreases 9 - c,
    {
        let mut colv: [u8; 9] = [0, 0, 0, 0, 0, 0, 0, 0, 0];
        let mut t: usize = 0;
        while t < 9
            invariant
                t <= 9,
                forall|x: int| 0 <= x < t ==> (#[trigger] colv@[x]) == cell(*board, x, c as int),
            decreases 9 - t,
        {
            colv[t] = board[t][c];
            t += 1;
        }
        if is_duplicate(&colv) {
            proof {
                let (t1, t2) = choose|t1: int, t2: int|
                    #![trigger colv@[t1], colv@[t2]]
                    0 <= t1 < 9 && 0 <= t2 < 9 && t1 != t2 && colv@[t1] == colv@[t2] && colv@[t1]
                        != 0;
                assert(col_dup(*board, c as int));
            }
            return true;
        }
        proof {
            assert(!col_dup(*board, c as int)) by {
                if col_dup(*board, c as int) {
                    let (r1, r2) = choose|r1: int, r2: int|
                        #![trigger cell(*board, r1, c as int), cell(*board, r2, c as int)]
                        0 <= r1 < 9 && 0 <= r2 < 9 && r1 != r2 && cell(*board, r1, c as int)
                            == cell(*board, r2, c as int) && cell(*board, r1, c as int) != 0;
                    assert(colv@[r1] == colv@[r2] && colv@[r1] != 0);
                    assert(false);
                }
            }
        }
        c += 1;
    }
    false
}

/// The nine values of the box whose upper-left cell is `(3 * br, 3 * bc)`,
/// in row-major order.
#[verifier::loop_isolation(false)]
fn read_box(board: &Grid, br: usize, bc: usize) -> (boxv: [u8; 9])
    requires
        br < 3,
        bc < 3,
    ensures
        forall|t: int|
            0 <= t < 9 ==> (#[trigger] boxv@[t]) == cell(
                *board,
                3 * (br as int) + t / 3,
                3 * (bc as int) + t % 3,
            ),
{
    let mut boxv: [u8; 9] = [0, 0, 0, 0, 0, 0, 0, 0, 0];
    let mut a: usize = 0;
    while a < 3
        invariant
            a <= 3,
            forall|t: int|
                0 <= t < 3 * a ==> (#[trigger] boxv@[t]) == cell(
                    *board,
                    3 * (br as int) + t / 3,
                    3 * (bc as int) + t % 3,
                ),
        decreases 3 - a,
    {
        let mut b: usize = 0;
        while b < 3
            invariant
                b <= 3,
                forall|t: int|
                    0 <= t < 3 * a + b ==> (#[trigger] boxv@[t]) == cell(
                        *board,
                        3 * (br as int) + t / 3,
                        3 * (bc as int) + t % 3,
                    ),
            decreases 3 - b,
        {
            boxv[3 * a + b] = board[3 * br + a][3 * bc + b];
            proof {
                let t = 3 * (a as int) + b as int;
                assert(t / 3 == a as int && t % 3 == b as int);
            }
            b += 1;
        }
        a += 1;
    }
    boxv
}

/// Whether some 3x3 box repeats a non-zero value.
#[verifier::loop_isolation(false)]
fn scan_boxes(board: &Grid) -> (dup: bool)
    requires
        in_range(*board),
    ensures
        dup <==> exists|x: int, y: int| 0 <= x < 3 && 0 <= y < 3 && #[trigger] box_dup(*board, x, y),
{
    let mut br: usize = 0;
    while br < 3
        invariant
            br <= 3,
            forall|x: int, y: int|
                0 <= x < br && 0 <= y < 3 ==> !(#[trigger] box_dup(*board, x, y)),
        decreases 3 - br,
    {
        let mut bc: usize = 0;
        while bc < 3
            invariant
                bc <= 3,
                forall|y: int| 0 <= y < bc ==> !(#[trigger] box_dup(*board, br as int, y)),
            decreases 3 - bc,
        {
            let boxv = read_box(board, br, bc);
            if is_duplicate(&boxv) {
                proof {
                    let (t1, t2) = choose|t1: int, t2: int|
                        #![trigger boxv@[t1], boxv@[t2]]
                        0 <= t1 < 9 && 0 <= t2 < 9 && t1 != t2 && boxv@[t1] == boxv@[t2]
                            && boxv@[t1] != 0;
                    let r1 = 3 * (br as int) + t1 / 3;
                    let c1 = 3 * (bc as int) + t1 % 3;
                    let r2 = 3 * (br as int) + t2 / 3;
                    let c2 = 3 * (bc as int) + t2 % 3;
                    assert(!(r1 == r2 && c1 == c2));
                    assert(box_dup(*board, br as int, bc as int));
                }
                return true;
            }
            proof {
                assert(!box_dup(*board, br as int, bc as int)) by {
                    if box_dup(*board, br as int, bc as int) {
                        let (r1, c1, r2, c2) = choose|r1: int, c1: int, r2: int, c2: int|
                            #![trigger cell(*board, r1, c1), cell(*board, r2, c2)]
                            3 * (br as int) <= r1 < 3 * (br as int) + 3 && 3 * (bc as int) <= c1 < 3
                                * (bc as int) + 3 && 3 * (br as int) <= r2 < 3 * (br as int) + 3
                                && 3 * (bc as int) <= c2 < 3 * (bc as int) + 3 && !(r1 == r2 && c1
                                == c2) && cell(*board, r1, c1) == cell(*board, r2, c2) && cell(
                                *board,
                                r1,
                                c1,
                            ) != 0;
                        let t1 = 3 * (r1 - 3 * (br as int)) + (c1 - 3 * (bc as int));
                        let t2 = 3 * (r2 - 3 * (br as int)) + (c2 - 3 * (bc as int));
                        assert(t1 / 3 == r1 - 3 * (br as int) && t1 % 3 == c1 - 3 * (bc as int));
                        assert(t2 / 3 == r2 - 3 * (br as int) && t2 % 3 == c2 - 3 * (bc as int));
                        assert(boxv@[t1] == cell(*board, r1, c1));
                        assert(boxv@[t2] == cell(*board, r2, c2));
                        assert(t1 != t2);
                        assert(false);
                    }
                }
            }
            bc += 1;
        }
        br += 1;
    }
    false
}

/// Whether no blank cell remains.
#[verifier::loop_isolation(false)]
fn scan_complete(board: &Grid) -> (full: bool)
    ensures
        full == complete(*board),
{
    let mut i: usize = 0;
    while i < 9
        invariant
            i <= 9,
            forall|r: int, c: int|
                0 <= r < i && 0 <= c < 9 ==> (#[trigger] cell(*board, r, c)) != 0,
        decreases 9 - i,
    {
        let mut j: usize = 0;
        while j < 9
            invariant
                j <= 9,
                forall|c: int| 0 <= c < j ==> (#[trigger] cell(*board, i as int, c)) != 0,
            decreases 9 - j,
        {
            if board[i][j] == 0 {
                proof {
                    assert(cell(*board, i as int, j as int) == 0);
                }
                return false;
            }
            j += 1;
        }
        i += 1;
    }
    true
}

/// Classifies the grid, scanning in order: any value above 9 makes it
/// `Invalid`; then any region repeating a non-zero digit makes it `Invalid`;
/// then any remaining blank makes it `NotCompleted`; otherwise it is `Valid`.
pub fn sudoku_check(board: &Grid) -> (st: Status)
    ensures
        st == spec_classify(*board),
{
    if !scan_in_range(board) {
        return Status::Invalid;
    }
    let row_conflict = scan_rows(board);
    let col_conflict = scan_cols(board);
    let box_conflict = scan_boxes(board);
    proof {
        lemma_conflict_regions(*board);
    }
    if row_conflict || col_conflict || box_conflict {
        return Status::Invalid;
    }
    if !scan_complete(board) {
        return Status::NotCompleted;
    }
    Status::Valid
}

} // verus!
