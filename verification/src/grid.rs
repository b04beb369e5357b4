//! The mathematical model of a Sudoku grid: cells, regions, conflicts,
//! completions, and the count of blank cells that drives termination.

use vstd::prelude::*;

verus! {

/// A 9x9 matrix of cell values; `0` is a blank, `1..=9` a digit.
pub type Grid = [[u8; 9]; 9];

/// The value of cell `(r, c)`.
pub open spec fn cell(g: Grid, r: int, c: int) -> u8 {
    g@[r]@[c]
}

/// `(r, c)` names a cell of the 9x9 grid.
pub open spec fn cell_in_grid(r: int, c: int) -> bool {
    0 <= r < 9 && 0 <= c < 9
}

/// Every cell holds a blank or a digit; nothing exceeds 9.
pub open spec fn in_range(g: Grid) -> bool {
    forall|r: int, c: int| cell_in_grid(r, c) ==> (#[trigger] cell(g, r, c)) <= 9
}

/// No blank cell remains.
pub open spec fn complete(g: Grid) -> bool {
    forall|r: int, c: int| cell_in_grid(r, c) ==> (#[trigger] cell(g, r, c)) != 0
}

/// The two coordinates lie in the same 3x3 box.
pub open spec fn same_box(r1: int, c1: int, r2: int, c2: int) -> bool {
    r1 / 3 == r2 / 3 && c1 / 3 == c2 / 3
}

/// `(r1, c1)` and `(r2, c2)` are two distinct cells of one region (a row, a
/// column, or a 3x3 box) holding the same non-zero value.
pub open spec fn conflict_cells(g: Grid, r1: int, c1: int, r2: int, c2: int) -> bool {
    &&& cell_in_grid(r1, c1)
    &&& cell_in_grid(r2, c2)
    &&& !(r1 == r2 && c1 == c2)
    &&& (r1 == r2 || c1 == c2 || same_box(r1, c1, r2, c2))
    &&& cell(g, r1, c1) == cell(g, r2, c2)
    &&& cell(g, r1, c1) != 0
}

/// Some region repeats a non-zero value.
pub open spec fn has_conflict(g: Grid) -> bool {
    exists|r1: int, c1: int, r2: int, c2: int| #[trigger] conflict_cells(g, r1, c1, r2, c2)
}

/// `g2` keeps every digit already placed in `g1` (blanks of `g1` are free).
pub open spec fn extends(g1: Grid, g2: Grid) -> bool {
    forall|r: int, c: int|
        #![trigger cell(g1, r, c)]
        #![trigger cell(g2, r, c)]
        cell_in_grid(r, c) && cell(g1, r, c) != 0 ==> cell(g2, r, c) == cell(g1, r, c)
}

/// A grid that solves the puzzle: full, in range, and without conflicts.
pub open spec fn is_solution(g: Grid) -> bool {
    in_range(g) && !has_conflict(g) && complete(g)
}

/// `s` solves the puzzle `g`: it is a solution that keeps every given digit.
pub open spec fn is_completion(g: Grid, s: Grid) -> bool {
    is_solution(s) && extends(g, s)
}

/// Some solution completes the puzzle `g`.
pub open spec fn solvable(g: Grid) -> bool {
    exists|s: Grid| #[trigger] is_completion(g, s)
}

/// Extending preserves placed digits transitively.
pub proof fn lemma_extends_trans(g1: Grid, g2: Grid, g3: Grid)
    requires
        extends(g1, g2),
        extends(g2, g3),
    ensures
        extends(g1, g3),
{
    assert forall|r: int, c: int|
        cell_in_grid(r, c) && cell(g1, r, c) != 0 implies #[trigger] cell(g3, r, c) == cell(
        g1,
        r,
        c,
    ) by {
        assert(cell(g2, r, c) == cell(g1, r, c));
    }
}

/// A grid that a solution completes is itself in range and conflict-free:
/// its placed digits all reappear in the solution, where neither an
/// out-of-range value nor a repeated digit can stand.
pub proof fn lemma_completion_not_invalid(g: Grid, s: Grid)
    requires
        is_completion(g, s),
    ensures
        in_range(g),
        !has_conflict(g),
{
    assert forall|r: int, c: int| cell_in_grid(r, c) implies (#[trigger] cell(g, r, c)) <= 9 by {
        if cell(g, r, c) != 0 {
            assert(cell(s, r, c) == cell(g, r, c));
        }
    }
    if has_conflict(g) {
        let (r1, c1, r2, c2) = choose|r1: int, c1: int, r2: int, c2: int|
            #[trigger] conflict_cells(g, r1, c1, r2, c2);
        assert(cell(s, r1, c1) == cell(g, r1, c1));
        assert(cell(s, r2, c2) == cell(g, r2, c2));
        assert(conflict_cells(s, r1, c1, r2, c2));
        assert(false);
    }
}

/// The number of blank cells at or after position `(r, c)` in row-major order.
pub open spec fn blanks_from(g: Grid, r: int, c: int) -> nat
    decreases 9 - r, 9 - c,
{
    if r >= 9 {
        0
    } else if c >= 9 {
        blanks_from(g, r + 1, 0)
    } else {
        (if cell(g, r, c) == 0 {
            1 as nat
        } else {
            0 as nat
        }) + blanks_from(g, r, c + 1)
    }
}

/// The number of blank cells of the whole grid.
pub open spec fn blanks(g: Grid) -> nat {
    blanks_from(g, 0, 0)
}

/// A grid whose blanks all were blanks of another grid has no more of them.
pub proof fn lemma_blanks_mono(g1: Grid, g2: Grid, r: int, c: int)
    requires
        0 <= r,
        0 <= c,
        forall|a: int, b: int|
            cell_in_grid(a, b) && (#[trigger] cell(g2, a, b)) == 0 ==> cell(g1, a, b) == 0,
    ensures
        blanks_from(g2, r, c) <= blanks_from(g1, r, c),
    decreases 9 - r, 9 - c,
{
    if r >= 9 {
    } else if c >= 9 {
        lemma_blanks_mono(g1, g2, r + 1, 0);
    } else {
        lemma_blanks_mono(g1, g2, r, c + 1);
        if c < 9 && cell(g2, r, c) == 0 {
            assert(cell(g1, r, c) == 0);
        }
    }
}

/// Filling one blank cell, while keeping every other blank a blank, strictly
/// lowers the count of blanks from any position at or before that cell.
pub proof fn lemma_blanks_strict(g1: Grid, g2: Grid, r: int, c: int, tr: int, tc: int)
    requires
        0 <= r,
        0 <= c,
        forall|a: int, b: int|
            cell_in_grid(a, b) && (#[trigger] cell(g2, a, b)) == 0 ==> cell(g1, a, b) == 0,
        cell_in_grid(tr, tc),
        cell(g1, tr, tc) == 0,
        cell(g2, tr, tc) != 0,
        r < tr || (r == tr && c <= tc),
    ensures
        blanks_from(g2, r, c) < blanks_from(g1, r, c),
    decreases 9 - r, 9 - c,
{
    if c >= 9 {
        lemma_blanks_strict(g1, g2, r + 1, 0, tr, tc);
    } else if r == tr && c == tc {
        lemma_blanks_mono(g1, g2, r, c + 1);
    } else {
        lemma_blanks_strict(g1, g2, r, c + 1, tr, tc);
        if cell(g2, r, c) == 0 {
            assert(cell(g1, r, c) == 0);
        }
    }
}

} // verus!
