//! The search engine: constraint propagation to a fixed point, then
//! depth-first backtracking on the most constrained blank cell. The solver is
//! sound (a returned grid is a valid completion of the input) and complete
//! (it fails only on puzzles that no grid completes).

use vstd::prelude::*;

use crate::candidates::is_candidate;
use crate::candidates::lemma_completion_candidate;
use crate::candidates::possible_nums;
use crate::grid::blanks;
use crate::grid::cell;
use crate::grid::cell_in_grid;
use crate::grid::complete;
use crate::grid::extends;
use crate::grid::is_completion;
use crate::grid::lemma_blanks_mono;
use crate::grid::lemma_blanks_strict;
use crate::grid::lemma_completion_not_invalid;
use crate::grid::lemma_extends_trans;
use crate::grid::solvable;
use crate::grid::Grid;
use crate::validator::sudoku_check;
use crate::validator::Status;

verus! {

/// What one row-major scan over the blank cells of a grid found.
enum Scan {
    /// A blank cell with no candidate at all: the grid is a dead end.
    DeadEnd(usize, usize),
    /// A blank cell with exactly this one candidate: a forced placement.
    Forced(usize, usize, u8),
    /// No forced placement; this blank cell had the fewest candidates
    /// (first found wins a tie), and they are listed in ascending order.
    Branch(usize, usize, Vec<u8>),
    /// No blank cell at all.
    Full,
}

/// One row-major scan of the grid: reports the first blank cell with zero or
/// one candidates, or else the most constrained blank cell, or that the grid
/// is full.
#[verifier::loop_isolation(false)]
fn scan_pass(board: &Grid) -> (out: Scan)
    ensures
        match out {
            Scan::DeadEnd(i, j) => i < 9 && j < 9 && cell(*board, i as int, j as int) == 0 && (
            forall|x: u8| !is_candidate(*board, i as int, j as int, x)),
            Scan::Forced(i, j, d) => i < 9 && j < 9 && cell(*board, i as int, j as int) == 0 && (
            forall|x: u8| is_candidate(*board, i as int, j as int, x) <==> x == d),
            Scan::Branch(i, j, pos) => i < 9 && j < 9 && cell(*board, i as int, j as int) == 0 && (
            forall|x: u8|
                (#[trigger] pos@.contains(x)) <==> is_candidate(*board, i as int, j as int, x)),
            Scan::Full => complete(*board),
        },
{
    let mut found = false;
    let mut bi: usize = 0;
    let mut bj: usize = 0;
    let mut minlen: usize = 100;
    let mut pos: Vec<u8> = Vec::new();
    let mut i: usize = 0;
    while i < 9
        invariant
            i <= 9,
            !found ==> minlen == 100,
            !found ==> forall|r: int, c: int|
                0 <= r < i && 0 <= c < 9 ==> (#[trigger] cell(*board, r, c)) != 0,
            found ==> bi < 9 && bj < 9 && cell(*board, bi as int, bj as int) == 0 && (forall|x: u8|
                (#[trigger] pos@.contains(x)) <==> is_candidate(*board, bi as int, bj as int, x)),
        decreases 9 - i,
    {
        let mut j: usize = 0;
        while j < 9
            invariant
                j <= 9,
                !found ==> minlen == 100,
                !found ==> forall|r: int, c: int|
                    0 <= r < i && 0 <= c < 9 ==> (#[trigger] cell(*board, r, c)) != 0,
                !found ==> forall|c: int|
                    0 <= c < j ==> (#[trigger] cell(*board, i as int, c)) != 0,
                found ==> bi < 9 && bj < 9 && cell(*board, bi as int, bj as int) == 0 && (forall|
                    x: u8,
                |
                    (#[trigger] pos@.contains(x)) <==> is_candidate(
                        *board,
                        bi as int,
                        bj as int,
                        x,
                    )),
            decreases 9 - j,
        {
            if board[i][j] == 0 {
                proof {
                    assert(cell(*board, i as int, j as int) == 0);
                }
                let possibility = possible_nums(board, i, j);
                let len = possibility.len();
                if len == 0 {
                    proof {
                        assert forall|x: u8| !is_candidate(*board, i as int, j as int, x) by {
                            assert(!possibility@.contains(x));
                        }
                    }
                    return Scan::DeadEnd(i, j);
                } else if len == 1 {
                    let d = possibility[0];
                    proof {
                        assert(possibility@.contains(possibility@[0]));
                        assert forall|x: u8|
                            is_candidate(*board, i as int, j as int, x) implies x == d by {
                            assert(possibility@.contains(x));
                            let idx = choose|idx: int|
                                0 <= idx < possibility@.len() && possibility@[idx] == x;
                            assert(idx == 0);
                        }
                    }
                    return Scan::Forced(i, j, d);
                } else if len < minlen {
                    minlen = len;
                    bi = i;
                    bj = j;
                    pos = possibility;
                    found = true;
                }
            }
            j += 1;
        }
        i += 1;
    }
    if found {
        Scan::Branch(bi, bj, pos)
    } else {
        Scan::Full
    }
}

/// Solves the puzzle: fills every blank of `board` so that each row, column
/// and box holds the digits 1 to 9 once each, keeping every given digit, or
/// reports that this cannot be done. Success is returned exactly on the
/// puzzles that some grid completes.
#[verifier::loop_isolation(false)]
pub fn sudoku_solver(board: &Grid) -> (out: Result<Grid, String>)
    ensures
        out matches Ok(sol) ==> is_completion(*board, sol),
        out is Ok <==> solvable(*board),
    decreases blanks(*board),
{
    let mut res: Grid = *board;
    let mut bi: usize = 0;
    let mut bj: usize = 0;
    let mut pos: Vec<u8> = Vec::new();
    let mut branching = false;
    #[verifier::loop_isolation(true)]
    loop
        invariant_except_break
            extends(*board, res),
            forall|s: Grid| is_completion(*board, s) ==> #[trigger] is_completion(res, s),
        ensures
            extends(*board, res),
            forall|s: Grid| is_completion(*board, s) ==> #[trigger] is_completion(res, s),
            branching ==> bi < 9 && bj < 9 && cell(res, bi as int, bj as int) == 0 && (forall|x: u8|
                (#[trigger] pos@.contains(x)) <==> is_candidate(res, bi as int, bj as int, x)),
            !branching ==> complete(res),
        decreases blanks(res),
    {
        match scan_pass(&res) {
            Scan::DeadEnd(di, dj) => {
                proof {
                    if solvable(*board) {
                        let s = choose|s: Grid| #[trigger] is_completion(*board, s);
                        assert(is_completion(res, s));
                        lemma_completion_candidate(res, s, di as int, dj as int);
                        assert(false);
                    }
                }
                return Err("Can't find solution".to_string());
            },
            Scan::Forced(fi, fj, d) => {
                let ghost prev = res;
                let mut rowv = res[fi];
                rowv[fj] = d;
                res[fi] = rowv;
                proof {
                    assert(is_candidate(prev, fi as int, fj as int, d));
                    assert(cell(res, fi as int, fj as int) == d);
                    assert forall|r: int, c: int|
                        cell_in_grid(r, c) && !(r == fi as int && c == fj as int) implies (
                    #[trigger] cell(res, r, c)) == cell(prev, r, c) by {
                        if r == fi as int {
                            assert(res@[r] == rowv);
                        } else {
                            assert(res@[r] == prev@[r]);
                        }
                    }
                    assert(extends(prev, res));
                    lemma_extends_trans(*board, prev, res);
                    assert forall|s: Grid|
                        is_completion(*board, s) implies #[trigger] is_completion(res, s) by {
                        assert(is_completion(prev, s));
                        lemma_completion_candidate(prev, s, fi as int, fj as int);
                        assert(cell(s, fi as int, fj as int) == d);
                        assert(extends(res, s));
                    }
                    lemma_blanks_strict(prev, res, 0, 0, fi as int, fj as int);
                }
            },
            Scan::Branch(i, j, p) => {
                bi = i;
                bj = j;
                pos = p;
                branching = true;
                break;
            },
            Scan::Full => {
                branching = false;
                break;
            },
        }
    }
    match sudoku_check(&res) {
        Status::Valid => {
            proof {
                assert(is_completion(*board, res));
            }
            Ok(res)
        },
        Status::Invalid => {
            proof {
                if solvable(*board) {
                    let s = choose|s: Grid| #[trigger] is_completion(*board, s);
                    assert(is_completion(res, s));
                    lemma_completion_not_invalid(res, s);
                    assert(false);
                }
            }
            Err("Invalid sudoku.".to_string())
        },
        Status::NotCompleted => {
            proof {
                assert(branching);
            }
            let ghost base = res;
            let mut t: usize = 0;
            while t < pos.len()
                invariant
                    t <= pos.len(),
                    bi < 9,
                    bj < 9,
                    cell(base, bi as int, bj as int) == 0,
                    forall|x: u8|
                        (#[trigger] pos@.contains(x)) <==> is_candidate(
                            base,
                            bi as int,
                            bj as int,
                            x,
                        ),
                    extends(*board, base),
                    forall|s: Grid| is_completion(*board, s) ==> #[trigger] is_completion(base, s),
                    forall|r: int, c: int|
                        cell_in_grid(r, c) && !(r == bi as int && c == bj as int) ==> (
                        #[trigger] cell(res, r, c)) == cell(base, r, c),
                    forall|s: Grid, it: int|
                        #![trigger is_completion(base, s), pos@[it]]
                        is_completion(base, s) && 0 <= it < t ==> pos@[it] != cell(
                            s,
                            bi as int,
                            bj as int,
                        ),
                decreases pos@.len() - t,
            {
                let num = pos[t];
                let ghost prev = res;
                let mut rowv = res[bi];
                rowv[bj] = num;
                res[bi] = rowv;
                proof {
                    assert(pos@.contains(pos@[t as int]));
                    assert(is_candidate(base, bi as int, bj as int, num));
                    assert(cell(res, bi as int, bj as int) == num);
                    assert forall|r: int, c: int|
                        cell_in_grid(r, c) && !(r == bi as int && c == bj as int) implies (
                    #[trigger] cell(res, r, c)) == cell(base, r, c) by {
                        if r == bi as int {
                            assert(res@[r] == rowv);
                            assert(rowv@[c] == prev@[r]@[c]);
                        } else {
                            assert(res@[r] == prev@[r]);
                        }
                        assert(cell(res, r, c) == cell(prev, r, c));
                        assert(cell(prev, r, c) == cell(base, r, c));
                    }
                    assert(extends(base, res));
                    lemma_extends_trans(*board, base, res);
                    lemma_blanks_strict(base, res, 0, 0, bi as int, bj as int);
                    assert forall|a: int, b: int|
                        cell_in_grid(a, b) && (#[trigger] cell(base, a, b)) == 0 implies cell(
                        *board,
                        a,
                        b,
                    ) == 0 by {
                        if cell(*board, a, b) != 0 {
                            assert(cell(base, a, b) == cell(*board, a, b));
                        }
                    }
                    lemma_blanks_mono(*board, base, 0, 0);
                }
                match sudoku_solver(&res) {
                    Ok(b) => {
                        proof {
                            lemma_extends_trans(*board, res, b);
                            assert(is_completion(*board, b));
                        }
                        return Ok(b);
                    },
                    Err(_) => {
                        proof {
                            assert forall|s: Grid, it: int|
                                #![trigger is_completion(base, s), pos@[it]]
                                is_completion(base, s) && 0 <= it < t + 1 implies pos@[it] != cell(
                                s,
                                bi as int,
                                bj as int,
                            ) by {
                                assert(is_completion(base, s));
                                if it == t as int && pos@[it] == cell(s, bi as int, bj as int) {
                                    assert forall|r: int, c: int|
                                        cell_in_grid(r, c) && (#[trigger] cell(res, r, c))
                                            != 0 implies cell(s, r, c) == cell(res, r, c) by {
                                        if !(r == bi as int && c == bj as int) {
                                            assert(cell(res, r, c) == cell(base, r, c));
                                        }
                                    }
                                    assert(extends(res, s));
                                    assert(is_completion(res, s));
                                    assert(solvable(res));
                                    assert(false);
                                }
                            }
                        }
                    },
                }
                t += 1;
            }
            proof {
                if solvable(*board) {
                    let s = choose|s: Grid| #[trigger] is_completion(*board, s);
                    assert(is_completion(base, s));
                    lemma_completion_candidate(base, s, bi as int, bj as int);
                    let x = cell(s, bi as int, bj as int);
                    assert(pos@.contains(x));
                    let idx = choose|idx: int| 0 <= idx < pos@.len() && pos@[idx] == x;
                    assert(pos@[idx] != x);
                    assert(false);
                }
            }
            Err("Can't find solution.".to_string())
        },
    }
}

/// For a puzzle with exactly one completion, solving is deterministic: every
/// grid that completes the puzzle — in particular every grid the solver may
/// return for it — is that one completion, so repeated solves agree.
pub proof fn lemma_solver_deterministic(g: Grid, s: Grid, sol1: Grid, sol2: Grid)
    requires
        is_completion(g, s),
        forall|x: Grid| #[trigger] is_completion(g, x) ==> x == s,
        is_completion(g, sol1),
        is_completion(g, sol2),
    ensures
        sol1 == sol2,
{
}

} // verus!
