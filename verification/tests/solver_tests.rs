use sudoku::possible_nums;
use sudoku::sudoku_check;
use sudoku::sudoku_solver;
use sudoku::Status;

#[test]
fn problem_one() {
    let prob = [
        [5, 3, 0, 0, 7, 0, 0, 0, 0],
        [6, 0, 0, 1, 9, 5, 0, 0, 0],
        [0, 9, 8, 0, 0, 0, 0, 6, 0],
        [8, 0, 0, 0, 6, 0, 0, 0, 3],
        [4, 0, 0, 8, 0, 3, 0, 0, 1],
        [7, 0, 0, 0, 2, 0, 0, 0, 6],
        [0, 6, 0, 0, 0, 0, 2, 8, 0],
        [0, 0, 0, 4, 1, 9, 0, 0, 5],
        [0, 0, 0, 0, 8, 0, 0, 7, 9],
    ];
    let res = [
        [5, 3, 4, 6, 7, 8, 9, 1, 2],
        [6, 7, 2, 1, 9, 5, 3, 4, 8],
        [1, 9, 8, 3, 4, 2, 5, 6, 7],
        [8, 5, 9, 7, 6, 1, 4, 2, 3],
        [4, 2, 6, 8, 5, 3, 7, 9, 1],
        [7, 1, 3, 9, 2, 4, 8, 5, 6],
        [9, 6, 1, 5, 3, 7, 2, 8, 4],
        [2, 8, 7, 4, 1, 9, 6, 3, 5],
        [3, 4, 5, 2, 8, 6, 1, 7, 9],
    ];
    assert_eq!(sudoku_solver(&prob).unwrap(), res);
}

#[test]
fn problem_two() {
    let prob = [
        [5, 7, 0, 0, 0, 6, 8, 0, 0],
        [3, 0, 1, 5, 4, 0, 0, 0, 0],
        [0, 6, 9, 0, 8, 0, 0, 0, 3],
        [0, 0, 0, 3, 0, 2, 9, 0, 0],
        [9, 0, 0, 0, 0, 0, 0, 0, 8],
        [0, 0, 5, 8, 0, 4, 0, 0, 0],
        [4, 0, 0, 0, 7, 0, 3, 8, 0],
        [0, 0, 0, 0, 5, 8, 7, 0, 4],
        [0, 0, 8, 4, 0, 0, 0, 9, 1],
    ];
    let res = [
        [5, 7, 4, 2, 3, 6, 8, 1, 9],
        [3, 8, 1, 5, 4, 9, 2, 6, 7],
        [2, 6, 9, 1, 8, 7, 5, 4, 3],
        [8, 4, 7, 3, 1, 2, 9, 5, 6],
        [9, 1, 2, 7, 6, 5, 4, 3, 8],
        [6, 3, 5, 8, 9, 4, 1, 7, 2],
        [4, 2, 6, 9, 7, 1, 3, 8, 5],
        [1, 9, 3, 6, 5, 8, 7, 2, 4],
        [7, 5, 8, 4, 2, 3, 6, 9, 1],
    ];
    assert_eq!(sudoku_solver(&prob).unwrap(), res);
}

#[test]
fn repeated_solves_agree() {
    // The classic example puzzle has exactly one completion, so every call
    // returns the identical grid.
    let prob = [
        [5, 3, 0, 0, 7, 0, 0, 0, 0],
        [6, 0, 0, 1, 9, 5, 0, 0, 0],
        [0, 9, 8, 0, 0, 0, 0, 6, 0],
        [8, 0, 0, 0, 6, 0, 0, 0, 3],
        [4, 0, 0, 8, 0, 3, 0, 0, 1],
        [7, 0, 0, 0, 2, 0, 0, 0, 6],
        [0, 6, 0, 0, 0, 0, 2, 8, 0],
        [0, 0, 0, 4, 1, 9, 0, 0, 5],
        [0, 0, 0, 0, 8, 0, 0, 7, 9],
    ];
    let first = sudoku_solver(&prob).unwrap();
    let second = sudoku_solver(&prob).unwrap();
    assert_eq!(first, second);
}

#[test]
fn solved_grid_keeps_given_digits() {
    let prob = [
        [5, 7, 0, 0, 0, 6, 8, 0, 0],
        [3, 0, 1, 5, 4, 0, 0, 0, 0],
        [0, 6, 9, 0, 8, 0, 0, 0, 3],
        [0, 0, 0, 3, 0, 2, 9, 0, 0],
        [9, 0, 0, 0, 0, 0, 0, 0, 8],
        [0, 0, 5, 8, 0, 4, 0, 0, 0],
        [4, 0, 0, 0, 7, 0, 3, 8, 0],
        [0, 0, 0, 0, 5, 8, 7, 0, 4],
        [0, 0, 8, 4, 0, 0, 0, 9, 1],
    ];
    let solved = sudoku_solver(&prob).unwrap();
    assert_eq!(sudoku_check(&solved), Status::Valid);
    for r in 0..9 {
        for c in 0..9 {
            if prob[r][c] != 0 {
                assert_eq!(solved[r][c], prob[r][c]);
            }
        }
    }
}

#[test]
fn all_zero_grid_is_solvable() {
    let grid = [[0u8; 9]; 9];
    let solved = sudoku_solver(&grid).unwrap();
    assert_eq!(sudoku_check(&solved), Status::Valid);
}

#[test]
fn forced_conflict_fails() {
    // A solved grid with (0,0) blanked and a second 5 written at (0,1): the 5
    // clashes with its row's blank candidate and with column 1's own 5, so no
    // completion exists and the solver must fail.
    let grid = [
        [0, 5, 4, 6, 7, 8, 9, 1, 2],
        [6, 7, 2, 1, 9, 5, 3, 4, 8],
        [1, 9, 8, 3, 4, 2, 5, 6, 7],
        [8, 5, 9, 7, 6, 1, 4, 2, 3],
        [4, 2, 6, 8, 5, 3, 7, 9, 1],
        [7, 1, 3, 9, 2, 4, 8, 5, 6],
        [9, 6, 1, 5, 3, 7, 2, 8, 4],
        [2, 8, 7, 4, 1, 9, 6, 3, 5],
        [3, 4, 5, 2, 8, 6, 1, 7, 9],
    ];
    assert!(sudoku_solver(&grid).is_err());
}

#[test]
fn dead_end_cell_fails() {
    // (0,8) is blank, its row holds 1..=8 and its column holds 9: no candidate
    // remains, so the solver must report a failure.
    let mut grid = [[0u8; 9]; 9];
    for c in 0..8 {
        grid[0][c] = (c + 1) as u8;
    }
    grid[8][8] = 9;
    assert!(sudoku_solver(&grid).is_err());
}

#[test]
fn out_of_range_input_fails() {
    let mut grid = [[0u8; 9]; 9];
    grid[2][2] = 10;
    assert!(sudoku_solver(&grid).is_err());
}

#[test]
fn candidates_exclude_digit_nine() {
    // The digit 9 must be tallied like any other digit: a 9 in the row, the
    // column or the box of a blank cell removes 9 from its candidates.
    let mut row9 = [[0u8; 9]; 9];
    row9[0][5] = 9;
    assert!(!possible_nums(&row9, 0, 0).contains(&9));

    let mut col9 = [[0u8; 9]; 9];
    col9[7][0] = 9;
    assert!(!possible_nums(&col9, 0, 0).contains(&9));

    let mut box9 = [[0u8; 9]; 9];
    box9[1][1] = 9;
    assert!(!possible_nums(&box9, 0, 0).contains(&9));

    let empty = [[0u8; 9]; 9];
    assert_eq!(possible_nums(&empty, 4, 4), vec![1, 2, 3, 4, 5, 6, 7, 8, 9]);
}

#[test]
fn candidates_are_sorted_and_exact() {
    // Around the blank (0,2) of the classic puzzle the digits 1, 2 and 4 are
    // the only ones missing from its row, column and box.
    let prob = [
        [5, 3, 0, 0, 7, 0, 0, 0, 0],
        [6, 0, 0, 1, 9, 5, 0, 0, 0],
        [0, 9, 8, 0, 0, 0, 0, 6, 0],
        [8, 0, 0, 0, 6, 0, 0, 0, 3],
        [4, 0, 0, 8, 0, 3, 0, 0, 1],
        [7, 0, 0, 0, 2, 0, 0, 0, 6],
        [0, 6, 0, 0, 0, 0, 2, 8, 0],
        [0, 0, 0, 4, 1, 9, 0, 0, 5],
        [0, 0, 0, 0, 8, 0, 0, 7, 9],
    ];
    assert_eq!(possible_nums(&prob, 0, 2), vec![1, 2, 4]);
}
