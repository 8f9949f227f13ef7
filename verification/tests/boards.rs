use std::collections::BTreeSet;
use sudokusolver::{Cell, Sudoku, UnsolvedSudoku};

fn candidates(digits: &[u8]) -> Cell {
    let mut ps = BTreeSet::new();
    for d in digits {
        ps.insert(*d);
    }
    Cell::Possibilities(ps)
}

fn share_a_group(r1: u8, c1: u8, r2: u8, c2: u8) -> bool {
    r1 == r2 || c1 == c2 || ((r1 - 1) / 3 == (r2 - 1) / 3 && (c1 - 1) / 3 == (c2 - 1) / 3)
}

fn solved_rows() -> [[u8; 9]; 9] {
    [
        [5, 3, 4, 6, 7, 8, 9, 1, 2],
        [6, 7, 2, 1, 9, 5, 3, 4, 8],
        [1, 9, 8, 3, 4, 2, 5, 6, 7],
        [8, 5, 9, 7, 6, 1, 4, 2, 3],
        [4, 2, 6, 8, 5, 3, 7, 9, 1],
        [7, 1, 3, 9, 2, 4, 8, 5, 6],
        [9, 6, 1, 5, 3, 7, 2, 8, 4],
        [2, 8, 7, 4, 1, 9, 6, 3, 5],
        [3, 4, 5, 2, 8, 6, 1, 7, 9],
    ]
}

fn puzzle_rows() -> [[u8; 9]; 9] {
    [
        [5, 3, 0, 0, 7, 0, 0, 0, 0],
        [6, 0, 0, 1, 9, 5, 0, 0, 0],
        [0, 9, 8, 0, 0, 0, 0, 6, 0],
        [8, 0, 0, 0, 6, 0, 0, 0, 3],
        [4, 0, 0, 8, 0, 3, 0, 0, 1],
        [7, 0, 0, 0, 2, 0, 0, 0, 6],
        [0, 6, 0, 0, 0, 0, 2, 8, 0],
        [0, 0, 0, 4, 1, 9, 0, 0, 5],
        [0, 0, 0, 0, 8, 0, 0, 7, 9],
    ]
}

fn hard_rows() -> [[u8; 9]; 9] {
    [
        [8, 0, 0, 0, 0, 0, 0, 0, 0],
        [0, 0, 3, 6, 0, 0, 0, 0, 0],
        [0, 7, 0, 0, 9, 0, 2, 0, 0],
        [0, 5, 0, 0, 0, 7, 0, 0, 0],
        [0, 0, 0, 0, 4, 5, 7, 0, 0],
        [0, 0, 0, 1, 0, 0, 0, 3, 0],
        [0, 0, 1, 0, 0, 0, 0, 6, 8],
        [0, 0, 8, 5, 0, 0, 0, 1, 0],
        [0, 9, 0, 0, 0, 0, 4, 0, 0],
    ]
}

fn hard_solved_rows() -> [[u8; 9]; 9] {
    [
        [8, 1, 2, 7, 5, 3, 6, 4, 9],
        [9, 4, 3, 6, 8, 2, 1, 7, 5],
        [6, 7, 5, 4, 9, 1, 2, 8, 3],
        [1, 5, 4, 2, 3, 7, 8, 9, 6],
        [3, 6, 9, 8, 4, 5, 7, 2, 1],
        [2, 8, 7, 1, 6, 9, 5, 3, 4],
        [5, 2, 1, 9, 7, 4, 3, 6, 8],
        [4, 3, 8, 5, 2, 6, 9, 1, 7],
        [7, 9, 6, 3, 1, 8, 4, 5, 2],
    ]
}

fn fixed_board(rows: [[u8; 9]; 9]) -> UnsolvedSudoku {
    let mut u = UnsolvedSudoku::empty();
    for r in 1..10u8 {
        for c in 1..10u8 {
            *u.get_mut(r, c) = Cell::Value(rows[(r - 1) as usize][(c - 1) as usize]);
        }
    }
    u
}

#[test]
fn empty_board_lists_everything() {
    let u = UnsolvedSudoku::empty();
    for r in 1..10 {
        for c in 1..10 {
            assert_eq!(*u.get(r, c), Cell::default());
            for d in 1..10 {
                assert!(u.lists(r, c, d));
            }
            assert!(!u.lists(r, c, 0));
            assert!(!u.lists(r, c, 10));
        }
    }
    assert!(!u.solved());
    assert!(u.valid());
    assert_eq!(u.to_sudoku(), Sudoku::empty());
}

#[test]
fn get_mut_changes_one_cell() {
    let mut u = UnsolvedSudoku::empty();
    *u.get_mut(2, 8) = Cell::Value(6);
    for r in 1..10 {
        for c in 1..10 {
            if (r, c) == (2, 8) {
                assert_eq!(*u.get(r, c), Cell::Value(6));
            } else {
                assert_eq!(*u.get(r, c), Cell::default());
            }
        }
    }
    assert!(!u.lists(2, 8, 6));
}

#[test]
fn a_clone_is_a_board_of_its_own() {
    let mut u = UnsolvedSudoku::empty();
    u.set(1, 1, 5);
    let mut copy = u.clone();
    assert_eq!(copy, u);
    copy.set(9, 9, 2);
    assert_ne!(copy, u);
    assert_eq!(*u.get(9, 9), Cell::default());
    assert_eq!(*copy.get(9, 9), Cell::Value(2));
}

#[test]
fn set_strikes_the_value_from_the_groups_of_the_cell() {
    let mut u = UnsolvedSudoku::empty();
    u.set(5, 5, 7);
    for r in 1..10 {
        for c in 1..10 {
            if (r, c) == (5, 5) {
                assert_eq!(*u.get(r, c), Cell::Value(7));
            } else if share_a_group(5, 5, r, c) {
                assert_eq!(*u.get(r, c), candidates(&[1, 2, 3, 4, 5, 6, 8, 9]));
                assert!(!u.lists(r, c, 7));
            } else {
                assert_eq!(*u.get(r, c), Cell::default());
            }
        }
    }
}

#[test]
fn set_in_a_corner_square() {
    let mut u = UnsolvedSudoku::empty();
    u.set(9, 1, 3);
    let mut struck = 0;
    for r in 1..10 {
        for c in 1..10 {
            if (r, c) != (9, 1) && !u.lists(r, c, 3) {
                assert!(r == 9 || c == 1 || (r >= 7 && c <= 3));
                struck += 1;
            }
        }
    }
    assert_eq!(struck, 20);
}

#[test]
fn set_fixes_a_cell_that_is_left_with_one_candidate() {
    let mut u = UnsolvedSudoku::empty();
    for d in 1..9u8 {
        u.set(1, d, d);
    }
    // The last cell of the first row had one candidate left and was fixed.
    assert_eq!(*u.get(1, 9), Cell::Value(9));
    // That in turn struck 9 from its column and its square.
    for r in 2..10 {
        assert!(!u.lists(r, 9, 9));
    }
    assert!(!u.lists(2, 7, 9));
    assert!(!u.lists(3, 8, 9));
    assert!(u.lists(4, 8, 9));
    assert_eq!(*u.get(2, 9), candidates(&[1, 2, 3, 4, 5, 6]));
    assert_eq!(*u.get(5, 9), candidates(&[1, 2, 3, 4, 5, 6, 7, 8]));
}

#[test]
fn set_never_leaves_the_value_with_a_peer() {
    let puzzle = Sudoku::from_rows(hard_rows()).unwrap();
    let mut u = UnsolvedSudoku::from(puzzle);
    let mut target = None;
    for r in 1..10 {
        for c in 1..10 {
            if target.is_none() {
                if let Cell::Possibilities(ps) = u.get(r, c) {
                    target = Some((r, c, *ps.iter().next().unwrap()));
                }
            }
        }
    }
    let (tr, tc, value) = target.unwrap();
    u.set(tr, tc, value);
    assert_eq!(*u.get(tr, tc), Cell::Value(value));
    for r in 1..10 {
        for c in 1..10 {
            if (r, c) != (tr, tc) && share_a_group(tr, tc, r, c) {
                assert!(!u.lists(r, c, value));
            }
        }
    }
}

#[test]
fn set_on_a_fixed_cell_replaces_its_value() {
    let mut u = UnsolvedSudoku::empty();
    u.set(1, 1, 5);
    u.set(1, 1, 6);
    assert_eq!(*u.get(1, 1), Cell::Value(6));
    for r in 1..10 {
        for c in 1..10 {
            if (r, c) != (1, 1) {
                if share_a_group(1, 1, r, c) {
                    assert_eq!(*u.get(r, c), candidates(&[1, 2, 3, 4, 7, 8, 9]));
                } else {
                    assert_eq!(*u.get(r, c), Cell::default());
                }
            }
        }
    }
}

#[test]
fn set_follows_a_chain_of_forced_cells() {
    let mut u = UnsolvedSudoku::empty();
    u.set(5, 9, 9);
    for d in 1..8u8 {
        u.set(1, d, d);
    }
    // The last cell of the first row cannot be 9, so 7 digits forced it to 8,
    // and that forced its neighbour to 9.
    assert_eq!(*u.get(1, 9), Cell::Value(8));
    assert_eq!(*u.get(1, 8), Cell::Value(9));
    assert!(u.valid());
    for r in 2..10 {
        assert!(!u.lists(r, 9, 8));
        assert!(!u.lists(r, 8, 9));
    }
}

#[test]
fn solved_asks_for_every_cell() {
    let mut u = fixed_board(solved_rows());
    assert!(u.solved());
    *u.get_mut(9, 9) = candidates(&[9]);
    assert!(!u.solved());
    *u.get_mut(9, 9) = Cell::Value(9);
    *u.get_mut(1, 1) = candidates(&[]);
    assert!(!u.solved());
}

#[test]
fn valid_takes_a_solved_board() {
    let u = fixed_board(solved_rows());
    assert!(u.solved());
    assert!(u.valid());
}

#[test]
fn valid_finds_a_value_twice_in_a_row() {
    let mut rows = solved_rows();
    // Swapping two entries of a column leaves the column as it is and spoils
    // two rows.
    rows[0][0] = 8;
    rows[3][0] = 5;
    let u = fixed_board(rows);
    assert!(u.solved());
    assert!(!u.valid());
}

#[test]
fn valid_finds_a_value_twice_in_a_column() {
    let mut rows = solved_rows();
    rows[0][0] = 6;
    rows[0][3] = 5;
    let u = fixed_board(rows);
    assert!(u.solved());
    assert!(!u.valid());
}

#[test]
fn valid_finds_a_value_twice_in_a_square() {
    // Every row and every column holds each digit once, but the squares do not.
    let mut rows = [[0u8; 9]; 9];
    for r in 0..9 {
        for c in 0..9 {
            rows[r][c] = ((r + c) % 9 + 1) as u8;
        }
    }
    let u = fixed_board(rows);
    assert!(u.solved());
    assert!(!u.valid());
}

#[test]
fn valid_passes_over_unfixed_cells() {
    let mut u = UnsolvedSudoku::empty();
    u.set(1, 1, 4);
    u.set(9, 9, 4);
    assert!(u.valid());
    *u.get_mut(1, 9) = Cell::Value(4);
    assert!(!u.valid());
    *u.get_mut(1, 9) = candidates(&[4]);
    assert!(u.valid());
    *u.get_mut(3, 3) = Cell::Value(4);
    assert!(!u.valid());
}

#[test]
fn to_sudoku_shows_the_fixed_cells() {
    let mut u = UnsolvedSudoku::empty();
    u.set(2, 3, 8);
    u.set(7, 7, 1);
    let mut expected = Sudoku::empty();
    expected.set(2, 3, 8);
    expected.set(7, 7, 1);
    assert_eq!(u.to_sudoku(), expected);
    assert_eq!(
        Some(fixed_board(solved_rows()).to_sudoku()),
        Sudoku::from_rows(solved_rows())
    );
}

#[test]
fn from_fixes_the_given_digits() {
    let puzzle = Sudoku::from_rows(puzzle_rows()).unwrap();
    let u = UnsolvedSudoku::from(puzzle);
    let rows = puzzle_rows();
    let solved = solved_rows();
    for r in 1..10u8 {
        for c in 1..10u8 {
            let given = rows[(r - 1) as usize][(c - 1) as usize];
            let answer = solved[(r - 1) as usize][(c - 1) as usize];
            match u.get(r, c) {
                Cell::Value(v) => {
                    assert_eq!(*v, answer);
                }
                Cell::Possibilities(ps) => {
                    assert_eq!(given, 0);
                    assert!(ps.contains(&answer));
                    assert!(ps.len() >= 2);
                }
            }
            if given != 0 {
                assert_eq!(*u.get(r, c), Cell::Value(given));
            }
        }
    }
    assert!(u.valid());
}

#[test]
fn from_keeps_the_solution_among_the_candidates() {
    let puzzle = Sudoku::from_rows(hard_rows()).unwrap();
    let u = UnsolvedSudoku::from(puzzle);
    let rows = hard_rows();
    let solved = hard_solved_rows();
    let mut open = 0;
    for r in 1..10u8 {
        for c in 1..10u8 {
            let given = rows[(r - 1) as usize][(c - 1) as usize];
            let answer = solved[(r - 1) as usize][(c - 1) as usize];
            match u.get(r, c) {
                Cell::Value(v) => {
                    assert_eq!(*v, answer);
                }
                Cell::Possibilities(ps) => {
                    assert_eq!(given, 0);
                    assert!(ps.contains(&answer));
                    assert!(ps.len() >= 2);
                    open += 1;
                }
            }
            if given != 0 {
                assert_eq!(*u.get(r, c), Cell::Value(given));
            }
        }
    }
    assert!(open > 0);
    assert!(u.valid());
    assert!(!u.solved());
}

#[test]
fn from_of_the_empty_grid_is_the_empty_board() {
    assert_eq!(UnsolvedSudoku::from(Sudoku::empty()), UnsolvedSudoku::empty());
}

#[test]
fn branching_cell_is_the_first_with_the_fewest_candidates() {
    let mut u = UnsolvedSudoku::empty();
    assert_eq!(u.branching_cell(), Some((1, 1)));
    u.set(5, 5, 7);
    // Row 4 is the first row that meets the square in the middle.
    assert_eq!(u.branching_cell(), Some((1, 5)));
    u.set(9, 9, 7);
    // Cells that share a group with both fixed cells have lost no more.
    assert_eq!(u.branching_cell(), Some((1, 5)));
    u.set(1, 1, 3);
    // The cell in row 1 and column 5 has lost 3 and 7.
    assert_eq!(u.branching_cell(), Some((1, 5)));
    *u.get_mut(8, 2) = candidates(&[1, 2]);
    assert_eq!(u.branching_cell(), Some((8, 2)));
    *u.get_mut(8, 6) = candidates(&[4, 6]);
    assert_eq!(u.branching_cell(), Some((8, 2)));
    *u.get_mut(6, 6) = candidates(&[]);
    assert_eq!(u.branching_cell(), Some((6, 6)));
    assert_eq!(fixed_board(solved_rows()).branching_cell(), None);
}
