use std::collections::BTreeSet;
use sudokusolver::{Cell, Sudoku, UnsolvedSudoku, Unsolveable};

fn grid(text: &str) -> Sudoku {
    Sudoku::parse(text.as_bytes()).unwrap()
}

const PUZZLE: &str = "53--7----\n6--195---\n-98----6-\n8---6---3\n4--8-3--1\n7---2---6\n-6----28-\n---419--5\n----8--79";

const SOLUTION: &str = "534678912\n672195348\n198342567\n859761423\n426853791\n713924856\n961537284\n287419635\n345286179";

const HARD_PUZZLE: &str = "8--------\n--36-----\n-7--9-2--\n-5---7---\n----457--\n---1---3-\n--1----68\n--85---1-\n-9----4--";

const HARD_SOLUTION: &str = "812753649\n943682175\n675491283\n154237896\n369845721\n287169534\n521974368\n438526917\n796318452";

// The solution with four cells blanked that can be filled in two ways.
const TWO_WAYS: &str = "534678912\n672195348\n198342567\n85976-42-\n42685-79-\n713924856\n961537284\n287419635\n345286179";

#[test]
fn elimination_alone_solves_an_easy_puzzle() {
    let mut u = UnsolvedSudoku::from(grid(PUZZLE));
    u.simple_solve();
    assert!(u.solved());
    assert!(u.valid());
    assert_eq!(u.to_sudoku(), grid(SOLUTION));
}

#[test]
fn a_second_elimination_pass_changes_nothing() {
    for text in [PUZZLE, HARD_PUZZLE, TWO_WAYS] {
        let mut once = UnsolvedSudoku::from(grid(text));
        once.simple_solve();
        let mut twice = once.clone();
        twice.simple_solve();
        assert_eq!(twice, once);
    }
    let mut u = UnsolvedSudoku::empty();
    u.simple_solve();
    assert_eq!(u, UnsolvedSudoku::empty());
}

#[test]
fn elimination_places_a_digit_with_one_place_left() {
    let mut u = UnsolvedSudoku::empty();
    // 1 is shut out of the first row but for its last cell.
    u.set(2, 1, 1);
    u.set(3, 4, 1);
    u.set(4, 7, 1);
    u.set(5, 8, 1);
    assert!(u.lists(1, 9, 1));
    assert_ne!(*u.get(1, 9), Cell::Value(1));
    u.simple_solve();
    assert_eq!(*u.get(1, 9), Cell::Value(1));
    for r in 2..10 {
        assert!(!u.lists(r, 9, 1));
    }
}

#[test]
fn elimination_only_narrows() {
    let before = UnsolvedSudoku::from(grid(HARD_PUZZLE));
    let mut after = before.clone();
    after.simple_solve();
    for r in 1..10 {
        for c in 1..10 {
            match (before.get(r, c), after.get(r, c)) {
                (Cell::Value(v), cell) => assert_eq!(*cell, Cell::Value(*v)),
                (Cell::Possibilities(ps), Cell::Value(v)) => assert!(ps.contains(v)),
                (Cell::Possibilities(ps), Cell::Possibilities(qs)) => assert!(qs.is_subset(ps)),
            }
        }
    }
}

#[test]
fn unique_solution() {
    let mut u = UnsolvedSudoku::from(grid(PUZZLE));
    assert_eq!(u.dynamic_solve(), Ok(grid(SOLUTION)));
}

#[test]
fn unique_solution_that_needs_guessing() {
    let mut u = UnsolvedSudoku::from(grid(HARD_PUZZLE));
    u.simple_solve();
    assert!(!u.solved());
    assert_eq!(u.dynamic_solve(), Ok(grid(HARD_SOLUTION)));
    assert_eq!(grid(HARD_PUZZLE).solve(), Ok(grid(HARD_SOLUTION)));
}

#[test]
fn solved_grid_is_its_own_solution() {
    assert_eq!(grid(SOLUTION).solve(), Ok(grid(SOLUTION)));
    let mut u = UnsolvedSudoku::from(grid(SOLUTION));
    assert!(u.solved());
    assert_eq!(u.dynamic_solve(), Ok(grid(SOLUTION)));
}

#[test]
fn empty_grid_has_many_solutions() {
    let mut u = UnsolvedSudoku::from(Sudoku::empty());
    assert_eq!(u.dynamic_solve(), Err(Unsolveable::MultipleSolutions));
    assert_eq!(Sudoku::empty().solve(), Err(Unsolveable::MultipleSolutions));
}

#[test]
fn two_solutions_are_multiple() {
    let mut u = UnsolvedSudoku::from(grid(TWO_WAYS));
    assert_eq!(u.dynamic_solve(), Err(Unsolveable::MultipleSolutions));
    // With one of the four cells given, one way is left.
    let mut one_way = grid(TWO_WAYS);
    one_way.set(4, 6, 1);
    assert_eq!(one_way.solve(), Ok(grid(SOLUTION)));
    let mut other_way = grid(TWO_WAYS);
    other_way.set(4, 6, 3);
    let mut expected = grid(SOLUTION);
    expected.set(4, 6, 3);
    expected.set(4, 9, 1);
    expected.set(5, 6, 1);
    expected.set(5, 9, 3);
    assert_eq!(other_way.solve(), Ok(expected));
}

#[test]
fn same_digit_twice_in_a_row_has_no_solution() {
    let mut s = grid(PUZZLE);
    s.set(1, 3, 5);
    let mut u = UnsolvedSudoku::from(s);
    assert_eq!(u.dynamic_solve(), Err(Unsolveable::NoSolution));
    assert_eq!(s.solve(), Err(Unsolveable::NoSolution));
    let mut s = grid(HARD_PUZZLE);
    s.set(7, 1, 8);
    assert_eq!(s.solve(), Err(Unsolveable::NoSolution));
}

#[test]
fn same_digit_twice_in_a_column_or_square_has_no_solution() {
    let mut s = grid(PUZZLE);
    s.set(9, 1, 5);
    assert_eq!(s.solve(), Err(Unsolveable::NoSolution));
    let mut s = grid(PUZZLE);
    s.set(3, 1, 3);
    assert_eq!(s.solve(), Err(Unsolveable::NoSolution));
    let mut s = grid(SOLUTION);
    s.set(9, 9, 1);
    assert_eq!(s.solve(), Err(Unsolveable::NoSolution));
}

#[test]
fn a_cell_without_candidates_has_no_solution() {
    let mut u = UnsolvedSudoku::from(grid(HARD_PUZZLE));
    assert_ne!(*u.get(1, 2), Cell::Value(1));
    *u.get_mut(1, 2) = Cell::Possibilities(BTreeSet::new());
    assert_eq!(u.dynamic_solve(), Err(Unsolveable::NoSolution));
    assert!(!u.solved());
}

#[test]
fn a_wrong_digit_in_a_puzzle_has_no_solution() {
    let mut s = grid(PUZZLE);
    // The solution holds 4 here, and 2 clashes with nothing that is given.
    s.set(1, 3, 2);
    assert_eq!(s.solve(), Err(Unsolveable::NoSolution));
}

#[test]
fn dynamic_solve_leaves_the_board_as_elimination_leaves_it() {
    for text in [PUZZLE, HARD_PUZZLE, TWO_WAYS] {
        let mut eliminated = UnsolvedSudoku::from(grid(text));
        eliminated.simple_solve();
        let mut solved = UnsolvedSudoku::from(grid(text));
        let _ = solved.dynamic_solve();
        assert_eq!(solved, eliminated);
    }
}
