use std::collections::BTreeSet;
use sudokusolver::{Cell, Removal};

fn candidates(digits: &[u8]) -> Cell {
    let mut ps = BTreeSet::new();
    for d in digits {
        ps.insert(*d);
    }
    Cell::Possibilities(ps)
}

#[test]
fn default_cell_lists_every_digit() {
    assert_eq!(Cell::default(), candidates(&[1, 2, 3, 4, 5, 6, 7, 8, 9]));
}

#[test]
fn removing_from_a_fixed_cell_does_nothing() {
    let mut cell = Cell::Value(4);
    assert_eq!(cell.remove_possibility(4), Removal::NotFound);
    assert_eq!(cell, Cell::Value(4));
    assert_eq!(cell.remove_possibility(7), Removal::NotFound);
    assert_eq!(cell, Cell::Value(4));
}

#[test]
fn removing_an_absent_candidate_does_nothing() {
    let mut cell = candidates(&[2, 5, 8]);
    assert_eq!(cell.remove_possibility(3), Removal::NotFound);
    assert_eq!(cell, candidates(&[2, 5, 8]));
}

#[test]
fn removing_a_candidate_keeps_the_others() {
    let mut cell = Cell::default();
    assert_eq!(cell.remove_possibility(5), Removal::Removed);
    assert_eq!(cell, candidates(&[1, 2, 3, 4, 6, 7, 8, 9]));
    assert_eq!(cell.remove_possibility(5), Removal::NotFound);
}

#[test]
fn the_last_but_one_candidate_fixes_the_cell() {
    let mut cell = candidates(&[3, 7]);
    assert_eq!(cell.remove_possibility(3), Removal::Fixed(7));
    assert_eq!(cell, Cell::Value(7));

    let mut cell = candidates(&[3, 7]);
    assert_eq!(cell.remove_possibility(7), Removal::Fixed(3));
    assert_eq!(cell, Cell::Value(3));
}

#[test]
fn removing_down_to_one_candidate_step_by_step() {
    let mut cell = Cell::default();
    for d in 1..8 {
        assert_eq!(cell.remove_possibility(d), Removal::Removed);
    }
    assert_eq!(cell, candidates(&[8, 9]));
    assert_eq!(cell.remove_possibility(9), Removal::Fixed(8));
    assert_eq!(cell, Cell::Value(8));
}

#[test]
fn removing_the_only_candidate_leaves_an_empty_cell() {
    let mut cell = candidates(&[6]);
    assert_eq!(cell.remove_possibility(6), Removal::Removed);
    assert_eq!(cell, candidates(&[]));
    assert_eq!(cell.remove_possibility(6), Removal::NotFound);
}

#[test]
fn a_clone_is_equal() {
    let cell = candidates(&[1, 4, 9]);
    assert_eq!(cell.clone(), cell);
    assert_eq!(Cell::Value(2).clone(), Cell::Value(2));
}
