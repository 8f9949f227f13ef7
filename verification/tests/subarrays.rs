use sudokusolver::{Column, Row, Square, SubArray, UnsolvedSudoku};

#[test]
fn test_rows() {
    for i in 1..10 {
        let r = Row { index: i };
        for j in 1..10 {
            let (rix, cix) = r.matrix_index(j);
            assert_eq!(rix, i);
            assert_eq!(cix, j);

            let (r2, _, _) = UnsolvedSudoku::get_subarrays(i, j);

            assert_eq!(rix, r2.index);
        }
    }
}

#[test]
fn test_squares() {
    for i in 1..10 {
        let q = Square { index: i };
        for j in 1..10 {
            let (rix, cix) = q.matrix_index(j);
            let (_, _, q2) = UnsolvedSudoku::get_subarrays(rix, cix);
            println!(
                "Square ({}, {}) -> ({}, {}) -> {}",
                i, j, rix, cix, q2.index
            );
            assert_eq!(i, q2.index);
        }
    }
}

#[test]
fn test_columns() {
    for i in 1..10 {
        let c = Column { index: i };
        for j in 1..10 {
            let (rix, cix) = c.matrix_index(j);
            assert_eq!(rix, j);
            assert_eq!(cix, i);

            let (_, c2, _) = UnsolvedSudoku::get_subarrays(j, i);
            assert_eq!(cix, c2.index);
        }
    }
}

#[test]
fn square_offsets_run_row_by_row() {
    for i in 1..10u8 {
        let q = Square { index: i };
        for j in 1..10u8 {
            let (rix, cix) = q.matrix_index(j);
            let offset = ((rix - 1) % 3) * 3 + (cix - 1) % 3 + 1;
            assert_eq!(offset, j);
        }
    }
}

#[test]
fn square_corners() {
    assert_eq!(Square { index: 1 }.matrix_index(1), (1, 1));
    assert_eq!(Square { index: 1 }.matrix_index(9), (3, 3));
    assert_eq!(Square { index: 5 }.matrix_index(5), (5, 5));
    assert_eq!(Square { index: 6 }.matrix_index(2), (4, 8));
    assert_eq!(Square { index: 7 }.matrix_index(4), (8, 1));
    assert_eq!(Square { index: 9 }.matrix_index(1), (7, 7));
    assert_eq!(Square { index: 9 }.matrix_index(9), (9, 9));
}

#[test]
fn squares_cover_the_board_once() {
    let mut seen = [[0u8; 9]; 9];
    for i in 1..10u8 {
        for j in 1..10u8 {
            let (rix, cix) = Square { index: i }.matrix_index(j);
            seen[(rix - 1) as usize][(cix - 1) as usize] += 1;
        }
    }
    assert_eq!(seen, [[1u8; 9]; 9]);
}

#[test]
fn subarrays_of_a_cell() {
    let (r, c, s) = UnsolvedSudoku::get_subarrays(4, 9);
    assert_eq!(r.index, 4);
    assert_eq!(c.index, 9);
    assert_eq!(s.index, 6);
    let (r, c, s) = UnsolvedSudoku::get_subarrays(9, 1);
    assert_eq!((r.index, c.index, s.index), (9, 1, 7));
}

#[test]
fn subarray_names() {
    assert_eq!(Row { index: 1 }.name(), "R");
    assert_eq!(Column { index: 1 }.name(), "C");
    assert_eq!(Square { index: 1 }.name(), "S");
}
