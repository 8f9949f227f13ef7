use sudokusolver::parse::ParseError;
use sudokusolver::Sudoku;

const PUZZLE: &str = "53--7----\n6--195---\n-98----6-\n8---6---3\n4--8-3--1\n7---2---6\n-6----28-\n---419--5\n----8--79\n";

fn puzzle_rows() -> [[u8; 9]; 9] {
    [
        [5, 3, 0, 0, 7, 0, 0, 0, 0],
        [6, 0, 0, 1, 9, 5, 0, 0, 0],
        [0, 9, 8, 0, 0, 0, 0, 6, 0],
        [8, 0, 0, 0, 6, 0, 0, 0, 3],
        [4, 0, 0, 8, 0, 3, 0, 0, 1],
        [7, 0, 0, 0, 2, 0, 0, 0, 6],
        [0, 6, 0, 0, 0, 0, 2, 8, 0],
        [0, 0, 0, 4, 1, 9, 0, 0, 5],
        [0, 0, 0, 0, 8, 0, 0, 7, 9],
    ]
}

#[test]
fn empty_grid_is_blank() {
    let s = Sudoku::empty();
    for r in 1..10 {
        for c in 1..10 {
            assert_eq!(s.get(r, c), 0);
        }
    }
    assert_eq!(Some(s), Sudoku::from_rows([[0; 9]; 9]));
}

#[test]
fn from_rows_keeps_the_entries() {
    let s = Sudoku::from_rows(puzzle_rows()).unwrap();
    let rows = puzzle_rows();
    for r in 1..10u8 {
        for c in 1..10u8 {
            assert_eq!(s.get(r, c), rows[(r - 1) as usize][(c - 1) as usize]);
        }
    }
}

#[test]
fn from_rows_refuses_entries_above_nine() {
    let mut rows = puzzle_rows();
    rows[8][8] = 10;
    assert_eq!(Sudoku::from_rows(rows), None);
    rows[8][8] = 9;
    rows[0][0] = 255;
    assert_eq!(Sudoku::from_rows(rows), None);
}

#[test]
fn set_writes_one_entry() {
    let mut s = Sudoku::empty();
    s.set(3, 7, 4);
    for r in 1..10 {
        for c in 1..10 {
            assert_eq!(s.get(r, c), if (r, c) == (3, 7) { 4 } else { 0 });
        }
    }
    s.set(3, 7, 0);
    assert_eq!(s, Sudoku::empty());
}

#[test]
fn parse_reads_nine_lines() {
    let s = Sudoku::parse(PUZZLE.as_bytes()).unwrap();
    assert_eq!(Some(s), Sudoku::from_rows(puzzle_rows()));
}

#[test]
fn parse_without_a_last_line_end() {
    let text = PUZZLE.trim_end();
    let s = Sudoku::parse(text.as_bytes()).unwrap();
    assert_eq!(Some(s), Sudoku::from_rows(puzzle_rows()));
}

#[test]
fn parse_takes_three_kinds_of_blank() {
    let text = "000000000\n---------\nxxxxxxxxx\n0-x0-x0-x\n123456789\n000000000\n000000000\n000000000\n00000000x";
    let s = Sudoku::parse(text.as_bytes()).unwrap();
    let mut rows = [[0u8; 9]; 9];
    rows[4] = [1, 2, 3, 4, 5, 6, 7, 8, 9];
    assert_eq!(Some(s), Sudoku::from_rows(rows));
}

#[test]
fn parse_passes_over_other_characters() {
    let text = "5 3 - | - 7 - | - - -\r\n6,-,-,1,9,5,-,-,-\r\n.-.9.8.-.-.-.-.6.-\n8---6---3 # row four\n\t4--8-3--1\n7---2---6\n[-6----28-]\n---419--5\n----8--79ab\n";
    let s = Sudoku::parse(text.as_bytes()).unwrap();
    assert_eq!(Some(s), Sudoku::from_rows(puzzle_rows()));
}

#[test]
fn parse_passes_over_bytes_outside_ascii() {
    let mut text = Vec::new();
    for line in PUZZLE.lines() {
        text.extend_from_slice("é".as_bytes());
        text.extend_from_slice(line.as_bytes());
        text.push(0xff);
        text.push(b'\n');
    }
    let s = Sudoku::parse(&text).unwrap();
    assert_eq!(Some(s), Sudoku::from_rows(puzzle_rows()));
}

#[test]
fn parse_refuses_eight_lines() {
    let text = "53--7----\n6--195---\n-98----6-\n8---6---3\n4--8-3--1\n7---2---6\n-6----28-\n---419--5\n";
    assert_eq!(Sudoku::parse(text.as_bytes()), Err(ParseError::TooFewRows));
}

#[test]
fn parse_refuses_an_empty_text() {
    assert_eq!(Sudoku::parse(b""), Err(ParseError::TooFewRows));
}

#[test]
fn parse_refuses_ten_entries_in_a_line() {
    let text = "53--7----\n6--195---\n-98----6-1\n8---6---3\n4--8-3--1\n7---2---6\n-6----28-\n---419--5\n----8--79\n";
    assert_eq!(
        Sudoku::parse(text.as_bytes()),
        Err(ParseError::TooManyCharacters)
    );
}

#[test]
fn parse_refuses_eight_entries_in_a_line() {
    let text = "53--7----\n6--195--\n-98----6-\n8---6---3\n4--8-3--1\n7---2---6\n-6----28-\n---419--5\n----8--79\n";
    assert_eq!(
        Sudoku::parse(text.as_bytes()),
        Err(ParseError::TooFewCharacters)
    );
}

#[test]
fn parse_refuses_an_empty_line_in_between() {
    let text = "53--7----\n\n6--195---\n-98----6-\n8---6---3\n4--8-3--1\n7---2---6\n-6----28-\n---419--5\n----8--79\n";
    assert_eq!(
        Sudoku::parse(text.as_bytes()),
        Err(ParseError::TooFewCharacters)
    );
}

#[test]
fn parse_refuses_a_tenth_line() {
    let with_entries = format!("{}123456789\n", PUZZLE);
    assert_eq!(
        Sudoku::parse(with_entries.as_bytes()),
        Err(ParseError::TooManyCharacters)
    );
    let with_one_entry = format!("{}1", PUZZLE);
    assert_eq!(
        Sudoku::parse(with_one_entry.as_bytes()),
        Err(ParseError::TooManyCharacters)
    );
    let without_entries = format!("{}\n", PUZZLE);
    assert_eq!(
        Sudoku::parse(without_entries.as_bytes()),
        Err(ParseError::TooFewCharacters)
    );
    let with_other_characters = format!("{}end", PUZZLE);
    assert_eq!(
        Sudoku::parse(with_other_characters.as_bytes()),
        Err(ParseError::TooFewCharacters)
    );
}

#[test]
fn parse_reports_the_first_faulty_line() {
    let text = "53--7----\n6--195--\n-98----6-11\n";
    assert_eq!(
        Sudoku::parse(text.as_bytes()),
        Err(ParseError::TooFewCharacters)
    );
    let text = "53--7----\n6--195---1\n-98--\n";
    assert_eq!(
        Sudoku::parse(text.as_bytes()),
        Err(ParseError::TooManyCharacters)
    );
    let text = "53--7----\n6--195---\n-98--";
    assert_eq!(
        Sudoku::parse(text.as_bytes()),
        Err(ParseError::TooFewCharacters)
    );
}

#[test]
fn error_messages() {
    assert_eq!(ParseError::TooManyCharacters.message(), "Too many characters");
    assert_eq!(ParseError::TooFewCharacters.message(), "Too few characters");
    assert_eq!(ParseError::TooFewRows.message(), "Too few rows");
}

#[test]
fn text_of_a_puzzle() {
    let s = Sudoku::from_rows(puzzle_rows()).unwrap();
    let expected = "53  7    \n6  195   \n 98    6 \n8   6   3\n4  8 3  1\n7   2   6\n 6    28 \n   419  5\n    8  79";
    assert_eq!(s.to_text(), expected);
}

#[test]
fn text_of_the_empty_grid() {
    let line = "         ";
    let expected = [line; 9].join("\n");
    assert_eq!(Sudoku::empty().to_text(), expected);
    assert_eq!(expected.len(), 89);
}

#[test]
fn text_can_be_read_back() {
    let mut rows = [[0u8; 9]; 9];
    for r in 0..9 {
        for c in 0..9 {
            rows[r][c] = ((r * 3 + r / 3 + c) % 9 + 1) as u8;
        }
    }
    let s = Sudoku::from_rows(rows).unwrap();
    let text = s.to_text();
    assert_eq!(
        text,
        "123456789\n456789123\n789123456\n234567891\n567891234\n891234567\n345678912\n678912345\n912345678"
    );
    assert_eq!(Sudoku::parse(text.as_bytes()), Ok(s));
}
