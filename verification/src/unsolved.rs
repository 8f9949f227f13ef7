use crate::board::{
    all_fixed, at, board_wf, digits_of, distinct_in, empty_board, lemma_member, member,
    no_duplicates, put, Board,
};
use crate::cell::{all_digits, lemma_all_digits, Cell, CellView};
use crate::subarray::{in_range, square_of, Column, GroupKind, Row, Square, SubArray};
use crate::sudoku::{digit_at, is_grid, lemma_with_digit, Sudoku};
use std::collections::BTreeSet;
use vstd::prelude::*;

verus! {

/// A grid while it is solved: each cell is fixed, or holds the digits that are
/// still possible for it.
#[derive(Debug, PartialEq, Eq)]
pub struct UnsolvedSudoku {
    rows: [[Cell; 9]; 9],
}

impl View for UnsolvedSudoku {
    type V = Board;

    open spec fn view(&self) -> Board {
        Seq::new(9, |i: int| Seq::new(9, |j: int| self.stored(i, j)@))
    }
}

/// A row of cells that still have all nine candidates.
fn fresh_row() -> (row: [Cell; 9])
    ensures
        forall|j: int| 0 <= j < 9 ==> (#[trigger] row[j])@ == CellView::Candidates(all_digits()),
{
    [
        Cell::default(),
        Cell::default(),
        Cell::default(),
        Cell::default(),
        Cell::default(),
        Cell::default(),
        Cell::default(),
        Cell::default(),
        Cell::default(),
    ]
}

/// A copy of a row, cell by cell.
fn clone_row(row: &[Cell; 9]) -> (res: [Cell; 9])
    ensures
        forall|j: int| 0 <= j < 9 ==> (#[trigger] res[j])@ == row[j]@,
{
    [
        row[0].clone(),
        row[1].clone(),
        row[2].clone(),
        row[3].clone(),
        row[4].clone(),
        row[5].clone(),
        row[6].clone(),
        row[7].clone(),
        row[8].clone(),
    ]
}

impl Clone for UnsolvedSudoku {
    fn clone(&self) -> (res: UnsolvedSudoku)
        ensures
            res@ == self@,
    {
        let res = UnsolvedSudoku {
            rows: [
                clone_row(&self.rows[0]),
                clone_row(&self.rows[1]),
                clone_row(&self.rows[2]),
                clone_row(&self.rows[3]),
                clone_row(&self.rows[4]),
                clone_row(&self.rows[5]),
                clone_row(&self.rows[6]),
                clone_row(&self.rows[7]),
                clone_row(&self.rows[8]),
            ],
        };
        assert(res@ =~~= self@);
        res
    }
}

impl UnsolvedSudoku {
    /// The cell stored in row `i` and column `j`, both counted from 0.
    pub closed spec fn stored(&self, i: int, j: int) -> Cell {
        self.rows[i][j]
    }

    /// Every cell is a digit from 1 to 9 or a set of such digits that is not a
    /// single one.
    pub open spec fn wf(&self) -> bool {
        board_wf(self@)
    }

    /// The board on which every cell still has all nine candidates.
    pub fn empty() -> (u: UnsolvedSudoku)
        ensures
            u@ == empty_board(),
            u.wf(),
    {
        let u = UnsolvedSudoku {
            rows: [
                fresh_row(),
                fresh_row(),
                fresh_row(),
                fresh_row(),
                fresh_row(),
                fresh_row(),
                fresh_row(),
                fresh_row(),
                fresh_row(),
            ],
        };
        proof {
            lemma_all_digits();
            assert(u@ =~~= empty_board());
        }
        u
    }

    /// The three groups that hold the cell in row `rix` and column `cix`.
    pub fn get_subarrays(rix: u8, cix: u8) -> (groups: (Row, Column, Square))
        requires
            in_range(rix as int),
            in_range(cix as int),
        ensures
            groups.0.index == rix,
            groups.1.index == cix,
            groups.2.index == square_of(rix as int, cix as int),
    {
        let qix = ((rix - 1) / 3) * 3 + ((cix - 1) / 3) + 1;
        (Row { index: rix }, Column { index: cix }, Square { index: qix })
    }

    /// The cell in row `rix` and column `cix`, both counted from 1.
    pub fn get(&self, rix: u8, cix: u8) -> (cell: &Cell)
        requires
            in_range(rix as int),
            in_range(cix as int),
        ensures
            cell@ == at(self@, rix as int, cix as int),
    {
        &self.rows[(rix - 1) as usize][(cix - 1) as usize]
    }

    /// The cell in row `rix` and column `cix`, both counted from 1, to be
    /// changed in place. No other cell changes. Whoever writes to the cell
    /// keeps the board well formed.
    pub fn get_mut(&mut self, rix: u8, cix: u8) -> (cell: &mut Cell)
        requires
            in_range(rix as int),
            in_range(cix as int),
        ensures
            cell@ == at(old(self)@, rix as int, cix as int),
            final(self)@ =~~= put(old(self)@, rix as int, cix as int, final(cell)@),
    {
        &mut self.rows[(rix - 1) as usize][(cix - 1) as usize]
    }

    /// Whether every cell is fixed.
    pub fn solved(&self) -> (done: bool)
        ensures
            done == all_fixed(self@),
    {
        for rix in 1..10u8
            invariant
                forall|r: int, c: int|
                    1 <= r < rix && in_range(c) ==> #[trigger] at(self@, r, c) is Fixed,
        {
            for cix in 1..10u8
                invariant
                    1 <= rix <= 9,
                    forall|r: int, c: int|
                        1 <= r < rix && in_range(c) ==> #[trigger] at(self@, r, c) is Fixed,
                    forall|c: int| 1 <= c < cix ==> #[trigger] at(self@, rix as int, c) is Fixed,
            {
                match self.get(rix, cix) {
                    Cell::Value(_) => {},
                    Cell::Possibilities(_) => {
                        return false;
                    },
                }
            }
        }
        true
    }

    /// Whether the given group holds no fixed value twice.
    fn group_valid<G: SubArray>(&self, g: &G) -> (ok: bool)
        requires
            in_range(g.group()),
        ensures
            ok == distinct_in(self@, g.kind(), g.group()),
    {
        let mut seen: BTreeSet<u8> = BTreeSet::new();
        for j in 1..10u8
            invariant
                in_range(g.group()),
                forall|v: u8|
                    seen@.contains(v) <==> exists|o: int|
                        1 <= o < j && #[trigger] member(self@, g.kind(), g.group(), o)
                            == CellView::Fixed(v),
                forall|o1: int, o2: int|
                    1 <= o1 < j && 1 <= o2 < j && o1 != o2 && (#[trigger] member(
                        self@,
                        g.kind(),
                        g.group(),
                        o1,
                    )) is Fixed ==> member(self@, g.kind(), g.group(), o1) != #[trigger] member(
                        self@,
                        g.kind(),
                        g.group(),
                        o2,
                    ),
        {
            let (rix, cix) = g.matrix_index(j);
            proof {
                lemma_member(self@, g.kind(), g.group(), j as int);
            }
            match self.get(rix, cix) {
                Cell::Value(n) => {
                    let v = *n;
                    assert(member(self@, g.kind(), g.group(), j as int) == CellView::Fixed(v));
                    if !seen.insert(v) {
                        // The value is in the set already: it stands twice in this group.
                        proof {
                            let o = choose|o: int|
                                1 <= o < j && #[trigger] member(self@, g.kind(), g.group(), o)
                                    == CellView::Fixed(v);
                            assert(member(self@, g.kind(), g.group(), o) == member(
                                self@,
                                g.kind(),
                                g.group(),
                                j as int,
                            ));
                        }
                        return false;
                    }
                },
                Cell::Possibilities(_) => {},
            }
        }
        true
    }

    /// Whether no row, column or square holds the same fixed value twice.
    /// Cells that are not fixed are passed over.
    pub fn valid(&self) -> (ok: bool)
        ensures
            ok == no_duplicates(self@),
    {
        for ix in 1..10u8
            invariant
                forall|kind: GroupKind, group: int|
                    1 <= group < ix ==> #[trigger] distinct_in(self@, kind, group),
        {
            if !self.group_valid(&Row { index: ix }) {
                return false;
            }
            if !self.group_valid(&Column { index: ix }) {
                return false;
            }
            if !self.group_valid(&Square { index: ix }) {
                return false;
            }
            assert forall|kind: GroupKind, group: int| 1 <= group < ix + 1 implies #[trigger] distinct_in(
                self@,
                kind,
                group,
            ) by {
                if group == ix {
                    match kind {
                        GroupKind::Row => {},
                        GroupKind::Column => {},
                        GroupKind::Square => {},
                    }
                }
            }
        }
        true
    }

    /// The grid of the fixed digits, blank where a cell is not fixed.
    pub fn to_sudoku(&self) -> (s: Sudoku)
        requires
            self.wf(),
        ensures
            s@ == digits_of(self@),
    {
        let mut s = Sudoku::empty();
        for rix in 1..10u8
            invariant
                self.wf(),
                is_grid(s@),
                forall|r: int, c: int|
                    1 <= r < rix && in_range(c) ==> #[trigger] digit_at(s@, r, c) == digit_at(
                        digits_of(self@),
                        r,
                        c,
                    ),
                forall|r: int, c: int|
                    rix <= r <= 9 && in_range(c) ==> #[trigger] digit_at(s@, r, c) == 0,
        {
            for cix in 1..10u8
                invariant
                    self.wf(),
                    1 <= rix <= 9,
                    is_grid(s@),
                    forall|r: int, c: int|
                        1 <= r < rix && in_range(c) ==> #[trigger] digit_at(s@, r, c) == digit_at(
                            digits_of(self@),
                            r,
                            c,
                        ),
                    forall|c: int|
                        1 <= c < cix ==> #[trigger] digit_at(s@, rix as int, c) == digit_at(
                            digits_of(self@),
                            rix as int,
                            c,
                        ),
                    forall|c: int| cix <= c <= 9 ==> #[trigger] digit_at(s@, rix as int, c) == 0,
                    forall|r: int, c: int|
                        rix < r <= 9 && in_range(c) ==> #[trigger] digit_at(s@, r, c) == 0,
            {
                match self.get(rix, cix) {
                    Cell::Value(v) => {
                        assert(at(self@, rix as int, cix as int).wf());
                        proof {
                            lemma_with_digit(s@, rix as int, cix as int, *v);
                        }
                        s.set(rix, cix, *v);
                    },
                    Cell::Possibilities(_) => {},
                }
            }
        }
        assert forall|i: int, j: int| 0 <= i < 9 && 0 <= j < 9 implies s@[i][j] == digits_of(
            self@,
        )[i][j] by {
            assert(digit_at(s@, i + 1, j + 1) == digit_at(digits_of(self@), i + 1, j + 1));
        }
        assert(s@ =~~= digits_of(self@));
        s
    }
}

} // verus!
