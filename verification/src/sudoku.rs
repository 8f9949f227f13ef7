use crate::subarray::in_range;
use vstd::prelude::*;

verus! {

/// A grid of nine rows of nine digits, as a sequence of sequences.
pub type Digits = Seq<Seq<u8>>;

/// The digit in row `r` and column `c`, both counted from 1.
pub open spec fn digit_at(g: Digits, r: int, c: int) -> u8 {
    g[r - 1][c - 1]
}

/// The grid `g` with `d` in row `r` and column `c`.
pub open spec fn with_digit(g: Digits, r: int, c: int, d: u8) -> Digits {
    g.update(r - 1, g[r - 1].update(c - 1, d))
}

/// Writing a digit changes that entry and no other.
pub proof fn lemma_with_digit(g: Digits, r: int, c: int, d: u8)
    requires
        is_grid(g),
        in_range(r),
        in_range(c),
        d <= 9,
    ensures
        is_grid(with_digit(g, r, c, d)),
        digit_at(with_digit(g, r, c, d), r, c) == d,
        forall|r2: int, c2: int|
            in_range(r2) && in_range(c2) && !(r2 == r && c2 == c) ==> #[trigger] digit_at(
                with_digit(g, r, c, d),
                r2,
                c2,
            ) == digit_at(g, r2, c2),
{
}

/// Nine rows of nine entries, each of them a digit or 0 for a blank.
pub open spec fn is_grid(g: Digits) -> bool {
    &&& g.len() == 9
    &&& forall|i: int| 0 <= i < 9 ==> (#[trigger] g[i]).len() == 9
    &&& forall|i: int, j: int| 0 <= i < 9 && 0 <= j < 9 ==> #[trigger] g[i][j] <= 9
}

/// A grid of nine rows of nine entries: the digits 1 to 9, and 0 for a blank.
#[derive(Clone, Copy, Debug, PartialEq, Eq)]
pub struct Sudoku {
    rows: [[u8; 9]; 9],
}

impl View for Sudoku {
    type V = Digits;

    closed spec fn view(&self) -> Digits {
        Seq::new(9, |i: int| Seq::new(9, |j: int| self.rows[i][j]))
    }
}

impl Sudoku {
    /// Every grid is nine by nine and holds nothing above 9.
    #[verifier::type_invariant]
    pub open spec fn well_formed(self) -> bool {
        is_grid(self@)
    }

    /// The grid without any digit.
    pub fn empty() -> (s: Sudoku)
        ensures
            is_grid(s@),
            forall|r: int, c: int| in_range(r) && in_range(c) ==> digit_at(s@, r, c) == 0,
    {
        Sudoku { rows: [[0u8; 9]; 9] }
    }

    /// The grid with the given rows, where every entry is at most 9.
    pub fn from_rows(rows: [[u8; 9]; 9]) -> (res: Option<Sudoku>)
        ensures
            res is Some <==> forall|i: int, j: int| 0 <= i < 9 && 0 <= j < 9 ==> rows[i][j] <= 9,
            res matches Some(s) ==> s@ == Seq::new(9, |i: int| rows[i]@),
    {
        for i in 0..9usize
            invariant
                forall|a: int, b: int| 0 <= a < i && 0 <= b < 9 ==> rows[a][b] <= 9,
        {
            for j in 0..9usize
                invariant
                    i < 9,
                    forall|a: int, b: int| 0 <= a < i && 0 <= b < 9 ==> rows[a][b] <= 9,
                    forall|b: int| 0 <= b < j ==> rows[i as int][b] <= 9,
            {
                if rows[i][j] > 9 {
                    return None;
                }
            }
        }
        let s = Sudoku { rows };
        assert(s@ =~~= Seq::new(9, |i: int| rows[i]@));
        Some(s)
    }

    /// Writes `digit` into row `rix` and column `cix`, both counted from 1.
    pub fn set(&mut self, rix: u8, cix: u8, digit: u8)
        requires
            in_range(rix as int),
            in_range(cix as int),
            digit <= 9,
        ensures
            final(self)@ == with_digit(old(self)@, rix as int, cix as int, digit),
    {
        proof {
            use_type_invariant(&*self);
        }
        let mut rows = self.rows;
        rows[(rix - 1) as usize][(cix - 1) as usize] = digit;
        assert forall|i: int, j: int| 0 <= i < 9 && 0 <= j < 9 implies #[trigger] rows[i][j]
            <= 9 by {
            assert(self@[i][j] <= 9);
        }
        self.rows = rows;
        assert(self@ =~~= with_digit(old(self)@, rix as int, cix as int, digit));
    }

    /// The entry in row `rix` and column `cix`, both counted from 1.
    pub fn get(&self, rix: u8, cix: u8) -> (d: u8)
        requires
            in_range(rix as int),
            in_range(cix as int),
        ensures
            d == digit_at(self@, rix as int, cix as int),
            d <= 9,
    {
        proof {
            use_type_invariant(self);
        }
        self.rows[(rix - 1) as usize][(cix - 1) as usize]
    }
}

} // verus!
