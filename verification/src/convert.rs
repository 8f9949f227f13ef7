use crate::board::{at, board_wf, empty_board, lemma_put, put, Board};
use crate::cascade::{assign, lemma_assign};
use crate::cell::{all_digits, lemma_all_digits, CellView};
use crate::solution::{completes, is_complete, no_clash, solves};
use crate::subarray::in_range;
use crate::sudoku::{digit_at, is_grid, Digits, Sudoku};
use crate::unsolved::UnsolvedSudoku;
use vstd::prelude::*;
use vstd::std_specs::convert::FromSpecImpl;

verus! {

/// The board after the digits that the puzzle gives from cell number `k` on
/// have been assigned, cell by cell and row by row. Cells are numbered from 0.
pub open spec fn given_from(b: Board, puzzle: Digits, k: int) -> Board
    decreases 81 - k,
{
    if k >= 81 {
        b
    } else {
        let d = digit_at(puzzle, k / 9 + 1, k % 9 + 1);
        let next = if d != 0 {
            assign(b, k / 9 + 1, k % 9 + 1, d)
        } else {
            b
        };
        given_from(next, puzzle, k + 1)
    }
}

/// The board of a puzzle: the empty board on which each given digit has been
/// assigned in turn.
pub open spec fn board_of(puzzle: Digits) -> Board {
    given_from(empty_board(), puzzle, 0)
}

/// The number of the cell in row `r` and column `c`, counted from 0 row by
/// row.
pub open spec fn cell_number(r: int, c: int) -> int {
    (r - 1) * 9 + (c - 1)
}

/// `g` is a full grid without a clash that keeps every digit the puzzle gives
/// in the cells before number `k`.
spec fn completes_upto(g: Digits, puzzle: Digits, k: int) -> bool {
    &&& is_complete(g)
    &&& no_clash(g)
    &&& forall|r: int, c: int|
        in_range(r) && in_range(c) && cell_number(r, c) < k && #[trigger] digit_at(puzzle, r, c)
            != 0 ==> digit_at(g, r, c) == digit_at(puzzle, r, c)
}

/// Every digit the puzzle gives in the cells before number `k` is fixed on the
/// board.
spec fn given_upto(b: Board, puzzle: Digits, k: int) -> bool {
    forall|r: int, c: int|
        in_range(r) && in_range(c) && cell_number(r, c) < k && #[trigger] digit_at(puzzle, r, c)
            != 0 ==> at(b, r, c) == CellView::Fixed(digit_at(puzzle, r, c))
}

/// What assigning the digits given from cell number `k` on makes of a board
/// on which the digits given before are assigned.
proof fn lemma_given_from(b: Board, puzzle: Digits, k: int)
    requires
        is_grid(puzzle),
        board_wf(b),
        0 <= k <= 81,
        given_upto(b, puzzle, k),
        forall|g: Digits| completes_upto(g, puzzle, k) ==> #[trigger] solves(g, b),
    ensures
        board_wf(given_from(b, puzzle, k)),
        given_upto(given_from(b, puzzle, k), puzzle, 81),
        forall|g: Digits| completes(g, puzzle) ==> #[trigger] solves(g, given_from(b, puzzle, k)),
    decreases 81 - k,
{
    if k >= 81 {
        assert forall|g: Digits| completes(g, puzzle) implies #[trigger] solves(g, b) by {
            assert(completes_upto(g, puzzle, k));
        }
    } else {
        let (r, c) = (k / 9 + 1, k % 9 + 1);
        let d = digit_at(puzzle, r, c);
        assert(in_range(r) && in_range(c) && cell_number(r, c) == k);
        assert(puzzle[r - 1][c - 1] <= 9);
        if d != 0 {
            let placed = put(b, r, c, CellView::Fixed(d));
            let next = assign(b, r, c, d);
            lemma_put(b, r, c, CellView::Fixed(d));
            lemma_assign(b, r, c, d);
            assert forall|r2: int, c2: int|
                in_range(r2) && in_range(c2) && cell_number(r2, c2) < k + 1 && #[trigger] digit_at(
                    puzzle,
                    r2,
                    c2,
                ) != 0 implies at(next, r2, c2) == CellView::Fixed(digit_at(puzzle, r2, c2)) by {
                assert(at(placed, r2, c2).narrows_to(at(next, r2, c2)));
            }
            assert forall|g: Digits| completes_upto(g, puzzle, k + 1) implies #[trigger] solves(
                g,
                next,
            ) by {
                assert(completes_upto(g, puzzle, k));
                assert(solves(g, b));
                assert forall|r2: int, c2: int| in_range(r2) && in_range(c2) implies (#[trigger] at(
                    placed,
                    r2,
                    c2,
                )).allows(digit_at(g, r2, c2)) by {
                    assert(at(b, r2, c2).allows(digit_at(g, r2, c2)));
                }
                assert(solves(g, placed));
            }
            lemma_given_from(next, puzzle, k + 1);
        } else {
            assert forall|g: Digits| completes_upto(g, puzzle, k + 1) implies #[trigger] solves(
                g,
                b,
            ) by {
                assert(completes_upto(g, puzzle, k));
            }
            lemma_given_from(b, puzzle, k + 1);
        }
    }
}

/// The board of a puzzle is well formed, every given digit is fixed on it,
/// and its solutions are the full grids without a clash that keep the given
/// digits.
pub proof fn lemma_board_of(puzzle: Digits)
    requires
        is_grid(puzzle),
    ensures
        board_wf(board_of(puzzle)),
        forall|r: int, c: int|
            in_range(r) && in_range(c) && #[trigger] digit_at(puzzle, r, c) != 0 ==> at(
                board_of(puzzle),
                r,
                c,
            ) == CellView::Fixed(digit_at(puzzle, r, c)),
        forall|g: Digits|
            #![trigger solves(g, board_of(puzzle))]
            #![trigger completes(g, puzzle)]
            solves(g, board_of(puzzle)) <==> completes(g, puzzle),
{
    let empty = empty_board();
    lemma_all_digits();
    assert forall|r: int, c: int| in_range(r) && in_range(c) implies #[trigger] at(empty, r, c)
        == CellView::Candidates(all_digits()) by {}
    assert forall|g: Digits| completes_upto(g, puzzle, 0) implies #[trigger] solves(g, empty) by {
        assert forall|r: int, c: int| in_range(r) && in_range(c) implies (#[trigger] at(
            empty,
            r,
            c,
        )).allows(digit_at(g, r, c)) by {
            assert(1 <= digit_at(g, r, c) <= 9);
        }
    }
    lemma_given_from(empty, puzzle, 0);
    let b = board_of(puzzle);
    assert forall|r: int, c: int|
        in_range(r) && in_range(c) && #[trigger] digit_at(puzzle, r, c) != 0 implies at(b, r, c)
        == CellView::Fixed(digit_at(puzzle, r, c)) by {
        assert(cell_number(r, c) < 81);
    }
    assert forall|g: Digits| solves(g, b) implies completes(g, puzzle) by {
        assert forall|r: int, c: int|
            in_range(r) && in_range(c) && #[trigger] digit_at(puzzle, r, c) != 0 implies digit_at(
            g,
            r,
            c,
        ) == digit_at(puzzle, r, c) by {
            assert(at(b, r, c).allows(digit_at(g, r, c)));
        }
    }
}

impl FromSpecImpl<Sudoku> for UnsolvedSudoku {
    open spec fn obeys_from_spec() -> bool {
        false
    }

    open spec fn from_spec(s: Sudoku) -> UnsolvedSudoku {
        choose|u: UnsolvedSudoku| u@ == board_of(s@)
    }
}

impl From<Sudoku> for UnsolvedSudoku {
    /// The board of a puzzle: each given digit is assigned in turn, row by
    /// row, with all that follows from it.
    ///
    /// Every given digit ends up fixed, and the solutions of the board are
    /// the full grids without a clash that keep the given digits.
    fn from(s: Sudoku) -> (u: UnsolvedSudoku)
        ensures
            u@ == board_of(s@),
            u.wf(),
            forall|r: int, c: int|
                in_range(r) && in_range(c) && #[trigger] digit_at(s@, r, c) != 0 ==> at(u@, r, c)
                    == CellView::Fixed(digit_at(s@, r, c)),
            forall|g: Digits|
                #![trigger solves(g, u@)]
                #![trigger completes(g, s@)]
                solves(g, u@) <==> completes(g, s@),
    {
        let mut u = UnsolvedSudoku::empty();
        for rix in 1..10u8
            invariant
                u.wf(),
                given_from(u@, s@, 9 * (rix - 1)) == board_of(s@),
        {
            for cix in 1..10u8
                invariant
                    1 <= rix <= 9,
                    u.wf(),
                    given_from(u@, s@, 9 * (rix - 1) + (cix - 1)) == board_of(s@),
            {
                let ghost k = 9 * (rix - 1) + (cix - 1);
                assert(k / 9 + 1 == rix && k % 9 + 1 == cix);
                let v = s.get(rix, cix);
                if v != 0 {
                    u.set(rix, cix, v);
                }
            }
        }
        proof {
            use_type_invariant(&s);
            lemma_board_of(s@);
        }
        u
    }
}

} // verus!
