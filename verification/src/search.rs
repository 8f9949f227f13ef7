use crate::board::{
    all_fixed, at, board_wf, digits_of, distinct_in, member, no_duplicates, open_cells, Board,
};
use crate::cell::{Cell, CellView};
use crate::elimination::eliminated;
use crate::solution::{completes, digit_member, elimination_of, is_complete, lemma_branch, solves};
use crate::subarray::{group_cell, in_range, lemma_group_cell_inverse, GroupKind};
use crate::sudoku::{digit_at, Digits, Sudoku};
use crate::unsolved::UnsolvedSudoku;
use vstd::prelude::*;

verus! {

/// Why a board has no single answer.
#[derive(Clone, Copy, Debug, PartialEq, Eq)]
pub enum Unsolveable {
    /// The board has two solutions or more.
    MultipleSolutions,
    /// The board has no solution.
    NoSolution,
}

/// The cell in row `r1` and column `c1` comes before the one in row `r2` and
/// column `c2` when the board is read row by row.
pub open spec fn comes_before(r1: int, c1: int, r2: int, c2: int) -> bool {
    r1 < r2 || (r1 == r2 && c1 < c2)
}

/// The cell in row `r` and column `c` is unfixed and has the fewest candidates
/// of all unfixed cells, and it is the first such cell row by row.
pub open spec fn most_constrained(b: Board, r: int, c: int) -> bool {
    &&& in_range(r)
    &&& in_range(c)
    &&& at(b, r, c) matches CellView::Candidates(ps)
    &&& forall|r2: int, c2: int|
        in_range(r2) && in_range(c2) ==> (#[trigger] at(b, r2, c2) matches CellView::Candidates(qs)
            ==> ps.len() < qs.len() || (ps.len() == qs.len() && !comes_before(r2, c2, r, c)))
}

/// A board on which every cell is fixed has one solution, its own digits, when
/// no group holds a value twice, and none otherwise.
pub proof fn lemma_fixed_board(b: Board)
    requires
        board_wf(b),
        all_fixed(b),
    ensures
        no_duplicates(b) ==> solves(digits_of(b), b),
        !no_duplicates(b) ==> forall|t: Digits| !solves(t, b),
        forall|t: Digits| solves(t, b) ==> t == digits_of(b),
{
    reveal(member);
    let g = digits_of(b);
    assert forall|r: int, c: int| in_range(r) && in_range(c) implies at(b, r, c)
        == CellView::Fixed(#[trigger] digit_at(g, r, c)) by {
        assert(at(b, r, c) is Fixed);
    }
    if no_duplicates(b) {
        assert forall|r: int, c: int| in_range(r) && in_range(c) implies 1 <= #[trigger] digit_at(
            g,
            r,
            c,
        ) <= 9 by {
            assert(at(b, r, c).wf());
        }
        assert forall|kind: GroupKind, group: int, o1: int, o2: int|
            in_range(group) && in_range(o1) && in_range(o2) && o1 != o2 implies #[trigger] digit_member(
            g,
            kind,
            group,
            o1,
        ) != #[trigger] digit_member(g, kind, group, o2) by {
            lemma_group_cell_inverse(kind, group, o1);
            lemma_group_cell_inverse(kind, group, o2);
            assert(distinct_in(b, kind, group));
            assert(member(b, kind, group, o1) is Fixed);
            assert(member(b, kind, group, o1) != member(b, kind, group, o2));
        }
        assert forall|r: int, c: int| in_range(r) && in_range(c) implies (#[trigger] at(
            b,
            r,
            c,
        )).allows(digit_at(g, r, c)) by {
            assert(at(b, r, c) == CellView::Fixed(digit_at(g, r, c)));
        }
    } else {
        let (kind, group) = choose|kind: GroupKind, group: int|
            in_range(group) && !#[trigger] distinct_in(b, kind, group);
        let (o1, o2) = choose|o1: int, o2: int|
            in_range(o1) && in_range(o2) && o1 != o2 && (#[trigger] member(b, kind, group, o1))
                is Fixed && member(b, kind, group, o1) == #[trigger] member(b, kind, group, o2);
        lemma_group_cell_inverse(kind, group, o1);
        lemma_group_cell_inverse(kind, group, o2);
        assert forall|t: Digits| !solves(t, b) by {
            if solves(t, b) {
                let (r1, c1) = group_cell(kind, group, o1);
                let (r2, c2) = group_cell(kind, group, o2);
                assert(at(b, r1, c1).allows(digit_at(t, r1, c1)));
                assert(at(b, r2, c2).allows(digit_at(t, r2, c2)));
                assert(digit_member(t, kind, group, o1) != digit_member(t, kind, group, o2));
            }
        }
    }
    assert forall|t: Digits| solves(t, b) implies t == g by {
        assert forall|i: int, j: int| 0 <= i < 9 && 0 <= j < 9 implies t[i][j] == g[i][j] by {
            assert(at(b, i + 1, j + 1).allows(digit_at(t, i + 1, j + 1)));
            assert(at(b, i + 1, j + 1) == CellView::Fixed(digit_at(g, i + 1, j + 1)));
        }
        assert(t =~~= g);
    }
}

impl UnsolvedSudoku {
    /// Whether the cell in row `rix` and column `cix` is unfixed and lists
    /// `value` among its candidates.
    pub fn lists(&self, rix: u8, cix: u8, value: u8) -> (listed: bool)
        requires
            in_range(rix as int),
            in_range(cix as int),
        ensures
            listed == at(self@, rix as int, cix as int).lists(value),
    {
        match self.get(rix, cix) {
            Cell::Value(_) => false,
            Cell::Possibilities(ps) => ps.contains(&value),
        }
    }

    /// The unfixed cell with the fewest candidates, the first of them row by
    /// row; none when every cell is fixed.
    pub fn branching_cell(&self) -> (cell: Option<(u8, u8)>)
        ensures
            cell is None <==> all_fixed(self@),
            cell matches Some((r, c)) ==> most_constrained(self@, r as int, c as int),
    {
        let mut to_expand: Option<(u8, u8, usize)> = None;
        for rix in 1..10u8
            invariant
                to_expand is None ==> forall|r: int, c: int|
                    1 <= r < rix && in_range(c) ==> #[trigger] at(self@, r, c) is Fixed,
                to_expand matches Some((r, c, n)) ==> {
                    &&& 1 <= r < rix
                    &&& in_range(c as int)
                    &&& at(self@, r as int, c as int) matches CellView::Candidates(ps)
                    &&& ps.len() == n
                    &&& forall|r2: int, c2: int|
                        1 <= r2 < rix && in_range(c2) ==> (#[trigger] at(self@, r2, c2) matches CellView::Candidates(
                            qs,
                        ) ==> n < qs.len() || (n == qs.len() && !comes_before(
                            r2,
                            c2,
                            r as int,
                            c as int,
                        )))
                },
        {
            for cix in 1..10u8
                invariant
                    1 <= rix <= 9,
                    to_expand is None ==> forall|r: int, c: int|
                        in_range(r) && in_range(c) && comes_before(r, c, rix as int, cix as int)
                            ==> #[trigger] at(self@, r, c) is Fixed,
                    to_expand matches Some((r, c, n)) ==> {
                        &&& in_range(r as int)
                        &&& in_range(c as int)
                        &&& comes_before(r as int, c as int, rix as int, cix as int)
                        &&& at(self@, r as int, c as int) matches CellView::Candidates(ps)
                        &&& ps.len() == n
                        &&& forall|r2: int, c2: int|
                            in_range(r2) && in_range(c2) && comes_before(
                                r2,
                                c2,
                                rix as int,
                                cix as int,
                            ) ==> (#[trigger] at(self@, r2, c2) matches CellView::Candidates(qs)
                                ==> n < qs.len() || (n == qs.len() && !comes_before(
                                r2,
                                c2,
                                r as int,
                                c as int,
                            )))
                    },
            {
                match self.get(rix, cix) {
                    Cell::Value(_) => {},
                    Cell::Possibilities(ps) => {
                        let fewer = match to_expand {
                            None => true,
                            Some((_, _, n)) => ps.len() < n,
                        };
                        if fewer {
                            to_expand = Some((rix, cix, ps.len()));
                        }
                    },
                }
            }
        }
        match to_expand {
            None => None,
            Some((r, c, _)) => Some((r, c)),
        }
    }

    /// Solves the board: runs the elimination pass, and where cells are still
    /// unfixed, tries each candidate of the most constrained cell on a copy of
    /// the board.
    ///
    /// The answer is the one solution of the board where it has exactly one,
    /// `NoSolution` where it has none and `MultipleSolutions` where it has two
    /// or more. The board itself is left as the elimination pass leaves it.
    pub fn dynamic_solve(&mut self) -> (res: Result<Sudoku, Unsolveable>)
        requires
            old(self).wf(),
        ensures
            final(self)@ == eliminated(old(self)@),
            elimination_of(old(self)@, final(self)@),
            match res {
                Ok(s) => solves(s@, old(self)@) && forall|t: Digits| #[trigger]
                    solves(t, old(self)@) ==> t == s@,
                Err(Unsolveable::NoSolution) => forall|t: Digits| !#[trigger] solves(t, old(self)@),
                Err(Unsolveable::MultipleSolutions) => exists|t1: Digits, t2: Digits|
                    t1 != t2 && #[trigger] solves(t1, old(self)@) && #[trigger] solves(
                        t2,
                        old(self)@,
                    ),
            },
        decreases open_cells(old(self)@),
    {
        self.simple_solve();
        let ghost b = self@;
        if self.solved() {
            proof {
                lemma_fixed_board(b);
            }
            if self.valid() {
                return Ok(self.to_sudoku());
            }
            return Err(Unsolveable::NoSolution);
        }
        let (rix, cix) = match self.branching_cell() {
            None => {
                return Ok(self.to_sudoku());
            },
            Some(cell) => cell,
        };

        let mut found: Option<Sudoku> = None;
        for p in 1..10u8
            invariant
                self@ == b,
                board_wf(b),
                b == eliminated(old(self)@),
                elimination_of(old(self)@, b),
                in_range(rix as int),
                in_range(cix as int),
                at(b, rix as int, cix as int) is Candidates,
                open_cells(b) <= open_cells(old(self)@),
                found is None ==> forall|t: Digits| #[trigger]
                    solves(t, b) ==> digit_at(t, rix as int, cix as int) >= p,
                found matches Some(s) ==> {
                    &&& solves(s@, b)
                    &&& digit_at(s@, rix as int, cix as int) < p
                    &&& forall|t: Digits| #[trigger]
                        solves(t, b) && digit_at(t, rix as int, cix as int) < p ==> t == s@
                },
        {
            if self.lists(rix, cix, p) {
                let mut u2 = self.clone();
                u2.set(rix, cix, p);
                let ghost b2 = u2@;
                proof {
                    assert forall|t: Digits|
                        #![trigger solves(t, b2)]
                        #![trigger solves(t, b)]
                        solves(t, b2) <==> solves(t, b) && digit_at(t, rix as int, cix as int)
                            == p by {
                        lemma_branch(b, rix as int, cix as int, p, t);
                    }
                }
                match u2.dynamic_solve() {
                    Err(Unsolveable::MultipleSolutions) => {
                        proof {
                            let (t1, t2) = choose|t1: Digits, t2: Digits|
                                t1 != t2 && #[trigger] solves(t1, b2) && #[trigger] solves(t2, b2);
                            assert(solves(t1, b) && solves(t2, b));
                            assert(t1 != t2 && solves(t1, old(self)@) && solves(t2, old(self)@));
                        }
                        return Err(Unsolveable::MultipleSolutions);
                    },
                    Err(Unsolveable::NoSolution) => {},
                    Ok(s) => {
                        assert(solves(s@, b2));
                        assert(solves(s@, b) && digit_at(s@, rix as int, cix as int) == p);
                        match found {
                            None => {
                                found = Some(s);
                            },
                            Some(first) => {
                                proof {
                                    assert(first@ != s@);
                                    assert(solves(first@, old(self)@) && solves(s@, old(self)@));
                                }
                                return Err(Unsolveable::MultipleSolutions);
                            },
                        }
                    },
                }
            } else {
                proof {
                    assert forall|t: Digits| #[trigger] solves(t, b) implies digit_at(
                        t,
                        rix as int,
                        cix as int,
                    ) != p by {
                        assert(at(b, rix as int, cix as int).allows(
                            digit_at(t, rix as int, cix as int),
                        ));
                    }
                }
            }
        }
        proof {
            assert forall|t: Digits| #[trigger] solves(t, b) implies digit_at(
                t,
                rix as int,
                cix as int,
            ) < 10 by {
                assert(is_complete(t));
            }
        }
        match found {
            None => Err(Unsolveable::NoSolution),
            Some(s) => Ok(s),
        }
    }
}

impl Sudoku {
    /// Solves the puzzle.
    ///
    /// The answer is the one full grid without a clash that keeps the given
    /// digits where there is exactly one, `NoSolution` where there is none and
    /// `MultipleSolutions` where there are two or more.
    pub fn solve(self) -> (res: Result<Sudoku, Unsolveable>)
        ensures
            match res {
                Ok(s) => completes(s@, self@) && forall|t: Digits| #[trigger]
                    completes(t, self@) ==> t == s@,
                Err(Unsolveable::NoSolution) => forall|t: Digits| !#[trigger] completes(t, self@),
                Err(Unsolveable::MultipleSolutions) => exists|t1: Digits, t2: Digits|
                    t1 != t2 && #[trigger] completes(t1, self@) && #[trigger] completes(t2, self@),
            },
    {
        let mut u = UnsolvedSudoku::from(self);
        let ghost b = u@;
        let res = u.dynamic_solve();
        proof {
            if let Err(Unsolveable::MultipleSolutions) = res {
                let (t1, t2) = choose|t1: Digits, t2: Digits|
                    t1 != t2 && #[trigger] solves(t1, b) && #[trigger] solves(t2, b);
                assert(t1 != t2 && completes(t1, self@) && completes(t2, self@));
            }
        }
        res
    }
}

} // verus!
