use crate::board::{
    at, board_wf, keeps_fixed, lemma_member, lemma_open_cells_le, lemma_open_cells_lt, lemma_put,
    member, narrows, open_cells, put, with_fixed, Board,
};
use crate::cascade::{
    assign, kind_at, lemma_assign, lemma_assign_start, lemma_strike, lemma_strike_forced,
    lemma_strike_peers_end, lemma_strike_peers_step, lemma_strike_plain, lemma_visited, strike,
    strike_peers,
};
use crate::cell::{lemma_without, Cell, CellView, Removal};
use crate::elimination::{
    eliminated, fill, fill_from, lemma_eliminated, lemma_fill, lemma_settled_by_steps, lemma_sweep,
    single_place, step_settled, sweep, sweep_from,
};
use crate::solution::{
    elimination_of, group_settled, hidden_single, lemma_hidden_single_unique, settled, solves,
};
use crate::subarray::{
    group_cell, in_range, lemma_group_cell_inverse, offset_of, peers, square_of, Column, GroupKind,
    Row, Square, SubArray,
};
use crate::sudoku::Digits;
use crate::unsolved::UnsolvedSudoku;
use vstd::prelude::*;

verus! {

/// Where the members of a group still allow one digit.
#[derive(Clone, Copy)]
enum PossibleLocations {
    /// No member lists the digit.
    Nowhere,
    /// A member is fixed to the digit.
    Filled,
    /// One member lists the digit: the one in this row and column.
    Single(u8, u8),
    /// Two members or more list the digit.
    Many,
}

/// `loc` says where the first `n - 1` members of the group allow the digit `d`.
#[verifier::opaque]
spec fn located(
    b: Board,
    kind: GroupKind,
    group: int,
    d: u8,
    n: int,
    loc: PossibleLocations,
) -> bool {
    match loc {
        PossibleLocations::Filled => exists|o: int|
            1 <= o < n && #[trigger] member(b, kind, group, o) == CellView::Fixed(d),
        PossibleLocations::Nowhere => forall|o: int|
            1 <= o < n ==> !(#[trigger] member(b, kind, group, o)).allows(d),
        PossibleLocations::Single(r, c) => exists|o: int|
            {
                &&& 1 <= o < n
                &&& group_cell(kind, group, o) == (r as int, c as int)
                &&& (#[trigger] member(b, kind, group, o)).lists(d)
                &&& forall|o2: int|
                    1 <= o2 < n && o2 != o ==> !(#[trigger] member(b, kind, group, o2)).allows(d)
            },
        PossibleLocations::Many => {
            &&& forall|o: int|
                1 <= o < n ==> #[trigger] member(b, kind, group, o) != CellView::Fixed(d)
            &&& exists|o1: int, o2: int|
                1 <= o1 < o2 < n && (#[trigger] member(b, kind, group, o1)).lists(d) && (
                #[trigger] member(b, kind, group, o2)).lists(d)
        },
    }
}

/// Before any member is looked at, no digit is found anywhere.
proof fn lemma_located_start(b: Board, kind: GroupKind, group: int)
    ensures
        forall|d: u8| located(b, kind, group, d, 1, PossibleLocations::Nowhere),
{
    reveal(located);
}

/// What is known of a digit after `n - 1` members still holds after one more
/// member that does not allow the digit.
proof fn lemma_located_skip(
    b: Board,
    kind: GroupKind,
    group: int,
    d: u8,
    n: int,
    loc: PossibleLocations,
)
    requires
        located(b, kind, group, d, n, loc),
        !member(b, kind, group, n).allows(d),
    ensures
        located(b, kind, group, d, n + 1, loc),
{
    reveal(located);
    match loc {
        PossibleLocations::Filled => {
            let o = choose|o: int|
                1 <= o < n && #[trigger] member(b, kind, group, o) == CellView::Fixed(d);
            assert(1 <= o < n + 1 && member(b, kind, group, o) == CellView::Fixed(d));
        },
        PossibleLocations::Nowhere => {},
        PossibleLocations::Single(r, c) => {
            let o = choose|o: int|
                {
                    &&& 1 <= o < n
                    &&& group_cell(kind, group, o) == (r as int, c as int)
                    &&& (#[trigger] member(b, kind, group, o)).lists(d)
                    &&& forall|o2: int|
                        1 <= o2 < n && o2 != o ==> !(#[trigger] member(b, kind, group, o2)).allows(
                            d,
                        )
                };
            assert({
                &&& 1 <= o < n + 1
                &&& group_cell(kind, group, o) == (r as int, c as int)
                &&& member(b, kind, group, o).lists(d)
                &&& forall|o2: int|
                    1 <= o2 < n + 1 && o2 != o ==> !(#[trigger] member(b, kind, group, o2)).allows(
                        d,
                    )
            });
        },
        PossibleLocations::Many => {
            let (o1, o2) = choose|o1: int, o2: int|
                1 <= o1 < o2 < n && (#[trigger] member(b, kind, group, o1)).lists(d) && (
                #[trigger] member(b, kind, group, o2)).lists(d);
            assert(1 <= o1 < o2 < n + 1 && member(b, kind, group, o1).lists(d) && member(
                b,
                kind,
                group,
                o2,
            ).lists(d));
        },
    }
}

/// After a member that is fixed to the digit, the digit is filled.
proof fn lemma_located_fixed(b: Board, kind: GroupKind, group: int, d: u8, n: int)
    requires
        1 <= n,
        member(b, kind, group, n) == CellView::Fixed(d),
    ensures
        located(b, kind, group, d, n + 1, PossibleLocations::Filled),
{
    reveal(located);
    assert(1 <= n < n + 1 && member(b, kind, group, n) == CellView::Fixed(d));
}

/// What one more member that lists the digit makes of what was known.
spec fn listed_once_more(loc: PossibleLocations, r: u8, c: u8) -> PossibleLocations {
    match loc {
        PossibleLocations::Nowhere => PossibleLocations::Single(r, c),
        PossibleLocations::Single(_, _) => PossibleLocations::Many,
        other => other,
    }
}

/// What is known of a digit after `n - 1` members, and one more member that
/// lists the digit.
proof fn lemma_located_listed(
    b: Board,
    kind: GroupKind,
    group: int,
    d: u8,
    n: int,
    loc: PossibleLocations,
    r: u8,
    c: u8,
)
    requires
        1 <= n,
        located(b, kind, group, d, n, loc),
        member(b, kind, group, n).lists(d),
        group_cell(kind, group, n) == (r as int, c as int),
    ensures
        located(b, kind, group, d, n + 1, listed_once_more(loc, r, c)),
{
    reveal(located);
    match loc {
        PossibleLocations::Filled => {
            let o = choose|o: int|
                1 <= o < n && #[trigger] member(b, kind, group, o) == CellView::Fixed(d);
            assert(1 <= o < n + 1 && member(b, kind, group, o) == CellView::Fixed(d));
        },
        PossibleLocations::Nowhere => {
            assert({
                &&& 1 <= n < n + 1
                &&& group_cell(kind, group, n) == (r as int, c as int)
                &&& member(b, kind, group, n).lists(d)
                &&& forall|o2: int|
                    1 <= o2 < n + 1 && o2 != n ==> !(#[trigger] member(b, kind, group, o2)).allows(
                        d,
                    )
            });
        },
        PossibleLocations::Single(r0, c0) => {
            let o = choose|o: int|
                {
                    &&& 1 <= o < n
                    &&& group_cell(kind, group, o) == (r0 as int, c0 as int)
                    &&& (#[trigger] member(b, kind, group, o)).lists(d)
                    &&& forall|o2: int|
                        1 <= o2 < n && o2 != o ==> !(#[trigger] member(b, kind, group, o2)).allows(
                            d,
                        )
                };
            assert(1 <= o < n < n + 1 && member(b, kind, group, o).lists(d) && member(
                b,
                kind,
                group,
                n,
            ).lists(d));
            assert forall|o3: int| 1 <= o3 < n + 1 implies #[trigger] member(b, kind, group, o3)
                != CellView::Fixed(d) by {
                if o3 != o && o3 != n {
                    assert(!member(b, kind, group, o3).allows(d));
                }
            }
        },
        PossibleLocations::Many => {
            let (o1, o2) = choose|o1: int, o2: int|
                1 <= o1 < o2 < n && (#[trigger] member(b, kind, group, o1)).lists(d) && (
                #[trigger] member(b, kind, group, o2)).lists(d);
            assert(1 <= o1 < o2 < n + 1 && member(b, kind, group, o1).lists(d) && member(
                b,
                kind,
                group,
                o2,
            ).lists(d));
        },
    }
}

/// After all nine members, a digit has a single open place exactly where one
/// was found for it.
proof fn lemma_located_all(
    b: Board,
    kind: GroupKind,
    group: int,
    d: u8,
    loc: PossibleLocations,
)
    requires
        in_range(group),
        located(b, kind, group, d, 10, loc),
    ensures
        loc matches PossibleLocations::Single(r, c) ==> in_range(r as int) && in_range(c as int)
            && at(b, r as int, c as int).lists(d) && hidden_single(
            b,
            kind,
            group,
            d,
            offset_of(kind, r as int, c as int),
        ) && group_cell(kind, group, offset_of(kind, r as int, c as int)) == (r as int, c as int),
        !(loc is Single) ==> forall|o: int| !#[trigger] hidden_single(b, kind, group, d, o),
{
    reveal(located);
    reveal(member);
    match loc {
        PossibleLocations::Filled => {
            let of = choose|o: int|
                1 <= o < 10 && #[trigger] member(b, kind, group, o) == CellView::Fixed(d);
            assert forall|o: int| !#[trigger] hidden_single(b, kind, group, d, o) by {
                if hidden_single(b, kind, group, d, o) {
                    assert(member(b, kind, group, of).allows(d));
                }
            }
        },
        PossibleLocations::Nowhere => {
            assert forall|o: int| !#[trigger] hidden_single(b, kind, group, d, o) by {
                if hidden_single(b, kind, group, d, o) {
                    assert(!member(b, kind, group, o).allows(d));
                }
            }
        },
        PossibleLocations::Single(r, c) => {
            let o = choose|o: int|
                {
                    &&& 1 <= o < 10
                    &&& group_cell(kind, group, o) == (r as int, c as int)
                    &&& (#[trigger] member(b, kind, group, o)).lists(d)
                    &&& forall|o2: int|
                        1 <= o2 < 10 && o2 != o ==> !(#[trigger] member(b, kind, group, o2)).allows(
                            d,
                        )
                };
            lemma_group_cell_inverse(kind, group, o);
            assert(hidden_single(b, kind, group, d, o));
        },
        PossibleLocations::Many => {
            let (o1, o2) = choose|o1: int, o2: int|
                1 <= o1 < o2 < 10 && (#[trigger] member(b, kind, group, o1)).lists(d) && (
                #[trigger] member(b, kind, group, o2)).lists(d);
            assert forall|o: int| !#[trigger] hidden_single(b, kind, group, d, o) by {
                if hidden_single(b, kind, group, d, o) {
                    if o == o1 {
                        assert(member(b, kind, group, o2).allows(d));
                    } else {
                        assert(member(b, kind, group, o1).allows(d));
                    }
                }
            }
        },
    }
}

impl UnsolvedSudoku {
    /// Fixes the cell in row `rix` and column `cix` to `value` and removes
    /// `value` from the candidates of every other cell in its row, column and
    /// square. A cell that is left with one candidate is fixed to it in the
    /// same way, and so on.
    ///
    /// The target ends fixed to `value`; every other cell keeps its fixed
    /// value, or loses candidates, or is fixed to one of its candidates. No
    /// other cell of the target's groups still lists `value`. The solutions
    /// of the result are those of the board on which the target alone was
    /// fixed.
    pub fn set(&mut self, rix: u8, cix: u8, value: u8)
        requires
            old(self).wf(),
            in_range(rix as int),
            in_range(cix as int),
            1 <= value <= 9,
        ensures
            final(self)@ == assign(old(self)@, rix as int, cix as int, value),
            final(self).wf(),
            at(final(self)@, rix as int, cix as int) == CellView::Fixed(value),
            narrows(with_fixed(old(self)@, rix as int, cix as int, value), final(self)@),
            forall|r: int, c: int|
                in_range(r) && in_range(c) && peers(rix as int, cix as int, r, c) ==> !(
                #[trigger] at(final(self)@, r, c)).lists(value),
            forall|g: Digits|
                #![trigger solves(g, with_fixed(old(self)@, rix as int, cix as int, value))]
                #![trigger solves(g, final(self)@)]
                solves(g, with_fixed(old(self)@, rix as int, cix as int, value)) <==> solves(
                    g,
                    final(self)@,
                ),
            open_cells(final(self)@) <= open_cells(old(self)@),
            !(at(old(self)@, rix as int, cix as int) is Fixed) ==> open_cells(final(self)@)
                < open_cells(old(self)@),
        decreases open_cells(old(self)@), 1nat,
    {
        *self.get_mut(rix, cix) = Cell::Value(value);
        let (r, c, s) = UnsolvedSudoku::get_subarrays(rix, cix);
        proof {
            lemma_put(old(self)@, rix as int, cix as int, CellView::Fixed(value));
            assert(keeps_fixed(old(self)@, self@));
            lemma_open_cells_le(old(self)@, self@);
            lemma_assign_start(old(self)@, rix as int, cix as int, value);
        }
        for ix in 1..10u8
            invariant
                in_range(rix as int),
                in_range(cix as int),
                1 <= value <= 9,
                r.index == rix,
                c.index == cix,
                s.index == square_of(rix as int, cix as int),
                self.wf(),
                open_cells(self@) <= open_cells(old(self)@),
                strike_peers(self@, rix as int, cix as int, value, 3 * (ix - 1)) == assign(
                    old(self)@,
                    rix as int,
                    cix as int,
                    value,
                ),
        {
            let ghost (ri, ci) = (rix as int, cix as int);
            let ghost step = 3 * (ix - 1);
            proof {
                lemma_visited(ri, ci, ix as int);
            }
            let ghost b0 = self@;
            let (i, j) = r.matrix_index(ix);
            self.eliminate(i, j, value);
            proof {
                lemma_strike_peers_step(b0, ri, ci, value, step);
            }
            let ghost b1 = self@;
            let (i, j) = c.matrix_index(ix);
            self.eliminate(i, j, value);
            proof {
                lemma_strike_peers_step(b1, ri, ci, value, step + 1);
            }
            let ghost b2 = self@;
            let (i, j) = s.matrix_index(ix);
            self.eliminate(i, j, value);
            proof {
                lemma_strike_peers_step(b2, ri, ci, value, step + 2);
            }
        }
        proof {
            lemma_strike_peers_end(self@, rix as int, cix as int, value);
            lemma_assign(old(self)@, rix as int, cix as int, value);
        }
    }

    /// Removes `value` from the candidates of the cell in row `i` and column
    /// `j`, and where that leaves a single candidate, fixes the cell to it
    /// with all that follows.
    fn eliminate(&mut self, i: u8, j: u8, value: u8)
        requires
            old(self).wf(),
            in_range(i as int),
            in_range(j as int),
            1 <= value <= 9,
        ensures
            final(self)@ == strike(old(self)@, i as int, j as int, value),
            final(self).wf(),
            open_cells(final(self)@) <= open_cells(old(self)@),
        decreases open_cells(old(self)@), 0nat,
    {
        let ghost before = at(old(self)@, i as int, j as int);
        let removal = self.get_mut(i, j).remove_possibility(value);
        proof {
            lemma_without(before, value);
            lemma_put(old(self)@, i as int, j as int, before.without(value));
            lemma_strike(old(self)@, i as int, j as int, value);
        }
        match removal {
            Removal::Fixed(w) => {
                proof {
                    assert(keeps_fixed(old(self)@, self@));
                    lemma_open_cells_lt(old(self)@, self@, i as int, j as int);
                    lemma_strike_forced(old(self)@, i as int, j as int, value, w);
                    assert(put(self@, i as int, j as int, CellView::Fixed(w)) =~~= self@);
                }
                self.set(i, j, w);
            },
            _ => {
                proof {
                    lemma_strike_plain(old(self)@, i as int, j as int, value);
                }
            },
        }
    }

    /// Finds, for each digit, where the members of the group still allow it.
    fn scan_group<G: SubArray>(&self, g: &G) -> (locs: [PossibleLocations; 9])
        requires
            self.wf(),
            in_range(g.group()),
        ensures
            forall|k: int|
                0 <= k < 9 ==> located(
                    self@,
                    g.kind(),
                    g.group(),
                    (k + 1) as u8,
                    10,
                    #[trigger] locs[k],
                ),
    {
        let mut locs = [PossibleLocations::Nowhere;9];
        proof {
            lemma_located_start(self@, g.kind(), g.group());
        }
        for inner in 1..10u8
            invariant
                self.wf(),
                in_range(g.group()),
                forall|k: int|
                    0 <= k < 9 ==> located(
                        self@,
                        g.kind(),
                        g.group(),
                        (k + 1) as u8,
                        inner as int,
                        #[trigger] locs[k],
                    ),
        {
            let ghost (kind, group, n) = (g.kind(), g.group(), inner as int);
            let ghost before = locs;
            let (rix, cix) = g.matrix_index(inner);
            proof {
                lemma_member(self@, kind, group, n);
            }
            match self.get(rix, cix) {
                Cell::Value(v) => {
                    assert(at(self@, rix as int, cix as int).wf());
                    locs[(*v - 1) as usize] = PossibleLocations::Filled;
                    proof {
                        assert forall|k: int| 0 <= k < 9 implies located(
                            self@,
                            kind,
                            group,
                            (k + 1) as u8,
                            n + 1,
                            #[trigger] locs[k],
                        ) by {
                            if k == *v - 1 {
                                lemma_located_fixed(self@, kind, group, *v, n);
                            } else {
                                assert(located(self@, kind, group, (k + 1) as u8, n, before[k]));
                                lemma_located_skip(
                                    self@,
                                    kind,
                                    group,
                                    (k + 1) as u8,
                                    n,
                                    before[k],
                                );
                            }
                        }
                    }
                },
                Cell::Possibilities(ps) => {
                    for p in 1..10u8
                        invariant
                            1 <= n <= 9,
                            n == inner,
                            kind == g.kind(),
                            group == g.group(),
                            in_range(rix as int),
                            in_range(cix as int),
                            group_cell(kind, group, n) == (rix as int, cix as int),
                            member(self@, kind, group, n) == CellView::Candidates(ps@),
                            forall|k: int|
                                0 <= k < p - 1 ==> located(
                                    self@,
                                    kind,
                                    group,
                                    (k + 1) as u8,
                                    n + 1,
                                    #[trigger] locs[k],
                                ),
                            forall|k: int|
                                p - 1 <= k < 9 ==> located(
                                    self@,
                                    kind,
                                    group,
                                    (k + 1) as u8,
                                    n,
                                    #[trigger] locs[k],
                                ),
                    {
                        let ghost seen = locs;
                        assert(located(self@, kind, group, p, n, seen[p - 1]));
                        if ps.contains(&p) {
                            locs[(p - 1) as usize] = match locs[(p - 1) as usize] {
                                PossibleLocations::Nowhere => PossibleLocations::Single(rix, cix),
                                PossibleLocations::Single(_, _) => PossibleLocations::Many,
                                other => other,
                            };
                            proof {
                                lemma_located_listed(
                                    self@,
                                    kind,
                                    group,
                                    p,
                                    n,
                                    seen[p - 1],
                                    rix,
                                    cix,
                                );
                            }
                        } else {
                            proof {
                                lemma_located_skip(self@, kind, group, p, n, seen[p - 1]);
                            }
                        }
                    }
                },
            }
        }
        locs
    }

    /// Places each digit that has a single open place left in the group, in
    /// the state in which the group was found, and says how many it placed.
    fn fill_group<G: SubArray>(&mut self, g: &G) -> (filled: i32)
        requires
            old(self).wf(),
            in_range(g.group()),
        ensures
            final(self)@ == fill(old(self)@, g.kind(), g.group()),
            final(self).wf(),
            0 <= filled <= 9,
            filled == 0 <==> group_settled(old(self)@, g.kind(), g.group()),
    {
        let locs = self.scan_group(g);
        let ghost (kind, group) = (g.kind(), g.group());
        let ghost b0 = self@;
        let mut filled: i32 = 0;
        for k in 0..9usize
            invariant
                kind == g.kind(),
                group == g.group(),
                in_range(group),
                b0 == old(self)@,
                forall|k: int|
                    0 <= k < 9 ==> located(b0, kind, group, (k + 1) as u8, 10, #[trigger] locs[k]),
                self.wf(),
                0 <= filled <= k,
                filled == 0 ==> forall|i: int| 0 <= i < k ==> !(#[trigger] locs[i] is Single),
                filled > 0 ==> exists|i: int| 0 <= i < k && #[trigger] locs[i] is Single,
                fill_from(b0, self@, kind, group, k + 1) == fill(b0, kind, group),
        {
            let v = (k + 1) as u8;
            proof {
                lemma_located_all(b0, kind, group, v, locs[k as int]);
            }
            match locs[k] {
                PossibleLocations::Single(rix, cix) => {
                    proof {
                        let o = offset_of(kind, rix as int, cix as int);
                        let chosen = single_place(b0, kind, group, v)->0;
                        lemma_hidden_single_unique(b0, kind, group, v, o, chosen);
                        assert(locs[k as int] is Single);
                    }
                    self.set(rix, cix, v);
                    filled += 1;
                },
                _ => {},
            }
        }
        proof {
            if filled == 0 {
                assert forall|d: u8, o: int| 1 <= d <= 9 implies !#[trigger] hidden_single(
                    b0,
                    kind,
                    group,
                    d,
                    o,
                ) by {
                    assert(!(locs[d - 1] is Single));
                    lemma_located_all(b0, kind, group, d, locs[d - 1]);
                }
            } else {
                let i = choose|i: int| 0 <= i < 9 && #[trigger] locs[i] is Single;
                lemma_located_all(b0, kind, group, (i + 1) as u8, locs[i]);
            }
        }
        filled
    }

    /// Places digits that have a single open place left in a row, a column or
    /// a square, group after group, until a whole round over the 27 groups
    /// places none.
    ///
    /// The result is settled, holds the same solutions as the board at the
    /// start, and has come from it by narrowing. A board that is settled
    /// already is left as it is.
    pub fn simple_solve(&mut self)
        requires
            old(self).wf(),
        ensures
            final(self)@ == eliminated(old(self)@),
            elimination_of(old(self)@, final(self)@),
            open_cells(final(self)@) <= open_cells(old(self)@),
    {
        let mut filled: i32 = -1;
        while filled != 0
            invariant
                self.wf(),
                -1 <= filled,
                filled == 0 ==> self@ == eliminated(old(self)@),
                filled != 0 ==> eliminated(self@) == eliminated(old(self)@),
            decreases
                    open_cells(self@) + if filled != 0 {
                        1nat
                    } else {
                        0nat
                    },
        {
            filled = 0;
            let ghost before = self@;
            for ix in 1..10u8
                invariant
                    self.wf(),
                    board_wf(before),
                    0 <= filled <= 27 * (ix - 1),
                    filled == 0 ==> self@ == before,
                    filled == 0 ==> forall|s: int|
                        0 <= s < 3 * (ix - 1) ==> #[trigger] step_settled(before, s),
                    filled > 0 ==> !settled(before),
                    sweep_from(self@, 3 * (ix - 1)) == sweep(before),
            {
                let ghost step = 3 * (ix - 1);
                let ghost b0 = self@;
                let n0 = self.fill_group(&Row { index: ix });
                let ghost b1 = self@;
                let n1 = self.fill_group(&Column { index: ix });
                let ghost b2 = self@;
                let n2 = self.fill_group(&Square { index: ix });
                proof {
                    assert(kind_at(step) == GroupKind::Row && step / 3 + 1 == ix);
                    assert(kind_at(step + 1) == GroupKind::Column && (step + 1) / 3 + 1 == ix);
                    assert(kind_at(step + 2) == GroupKind::Square && (step + 2) / 3 + 1 == ix);
                    assert(sweep_from(b0, step) == sweep_from(b1, step + 1));
                    assert(sweep_from(b1, step + 1) == sweep_from(b2, step + 2));
                    assert(sweep_from(b2, step + 2) == sweep_from(self@, step + 3));
                    if filled == 0 {
                        lemma_fill(b0, GroupKind::Row, ix as int);
                        if n0 == 0 {
                            lemma_fill(b1, GroupKind::Column, ix as int);
                            if n1 == 0 {
                                lemma_fill(b2, GroupKind::Square, ix as int);
                            }
                        }
                        if n0 == 0 && n1 == 0 && n2 == 0 {
                            assert forall|s: int| 0 <= s < step + 3 implies #[trigger] step_settled(
                                before,
                                s,
                            ) by {}
                        } else {
                            let s = if n0 != 0 {
                                step
                            } else if n1 != 0 {
                                step + 1
                            } else {
                                step + 2
                            };
                            assert(!step_settled(before, s));
                            lemma_settled_by_steps(before);
                        }
                    }
                }
                filled = filled + n0 + n1 + n2;
            }
            proof {
                assert(self@ == sweep(before));
                lemma_settled_by_steps(before);
                lemma_sweep(before);
            }
        }
        proof {
            lemma_eliminated(old(self)@);
        }
    }
}

} // verus!
