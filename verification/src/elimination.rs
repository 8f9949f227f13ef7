use crate::board::{
    at, board_wf, lemma_member, lemma_narrows_fix, lemma_narrows_keeps_fixed, lemma_narrows_refl,
    lemma_narrows_trans, lemma_open_cells_lt, narrows, open_cells, put, Board,
};
use crate::cascade::{assign, kind_at, lemma_assign};
use crate::cell::CellView;
use crate::solution::{
    elimination_of, group_settled, hidden_single, lemma_branch, lemma_hidden_single,
    lemma_narrows_solves, settled, solves,
};
use crate::subarray::{group_cell, in_range, lemma_group_cell_inverse, GroupKind};
use crate::sudoku::Digits;
use vstd::prelude::*;

verus! {

/// The offset in the group at which the digit `d` has its single open place,
/// where it has one.
pub open spec fn single_place(b: Board, kind: GroupKind, group: int, d: u8) -> Option<int> {
    if exists|o: int| #[trigger] hidden_single(b, kind, group, d, o) {
        Some(choose|o: int| #[trigger] hidden_single(b, kind, group, d, o))
    } else {
        None
    }
}

/// The board after the digits from `d` to 9 that have a single open place
/// left in the group have been assigned there, in rising order. The single
/// places are those of the board `found`, on which the group was looked
/// through; the assignments are made on `b`, one after the other.
pub open spec fn fill_from(found: Board, b: Board, kind: GroupKind, group: int, d: int) -> Board
    decreases 10 - d,
{
    if d >= 10 {
        b
    } else {
        let next = match single_place(found, kind, group, d as u8) {
            Some(o) => assign(
                b,
                group_cell(kind, group, o).0,
                group_cell(kind, group, o).1,
                d as u8,
            ),
            None => b,
        };
        fill_from(found, next, kind, group, d + 1)
    }
}

/// The board after every digit that has a single open place left in the group
/// has been assigned there.
pub open spec fn fill(b: Board, kind: GroupKind, group: int) -> Board {
    fill_from(b, b, kind, group, 1)
}

/// The board after the groups from the given step on have been filled. The 27
/// steps take the first row, the first column and the first square, then the
/// second of each, and so on.
pub open spec fn sweep_from(b: Board, step: int) -> Board
    decreases 27 - step,
{
    if step >= 27 {
        b
    } else {
        sweep_from(fill(b, kind_at(step), step / 3 + 1), step + 1)
    }
}

/// The board after one round over the 27 groups.
pub open spec fn sweep(b: Board) -> Board {
    sweep_from(b, 0)
}

/// The board after rounds over the 27 groups have been made until one of them
/// changed nothing.
///
/// On a well-formed board a round that changes the board fixes a cell, so
/// the test on the number of unfixed cells always passes: its part is to
/// bound the recursion.
pub open spec fn eliminated(b: Board) -> Board
    decreases open_cells(b),
{
    let next = sweep(b);
    if next != b && open_cells(next) < open_cells(b) {
        eliminated(next)
    } else {
        next
    }
}

/// The group that comes at a step of a round holds no digit with a single
/// open place.
pub open spec fn step_settled(b: Board, step: int) -> bool {
    group_settled(b, kind_at(step), step / 3 + 1)
}

/// A board is settled when the group of each of the 27 steps is.
pub proof fn lemma_settled_by_steps(b: Board)
    ensures
        settled(b) <==> forall|s: int| 0 <= s < 27 ==> #[trigger] step_settled(b, s),
{
    if settled(b) {
        assert forall|s: int| 0 <= s < 27 implies #[trigger] step_settled(b, s) by {
            assert(group_settled(b, kind_at(s), s / 3 + 1));
        }
    }
    if forall|s: int| 0 <= s < 27 ==> #[trigger] step_settled(b, s) {
        assert forall|kind: GroupKind, group: int| in_range(group) implies #[trigger] group_settled(
            b,
            kind,
            group,
        ) by {
            let turn = match kind {
                GroupKind::Row => 0int,
                GroupKind::Column => 1int,
                GroupKind::Square => 2int,
            };
            let s = 3 * (group - 1) + turn;
            assert(kind_at(s) == kind && s / 3 + 1 == group);
            assert(step_settled(b, s));
        }
    }
}

/// A group is settled when none of the nine digits has a single place in it.
proof fn lemma_group_settled_by_digits(b: Board, kind: GroupKind, group: int)
    ensures
        group_settled(b, kind, group) <==> forall|d: u8|
            1 <= d <= 9 ==> #[trigger] single_place(b, kind, group, d) is None,
{
    if group_settled(b, kind, group) {
        assert forall|d: u8| 1 <= d <= 9 implies #[trigger] single_place(
            b,
            kind,
            group,
            d,
        ) is None by {
            if single_place(b, kind, group, d) is Some {
                let o = choose|o: int| #[trigger] hidden_single(b, kind, group, d, o);
                assert(!hidden_single(b, kind, group, d, o));
            }
        }
    }
    if forall|d: u8| 1 <= d <= 9 ==> #[trigger] single_place(b, kind, group, d) is None {
        assert forall|d: u8, o: int| 1 <= d <= 9 implies !#[trigger] hidden_single(
            b,
            kind,
            group,
            d,
            o,
        ) by {
            assert(single_place(b, kind, group, d) is None);
        }
    }
}

/// What filling a group from a digit on does to a well-formed board that has
/// come from the board on which the group was looked through.
proof fn lemma_fill_from(found: Board, b: Board, kind: GroupKind, group: int, d: int)
    requires
        board_wf(b),
        in_range(group),
        1 <= d <= 10,
        narrows(found, b),
        forall|g: Digits| #[trigger] solves(g, found) ==> solves(g, b),
        open_cells(b) <= open_cells(found),
        (forall|d2: u8| 1 <= d2 < d ==> #[trigger] single_place(found, kind, group, d2) is None)
            ==> b == found,
        (exists|d2: u8| 1 <= d2 < d && #[trigger] single_place(found, kind, group, d2) is Some)
            ==> open_cells(b) < open_cells(found),
    ensures
        board_wf(fill_from(found, b, kind, group, d)),
        narrows(found, fill_from(found, b, kind, group, d)),
        forall|g: Digits| #[trigger]
            solves(g, found) ==> solves(g, fill_from(found, b, kind, group, d)),
        open_cells(fill_from(found, b, kind, group, d)) <= open_cells(found),
        group_settled(found, kind, group) ==> fill_from(found, b, kind, group, d) == found,
        !group_settled(found, kind, group) ==> open_cells(fill_from(found, b, kind, group, d))
            < open_cells(found),
    decreases 10 - d,
{
    lemma_group_settled_by_digits(found, kind, group);
    if d < 10 {
        let digit = d as u8;
        match single_place(found, kind, group, digit) {
            Some(o) => {
                let (r, c) = group_cell(kind, group, o);
                assert(hidden_single(found, kind, group, digit, o));
                lemma_group_cell_inverse(kind, group, o);
                lemma_assign(b, r, c, digit);
                let next = assign(b, r, c, digit);
                let placed = put(b, r, c, CellView::Fixed(digit));
                lemma_member(found, kind, group, o);
                lemma_narrows_fix(found, b, r, c, digit);
                lemma_narrows_trans(found, placed, next);
                lemma_narrows_keeps_fixed(found, next);
                lemma_open_cells_lt(found, next, r, c);
                assert forall|g: Digits| #[trigger] solves(g, found) implies solves(g, next) by {
                    lemma_hidden_single(found, kind, group, digit, o, g);
                    lemma_branch(b, r, c, digit, g);
                    assert(at(found, r, c).narrows_to(at(b, r, c)));
                }
                lemma_fill_from(found, next, kind, group, d + 1);
            },
            None => {
                lemma_fill_from(found, b, kind, group, d + 1);
            },
        }
    }
}

/// What filling a group does to a well-formed board: the board stays well
/// formed, is narrowed and keeps its solutions. A settled group leaves the
/// board as it is, and any other group gets a cell fixed.
pub proof fn lemma_fill(b: Board, kind: GroupKind, group: int)
    requires
        board_wf(b),
        in_range(group),
    ensures
        board_wf(fill(b, kind, group)),
        narrows(b, fill(b, kind, group)),
        forall|g: Digits| #[trigger] solves(g, b) ==> solves(g, fill(b, kind, group)),
        open_cells(fill(b, kind, group)) <= open_cells(b),
        group_settled(b, kind, group) ==> fill(b, kind, group) == b,
        !group_settled(b, kind, group) ==> open_cells(fill(b, kind, group)) < open_cells(b),
{
    lemma_narrows_refl(b);
    lemma_fill_from(b, b, kind, group, 1);
}

/// What a round from a step on does to a well-formed board that has come from
/// the board at the start of the round.
proof fn lemma_sweep_from(start: Board, b: Board, step: int)
    requires
        board_wf(b),
        0 <= step <= 27,
        narrows(start, b),
        forall|g: Digits| #[trigger] solves(g, start) ==> solves(g, b),
        open_cells(b) <= open_cells(start),
        (forall|s: int| 0 <= s < step ==> #[trigger] step_settled(start, s)) ==> b == start,
        (exists|s: int| 0 <= s < step && !#[trigger] step_settled(start, s)) ==> open_cells(b)
            < open_cells(start),
    ensures
        board_wf(sweep_from(b, step)),
        narrows(start, sweep_from(b, step)),
        forall|g: Digits| #[trigger] solves(g, start) ==> solves(g, sweep_from(b, step)),
        open_cells(sweep_from(b, step)) <= open_cells(start),
        settled(start) ==> sweep_from(b, step) == start,
        !settled(start) ==> open_cells(sweep_from(b, step)) < open_cells(start),
    decreases 27 - step,
{
    lemma_settled_by_steps(start);
    if step < 27 {
        let kind = kind_at(step);
        let group = step / 3 + 1;
        lemma_fill(b, kind, group);
        let next = fill(b, kind, group);
        lemma_narrows_trans(start, b, next);
        if forall|s: int| 0 <= s < step ==> #[trigger] step_settled(start, s) {
            if !step_settled(start, step) {
                assert(0 <= step < step + 1 && !step_settled(start, step));
            }
        } else {
            let s = choose|s: int| 0 <= s < step && !#[trigger] step_settled(start, s);
            assert(0 <= s < step + 1 && !step_settled(start, s));
        }
        lemma_sweep_from(start, next, step + 1);
    }
}

/// What a round over the 27 groups does to a well-formed board: the board
/// stays well formed, is narrowed and keeps its solutions. A settled board is
/// left as it is, and any other board gets a cell fixed.
pub proof fn lemma_sweep(b: Board)
    requires
        board_wf(b),
    ensures
        board_wf(sweep(b)),
        narrows(b, sweep(b)),
        forall|g: Digits| #[trigger] solves(g, b) ==> solves(g, sweep(b)),
        settled(b) ==> sweep(b) == b,
        !settled(b) ==> open_cells(sweep(b)) < open_cells(b),
{
    lemma_narrows_refl(b);
    lemma_sweep_from(b, b, 0);
}

/// What the elimination pass does to a well-formed board: the result is well
/// formed and settled, has come from the board by narrowing, and has the same
/// solutions. A settled board is left as it is.
pub proof fn lemma_eliminated(b: Board)
    requires
        board_wf(b),
    ensures
        elimination_of(b, eliminated(b)),
        open_cells(eliminated(b)) <= open_cells(b),
    decreases open_cells(b),
{
    lemma_sweep(b);
    lemma_narrows_refl(b);
    let next = sweep(b);
    if !settled(b) {
        lemma_eliminated(next);
        let last = eliminated(next);
        lemma_narrows_trans(b, next, last);
        assert forall|g: Digits| solves(g, last) implies solves(g, b) by {
            lemma_narrows_solves(b, last, g);
        }
    }
}

/// Running the elimination pass twice gives what running it once gives.
pub proof fn lemma_eliminated_idempotent(b: Board)
    requires
        board_wf(b),
    ensures
        eliminated(eliminated(b)) == eliminated(b),
{
    lemma_eliminated(b);
    lemma_eliminated(eliminated(b));
}

} // verus!
