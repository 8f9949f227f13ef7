use crate::board::{
    at, board_wf, keeps_fixed, lemma_narrows_keeps_fixed, lemma_narrows_trans,
    lemma_open_cells_le, lemma_open_cells_lt, lemma_put, narrows, open_cells, put, with_fixed,
    Board,
};
use crate::cell::{lemma_without, CellView, Removal};
use crate::solution::{lemma_narrows_solves, lemma_peers_differ, solves};
use crate::subarray::{
    group_cell, group_of, in_range, lemma_group_cell_covers, lemma_group_cell_inverse, offset_of,
    peers, same_group, square_of, GroupKind,
};
use crate::sudoku::{digit_at, Digits};
use vstd::prelude::*;

verus! {

/// The kind of group that comes at a step, where steps go through rows,
/// columns and squares in turn.
pub open spec fn kind_at(step: int) -> GroupKind {
    if step % 3 == 0 {
        GroupKind::Row
    } else if step % 3 == 1 {
        GroupKind::Column
    } else {
        GroupKind::Square
    }
}

/// The cell that an assignment to row `r` and column `c` visits at a step.
/// The 27 steps take the first member of the row, of the column and of the
/// square of the target, then the second member of each, and so on.
#[verifier::opaque]
pub open spec fn visited(r: int, c: int, step: int) -> (int, int) {
    group_cell(kind_at(step), group_of(kind_at(step), r, c), step / 3 + 1)
}

/// The three cells that an assignment visits for the offset `ix`: the member
/// of the target's row, of its column and of its square at that offset.
pub proof fn lemma_visited(r: int, c: int, ix: int)
    requires
        in_range(r),
        in_range(c),
        in_range(ix),
    ensures
        visited(r, c, 3 * (ix - 1)) == (r, ix),
        visited(r, c, 3 * (ix - 1) + 1) == (ix, c),
        visited(r, c, 3 * (ix - 1) + 2) == group_cell(GroupKind::Square, square_of(r, c), ix),
        in_range(group_cell(GroupKind::Square, square_of(r, c), ix).0),
        in_range(group_cell(GroupKind::Square, square_of(r, c), ix).1),
        square_of(
            group_cell(GroupKind::Square, square_of(r, c), ix).0,
            group_cell(GroupKind::Square, square_of(r, c), ix).1,
        ) == square_of(r, c),
{
    reveal(visited);
}

/// The cell that an assignment visits at a step lies on the board and shares
/// a group with the target.
proof fn lemma_visited_same_group(r: int, c: int, step: int)
    requires
        in_range(r),
        in_range(c),
        0 <= step < 27,
    ensures
        in_range(visited(r, c, step).0),
        in_range(visited(r, c, step).1),
        same_group(r, c, visited(r, c, step).0, visited(r, c, step).1),
{
    reveal(visited);
    lemma_group_cell_covers(kind_at(step), r, c);
    lemma_group_cell_inverse(kind_at(step), group_of(kind_at(step), r, c), step / 3 + 1);
}

/// Every cell that shares a group with the target of an assignment is visited
/// at one of the 27 steps.
proof fn lemma_visited_covers(r: int, c: int, r2: int, c2: int)
    requires
        in_range(r),
        in_range(c),
        in_range(r2),
        in_range(c2),
        same_group(r, c, r2, c2),
    ensures
        exists|step: int| 0 <= step < 27 && #[trigger] visited(r, c, step) == (r2, c2),
{
    reveal(visited);
    let (kind, turn) = if r2 == r {
        (GroupKind::Row, 0int)
    } else if c2 == c {
        (GroupKind::Column, 1int)
    } else {
        (GroupKind::Square, 2int)
    };
    lemma_group_cell_covers(kind, r2, c2);
    let step = 3 * (offset_of(kind, r2, c2) - 1) + turn;
    assert(kind_at(step) == kind && step / 3 + 1 == offset_of(kind, r2, c2));
    assert(0 <= step < 27 && visited(r, c, step) == (r2, c2));
}

/// The board after `v` has been struck from the cell in row `i` and column
/// `j`. Where that leaves the cell with one candidate, the cell is assigned
/// that candidate, with all that follows.
///
/// On a well-formed board the test on the number of unfixed cells always
/// passes, here and in the two functions below: its part is to bound the
/// recursion.
#[verifier::opaque]
pub open spec fn strike(b: Board, i: int, j: int, v: u8) -> Board
    decreases open_cells(b), 0nat, 0nat,
{
    let struck = put(b, i, j, at(b, i, j).without(v));
    match at(b, i, j).removal(v) {
        Removal::Fixed(w) => if open_cells(struck) < open_cells(b) {
            assign(struck, i, j, w)
        } else {
            struck
        },
        _ => struck,
    }
}

/// The board after `v` has been struck from the cells that an assignment to
/// row `r` and column `c` visits from the given step on.
#[verifier::opaque]
pub open spec fn strike_peers(b: Board, r: int, c: int, v: u8, step: int) -> Board
    decreases open_cells(b), 1nat, 27 - step,
{
    if step >= 27 {
        b
    } else {
        let next = strike(b, visited(r, c, step).0, visited(r, c, step).1, v);
        if open_cells(next) <= open_cells(b) {
            strike_peers(next, r, c, v, step + 1)
        } else {
            next
        }
    }
}

/// The board after the cell in row `r` and column `c` has been assigned `v`:
/// the cell is fixed, and `v` is struck from the 27 cells that the assignment
/// visits, in their order.
#[verifier::opaque]
pub open spec fn assign(b: Board, r: int, c: int, v: u8) -> Board
    decreases open_cells(b), 2nat, 0nat,
{
    let placed = put(b, r, c, CellView::Fixed(v));
    if open_cells(placed) <= open_cells(b) {
        strike_peers(placed, r, c, v, 0)
    } else {
        placed
    }
}

/// Striking a value from a cell that is not left with one candidate changes
/// that cell alone.
pub proof fn lemma_strike_plain(b: Board, i: int, j: int, v: u8)
    requires
        !(at(b, i, j).removal(v) is Fixed),
    ensures
        strike(b, i, j, v) == put(b, i, j, at(b, i, j).without(v)),
{
    reveal_with_fuel(strike, 2);
    reveal_with_fuel(assign, 2);
}

/// Striking a value from a cell that is left with one candidate assigns that
/// candidate to the cell.
pub proof fn lemma_strike_forced(b: Board, i: int, j: int, v: u8, w: u8)
    requires
        at(b, i, j).removal(v) == Removal::Fixed(w),
        open_cells(put(b, i, j, at(b, i, j).without(v))) < open_cells(b),
    ensures
        strike(b, i, j, v) == assign(put(b, i, j, at(b, i, j).without(v)), i, j, w),
{
    reveal_with_fuel(strike, 2);
    reveal_with_fuel(assign, 2);
}

/// An assignment fixes its target and then strikes the value from the cells
/// it visits, from the first step on.
pub proof fn lemma_assign_start(b: Board, r: int, c: int, v: u8)
    requires
        open_cells(put(b, r, c, CellView::Fixed(v))) <= open_cells(b),
    ensures
        assign(b, r, c, v) == strike_peers(put(b, r, c, CellView::Fixed(v)), r, c, v, 0),
{
    reveal_with_fuel(assign, 2);
    reveal_with_fuel(strike_peers, 2);
}

/// One step of an assignment strikes the value from the cell it visits.
pub proof fn lemma_strike_peers_step(b: Board, r: int, c: int, v: u8, step: int)
    requires
        step < 27,
        open_cells(strike(b, visited(r, c, step).0, visited(r, c, step).1, v)) <= open_cells(b),
    ensures
        strike_peers(b, r, c, v, step) == strike_peers(
            strike(b, visited(r, c, step).0, visited(r, c, step).1, v),
            r,
            c,
            v,
            step + 1,
        ),
{
    reveal_with_fuel(strike_peers, 2);
    reveal_with_fuel(strike, 2);
}

/// After the last step nothing is left to strike.
pub proof fn lemma_strike_peers_end(b: Board, r: int, c: int, v: u8)
    ensures
        strike_peers(b, r, c, v, 27) == b,
{
    reveal_with_fuel(strike_peers, 2);
    reveal_with_fuel(strike, 2);
}

/// `value` is struck from every cell that an assignment to row `r` and column
/// `c` visits before the given step.
spec fn struck_before(b: Board, r: int, c: int, value: u8, step: int) -> bool {
    forall|s: int|
        0 <= s < step ==> !(#[trigger] at(b, visited(r, c, s).0, visited(r, c, s).1)).lists(value)
}

/// A cell that does not list a value does not list it after narrowing.
proof fn lemma_stays_struck(before: CellView, after: CellView, value: u8)
    requires
        before.narrows_to(after),
        !before.lists(value),
    ensures
        !after.lists(value),
{
    assert(after.lists(value) ==> after.allows(value));
}

/// What one step of an assignment keeps and gains: the board still narrows
/// the one at the start, the value is struck from one more visited cell, and
/// what is left to do gives the same board.
proof fn lemma_strike_step(
    start: Board,
    before: Board,
    after: Board,
    r: int,
    c: int,
    value: u8,
    step: int,
)
    requires
        in_range(r),
        in_range(c),
        0 <= step < 27,
        narrows(start, before),
        narrows(before, after),
        struck_before(before, r, c, value, step),
        after == strike(before, visited(r, c, step).0, visited(r, c, step).1, value),
        !at(after, visited(r, c, step).0, visited(r, c, step).1).lists(value),
        open_cells(after) <= open_cells(before),
    ensures
        narrows(start, after),
        struck_before(after, r, c, value, step + 1),
        strike_peers(before, r, c, value, step) == strike_peers(after, r, c, value, step + 1),
{
    lemma_narrows_trans(start, before, after);
    lemma_strike_peers_step(before, r, c, value, step);
    assert forall|s: int| 0 <= s < step + 1 implies !(#[trigger] at(
        after,
        visited(r, c, s).0,
        visited(r, c, s).1,
    )).lists(value) by {
        if s < step {
            lemma_visited_same_group(r, c, s);
            let (i, j) = visited(r, c, s);
            assert(at(before, i, j).narrows_to(at(after, i, j)));
            lemma_stays_struck(at(before, i, j), at(after, i, j), value);
        }
    }
}

/// A solution of a board on which a cell is fixed to `value` does not hold
/// `value` in any other cell of that cell's groups that still lists it.
proof fn lemma_solutions_survive(b: Board, rix: int, cix: int, i: int, j: int, value: u8)
    requires
        in_range(rix),
        in_range(cix),
        in_range(i),
        in_range(j),
        at(b, rix, cix) == CellView::Fixed(value),
        same_group(rix, cix, i, j),
    ensures
        forall|g: Digits| #[trigger]
            solves(g, b) ==> !(at(b, i, j).lists(value) && digit_at(g, i, j) == value),
{
    assert forall|g: Digits| #[trigger] solves(g, b) implies !(at(b, i, j).lists(value)
        && digit_at(g, i, j) == value) by {
        assert(at(b, rix, cix).allows(digit_at(g, rix, cix)));
        if !(i == rix && j == cix) {
            lemma_peers_differ(g, rix, cix, i, j);
        }
    }
}

/// Once `value` is struck from all 27 cells that an assignment visits, no
/// other cell of the target's row, column or square lists it.
proof fn lemma_struck_all(b: Board, rix: int, cix: int, value: u8)
    requires
        in_range(rix),
        in_range(cix),
        struck_before(b, rix, cix, value, 27),
    ensures
        forall|r: int, c: int|
            in_range(r) && in_range(c) && peers(rix, cix, r, c) ==> !(#[trigger] at(b, r, c)).lists(
                value,
            ),
{
    assert forall|r: int, c: int|
        in_range(r) && in_range(c) && peers(rix, cix, r, c) implies !(#[trigger] at(
        b,
        r,
        c,
    )).lists(value) by {
        lemma_visited_covers(rix, cix, r, c);
        let s = choose|s: int| 0 <= s < 27 && #[trigger] visited(rix, cix, s) == (r, c);
        assert(!at(b, visited(rix, cix, s).0, visited(rix, cix, s).1).lists(value));
    }
}

/// What striking a value from a cell does to a well-formed board: the board
/// stays well formed and is narrowed, the cell no longer lists the value, no
/// cell is unfixed that was fixed, and every solution is kept that does not
/// hold the value in that cell.
pub proof fn lemma_strike(b: Board, i: int, j: int, v: u8)
    requires
        board_wf(b),
        in_range(i),
        in_range(j),
        1 <= v <= 9,
    ensures
        board_wf(strike(b, i, j, v)),
        narrows(b, strike(b, i, j, v)),
        !at(strike(b, i, j, v), i, j).lists(v),
        open_cells(strike(b, i, j, v)) <= open_cells(b),
        forall|g: Digits| #[trigger]
            solves(g, b) && !(at(b, i, j).lists(v) && digit_at(g, i, j) == v) ==> solves(
                g,
                strike(b, i, j, v),
            ),
    decreases open_cells(b), 0nat, 0nat,
{
    let cell = at(b, i, j);
    let struck = put(b, i, j, cell.without(v));
    lemma_without(cell, v);
    lemma_put(b, i, j, cell.without(v));
    assert(narrows(b, struck));
    lemma_narrows_keeps_fixed(b, struck);
    lemma_open_cells_le(b, struck);
    assert forall|g: Digits| #[trigger]
        solves(g, b) && !(at(b, i, j).lists(v) && digit_at(g, i, j) == v) implies solves(
        g,
        struck,
    ) by {
        assert forall|r: int, c: int| in_range(r) && in_range(c) implies (#[trigger] at(
            struck,
            r,
            c,
        )).allows(digit_at(g, r, c)) by {
            assert(at(b, r, c).allows(digit_at(g, r, c)));
        }
    }
    match cell.removal(v) {
        Removal::Fixed(w) => {
            lemma_open_cells_lt(b, struck, i, j);
            lemma_strike_forced(b, i, j, v, w);
            lemma_assign(struck, i, j, w);
            assert(put(struck, i, j, CellView::Fixed(w)) =~~= struck);
            lemma_narrows_trans(b, struck, strike(b, i, j, v));
        },
        _ => {
            lemma_strike_plain(b, i, j, v);
        },
    }
}

/// What the steps of an assignment from a given step on do to a well-formed
/// board on which the steps before have been made.
proof fn lemma_strike_peers(start: Board, b: Board, r: int, c: int, v: u8, step: int)
    requires
        in_range(r),
        in_range(c),
        1 <= v <= 9,
        0 <= step <= 27,
        board_wf(b),
        at(start, r, c) == CellView::Fixed(v),
        narrows(start, b),
        struck_before(b, r, c, v, step),
        forall|g: Digits| #[trigger] solves(g, start) ==> solves(g, b),
    ensures
        board_wf(strike_peers(b, r, c, v, step)),
        narrows(start, strike_peers(b, r, c, v, step)),
        struck_before(strike_peers(b, r, c, v, step), r, c, v, 27),
        forall|g: Digits| #[trigger] solves(g, start) ==> solves(g, strike_peers(b, r, c, v, step)),
        open_cells(strike_peers(b, r, c, v, step)) <= open_cells(b),
    decreases open_cells(b), 1nat, 27 - step,
{
    if step >= 27 {
        lemma_strike_peers_end(b, r, c, v);
    } else {
        let (i, j) = visited(r, c, step);
        lemma_visited_same_group(r, c, step);
        lemma_strike(b, i, j, v);
        let next = strike(b, i, j, v);
        lemma_strike_step(start, b, next, r, c, v, step);
        assert(at(start, r, c).narrows_to(at(b, r, c)));
        lemma_solutions_survive(b, r, c, i, j, v);
        lemma_strike_peers(start, next, r, c, v, step + 1);
    }
}

/// What an assignment does to a well-formed board. The target ends fixed to
/// the value; every other cell keeps its fixed value, or loses candidates, or
/// is fixed to one of its candidates. No other cell of the target's row,
/// column or square still lists the value. The solutions of the result are
/// those of the board on which the target alone was fixed. No cell is unfixed
/// that was fixed.
pub proof fn lemma_assign(b: Board, r: int, c: int, v: u8)
    requires
        board_wf(b),
        in_range(r),
        in_range(c),
        1 <= v <= 9,
    ensures
        board_wf(assign(b, r, c, v)),
        at(assign(b, r, c, v), r, c) == CellView::Fixed(v),
        narrows(with_fixed(b, r, c, v), assign(b, r, c, v)),
        forall|r2: int, c2: int|
            in_range(r2) && in_range(c2) && peers(r, c, r2, c2) ==> !(#[trigger] at(
                assign(b, r, c, v),
                r2,
                c2,
            )).lists(v),
        forall|g: Digits|
            #![trigger solves(g, with_fixed(b, r, c, v))]
            #![trigger solves(g, assign(b, r, c, v))]
            solves(g, with_fixed(b, r, c, v)) <==> solves(g, assign(b, r, c, v)),
        open_cells(assign(b, r, c, v)) <= open_cells(b),
        !(at(b, r, c) is Fixed) ==> open_cells(assign(b, r, c, v)) < open_cells(b),
    decreases open_cells(b), 2nat, 0nat,
{
    let placed = with_fixed(b, r, c, v);
    lemma_put(b, r, c, CellView::Fixed(v));
    assert(board_wf(placed));
    assert(keeps_fixed(b, placed));
    lemma_open_cells_le(b, placed);
    lemma_assign_start(b, r, c, v);
    assert(narrows(placed, placed));
    lemma_strike_peers(placed, placed, r, c, v, 0);
    let f = assign(b, r, c, v);
    lemma_struck_all(f, r, c, v);
    assert(at(placed, r, c).narrows_to(at(f, r, c)));
    assert forall|g: Digits| solves(g, f) implies solves(g, placed) by {
        lemma_narrows_solves(placed, f, g);
    }
    lemma_narrows_keeps_fixed(placed, f);
    if !(at(b, r, c) is Fixed) {
        assert(keeps_fixed(b, f));
        lemma_open_cells_lt(b, f, r, c);
    }
}

} // verus!
