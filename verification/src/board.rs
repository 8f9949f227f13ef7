use crate::cell::{all_digits, CellView};
use crate::subarray::{group_cell, in_range, GroupKind};
use crate::sudoku::Digits;
use vstd::prelude::*;

verus! {

/// The solving state of a whole grid: nine rows of nine cells.
pub type Board = Seq<Seq<CellView>>;

/// The cell in row `r` and column `c`, both counted from 1.
pub open spec fn at(b: Board, r: int, c: int) -> CellView {
    b[r - 1][c - 1]
}

/// The board `b` with the cell in row `r` and column `c` replaced.
pub open spec fn put(b: Board, r: int, c: int, cell: CellView) -> Board {
    b.update(r - 1, b[r - 1].update(c - 1, cell))
}

/// The board `b` with the cell in row `r` and column `c` fixed to `v`.
pub open spec fn with_fixed(b: Board, r: int, c: int, v: u8) -> Board {
    put(b, r, c, CellView::Fixed(v))
}

/// The member at `offset` of the given group.
#[verifier::opaque]
pub open spec fn member(b: Board, kind: GroupKind, group: int, offset: int) -> CellView {
    at(b, group_cell(kind, group, offset).0, group_cell(kind, group, offset).1)
}

/// The board on which every cell still has all nine candidates.
pub open spec fn empty_board() -> Board {
    Seq::new(9, |i: int| Seq::new(9, |j: int| CellView::Candidates(all_digits())))
}

/// Nine rows of nine cells.
pub open spec fn is_board(b: Board) -> bool {
    &&& b.len() == 9
    &&& forall|i: int| 0 <= i < 9 ==> (#[trigger] b[i]).len() == 9
}

/// A board all of whose cells are well formed.
pub open spec fn board_wf(b: Board) -> bool {
    &&& is_board(b)
    &&& forall|r: int, c: int| in_range(r) && in_range(c) ==> (#[trigger] at(b, r, c)).wf()
}

/// Every cell of `after` has come from the cell of `before` by narrowing.
pub open spec fn narrows(before: Board, after: Board) -> bool {
    forall|r: int, c: int|
        in_range(r) && in_range(c) ==> (#[trigger] at(before, r, c)).narrows_to(at(after, r, c))
}

/// No cell is left unfixed.
pub open spec fn all_fixed(b: Board) -> bool {
    forall|r: int, c: int| in_range(r) && in_range(c) ==> #[trigger] at(b, r, c) is Fixed
}

/// The given group holds no fixed value twice.
pub open spec fn distinct_in(b: Board, kind: GroupKind, group: int) -> bool {
    forall|o1: int, o2: int|
        in_range(o1) && in_range(o2) && o1 != o2 && (#[trigger] member(b, kind, group, o1))
            is Fixed ==> member(b, kind, group, o1) != #[trigger] member(b, kind, group, o2)
}

/// No row, column or square holds the same fixed value twice.
pub open spec fn no_duplicates(b: Board) -> bool {
    forall|kind: GroupKind, group: int| in_range(group) ==> #[trigger] distinct_in(b, kind, group)
}

/// The digits of the fixed cells, with 0 where a cell is not fixed.
pub open spec fn digits_of(b: Board) -> Digits {
    Seq::new(
        9,
        |i: int|
            Seq::new(
                9,
                |j: int|
                    match b[i][j] {
                        CellView::Fixed(v) => v,
                        CellView::Candidates(_) => 0u8,
                    },
            ),
    )
}

/// Every cell that is fixed in `before` is fixed in `after`.
pub open spec fn keeps_fixed(before: Board, after: Board) -> bool {
    forall|r: int, c: int|
        in_range(r) && in_range(c) && (#[trigger] at(before, r, c)) is Fixed ==> at(
            after,
            r,
            c,
        ) is Fixed
}

/// The number of unfixed cells among the first `k` cells, counted row by row.
pub open spec fn open_upto(b: Board, k: int) -> nat
    decreases k,
{
    if k <= 0 {
        0
    } else {
        open_upto(b, k - 1) + if at(b, (k - 1) / 9 + 1, (k - 1) % 9 + 1) is Fixed {
            0nat
        } else {
            1nat
        }
    }
}

/// The number of unfixed cells of the board.
pub open spec fn open_cells(b: Board) -> nat {
    open_upto(b, 81)
}

/// Replacing a cell changes that cell and no other.
pub proof fn lemma_put(b: Board, r: int, c: int, cell: CellView)
    requires
        is_board(b),
        in_range(r),
        in_range(c),
    ensures
        is_board(put(b, r, c, cell)),
        at(put(b, r, c, cell), r, c) == cell,
        forall|r2: int, c2: int|
            in_range(r2) && in_range(c2) && !(r2 == r && c2 == c) ==> #[trigger] at(
                put(b, r, c, cell),
                r2,
                c2,
            ) == at(b, r2, c2),
{
}

/// The member at an offset is the cell in the row and column of that offset.
pub proof fn lemma_member(b: Board, kind: GroupKind, group: int, offset: int)
    ensures
        member(b, kind, group, offset) == at(
            b,
            group_cell(kind, group, offset).0,
            group_cell(kind, group, offset).1,
        ),
{
    reveal(member);
}

/// A board narrows itself.
pub proof fn lemma_narrows_refl(b: Board)
    ensures
        narrows(b, b),
{
}

/// Narrowing twice is narrowing.
pub proof fn lemma_narrows_trans(a: Board, b: Board, c: Board)
    requires
        narrows(a, b),
        narrows(b, c),
    ensures
        narrows(a, c),
{
    assert forall|r: int, col: int| in_range(r) && in_range(col) implies (#[trigger] at(
        a,
        r,
        col,
    )).narrows_to(at(c, r, col)) by {
        assert(at(a, r, col).narrows_to(at(b, r, col)));
        assert(at(b, r, col).narrows_to(at(c, r, col)));
    }
}

/// A narrowed board stays a narrowing when one of its cells is fixed to a
/// digit that the cell listed at the start.
pub proof fn lemma_narrows_fix(a: Board, b: Board, r: int, c: int, d: u8)
    requires
        is_board(b),
        in_range(r),
        in_range(c),
        narrows(a, b),
        at(a, r, c).lists(d),
    ensures
        narrows(a, put(b, r, c, CellView::Fixed(d))),
{
    lemma_put(b, r, c, CellView::Fixed(d));
    assert forall|r2: int, c2: int| in_range(r2) && in_range(c2) implies (#[trigger] at(
        a,
        r2,
        c2,
    )).narrows_to(at(put(b, r, c, CellView::Fixed(d)), r2, c2)) by {
        assert(at(a, r2, c2).narrows_to(at(b, r2, c2)));
    }
}

/// A narrowing keeps every fixed cell fixed.
pub proof fn lemma_narrows_keeps_fixed(a: Board, b: Board)
    requires
        narrows(a, b),
    ensures
        keeps_fixed(a, b),
{
    assert forall|r: int, c: int| in_range(r) && in_range(c) && (#[trigger] at(a, r, c))
        is Fixed implies at(b, r, c) is Fixed by {
        assert(at(a, r, c).narrows_to(at(b, r, c)));
    }
}

/// Among the first `k` cells, fixing cells never raises the number of unfixed
/// cells, and fixing one of them that was unfixed lowers it.
proof fn lemma_open_upto(before: Board, after: Board, k: int)
    requires
        0 <= k <= 81,
        keeps_fixed(before, after),
    ensures
        open_upto(after, k) <= open_upto(before, k),
        forall|r: int, c: int|
            in_range(r) && in_range(c) && (r - 1) * 9 + (c - 1) < k && !(at(before, r, c) is Fixed)
                && at(after, r, c) is Fixed ==> open_upto(after, k) < open_upto(before, k),
    decreases k,
{
    if k > 0 {
        lemma_open_upto(before, after, k - 1);
        let r0 = (k - 1) / 9 + 1;
        let c0 = (k - 1) % 9 + 1;
        assert(in_range(r0) && in_range(c0));
        assert(at(before, r0, c0) is Fixed ==> at(after, r0, c0) is Fixed);
        assert forall|r: int, c: int|
            in_range(r) && in_range(c) && (r - 1) * 9 + (c - 1) < k && !(at(before, r, c) is Fixed)
                && at(after, r, c) is Fixed implies open_upto(after, k) < open_upto(before, k) by {
            if (r - 1) * 9 + (c - 1) == k - 1 {
                assert(r == r0 && c == c0);
            }
        }
    }
}

/// Fixing cells never raises the number of unfixed cells.
pub proof fn lemma_open_cells_le(before: Board, after: Board)
    requires
        keeps_fixed(before, after),
    ensures
        open_cells(after) <= open_cells(before),
{
    lemma_open_upto(before, after, 81);
}

/// Fixing a cell that was unfixed lowers the number of unfixed cells.
pub proof fn lemma_open_cells_lt(before: Board, after: Board, r: int, c: int)
    requires
        keeps_fixed(before, after),
        in_range(r),
        in_range(c),
        !(at(before, r, c) is Fixed),
        at(after, r, c) is Fixed,
    ensures
        open_cells(after) < open_cells(before),
{
    lemma_open_upto(before, after, 81);
}

} // verus!
