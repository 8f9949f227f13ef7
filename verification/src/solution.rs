use crate::board::{at, board_wf, lemma_put, member, narrows, with_fixed, Board};
use crate::cell::CellView;
use crate::subarray::{
    group_cell, group_of, in_range, lemma_group_cell_covers, lemma_group_cell_inverse, offset_of,
    peers, GroupKind,
};
use crate::sudoku::{digit_at, Digits};
use vstd::prelude::*;
use vstd::set_lib::{lemma_int_range, lemma_len_subset, set_int_range};

verus! {

/// Nine rows of nine digits from 1 to 9: no blank is left.
pub open spec fn is_complete(g: Digits) -> bool {
    &&& g.len() == 9
    &&& forall|i: int| 0 <= i < 9 ==> (#[trigger] g[i]).len() == 9
    &&& forall|r: int, c: int| in_range(r) && in_range(c) ==> 1 <= #[trigger] digit_at(g, r, c) <= 9
}

/// The digit of the member at `offset` of the given group.
pub open spec fn digit_member(g: Digits, kind: GroupKind, group: int, offset: int) -> u8 {
    digit_at(g, group_cell(kind, group, offset).0, group_cell(kind, group, offset).1)
}

/// No row, column or square holds a digit twice.
pub open spec fn no_clash(g: Digits) -> bool {
    forall|kind: GroupKind, group: int, o1: int, o2: int|
        in_range(group) && in_range(o1) && in_range(o2) && o1 != o2 ==> #[trigger] digit_member(
            g,
            kind,
            group,
            o1,
        ) != #[trigger] digit_member(g, kind, group, o2)
}

/// Every digit of `g` is the fixed value or a candidate of its cell of `b`.
pub open spec fn fits(g: Digits, b: Board) -> bool {
    forall|r: int, c: int|
        in_range(r) && in_range(c) ==> (#[trigger] at(b, r, c)).allows(digit_at(g, r, c))
}

/// `g` is a solution of the board `b`: a full grid without a clash that the
/// cells of `b` allow.
pub open spec fn solves(g: Digits, b: Board) -> bool {
    &&& is_complete(g)
    &&& no_clash(g)
    &&& fits(g, b)
}

/// A solution of a narrowed board is a solution of the board it came from.
pub proof fn lemma_narrows_solves(before: Board, after: Board, g: Digits)
    requires
        narrows(before, after),
        solves(g, after),
    ensures
        solves(g, before),
{
    assert forall|r: int, c: int| in_range(r) && in_range(c) implies (#[trigger] at(
        before,
        r,
        c,
    )).allows(digit_at(g, r, c)) by {
        assert(at(before, r, c).narrows_to(at(after, r, c)));
        assert(at(after, r, c).allows(digit_at(g, r, c)));
    }
}

/// In a grid without a clash, two cells that share a group differ.
pub proof fn lemma_peers_differ(g: Digits, r1: int, c1: int, r2: int, c2: int)
    requires
        no_clash(g),
        in_range(r1),
        in_range(c1),
        in_range(r2),
        in_range(c2),
        peers(r1, c1, r2, c2),
    ensures
        digit_at(g, r1, c1) != digit_at(g, r2, c2),
{
    let kind = if r1 == r2 {
        GroupKind::Row
    } else if c1 == c2 {
        GroupKind::Column
    } else {
        GroupKind::Square
    };
    let group = group_of(kind, r1, c1);
    assert(group == group_of(kind, r2, c2));
    lemma_group_cell_covers(kind, r1, c1);
    lemma_group_cell_covers(kind, r2, c2);
    let o1 = offset_of(kind, r1, c1);
    let o2 = offset_of(kind, r2, c2);
    assert(o1 != o2);
    assert(digit_member(g, kind, group, o1) != digit_member(g, kind, group, o2));
}

/// `g` completes the puzzle: a full grid without a clash that keeps every digit
/// the puzzle gives.
pub open spec fn completes(g: Digits, puzzle: Digits) -> bool {
    &&& is_complete(g)
    &&& no_clash(g)
    &&& forall|r: int, c: int|
        in_range(r) && in_range(c) && #[trigger] digit_at(puzzle, r, c) != 0 ==> digit_at(g, r, c)
            == digit_at(puzzle, r, c)
}

/// In a full grid without a clash every group holds every digit.
pub proof fn lemma_group_holds_digit(g: Digits, kind: GroupKind, group: int, d: u8)
    requires
        is_complete(g),
        no_clash(g),
        in_range(group),
        1 <= d <= 9,
    ensures
        exists|o: int| in_range(o) && #[trigger] digit_member(g, kind, group, o) == d,
{
    if !exists|o: int| in_range(o) && #[trigger] digit_member(g, kind, group, o) == d {
        let s = Seq::new(9, |i: int| digit_member(g, kind, group, i + 1) as int);
        assert forall|i: int, j: int| 0 <= i < s.len() && 0 <= j < s.len() && i != j implies s[i]
            != s[j] by {
            assert(digit_member(g, kind, group, i + 1) != digit_member(g, kind, group, j + 1));
        }
        s.unique_seq_to_set();
        let rest = set_int_range(1, 10).remove(d as int);
        lemma_int_range(1, 10);
        assert forall|x: int| s.to_set().contains(x) implies rest.contains(x) by {
            let i = choose|i: int| 0 <= i < s.len() && s[i] == x;
            lemma_group_cell_inverse(kind, group, i + 1);
            let (r, c) = group_cell(kind, group, i + 1);
            assert(1 <= digit_at(g, r, c) <= 9);
            assert(in_range(i + 1) && digit_member(g, kind, group, i + 1) == x);
        }
        lemma_len_subset(s.to_set(), rest);
        assert(false);
    }
}

/// The member at offset `o` is the only one of its group that allows `d`, and
/// it is not fixed yet.
pub open spec fn hidden_single(b: Board, kind: GroupKind, group: int, d: u8, o: int) -> bool {
    &&& in_range(o)
    &&& member(b, kind, group, o).lists(d)
    &&& forall|o2: int|
        in_range(o2) && o2 != o ==> !(#[trigger] member(b, kind, group, o2)).allows(d)
}

/// A digit has its single open place at one offset only.
pub proof fn lemma_hidden_single_unique(
    b: Board,
    kind: GroupKind,
    group: int,
    d: u8,
    o1: int,
    o2: int,
)
    requires
        hidden_single(b, kind, group, d, o1),
        hidden_single(b, kind, group, d, o2),
    ensures
        o1 == o2,
{
    if o1 != o2 {
        assert(!member(b, kind, group, o2).allows(d));
    }
}

/// No digit has a single open place left in the given group.
pub open spec fn group_settled(b: Board, kind: GroupKind, group: int) -> bool {
    forall|d: u8, o: int| 1 <= d <= 9 ==> !#[trigger] hidden_single(b, kind, group, d, o)
}

/// No digit has a single open place left in any group: there is nothing more
/// that placing such digits could fix.
pub open spec fn settled(b: Board) -> bool {
    forall|kind: GroupKind, group: int| in_range(group) ==> #[trigger] group_settled(b, kind, group)
}

/// What an elimination pass makes of a board: a well-formed, settled board
/// that has come from it by narrowing and has the same solutions. Of a settled
/// board it makes that board.
pub open spec fn elimination_of(before: Board, after: Board) -> bool {
    &&& board_wf(after)
    &&& settled(after)
    &&& settled(before) ==> after == before
    &&& narrows(before, after)
    &&& forall|t: Digits|
        #![trigger solves(t, before)]
        #![trigger solves(t, after)]
        solves(t, before) <==> solves(t, after)
}

/// Where a digit has a single open place left in a group, every solution of
/// the board holds it there.
pub proof fn lemma_hidden_single(b: Board, kind: GroupKind, group: int, d: u8, o: int, g: Digits)
    requires
        in_range(group),
        1 <= d <= 9,
        hidden_single(b, kind, group, d, o),
        solves(g, b),
    ensures
        digit_member(g, kind, group, o) == d,
{
    reveal(member);
    lemma_group_holds_digit(g, kind, group, d);
    let o2 = choose|o2: int| in_range(o2) && #[trigger] digit_member(g, kind, group, o2) == d;
    lemma_group_cell_inverse(kind, group, o2);
    let (r, c) = group_cell(kind, group, o2);
    assert(at(b, r, c).allows(digit_at(g, r, c)));
    assert(member(b, kind, group, o2).allows(d));
}

/// The solutions of a board on which one cell is fixed to a digit that it
/// allows are the solutions of the board that hold that digit there.
pub proof fn lemma_branch(b: Board, r: int, c: int, p: u8, t: Digits)
    requires
        board_wf(b),
        in_range(r),
        in_range(c),
        at(b, r, c).allows(p),
    ensures
        solves(t, with_fixed(b, r, c, p)) <==> solves(t, b) && digit_at(t, r, c) == p,
{
    let b2 = with_fixed(b, r, c, p);
    lemma_put(b, r, c, CellView::Fixed(p));
    if solves(t, b2) {
        assert(at(b2, r, c).allows(digit_at(t, r, c)));
        assert forall|r2: int, c2: int| in_range(r2) && in_range(c2) implies (#[trigger] at(
            b,
            r2,
            c2,
        )).allows(digit_at(t, r2, c2)) by {
            assert(at(b2, r2, c2).allows(digit_at(t, r2, c2)));
        }
    }
    if solves(t, b) && digit_at(t, r, c) == p {
        assert forall|r2: int, c2: int| in_range(r2) && in_range(c2) implies (#[trigger] at(
            b2,
            r2,
            c2,
        )).allows(digit_at(t, r2, c2)) by {
            assert(at(b, r2, c2).allows(digit_at(t, r2, c2)));
        }
    }
}

} // verus!
