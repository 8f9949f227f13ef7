use std::collections::BTreeSet;
use vstd::prelude::*;

verus! {

/// What striking a candidate from a cell reports.
#[derive(Clone, Copy, Debug, PartialEq, Eq)]
pub enum Removal {
    /// The candidate was struck and a single one was left: the cell is now
    /// fixed to it.
    Fixed(u8),
    /// The candidate was struck, and the cell is not fixed.
    Removed,
    /// The cell is fixed already, or did not list the candidate.
    NotFound,
}

/// The mathematical content of a [`Cell`]: a fixed digit, or the set of digits
/// that are still possible.
#[verifier::ext_equal]
pub ghost enum CellView {
    Fixed(u8),
    Candidates(Set<u8>),
}

impl CellView {
    /// `d` is the fixed digit, or one of the remaining candidates.
    pub open spec fn allows(self, d: u8) -> bool {
        match self {
            CellView::Fixed(v) => v == d,
            CellView::Candidates(ps) => ps.contains(d),
        }
    }

    /// `d` is a live candidate of an unfixed cell.
    pub open spec fn lists(self, d: u8) -> bool {
        self matches CellView::Candidates(ps) && ps.contains(d)
    }

    /// A fixed cell holds a digit from 1 to 9. An unfixed cell holds candidates
    /// from 1 to 9, and never exactly one of them: a single candidate is a
    /// fixed value.
    pub open spec fn wf(self) -> bool {
        match self {
            CellView::Fixed(v) => 1 <= v <= 9,
            CellView::Candidates(ps) => {
                &&& ps.finite()
                &&& ps.len() != 1
                &&& forall|d: u8| ps.contains(d) ==> 1 <= d <= 9
            },
        }
    }

    /// What may become of a cell while a board is solved: a fixed cell stays as
    /// it is, and an unfixed cell loses candidates or is fixed to one of them.
    pub open spec fn narrows_to(self, after: CellView) -> bool {
        &&& self is Fixed ==> after == self
        &&& forall|d: u8| after.allows(d) ==> self.allows(d)
    }

    /// The cell after `value` has been struck from its candidates: a fixed cell
    /// is untouched, and an unfixed cell left with one candidate is fixed to
    /// it.
    pub open spec fn without(self, value: u8) -> CellView {
        match self {
            CellView::Fixed(_) => self,
            CellView::Candidates(ps) => if !ps.contains(value) {
                self
            } else if ps.remove(value).len() == 1 {
                CellView::Fixed(ps.remove(value).choose())
            } else {
                CellView::Candidates(ps.remove(value))
            },
        }
    }

    /// What striking `value` from the candidates reports.
    pub open spec fn removal(self, value: u8) -> Removal {
        match self {
            CellView::Fixed(_) => Removal::NotFound,
            CellView::Candidates(ps) => if !ps.contains(value) {
                Removal::NotFound
            } else if ps.remove(value).len() == 1 {
                Removal::Fixed(ps.remove(value).choose())
            } else {
                Removal::Removed
            },
        }
    }
}

/// The candidates of a fresh cell: every digit from 1 to 9.
pub open spec fn all_digits() -> Set<u8> {
    Set::new(|d: u8| 1 <= d <= 9)
}

/// The solving state of one cell of the grid.
#[derive(Debug, PartialEq, Eq, PartialOrd, Ord)]
pub enum Cell {
    /// The cell is fixed to this digit.
    Value(u8),
    /// The cell is not fixed, and these digits are still possible for it. An
    /// empty set means that the board has no solution.
    Possibilities(BTreeSet<u8>),
}

impl View for Cell {
    type V = CellView;

    open spec fn view(&self) -> CellView {
        match self {
            Cell::Value(v) => CellView::Fixed(*v),
            Cell::Possibilities(ps) => CellView::Candidates(ps@),
        }
    }
}

impl Clone for Cell {
    fn clone(&self) -> (res: Cell)
        ensures
            res@ == self@,
    {
        match self {
            Cell::Value(v) => Cell::Value(*v),
            Cell::Possibilities(ps) => Cell::Possibilities(ps.clone()),
        }
    }
}

impl Default for Cell {
    /// A cell for which every digit is still possible.
    fn default() -> (cell: Cell)
        ensures
            cell@ == CellView::Candidates(all_digits()),
    {
        let mut ps = BTreeSet::new();
        for d in 1..10u8
            invariant
                ps@ == Set::new(|x: u8| 1 <= x < d),
        {
            ps.insert(d);
        }
        Cell::Possibilities(ps)
    }
}

impl Cell {
    /// Strikes `value` from the candidates of the cell. A cell that is left
    /// with a single candidate becomes fixed to it. A fixed cell is left as it
    /// is.
    pub fn remove_possibility(&mut self, value: u8) -> (res: Removal)
        ensures
            final(self)@ == old(self)@.without(value),
            res == old(self)@.removal(value),
    {
        let ps = match self {
            Cell::Value(_) => return Removal::NotFound,
            Cell::Possibilities(p) => p,
        };
        if !ps.contains(&value) {
            return Removal::NotFound;
        }
        ps.remove(&value);
        if ps.len() == 1 {
            let mut only: u8 = 0;
            for p in it: ps.iter()
                invariant
                    it.index() > 0 ==> ps@.contains(only),
            {
                only = *p;
            }
            assert(ps@.contains(only));
            *self = Cell::Value(only);
            return Removal::Fixed(only);
        }
        Removal::Removed
    }
}

/// The nine digits are a finite set of nine.
pub proof fn lemma_all_digits()
    ensures
        all_digits().finite(),
        all_digits().len() == 9,
{
    let s = Set::<u8>::empty().insert(1).insert(2).insert(3).insert(4).insert(5).insert(6).insert(
        7,
    ).insert(8).insert(9);
    assert(s =~= all_digits());
}

/// Striking a candidate keeps a cell well formed and narrows it, takes nothing
/// but `value` from what the cell allows, and fixes the cell exactly when it
/// reports so.
pub proof fn lemma_without(cell: CellView, value: u8)
    requires
        cell.wf(),
    ensures
        cell.without(value).wf(),
        cell.narrows_to(cell.without(value)),
        !cell.without(value).lists(value),
        forall|d: u8| cell.allows(d) && d != value ==> cell.without(value).allows(d),
        cell.removal(value) is Fixed <==> cell is Candidates && cell.without(value) is Fixed,
        cell.removal(value) matches Removal::Fixed(w) ==> cell.without(value) == CellView::Fixed(w),
{
    if let CellView::Candidates(ps) = cell {
        if ps.contains(value) {
            let qs = ps.remove(value);
            if qs.len() == 1 {
                let w = qs.choose();
                assert(qs.contains(w));
                assert(qs.remove(w).len() == 0);
                assert forall|d: u8| cell.allows(d) && d != value implies cell.without(
                    value,
                ).allows(d) by {
                    if d != w {
                        assert(qs.remove(w).contains(d));
                    }
                }
            }
        }
    }
}

} // verus!
