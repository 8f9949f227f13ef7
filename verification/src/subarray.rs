use vstd::prelude::*;

verus! {

/// The three kinds of constraint group.
#[derive(Clone, Copy, PartialEq, Eq, Debug)]
pub enum GroupKind {
    Row,
    Column,
    Square,
}

/// A row, column, square or offset number: all of them run from 1 to 9.
pub open spec fn in_range(n: int) -> bool {
    1 <= n <= 9
}

/// The square that holds the cell in row `r` and column `c`.
pub open spec fn square_of(r: int, c: int) -> int {
    ((r - 1) / 3) * 3 + (c - 1) / 3 + 1
}

/// The place of the cell in row `r` and column `c` inside its square, counted
/// row by row.
pub open spec fn offset_in_square(r: int, c: int) -> int {
    ((r - 1) % 3) * 3 + (c - 1) % 3 + 1
}

/// Row and column of the member at `offset` in the given group.
pub open spec fn group_cell(kind: GroupKind, group: int, offset: int) -> (int, int) {
    match kind {
        GroupKind::Row => (group, offset),
        GroupKind::Column => (offset, group),
        GroupKind::Square => (
            ((group - 1) / 3) * 3 + (offset - 1) / 3 + 1,
            ((group - 1) % 3) * 3 + (offset - 1) % 3 + 1,
        ),
    }
}

/// The group of the given kind that holds the cell in row `r` and column `c`.
pub open spec fn group_of(kind: GroupKind, r: int, c: int) -> int {
    match kind {
        GroupKind::Row => r,
        GroupKind::Column => c,
        GroupKind::Square => square_of(r, c),
    }
}

/// The offset of the cell in row `r` and column `c` inside its group of the
/// given kind.
pub open spec fn offset_of(kind: GroupKind, r: int, c: int) -> int {
    match kind {
        GroupKind::Row => c,
        GroupKind::Column => r,
        GroupKind::Square => offset_in_square(r, c),
    }
}

/// Two cells share a row, a column or a square.
pub open spec fn same_group(r1: int, c1: int, r2: int, c2: int) -> bool {
    r1 == r2 || c1 == c2 || square_of(r1, c1) == square_of(r2, c2)
}

/// Two different cells that share a row, a column or a square.
pub open spec fn peers(r1: int, c1: int, r2: int, c2: int) -> bool {
    same_group(r1, c1, r2, c2) && !(r1 == r2 && c1 == c2)
}

/// Mapping a square and an offset to a cell, and taking the square and the
/// offset of that cell again, gives back the square and the offset.
pub proof fn lemma_square_mapping_inverse(b: int, o: int)
    requires
        in_range(b),
        in_range(o),
    ensures
        ({
            let (r, c) = group_cell(GroupKind::Square, b, o);
            in_range(r) && in_range(c) && square_of(r, c) == b && offset_in_square(r, c) == o
        }),
{
}

/// A row maps its offset to the column, a column maps its offset to the row.
pub proof fn lemma_row_column_mapping(g: int, o: int)
    ensures
        group_cell(GroupKind::Row, g, o) == (g, o),
        group_cell(GroupKind::Column, g, o) == (o, g),
{
}

/// In every kind of group, the member at an offset lies on the board, and its
/// group and offset are the ones it was reached by.
pub proof fn lemma_group_cell_inverse(kind: GroupKind, g: int, o: int)
    requires
        in_range(g),
        in_range(o),
    ensures
        ({
            let (r, c) = group_cell(kind, g, o);
            in_range(r) && in_range(c) && group_of(kind, r, c) == g && offset_of(kind, r, c) == o
        }),
{
}

/// Every cell of the board is the member of its own group at its own offset.
pub proof fn lemma_group_cell_covers(kind: GroupKind, r: int, c: int)
    requires
        in_range(r),
        in_range(c),
    ensures
        in_range(group_of(kind, r, c)),
        in_range(offset_of(kind, r, c)),
        group_cell(kind, group_of(kind, r, c), offset_of(kind, r, c)) == (r, c),
{
}

/// A handle on one of the 27 groups: it maps an offset inside the group to the
/// row and column of that member.
pub trait SubArray {
    /// Which kind of group this is.
    spec fn kind(&self) -> GroupKind;

    /// The number of the group among those of its kind.
    spec fn group(&self) -> int;

    /// The letter that names the kind of group.
    spec fn letter(&self) -> char;

    /// A one-letter name for the kind of group.
    fn name(&self) -> (s: &'static str)
        ensures
            s@ == seq![self.letter()],
    ;

    /// Row and column of the member at offset `index`, all counted from 1.
    fn matrix_index(&self, index: u8) -> (pos: (u8, u8))
        requires
            in_range(self.group()),
            in_range(index as int),
        ensures
            (pos.0 as int, pos.1 as int) == group_cell(self.kind(), self.group(), index as int),
            in_range(pos.0 as int),
            in_range(pos.1 as int),
    ;
}

/// The row with the number `index`. Its offsets are column numbers.
pub struct Row {
    pub index: u8,
}

impl SubArray for Row {
    open spec fn kind(&self) -> GroupKind {
        GroupKind::Row
    }

    open spec fn group(&self) -> int {
        self.index as int
    }

    open spec fn letter(&self) -> char {
        'R'
    }

    fn name(&self) -> (s: &'static str) {
        proof {
            reveal_strlit("R");
        }
        "R"
    }

    fn matrix_index(&self, index: u8) -> (pos: (u8, u8))
        ensures
            pos == (self.index, index),
    {
        (self.index, index)
    }
}

/// The column with the number `index`. Its offsets are row numbers.
pub struct Column {
    pub index: u8,
}

impl SubArray for Column {
    open spec fn kind(&self) -> GroupKind {
        GroupKind::Column
    }

    open spec fn group(&self) -> int {
        self.index as int
    }

    open spec fn letter(&self) -> char {
        'C'
    }

    fn name(&self) -> (s: &'static str) {
        proof {
            reveal_strlit("C");
        }
        "C"
    }

    fn matrix_index(&self, index: u8) -> (pos: (u8, u8))
        ensures
            pos == (index, self.index),
    {
        (index, self.index)
    }
}

/// The square with the number `index`. Squares and the offsets inside a square
/// are counted row by row.
pub struct Square {
    pub index: u8,
}

impl SubArray for Square {
    open spec fn kind(&self) -> GroupKind {
        GroupKind::Square
    }

    open spec fn group(&self) -> int {
        self.index as int
    }

    open spec fn letter(&self) -> char {
        'S'
    }

    fn name(&self) -> (s: &'static str) {
        proof {
            reveal_strlit("S");
        }
        "S"
    }

    fn matrix_index(&self, index: u8) -> (pos: (u8, u8))
        ensures
            square_of(pos.0 as int, pos.1 as int) == self.index,
            offset_in_square(pos.0 as int, pos.1 as int) == index,
    {
        let ii = (self.index - 1) / 3;
        let ij = (self.index - 1) % 3;
        let ji = (index - 1) / 3;
        let jj = (index - 1) % 3;
        assert(ii <= 2 && ij <= 2 && ji <= 2 && jj <= 2);
        assert(self.index - 1 == 3 * ii + ij && index - 1 == 3 * ji + jj);

        let pos = (ii * 3 + ji + 1, ij * 3 + jj + 1);
        assert((pos.0 - 1) / 3 == ii as int && (pos.0 - 1) % 3 == ji as int);
        assert((pos.1 - 1) / 3 == ij as int && (pos.1 - 1) % 3 == jj as int);
        pos
    }
}

} // verus!
