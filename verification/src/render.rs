use crate::parse::ParseError;
use crate::sudoku::{Digits, Sudoku};
use vstd::prelude::*;
use vstd::string::StringExecFns;

verus! {

/// The character that shows an entry: a space for a blank, the digit itself
/// otherwise.
pub open spec fn entry_char(d: u8) -> char {
    if d == 0 {
        ' '
    } else if d == 1 {
        '1'
    } else if d == 2 {
        '2'
    } else if d == 3 {
        '3'
    } else if d == 4 {
        '4'
    } else if d == 5 {
        '5'
    } else if d == 6 {
        '6'
    } else if d == 7 {
        '7'
    } else if d == 8 {
        '8'
    } else {
        '9'
    }
}

/// The grid as text: nine lines of nine characters, with a line end between
/// two lines and none after the last.
pub open spec fn text_of(g: Digits) -> Seq<char> {
    Seq::new(
        89,
        |i: int|
            if i % 10 == 9 {
                '\n'
            } else {
                entry_char(g[i / 10][i % 10])
            },
    )
}

/// The one-character text that shows an entry.
fn entry_str(d: u8) -> (s: &'static str)
    requires
        d <= 9,
    ensures
        s@ == seq![entry_char(d)],
{
    proof {
        reveal_strlit(" ");
        reveal_strlit("1");
        reveal_strlit("2");
        reveal_strlit("3");
        reveal_strlit("4");
        reveal_strlit("5");
        reveal_strlit("6");
        reveal_strlit("7");
        reveal_strlit("8");
        reveal_strlit("9");
    }
    match d {
        0 => " ",
        1 => "1",
        2 => "2",
        3 => "3",
        4 => "4",
        5 => "5",
        6 => "6",
        7 => "7",
        8 => "8",
        _ => "9",
    }
}

impl Sudoku {
    /// The grid as nine lines of nine characters, blanks shown as spaces.
    pub fn to_text(&self) -> (text: String)
        ensures
            text@ == text_of(self@),
    {
        let mut text = String::new();
        for rix in 1..10u8
            invariant
                text@.len() == if rix == 1 {
                    0
                } else {
                    10 * (rix - 1) - 1
                },
                forall|i: int| 0 <= i < text@.len() ==> text@[i] == text_of(self@)[i],
        {
            if rix > 1 {
                let ghost before = text@;
                proof {
                    reveal_strlit("\n");
                }
                text.append("\n");
                proof {
                    let i = 10 * (rix - 1) - 1;
                    assert(i % 10 == 9);
                    assert(text@[i] == '\n');
                    assert forall|k: int| 0 <= k < text@.len() implies text@[k] == text_of(
                        self@,
                    )[k] by {
                        if k < i {
                            assert(text@[k] == before[k]);
                        }
                    }
                }
            }
            for cix in 1..10u8
                invariant
                    1 <= rix <= 9,
                    text@.len() == 10 * (rix - 1) + (cix - 1),
                    forall|i: int| 0 <= i < text@.len() ==> text@[i] == text_of(self@)[i],
            {
                let d = self.get(rix, cix);
                let ghost before = text@;
                text.append(entry_str(d));
                proof {
                    let i = 10 * (rix - 1) + (cix - 1);
                    assert(i / 10 == rix - 1 && i % 10 == cix - 1);
                    assert(text@[i] == entry_char(d));
                    assert forall|k: int| 0 <= k < text@.len() implies text@[k] == text_of(
                        self@,
                    )[k] by {
                        if k < i {
                            assert(text@[k] == before[k]);
                        }
                    }
                }
            }
        }
        assert(text@ =~= text_of(self@));
        text
    }
}

impl ParseError {
    /// What went wrong, in words.
    pub fn message(&self) -> (text: &'static str)
        ensures
            text@ == match self {
                ParseError::TooManyCharacters => "Too many characters"@,
                ParseError::TooFewCharacters => "Too few characters"@,
                ParseError::TooFewRows => "Too few rows"@,
            },
    {
        match self {
            ParseError::TooManyCharacters => "Too many characters",
            ParseError::TooFewCharacters => "Too few characters",
            ParseError::TooFewRows => "Too few rows",
        }
    }
}

} // verus!
