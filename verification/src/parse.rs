
use crate::sudoku::{digit_at, is_grid, lemma_with_digit, Digits, Sudoku};
use vstd::prelude::*;

verus! {

/// Why a text is not a puzzle.
#[derive(Clone, Copy, Debug, PartialEq, Eq)]
pub enum ParseError {
    /// A line holds more than nine entries, or a tenth line holds one.
    TooManyCharacters,
    /// A line holds fewer than nine entries.
    TooFewCharacters,
    /// The text ends before the ninth line.
    TooFewRows,
}

/// The byte that ends a line.
pub const NEWLINE: u8 = 10;

/// The entry that a byte stands for: the digits `1` to `9` stand for
/// themselves, and `0`, `-` and `x` stand for a blank. Any other byte stands
/// for nothing and is passed over.
pub open spec fn recognized(b: u8) -> Option<u8> {
    if 0x31 <= b <= 0x39 {
        Some((b - 0x30) as u8)
    } else if b == 0x30 || b == 0x2d || b == 0x78 {
        Some(0u8)
    } else {
        None
    }
}

/// The entries of a line, in order.
pub open spec fn line_digits(line: Seq<u8>) -> Seq<u8>
    decreases line.len(),
{
    if line.len() == 0 {
        Seq::empty()
    } else {
        match recognized(line.last()) {
            Some(d) => line_digits(line.drop_last()).push(d),
            None => line_digits(line.drop_last()),
        }
    }
}

/// The number of bytes before the first line end, or before the end of the
/// text where no line end is left.
pub open spec fn first_line_len(text: Seq<u8>) -> int
    decreases text.len(),
{
    if text.len() == 0 || text[0] == NEWLINE {
        0
    } else {
        1 + first_line_len(text.skip(1))
    }
}

/// The first line is no longer than the text.
pub proof fn lemma_first_line_len(text: Seq<u8>)
    ensures
        0 <= first_line_len(text) <= text.len(),
        forall|i: int| 0 <= i < first_line_len(text) ==> text[i] != NEWLINE,
        first_line_len(text) < text.len() ==> text[first_line_len(text)] == NEWLINE,
    decreases text.len(),
{
    if !(text.len() == 0 || text[0] == NEWLINE) {
        let rest = text.skip(1);
        lemma_first_line_len(rest);
        assert forall|i: int| 0 <= i < first_line_len(text) implies text[i] != NEWLINE by {
            if i > 0 {
                assert(rest[i - 1] == text[i]);
            }
        }
        if first_line_len(text) < text.len() {
            assert(rest[first_line_len(rest)] == text[first_line_len(text)]);
        }
    }
}

/// What is left of a text after its first line and the byte that ends it.
pub open spec fn after_first_line(text: Seq<u8>) -> Seq<u8> {
    if first_line_len(text) < text.len() {
        text.skip(first_line_len(text) + 1)
    } else {
        text.skip(first_line_len(text))
    }
}

/// The lines of a text, without the bytes that end them. A text that ends
/// with a line end has no empty line after it.
pub open spec fn lines(text: Seq<u8>) -> Seq<Seq<u8>>
    decreases text.len(),
{
    if text.len() == 0 {
        Seq::empty()
    } else {
        proof {
            lemma_first_line_len(text);
        }
        seq![text.take(first_line_len(text))] + lines(after_first_line(text))
    }
}

/// What is wrong with line number `k`, counted from 0, given its entries.
pub open spec fn line_fault(k: int, entries: Seq<u8>) -> Option<ParseError> {
    if k >= 9 {
        if entries.len() >= 1 {
            Some(ParseError::TooManyCharacters)
        } else {
            Some(ParseError::TooFewCharacters)
        }
    } else if entries.len() > 9 {
        Some(ParseError::TooManyCharacters)
    } else if entries.len() < 9 {
        Some(ParseError::TooFewCharacters)
    } else {
        None
    }
}

/// The fault of the first faulty line among the first `n` lines.
pub open spec fn first_fault(ls: Seq<Seq<u8>>, n: int) -> Option<ParseError>
    decreases n,
{
    if n <= 0 {
        None
    } else {
        match first_fault(ls, n - 1) {
            Some(e) => Some(e),
            None => line_fault(n - 1, line_digits(ls[n - 1])),
        }
    }
}

/// The puzzle that a text holds: nine lines of nine entries each. The first
/// line that holds too many or too few entries decides the error; a tenth
/// line is always faulty. A text without a faulty line and with fewer than
/// nine lines has too few rows.
pub open spec fn parse_spec(text: Seq<u8>) -> Result<Digits, ParseError> {
    let ls = lines(text);
    match first_fault(ls, ls.len() as int) {
        Some(e) => Err(e),
        None => if ls.len() < 9 {
            Err(ParseError::TooFewRows)
        } else {
            Ok(Seq::new(9, |k: int| line_digits(ls[k])))
        },
    }
}

/// A line holds at least as many entries as any of its beginnings.
proof fn lemma_line_digits_take(line: Seq<u8>, n: int)
    requires
        0 <= n <= line.len(),
    ensures
        line_digits(line.take(n)).len() <= line_digits(line).len(),
    decreases line.len() - n,
{
    if n < line.len() {
        lemma_line_digits_take(line, n + 1);
        assert(line.take(n + 1).drop_last() =~= line.take(n));
    } else {
        assert(line.take(n) =~= line);
    }
}

/// A text whose first `n` bytes end no line has a first line of `n` bytes or
/// more, and of exactly `n` where the text ends there or a line end follows.
proof fn lemma_first_line_at_least(text: Seq<u8>, n: int)
    requires
        0 <= n <= text.len(),
        forall|i: int| 0 <= i < n ==> text[i] != NEWLINE,
    ensures
        first_line_len(text) >= n,
        n == text.len() || text[n] == NEWLINE ==> first_line_len(text) == n,
    decreases n,
{
    lemma_first_line_len(text);
    if n > 0 {
        let rest = text.skip(1);
        assert(text[0] != NEWLINE);
        assert forall|i: int| 0 <= i < n - 1 implies rest[i] != NEWLINE by {
            assert(rest[i] == text[i + 1]);
        }
        if n < text.len() {
            assert(rest[n - 1] == text[n]);
        }
        lemma_first_line_at_least(rest, n - 1);
    }
}

/// Once a line is faulty and none before it is, its fault is the first one,
/// however many lines follow.
proof fn lemma_first_fault_found(ls: Seq<Seq<u8>>, k: int, n: int, e: ParseError)
    requires
        0 <= k < n,
        first_fault(ls, k) is None,
        line_fault(k, line_digits(ls[k])) == Some(e),
    ensures
        first_fault(ls, n) == Some(e),
    decreases n,
{
    if n > k + 1 {
        lemma_first_fault_found(ls, k, n - 1, e);
    }
}

/// Lines that follow the first `n` do not change the first fault among them.
proof fn lemma_first_fault_prefix(a: Seq<Seq<u8>>, b: Seq<Seq<u8>>, n: int)
    requires
        0 <= n <= a.len(),
        n <= b.len(),
        forall|k: int| 0 <= k < n ==> a[k] == b[k],
    ensures
        first_fault(a, n) == first_fault(b, n),
    decreases n,
{
    if n > 0 {
        lemma_first_fault_prefix(a, b, n - 1);
    }
}

/// The entry that a byte stands for, if any.
pub fn recognize(b: u8) -> (entry: Option<u8>)
    ensures
        entry == recognized(b),
{
    if 0x31 <= b && b <= 0x39 {
        Some(b - 0x30)
    } else if b == 0x30 || b == 0x2d || b == 0x78 {
        Some(0)
    } else {
        None
    }
}

impl Sudoku {
    /// Reads a puzzle from a text of nine lines with nine entries each.
    pub fn parse(input: &[u8]) -> (res: Result<Sudoku, ParseError>)
        ensures
            match res {
                Ok(s) => parse_spec(input@) == Ok::<Digits, ParseError>(s@),
                Err(e) => parse_spec(input@) == Err::<Digits, ParseError>(e),
            },
    {
        let mut s = Sudoku::empty();
        let mut rix: u8 = 0;
        let mut start: usize = 0;
        let ghost mut done: Seq<Seq<u8>> = Seq::empty();
        assert(lines(input@) == done + lines(input@.skip(0))) by {
            assert(input@.skip(0) =~= input@);
            assert(done + lines(input@) =~= lines(input@));
        }
        while start < input.len()
            invariant
                start <= input.len(),
                rix <= 9,
                is_grid(s@),
                done.len() == rix,
                lines(input@) == done + lines(input@.skip(start as int)),
                first_fault(done, rix as int) is None,
                forall|k: int| 0 <= k < rix ==> (#[trigger] line_digits(done[k])).len() == 9,
                forall|k: int, c: int|
                    0 <= k < rix && 0 <= c < 9 ==> #[trigger] digit_at(s@, k + 1, c + 1)
                        == line_digits(done[k])[c],
            decreases input.len() - start,
        {
            let ghost rest = input@.skip(start as int);
            let mut cix: u8 = 0;
            let mut j: usize = start;
            while j < input.len() && input[j] != NEWLINE
                invariant
                    start <= j <= input.len(),
                    start < input.len(),
                    rix <= 9,
                    cix <= 9,
                    rix == 9 ==> cix == 0,
                    is_grid(s@),
                    done.len() == rix,
                    rest == input@.skip(start as int),
                    lines(input@) == done + lines(rest),
                    first_fault(done, rix as int) is None,
                    forall|i: int| start <= i < j ==> input@[i] != NEWLINE,
                    cix == line_digits(input@.subrange(start as int, j as int)).len(),
                    forall|c: int|
                        0 <= c < cix ==> #[trigger] digit_at(s@, rix + 1, c + 1) == line_digits(
                            input@.subrange(start as int, j as int),
                        )[c],
                    forall|k: int| 0 <= k < rix ==> (#[trigger] line_digits(done[k])).len() == 9,
                    forall|k: int, c: int|
                        0 <= k < rix && 0 <= c < 9 ==> #[trigger] digit_at(s@, k + 1, c + 1)
                            == line_digits(done[k])[c],
                decreases input.len() - j,
            {
                let ghost seen = input@.subrange(start as int, j as int);
                let ghost next = input@.subrange(start as int, j + 1);
                assert(next.drop_last() =~= seen);
                assert(next.last() == input@[j as int]);
                match recognize(input[j]) {
                    Some(d) => {
                        if cix >= 9 || rix >= 9 {
                            proof {
                                let n = j + 1 - start;
                                assert forall|i: int| 0 <= i < n implies rest[i] != NEWLINE by {
                                    assert(rest[i] == input@[start + i]);
                                }
                                lemma_first_line_at_least(rest, n);
                                lemma_first_line_len(rest);
                                let line = rest.take(first_line_len(rest));
                                lemma_line_digits_take(line, n);
                                assert(line.take(n) =~= next);
                                let ls = lines(input@);
                                assert(ls[rix as int] == line);
                                lemma_first_fault_prefix(done, ls, rix as int);
                                lemma_first_fault_found(
                                    ls,
                                    rix as int,
                                    ls.len() as int,
                                    ParseError::TooManyCharacters,
                                );
                            }
                            return Err(ParseError::TooManyCharacters);
                        }
                        proof {
                            lemma_with_digit(s@, rix + 1, cix + 1, d);
                        }
                        s.set(rix + 1, cix + 1, d);
                        cix += 1;
                    },
                    None => {},
                }
                j += 1;
            }
            let ghost line = input@.subrange(start as int, j as int);
            proof {
                let n = j - start;
                assert forall|i: int| 0 <= i < n implies rest[i] != NEWLINE by {
                    assert(rest[i] == input@[start + i]);
                }
                if j < input.len() {
                    assert(rest[n] == input@[j as int]);
                }
                lemma_first_line_at_least(rest, n);
                assert(rest.take(n) =~= line);
                assert(lines(input@) == done.push(line) + lines(after_first_line(rest))) by {
                    assert(done + (seq![line] + lines(after_first_line(rest))) =~= done.push(line)
                        + lines(after_first_line(rest)));
                }
            }
            if cix < 9 {
                proof {
                    let ls = lines(input@);
                    assert(ls[rix as int] == line);
                    lemma_first_fault_prefix(done, ls, rix as int);
                    lemma_first_fault_found(
                        ls,
                        rix as int,
                        ls.len() as int,
                        ParseError::TooFewCharacters,
                    );
                }
                return Err(ParseError::TooFewCharacters);
            }
            proof {
                lemma_first_fault_prefix(done, done.push(line), rix as int);
                if j < input.len() {
                    assert(after_first_line(rest) =~= input@.skip(j + 1));
                } else {
                    assert(after_first_line(rest) =~= input@.skip(j as int));
                }
                done = done.push(line);
            }
            rix += 1;
            start = if j < input.len() {
                j + 1
            } else {
                j
            };
        }
        proof {
            assert(input@.skip(start as int).len() == 0);
            assert(lines(input@) =~= done);
        }
        if rix < 9 {
            return Err(ParseError::TooFewRows);
        }
        assert(s@ =~~= Seq::new(9, |k: int| line_digits(done[k]))) by {
            assert forall|k: int, c: int| 0 <= k < 9 && 0 <= c < 9 implies s@[k][c] == line_digits(
                done[k],
            )[c] by {
                assert(digit_at(s@, k + 1, c + 1) == line_digits(done[k])[c]);
            }
        }
        Ok(s)
    }
}

} // verus!
