//! Reading the text form of a puzzle.

use super::format::{
    cell_of_byte, cells_of_text, fault_at, first_bad, frame_byte, in_border, is_break_item,
    is_cell_item, item_fits, lemma_first_bad_from, lemma_item_of_cell, lemma_read_cell,
    lemma_read_frame, read_state, ErrorKind, Fault, BAR, CR, DASH, LF, LOWER_X, NINE, PLUS, SPACE,
    UNDERSCORE, UPPER_X, ZERO,
};
use super::number::Number;
use super::{is_filled, Sudoku};
use vstd::prelude::*;
use vstd::string::StringSliceAdditionalSpecFns;

verus! {

/// Where reading a text stopped, and why.
#[derive(Copy, Clone, Debug, PartialEq, Eq, Structural)]
pub struct ParseError {
    line_no: usize,
    col: usize,
    pos: usize,
    kind: ErrorKind,
}

impl View for ParseError {
    type V = Fault;

    /// The fault that the error reports.
    closed spec fn view(&self) -> Fault {
        Fault {
            line_no: self.line_no as int,
            col: self.col as int,
            pos: self.pos as int,
            kind: self.kind,
        }
    }
}

impl ParseError {
    /// The line in which reading stopped, counted from one.
    pub fn line_no(&self) -> (n: usize)
        ensures
            n == self@.line_no,
    {
        self.line_no
    }

    /// The place in that line at which reading stopped, counted from zero.
    pub fn column(&self) -> (n: usize)
        ensures
            n == self@.col,
    {
        self.col
    }

    /// The place in the whole text at which reading stopped, counted from
    /// zero.
    pub fn pos(&self) -> (n: usize)
        ensures
            n == self@.pos,
    {
        self.pos
    }

    /// What is wrong at that place.
    pub fn kind(&self) -> (kind: ErrorKind)
        ensures
            kind == self@.kind,
    {
        self.kind
    }
}

/// The error that reports the fault `f`.
pub open spec fn error_of(f: Fault) -> ParseError {
    choose|e: ParseError| e@ == f
}

/// Two errors that report the same fault are the same error.
pub proof fn lemma_same_error(a: ParseError, b: ParseError)
    requires
        a@ == b@,
    ensures
        a == b,
{
}

/// Whether `e` is the fault at the first item that the text `s` does not
/// hold.
pub open spec fn is_first_fault(s: Seq<u8>, e: ParseError) -> bool {
    first_bad(s, 0) < 181 && e@ == fault_at(s, first_bad(s, 0))
}

/// A reader that walks through the text of a puzzle, item by item.
pub struct SudokuParser<'a> {
    source: &'a [u8],
    line_no: usize,
    line_start: usize,
    pos: usize,
    idx: usize,
    grid: [Number; 81],
    solved: bool,
}

impl<'a> SudokuParser<'a> {
    /// The bytes that are read.
    pub closed spec fn text(&self) -> Seq<u8> {
        self.source@
    }

    /// The item that the reader stands at: fourteen for each line that is
    /// done, and one for each byte of the line that it is in.
    pub closed spec fn item(&self) -> int {
        14 * (self.line_no - 1) + (self.pos - self.line_start)
    }

    /// Whether the reader stands at the start of an item, with everything
    /// before that item read and found in order.
    pub closed spec fn wf(&self) -> bool {
        &&& 1 <= self.line_no <= 13
        &&& self.line_start <= self.pos <= self.line_start + 13
        &&& read_state(
            self.source@,
            self.item(),
            self.pos as int,
            self.idx as int,
            self.grid@,
            self.solved,
        )
    }

    /// The item of a reader tells its line and its place in the line.
    proof fn lemma_item(&self)
        requires
            1 <= self.line_no,
            self.line_start <= self.pos <= self.line_start + 13,
        ensures
            self.item() / 14 == self.line_no - 1,
            self.item() % 14 == self.pos - self.line_start,
    {
    }

    /// Whether the reader `next` is this reader after `n` more items of the
    /// same text.
    pub closed spec fn moved_to(&self, next: &Self, n: int) -> bool {
        next.wf() && next.source@ == self.source@ && next.item() == self.item() + n
    }

    /// A reader at the start of `source`.
    pub fn new(source: &'a str) -> (parser: Self)
        ensures
            parser.wf(),
            parser.item() == 0,
            parser.text() == source.spec_bytes(),
    {
        Self {
            source: source.as_bytes(),
            line_no: 1,
            line_start: 0,
            pos: 0,
            idx: 0,
            grid: [Number::Empty; 81],
            solved: true,
        }
    }

    /// The error of the given kind at the place where the reader stands.
    fn error(&self, kind: ErrorKind) -> (e: ParseError)
        requires
            self.line_start <= self.pos,
        ensures
            e@ == (Fault {
                line_no: self.line_no as int,
                col: self.pos - self.line_start,
                pos: self.pos as int,
                kind,
            }),
    {
        ParseError {
            line_no: self.line_no,
            col: self.pos - self.line_start,
            pos: self.pos,
            kind,
        }
    }

    /// The byte that the reader stands at.
    fn peek(&self) -> (b: u8)
        requires
            self.pos < self.source@.len(),
        ensures
            b == self.source@[self.pos as int],
    {
        self.source[self.pos]
    }

    /// Steps over the next byte if it is `c`, and says whether it did.
    fn matches(&mut self, c: u8) -> (hit: bool)
        requires
            old(self).pos <= old(self).source@.len(),
        ensures
            hit == (old(self).pos < old(self).source@.len() && old(self).source@[old(
                self,
            ).pos as int] == c),
            hit ==> final(self).pos == old(self).pos + 1,
            !hit ==> final(self).pos == old(self).pos,
            final(self).source == old(self).source,
            final(self).line_no == old(self).line_no,
            final(self).line_start == old(self).line_start,
            final(self).idx == old(self).idx,
            final(self).grid == old(self).grid,
            final(self).solved == old(self).solved,
    {
        if self.pos < self.source.len() && self.peek() == c {
            self.pos += 1;
            true
        } else {
            false
        }
    }

    /// Reads the byte `c` of the frame.
    fn expect(&mut self, c: u8) -> (r: Result<(), ParseError>)
        requires
            old(self).wf(),
            old(self).item() < 181,
            !is_break_item(old(self).item()),
            !is_cell_item(old(self).item()),
            c == frame_byte(old(self).item()),
        ensures
            r is Ok ==> old(self).moved_to(final(self), 1),
            r matches Err(e) ==> is_first_fault(old(self).text(), e),
    {
        proof {
            lemma_first_bad_from(self.source@, self.item());
            self.lemma_item();
        }
        if !self.matches(c) {
            if self.pos < self.source.len() {
                Err(self.error(ErrorKind::Expected { found: self.peek(), needed: c }))
            } else {
                Err(self.error(ErrorKind::UnexpectedEnd))
            }
        } else {
            proof {
                lemma_read_frame(
                    self.source@,
                    old(self).item(),
                    old(self).pos as int,
                    self.idx as int,
                    self.grid@,
                    self.solved,
                );
            }
            Ok(())
        }
    }

    /// Reads a line break: a carriage return, with or without a line feed
    /// behind it, or a line feed alone.
    fn expect_newline(&mut self) -> (r: Result<(), ParseError>)
        requires
            old(self).wf(),
            old(self).item() < 181,
            is_break_item(old(self).item()),
        ensures
            r is Ok ==> old(self).moved_to(final(self), 1),
            r matches Err(e) ==> is_first_fault(old(self).text(), e),
    {
        proof {
            lemma_first_bad_from(self.source@, self.item());
            self.lemma_item();
        }
        let ghost s = self.source@;
        let ghost k = self.item();
        if self.matches(CR) {
            self.matches(LF);
            self.line_no += 1;
            self.line_start = self.pos;
            proof {
                lemma_read_frame(
                    s,
                    k,
                    old(self).pos as int,
                    self.idx as int,
                    self.grid@,
                    self.solved,
                );
            }
            Ok(())
        } else if self.matches(LF) {
            self.line_no += 1;
            self.line_start = self.pos;
            proof {
                lemma_read_frame(
                    s,
                    k,
                    old(self).pos as int,
                    self.idx as int,
                    self.grid@,
                    self.solved,
                );
            }
            Ok(())
        } else {
            Err(self.error(ErrorKind::MissingNewline))
        }
    }

    /// Reads a border line, with its line break if `force_newline` is set.
    fn expect_line(&mut self, force_newline: bool) -> (r: Result<(), ParseError>)
        requires
            old(self).wf(),
            old(self).item() % 14 == 0,
            in_border(old(self).item()),
            force_newline <==> old(self).item() < 168,
            old(self).item() <= 168,
        ensures
            r is Ok ==> old(self).moved_to(
                final(self),
                if force_newline {
                    14
                } else {
                    13
                },
            ),
            r matches Err(e) ==> is_first_fault(old(self).text(), e),
    {
        self.expect(PLUS)?;
        for i in 0usize..3usize
            invariant
                old(self).moved_to(self, 1 + 4 * i),
                old(self).item() % 14 == 0,
                in_border(old(self).item()),
                old(self).item() <= 168,
        {
            for j in 0usize..3usize
                invariant
                    i < 3,
                    old(self).moved_to(self, 1 + 4 * i + j),
                    old(self).item() % 14 == 0,
                    in_border(old(self).item()),
                    old(self).item() <= 168,
            {
                self.expect(DASH)?;
            }
            self.expect(PLUS)?;
        }

        if force_newline {
            self.expect_newline()?;
        }
        Ok(())
    }

    /// Reads the byte of a cell and puts what it stands for into the next
    /// cell of the grid.
    fn expect_digit(&mut self) -> (r: Result<(), ParseError>)
        requires
            old(self).wf(),
            old(self).item() < 181,
            is_cell_item(old(self).item()),
        ensures
            r is Ok ==> old(self).moved_to(final(self), 1),
            r matches Err(e) ==> is_first_fault(old(self).text(), e),
    {
        let ghost s = self.source@;
        let ghost k = self.item();
        proof {
            lemma_first_bad_from(s, k);
            if item_fits(s, k) {
                lemma_read_cell(
                    s,
                    k,
                    self.pos as int,
                    self.idx as int,
                    self.grid@,
                    self.solved,
                );
            }
        }
        if self.pos >= self.source.len() {
            return Err(self.error(ErrorKind::UnexpectedEnd));
        }
        let x = self.peek();
        if x == SPACE || x == LOWER_X || x == UPPER_X || x == UNDERSCORE {
            self.solved = false;
        } else {
            if x < ZERO || x > NINE {
                return Err(self.error(ErrorKind::NotADigit));
            }
            let digit: u8 = x - ZERO;
            if digit == 0 {
                self.solved = false;
            }
            match Number::try_from(digit) {
                Ok(num) => {
                    self.grid[self.idx] = num;
                },
                Err(_) => {
                    return Err(self.error(ErrorKind::NotADigit));
                },
            }
        }
        self.pos += 1;
        self.idx += 1;
        proof {
            assert(self.grid@ =~= old(self).grid@.update(
                old(self).idx as int,
                cell_of_byte(s[old(self).pos as int]),
            ));
        }
        Ok(())
    }

    /// Reads a row of nine cells with its bars and its line break.
    fn expect_row(&mut self) -> (r: Result<(), ParseError>)
        requires
            old(self).wf(),
            old(self).item() % 14 == 0,
            !in_border(old(self).item()),
            old(self).item() < 168,
        ensures
            r is Ok ==> old(self).moved_to(final(self), 14),
            r matches Err(e) ==> is_first_fault(old(self).text(), e),
    {
        self.expect(BAR)?;

        for i in 0usize..3usize
            invariant
                old(self).moved_to(self, 1 + 4 * i),
                old(self).item() % 14 == 0,
                !in_border(old(self).item()),
                old(self).item() < 168,
        {
            for j in 0usize..3usize
                invariant
                    i < 3,
                    old(self).moved_to(self, 1 + 4 * i + j),
                    old(self).item() % 14 == 0,
                    !in_border(old(self).item()),
                    old(self).item() < 168,
            {
                self.expect_digit()?;
            }
            self.expect(BAR)?;
        }
        self.expect_newline()?;

        Ok(())
    }

    /// Reads the whole text. The result is the puzzle that the text holds,
    /// or the first place at which the text is not the text of a puzzle.
    pub fn parse(self) -> (r: Result<Sudoku, ParseError>)
        requires
            self.wf(),
            self.item() == 0,
        ensures
            match r {
                Ok(puzzle) => first_bad(self.text(), 0) == 181 && puzzle@ == cells_of_text(
                    self.text(),
                ) && puzzle.is_solved() == is_filled(puzzle@),
                Err(e) => is_first_fault(self.text(), e),
            },
    {
        let mut parser = self;
        for i in 0usize..3usize
            invariant
                self.moved_to(&parser, 56 * i),
                self.item() == 0,
        {
            parser.expect_line(true)?;

            for j in 0usize..3usize
                invariant
                    i < 3,
                    self.moved_to(&parser, 56 * i + 14 + 14 * j),
                    self.item() == 0,
            {
                parser.expect_row()?;
            }
        }
        parser.expect_line(false)?;

        proof {
            let s = parser.source@;
            lemma_first_bad_from(s, 181);
            assert(parser.grid@ =~= cells_of_text(s)) by {
                assert forall|c: int| 0 <= c < 81 implies parser.grid@[c] == cells_of_text(s)[c] by {
                    lemma_item_of_cell(c);
                }
            }
        }
        Ok(Sudoku::from_cells(parser.solved, parser.grid))
    }
}

} // verus!
