//! The puzzle grid and its text form.

use self::format::{
    is_cell_item, lemma_read_what_was_written, lemma_render_is_ascii, render_byte, render_chars,
    text_outcome,
};
use self::number::{number_of, Number};
use self::parser::{error_of, lemma_same_error, ParseError, SudokuParser};
use crate::graph::Graph;
use std::convert::TryFrom;
use vstd::prelude::*;
use vstd::std_specs::cmp::PartialEqSpecImpl;
use vstd::std_specs::convert::{FromSpecImpl, TryFromSpecImpl};
use vstd::string::{StringExecFns, StringSliceAdditionalSpecFns};

pub mod format;
pub mod number;
pub mod parser;

verus! {

/// Whether every cell of the grid `g` holds a digit.
pub open spec fn is_filled(g: Seq<Number>) -> bool {
    forall|c: int| 0 <= c < g.len() ==> #[trigger] g[c] != Number::Empty
}

/// A struct representing a Sudoku puzzle in either solved or
/// unsolved form
#[derive(Debug)]
pub struct Sudoku {
    solved: bool,
    grid: [Number; 81],
}

impl View for Sudoku {
    type V = Seq<Number>;

    /// The 81 cells in row-major order.
    closed spec fn view(&self) -> Seq<Number> {
        self.grid@
    }
}

impl PartialEq for Sudoku {
    /// Two puzzles are equal when they hold the same in every cell.
    fn eq(&self, other: &Self) -> (same: bool) {
        for i in 0usize..81usize
            invariant
                forall|c: int| 0 <= c < i ==> self.grid@[c] == other.grid@[c],
        {
            if self.grid[i] != other.grid[i] {
                return false;
            }
        }

        assert(self.grid@ =~= other.grid@);
        true
    }
}

impl PartialEqSpecImpl for Sudoku {
    open spec fn obeys_eq_spec() -> bool {
        true
    }

    open spec fn eq_spec(&self, other: &Self) -> bool {
        self@ == other@
    }
}

/// What reading a text gives as a puzzle or an error: see `text_outcome`.
pub open spec fn string_outcome(s: Seq<u8>) -> Result<Sudoku, ParseError> {
    match text_outcome(s) {
        Ok(g) => Ok(sudoku_of(g)),
        Err(f) => Err(error_of(f)),
    }
}

/// `String::push` appends the character to the end of the string.
pub assume_specification[ String::push ](s: &mut String, ch: char)
    ensures
        final(s)@ == old(s)@.push(ch),
;

/// The text of a grid up to the place `n`, with the character of that place
/// behind it, is the text up to the next place.
proof fn lemma_render_push(g: Seq<Number>, n: int)
    requires
        0 <= n < 182,
    ensures
        render_chars(g).take(n).push(render_byte(g, n) as char) == render_chars(g).take(n + 1),
{
    assert(render_chars(g).take(n).push(render_byte(g, n) as char) =~= render_chars(g).take(
        n + 1,
    ));
}

/// A border line, written out, is the text of a grid from the start of a
/// border line on.
proof fn lemma_render_border(g: Seq<Number>, n: int)
    requires
        0 <= n < 182,
        n % 56 == 0,
    ensures
        render_chars(g).take(n) + "+---+---+---+\n"@ == render_chars(g).take(n + 14),
{
    reveal_strlit("+---+---+---+\n");
    let line = "+---+---+---+\n"@;
    let whole = render_chars(g);
    assert forall|q: int| n <= q < n + 14 implies whole[q] == line[q - n] by {
        assert(q / 14 == n / 14);
        assert(q % 14 == q - n);
    }
    assert(whole.take(n) + line =~= whole.take(n + 14));
}

/// The end of a row, written out, is the text of a grid from the last byte
/// of a row on.
proof fn lemma_render_row_end(g: Seq<Number>, n: int)
    requires
        0 <= n < 182,
        n % 14 == 12,
        (n / 14) % 4 != 0,
    ensures
        render_chars(g).take(n) + "|\n"@ == render_chars(g).take(n + 2),
{
    reveal_strlit("|\n");
    let line = "|\n"@;
    let whole = render_chars(g);
    assert(whole[n] == line[0]);
    assert(whole[n + 1] == line[1]);
    assert(whole.take(n) + line =~= whole.take(n + 2));
}

impl Sudoku {
    /// The `solved` flag is set exactly when no cell is empty.
    #[verifier::type_invariant]
    spec fn flag_matches_grid(&self) -> bool {
        self.solved == is_filled(self.grid@)
    }

    /// A grid has 81 cells.
    pub proof fn lemma_len(&self)
        ensures
            self@.len() == 81,
    {
    }

    /// Puts a puzzle together from its cells and its flag.
    pub(crate) fn from_cells(solved: bool, grid: [Number; 81]) -> (puzzle: Self)
        requires
            solved == is_filled(grid@),
        ensures
            puzzle@ == grid@,
            puzzle.is_solved() == solved,
    {
        Self { solved, grid }
    }

    /// The content of the cell in row `x` and column `y`.
    pub fn index(&self, x: usize, y: usize) -> (n: Number)
        requires
            x < 9,
            y < 9,
        ensures
            n == self@[x * 9 + y],
    {
        let idx: usize = x * 9 + y;
        self.grid[idx]
    }

    /// The flag that `is_solved` reports.
    pub closed spec fn spec_is_solved(&self) -> bool {
        self.solved
    }

    /// Returns whether the `Sudoku` is solved
    #[verifier::when_used_as_spec(spec_is_solved)]
    pub fn is_solved(&self) -> (solved: bool)
        ensures
            solved == is_filled(self@),
            solved == self.is_solved(),
    {
        proof {
            use_type_invariant(self);
        }
        self.solved
    }

    /// Attempts to construct a `Sudoku` puzzle using a string
    /// as input. Returns a `ParseError` if the input does not match
    /// the required format, which looks as follows:
    ///
    /// ```no_compile
    /// +---+---+---+
    /// | 4 |52 |7  |
    /// |1  | 3 | 8 |
    /// |  9|   |   |
    /// +---+---+---+
    /// | 5 | 7 |  9|
    /// |2 7|1  |   |
    /// |  6| 8 |4  |
    /// +---+---+---+
    /// |8  |  9| 5 |
    /// |  2|   | 1 |
    /// |7  |4  |9  |
    /// +---+---+---+
    /// ```
    ///
    /// Note that blank spaces can also be denoted by '0', 'x', 'X', or '_'.
    pub fn from_string(source: &str) -> (r: Result<Sudoku, ParseError>)
        ensures
            r == string_outcome(source.spec_bytes()),
            match r {
                Ok(puzzle) => text_outcome(source.spec_bytes()) == Ok::<Seq<Number>, format::Fault>(
                    puzzle@,
                ) && puzzle.is_solved() == is_filled(puzzle@),
                Err(e) => text_outcome(source.spec_bytes()) == Err::<Seq<Number>, format::Fault>(
                    e@,
                ),
            },
    {
        Self::try_from(source)
    }

    /// Returns a `String` that could be used for pretty printing a `Sudoku`
    /// puzzle.
    ///
    /// The text holds thirteen lines, each ended by a line feed. An empty
    /// cell is written as a space. Reading the text with `from_string`
    /// gives a puzzle with the same cells.
    pub fn pretty_print(&self) -> (text: String)
        ensures
            text@ == render_chars(self@),
    {
        let mut s = String::new();
        let mut idx: usize = 0;
        let ghost g = self.grid@;
        let ghost whole = render_chars(g);

        assert(s@ =~= whole.take(0));
        // write three squares
        for a in 0usize..3usize
            invariant
                g == self.grid@,
                whole == render_chars(g),
                idx == 27 * a,
                s@ == whole.take(56 * a),
        {
            proof {
                lemma_render_border(g, 56 * a);
            }
            s.append("+---+---+---+\n");

            // write three rows of numbers
            for b in 0usize..3usize
                invariant
                    a < 3,
                    g == self.grid@,
                    whole == render_chars(g),
                    idx == 27 * a + 9 * b,
                    s@ == whole.take(56 * a + 14 + 14 * b),
            {
                // write one row of numbers
                for c in 0usize..3usize
                    invariant
                        a < 3,
                        b < 3,
                        g == self.grid@,
                        whole == render_chars(g),
                        idx == 27 * a + 9 * b + 3 * c,
                        s@ == whole.take(56 * a + 14 + 14 * b + 4 * c),
                {
                    let ghost n = 56 * a + 14 + 14 * b + 4 * c;
                    proof {
                        lemma_render_push(g, n);
                        assert(render_byte(g, n) == format::BAR);
                    }
                    s.push('|');

                    // write one number
                    for d in 0usize..3usize
                        invariant
                            a < 3,
                            b < 3,
                            c < 3,
                            n == 56 * a + 14 + 14 * b + 4 * c,
                            g == self.grid@,
                            whole == render_chars(g),
                            idx == 27 * a + 9 * b + 3 * c + d,
                            s@ == whole.take(n + 1 + d),
                    {
                        let ghost q = n + 1 + d;
                        proof {
                            lemma_render_push(g, q);
                            assert(is_cell_item(q));
                            assert(format::cell_of_item(q) == idx);
                            number::lemma_digit_number_of(g[idx as int]);
                        }
                        let c: u8 = u8::from(self.grid[idx]);
                        idx += 1;

                        if c == 0 {
                            s.push(' ');
                        } else {
                            let c: u8 = c + format::ZERO;
                            s.push(c as char);
                        }
                    }
                }
                proof {
                    lemma_render_row_end(g, 56 * a + 14 + 14 * b + 12);
                }
                s.append("|\n");
            }
        }
        proof {
            lemma_render_border(g, 168);
            assert(whole.take(182) =~= whole);
        }
        s.append("+---+---+---+\n");

        s
    }

    /// Attempts to construct a `Sudoku` puzzle from a list of numbers.
    /// An error is returned if the length of the list is not 81.
    /// Empty spaces are represented by 0's. Any number not in [0, 9]
    /// will return an error.
    ///
    /// The cells of the puzzle are filled in row-major order.
    pub fn from_numbers(nums: &[u8]) -> (r: Result<Sudoku, NumParseError>)
        ensures
            r == numbers_outcome(nums@),
            r matches Ok(s) ==> s@ == cells_of_numbers(nums@) && s.is_solved() == is_filled(s@),
    {
        Self::try_from(nums)
    }

    /// Writing a puzzle with `pretty_print` and reading the text again with
    /// `from_string` gives the same puzzle: the same digits, and with them
    /// the same answer to whether it is solved.
    pub proof fn lemma_round_trip(puzzle: Sudoku, text: &str)
        requires
            puzzle.is_solved() == is_filled(puzzle@),
            text@ == render_chars(puzzle@),
        ensures
            string_outcome(text.spec_bytes()) == Ok::<Sudoku, ParseError>(puzzle),
    {
        puzzle.lemma_len();
        lemma_render_is_ascii(puzzle@);
        lemma_read_what_was_written(puzzle@);
        Sudoku::lemma_same(puzzle, sudoku_of(puzzle@));
    }

    /// Two puzzles with the same cells and the same flag are the same puzzle.
    pub proof fn lemma_same(a: Sudoku, b: Sudoku)
        requires
            a@ == b@,
            a.is_solved() == b.is_solved(),
        ensures
            a == b,
    {
        assert(a.grid =~= b.grid);
    }
}

/// The puzzle that holds the cells `g`, with its flag set exactly when no
/// cell is empty.
pub open spec fn sudoku_of(g: Seq<Number>) -> Sudoku {
    choose|s: Sudoku| s@ == g && s.is_solved() == is_filled(g)
}

impl From<Graph> for Sudoku {
    /// Takes the cells out of a working grid. The result counts as solved
    /// exactly when no cell is empty.
    fn from(graph: Graph) -> (puzzle: Self)
        ensures
            puzzle@ == graph.values(),
            puzzle.is_solved() == is_filled(graph.values()),
    {
        let mut grid: [Number; 81] = [Number::Empty; 81];
        let mut solved = true;

        proof {
            graph.lemma_len();
        }
        for i in 0usize..9usize
            invariant
                graph.values().len() == 81,
                forall|c: int| 0 <= c < i * 9 ==> #[trigger] grid@[c] == graph.values()[c],
                solved == (forall|c: int|
                    0 <= c < i * 9 ==> #[trigger] graph.values()[c] != Number::Empty),
        {
            for j in 0usize..9usize
                invariant
                    i < 9,
                    graph.values().len() == 81,
                    forall|c: int| 0 <= c < i * 9 + j ==> #[trigger] grid@[c] == graph.values()[c],
                    solved == (forall|c: int|
                        0 <= c < i * 9 + j ==> #[trigger] graph.values()[c] != Number::Empty),
            {
                let idx: usize = i * 9 + j;
                let value = graph.index(i, j).value();
                if value == Number::Empty {
                    solved = false;
                }
                grid[idx] = value;
            }
        }

        assert(grid@ =~= graph.values());
        let puzzle = Self { solved, grid };
        proof {
            Sudoku::lemma_same(puzzle, sudoku_of(graph.values()));
        }
        puzzle
    }
}

impl FromSpecImpl<Graph> for Sudoku {
    open spec fn obeys_from_spec() -> bool {
        true
    }

    open spec fn from_spec(graph: Graph) -> Sudoku {
        sudoku_of(graph.values())
    }
}

/// Why a list of numbers is no puzzle.
#[derive(Copy, Clone, Debug, PartialEq, Eq, Structural)]
pub enum NumParseError {
    /// Some number of the list is above nine.
    NumberTooLarge,
    /// The list does not hold exactly 81 numbers.
    NotEnoughNumbers,
}

/// The cells that a list of 81 numbers stands for, in row-major order: zero
/// is an empty cell, one to nine are the digits.
pub open spec fn cells_of_numbers(nums: Seq<u8>) -> Seq<Number> {
    Seq::new(81, |i: int| number_of(nums[i] as int))
}

/// What a list of numbers gives: a list of another length than 81 is
/// refused, then a list with a number above nine; every other list gives
/// the puzzle with those cells.
pub open spec fn numbers_outcome(nums: Seq<u8>) -> Result<Sudoku, NumParseError> {
    if nums.len() != 81 {
        Err(NumParseError::NotEnoughNumbers)
    } else if exists|i: int| 0 <= i < 81 && #[trigger] nums[i] > 9 {
        Err(NumParseError::NumberTooLarge)
    } else {
        Ok(sudoku_of(cells_of_numbers(nums)))
    }
}

impl<'a> TryFrom<&'a [u8]> for Sudoku {
    type Error = NumParseError;

    /// See `Sudoku::from_numbers`.
    fn try_from(nums: &'a [u8]) -> (r: Result<Self, NumParseError>)
        ensures
            r matches Ok(s) ==> s@ == cells_of_numbers(nums@) && s.is_solved() == is_filled(s@),
    {
        if nums.len() != 81 {
            return Err(NumParseError::NotEnoughNumbers);
        }
        let mut grid: [Number; 81] = [Number::Empty; 81];
        let mut solved = true;

        for x in 0usize..9usize
            invariant
                nums@.len() == 81,
                forall|c: int| 0 <= c < x * 9 ==> nums@[c] <= 9 && #[trigger] grid@[c] == number_of(
                    nums@[c] as int,
                ),
                forall|c: int| x * 9 <= c < 81 ==> #[trigger] grid@[c] == Number::Empty,
                solved == (forall|c: int| 0 <= c < x * 9 ==> #[trigger] nums@[c] != 0),
        {
            for y in 0usize..9usize
                invariant
                    x < 9,
                    nums@.len() == 81,
                    forall|c: int|
                        0 <= c < x * 9 + y ==> nums@[c] <= 9 && #[trigger] grid@[c] == number_of(
                            nums@[c] as int,
                        ),
                    forall|c: int| x * 9 + y <= c < 81 ==> #[trigger] grid@[c] == Number::Empty,
                    solved == (forall|c: int| 0 <= c < x * 9 + y ==> #[trigger] nums@[c] != 0),
            {
                let idx: usize = x * 9 + y;
                if nums[idx] == 0 {
                    solved = false;
                } else {
                    match Number::try_from(nums[idx]) {
                        Ok(num) => {
                            grid[idx] = num;
                        },
                        Err(_) => {
                            assert(nums@[idx as int] > 9);
                            return Err(NumParseError::NumberTooLarge);
                        },
                    }
                }
            }
        }

        assert(grid@ =~= cells_of_numbers(nums@));
        assert forall|i: int| 0 <= i < 81 implies #[trigger] nums@[i] <= 9 by {
            assert(grid@[i] == number_of(nums@[i] as int));
        }
        assert(solved == is_filled(grid@)) by {
            if solved {
                assert forall|c: int| 0 <= c < 81 implies #[trigger] grid@[c] != Number::Empty by {
                    assert(nums@[c] != 0);
                }
            } else {
                let c = choose|c: int| 0 <= c < 81 && #[trigger] nums@[c] == 0;
                assert(grid@[c] == Number::Empty);
            }
        }
        let puzzle = Self { solved, grid };
        proof {
            Sudoku::lemma_same(puzzle, sudoku_of(cells_of_numbers(nums@)));
        }
        Ok(puzzle)
    }
}

impl<'a> TryFromSpecImpl<&'a [u8]> for Sudoku {
    open spec fn obeys_try_from_spec() -> bool {
        true
    }

    open spec fn try_from_spec(nums: &'a [u8]) -> Result<Sudoku, NumParseError> {
        numbers_outcome(nums@)
    }
}

impl<'a> TryFrom<&'a str> for Sudoku {
    type Error = ParseError;

    /// See `Sudoku::from_string`.
    fn try_from(source: &'a str) -> (r: Result<Self, ParseError>)
        ensures
            match r {
                Ok(puzzle) => text_outcome(source.spec_bytes()) == Ok::<Seq<Number>, format::Fault>(
                    puzzle@,
                ) && puzzle.is_solved() == is_filled(puzzle@),
                Err(e) => text_outcome(source.spec_bytes()) == Err::<Seq<Number>, format::Fault>(
                    e@,
                ),
            },
    {
        let parser = SudokuParser::new(source);

        let r = parser.parse();
        proof {
            if r is Ok {
                Sudoku::lemma_same(r->Ok_0, sudoku_of(r->Ok_0@));
            } else {
                lemma_same_error(r->Err_0, error_of(r->Err_0@));
            }
        }
        r
    }
}

impl<'a> TryFromSpecImpl<&'a str> for Sudoku {
    open spec fn obeys_try_from_spec() -> bool {
        true
    }

    open spec fn try_from_spec(source: &'a str) -> Result<Sudoku, ParseError> {
        string_outcome(source.spec_bytes())
    }
}

} // verus!
