//! The working copy of a puzzle that the search fills in.

use crate::sudoku::number::Number;
use crate::sudoku::Sudoku;
use vstd::prelude::*;

verus! {

/// One cell of the working grid: where it lies, whether the puzzle gave it,
/// and what it holds at the moment.
#[derive(Copy, Clone, Debug)]
pub struct Vertex {
    x: usize,
    y: usize,
    fixed: bool,
    value: Number,
}

impl Vertex {
    /// Whether the puzzle gave this cell.
    pub closed spec fn spec_is_fixed(&self) -> bool {
        self.fixed
    }

    /// What the cell holds.
    pub closed spec fn spec_value(&self) -> Number {
        self.value
    }

    /// Row and column of the cell.
    pub closed spec fn spec_coords(&self) -> (usize, usize) {
        (self.x, self.y)
    }

    /// A cell in row `x` and column `y` that holds `value`.
    pub fn new(x: usize, y: usize, fixed: bool, value: Number) -> (v: Self)
        ensures
            v.coords() == (x, y),
            v.is_fixed() == fixed,
            v.value() == value,
    {
        Self { x, y, fixed, value }
    }

    /// Whether the puzzle gave this cell. A given cell is not touched by
    /// the search.
    #[verifier::when_used_as_spec(spec_is_fixed)]
    pub fn is_fixed(&self) -> (fixed: bool)
        ensures
            fixed == self.is_fixed(),
    {
        self.fixed
    }

    /// What the cell holds at the moment.
    #[verifier::when_used_as_spec(spec_value)]
    pub fn value(&self) -> (value: Number)
        ensures
            value == self.value(),
    {
        self.value
    }

    /// Puts `value` into the cell.
    pub fn set_value(&mut self, value: Number)
        ensures
            final(self).value() == value,
            final(self).is_fixed() == old(self).is_fixed(),
            final(self).coords() == old(self).coords(),
    {
        self.value = value;
    }

    /// Moves the cell on to its next candidate digit.
    pub fn inc(&mut self)
        requires
            old(self).value() != Number::Nine,
        ensures
            final(self).value().digit() == old(self).value().digit() + 1,
            final(self).is_fixed() == old(self).is_fixed(),
            final(self).coords() == old(self).coords(),
    {
        self.value = self.value.inc();
    }

    /// Row and column of the cell, each counted from zero.
    #[verifier::when_used_as_spec(spec_coords)]
    pub fn coords(&self) -> (xy: (usize, usize))
        ensures
            xy == self.coords(),
    {
        (self.x, self.y)
    }
}

/// The 81 cells of a puzzle in row-major order, each with its place and with
/// the mark of a given cell.
pub struct Graph {
    grid: [Vertex; 81],
}

impl Graph {
    /// Every cell knows its own place, and a given cell is never empty.
    #[verifier::type_invariant]
    spec fn well_placed(&self) -> bool {
        forall|c: int|
            0 <= c < 81 ==> {
                &&& (#[trigger] self.grid@[c]).coords() == ((c / 9) as usize, (c % 9) as usize)
                &&& self.grid@[c].is_fixed() ==> self.grid@[c].value() != Number::Empty
            }
    }

    /// What the cells hold, in row-major order.
    pub closed spec fn values(&self) -> Seq<Number> {
        Seq::new(81, |c: int| self.grid@[c].value())
    }

    /// Which cells the puzzle gave, in row-major order.
    pub closed spec fn givens(&self) -> Seq<bool> {
        Seq::new(81, |c: int| self.grid@[c].is_fixed())
    }

    /// Both sequences that describe a graph have one entry for each cell.
    pub proof fn lemma_len(&self)
        ensures
            self.values().len() == 81,
            self.givens().len() == 81,
    {
    }

    /// Copies a puzzle. A cell is marked as given exactly when the puzzle
    /// holds a digit there.
    pub fn new(puzzle: &Sudoku) -> (graph: Self)
        ensures
            graph.values() == puzzle@,
            forall|c: int| 0 <= c < 81 ==> #[trigger] graph.givens()[c] == (puzzle@[c] != Number::Empty),
    {
        let mut grid: [Vertex; 81] = [Vertex::new(0, 0, false, Number::Empty); 81];

        proof {
            puzzle.lemma_len();
        }
        for i in 0usize..9usize
            invariant
                puzzle@.len() == 81,
                forall|c: int|
                    0 <= c < i * 9 ==> {
                        &&& (#[trigger] grid@[c]).coords() == ((c / 9) as usize, (c % 9) as usize)
                        &&& grid@[c].value() == puzzle@[c]
                        &&& grid@[c].is_fixed() == (puzzle@[c] != Number::Empty)
                    },
        {
            for j in 0usize..9usize
                invariant
                    i < 9,
                    puzzle@.len() == 81,
                    forall|c: int|
                        0 <= c < i * 9 + j ==> {
                            &&& (#[trigger] grid@[c]).coords() == ((c / 9) as usize, (c % 9) as usize)
                            &&& grid@[c].value() == puzzle@[c]
                            &&& grid@[c].is_fixed() == (puzzle@[c] != Number::Empty)
                        },
            {
                let idx: usize = 9 * i + j;
                let num = puzzle.index(i, j);
                let fixed = num != Number::Empty;

                let vertex = Vertex::new(i, j, fixed, num);
                grid[idx] = vertex;
            }
        }

        let graph = Self { grid };
        assert(graph.values() =~= puzzle@);
        graph
    }

    /// The cell in row `x` and column `y`.
    pub fn index(&self, x: usize, y: usize) -> (v: &Vertex)
        requires
            x < 9,
            y < 9,
        ensures
            v.value() == self.values()[x * 9 + y],
            v.is_fixed() == self.givens()[x * 9 + y],
            v.coords() == (x, y),
    {
        proof {
            use_type_invariant(self);
        }
        let idx: usize = x * 9 + y;
        &self.grid[idx]
    }

    /// Puts `value` into the cell in row `x` and column `y`, which must not
    /// be a given one: what the puzzle gave is never written over.
    pub fn set_value(&mut self, x: usize, y: usize, value: Number)
        requires
            x < 9,
            y < 9,
            !old(self).givens()[x * 9 + y],
        ensures
            final(self).values() == old(self).values().update(x * 9 + y, value),
            final(self).givens() == old(self).givens(),
    {
        proof {
            use_type_invariant(&*self);
        }
        let idx: usize = x * 9 + y;
        let mut vertex = self.grid[idx];
        vertex.set_value(value);
        self.grid[idx] = vertex;
        assert(self.values() =~= old(self).values().update(x * 9 + y, value));
        assert(self.givens() =~= old(self).givens());
    }

    /// Moves the cell in row `x` and column `y` on to its next candidate
    /// digit. The cell must not be a given one and must not hold the last
    /// digit already.
    pub fn inc(&mut self, x: usize, y: usize)
        requires
            x < 9,
            y < 9,
            !old(self).givens()[x * 9 + y],
            old(self).values()[x * 9 + y] != Number::Nine,
        ensures
            final(self).values().len() == 81,
            final(self).values()[x * 9 + y].digit() == old(self).values()[x * 9 + y].digit() + 1,
            final(self).values() == old(self).values().update(
                x * 9 + y,
                final(self).values()[x * 9 + y],
            ),
            final(self).givens() == old(self).givens(),
    {
        proof {
            use_type_invariant(&*self);
        }
        let idx: usize = x * 9 + y;
        let mut vertex = self.grid[idx];
        vertex.inc();
        self.grid[idx] = vertex;
        assert(self.values() =~= old(self).values().update(x * 9 + y, self.values()[x * 9 + y]));
        assert(self.givens() =~= old(self).givens());
    }
}

} // verus!
