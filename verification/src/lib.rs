//! Sudoku solving library using backtracking

use self::rules::{is_first_solution, is_outcome, lemma_outcome_unique, solvable};
use self::solver::{cells_of, Solver};
use self::sudoku::format::text_outcome;
pub use self::sudoku::Sudoku;
use vstd::prelude::*;
use vstd::string::StringSliceAdditionalSpecFns;

pub mod adj_mat;
pub mod graph;
pub mod rules;
pub mod search;
pub mod solver;
pub mod sudoku;

verus! {

/// Solves a Sudoku puzzle. Returns `None` if no solution is possible.
///
/// The solution returned is the first one in the order of the search: the
/// open cells are filled in row-major order, each with the smallest digit
/// that leads to a solution.
pub fn solve(puzzle: &Sudoku) -> (r: Option<Sudoku>)
    ensures
        is_outcome(puzzle@, cells_of(r)),
        r matches Some(s) ==> s.is_solved(),
{
    let solver = Solver::new(puzzle);

    solver.solve()
}

/// Solving is a function of the puzzle: whatever two runs on puzzles with
/// the same cells return is the same, down to the last field.
pub proof fn lemma_solve_deterministic(
    p: Sudoku,
    q: Sudoku,
    r1: Option<Sudoku>,
    r2: Option<Sudoku>,
)
    requires
        p@ == q@,
        is_outcome(p@, cells_of(r1)),
        r1 matches Some(s) ==> s.is_solved(),
        is_outcome(q@, cells_of(r2)),
        r2 matches Some(s) ==> s.is_solved(),
    ensures
        r1 == r2,
{
    lemma_outcome_unique(p@, cells_of(r1), cells_of(r2));
    if r1 is Some {
        Sudoku::lemma_same(r1->Some_0, r2->Some_0);
    }
}

/// Why a text did not lead to a solved puzzle.
#[derive(Copy, Clone, Debug, PartialEq, Eq, Structural)]
pub enum SolveError {
    /// The text is not the text of a puzzle.
    ParseError,
    /// The text holds a puzzle, and the puzzle has no solution.
    Unsolvable,
}

/// Reads a puzzle from its text and solves it.
pub fn get_solution(source: &str) -> (r: Result<Sudoku, SolveError>)
    ensures
        match r {
            Ok(solution) => text_outcome(source.spec_bytes()) matches Ok(cells)
                && is_first_solution(cells, solution@) && solution.is_solved(),
            Err(SolveError::ParseError) => text_outcome(source.spec_bytes()) is Err,
            Err(SolveError::Unsolvable) => text_outcome(source.spec_bytes()) matches Ok(cells)
                && !solvable(cells),
        },
{
    let puzzle = match Sudoku::from_string(source) {
        Ok(puzzle) => puzzle,
        Err(_) => {
            return Err(SolveError::ParseError);
        },
    };
    let solution = match solve(&puzzle) {
        Some(solution) => solution,
        None => {
            return Err(SolveError::Unsolvable);
        },
    };

    Ok(solution)
}

} // verus!
