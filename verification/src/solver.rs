//! The search engine: depth-first backtracking over the open cells.

use crate::adj_mat::{conflicts, is_cell, AdjacencyMatrix};
use crate::graph::Graph;
use crate::rules::{
    is_first_solution, is_outcome, lemma_full_puzzle, lemma_invalid_given_unsolvable,
    lemma_valid_everywhere, solvable, valid_at,
};
use crate::search::{
    lemma_descend, lemma_exhaust, lemma_found, lemma_reject, lemma_search_start,
    lemma_steps_left_nonnegative, lists_open_cells, search_state, steps_left,
};
use crate::sudoku::number::Number;
use crate::sudoku::Sudoku;
use vstd::prelude::*;

verus! {

/// The cell index that a pair of row and column stands for.
pub open spec fn cell_of(xy: (usize, usize)) -> int {
    xy.0 * 9 + xy.1
}

/// What a solver run hands back, as plain cells.
pub open spec fn cells_of(r: Option<Sudoku>) -> Option<Seq<Number>> {
    match r {
        Some(s) => Some(s@),
        None => None,
    }
}

/// A puzzle together with the conflict table, ready to be solved.
pub struct Solver {
    matrix: AdjacencyMatrix,
    graph: Graph,
}

impl Solver {
    /// What the cells of the solver hold, in row-major order. For a fresh
    /// solver these are the cells of the puzzle that it was made for.
    pub closed spec fn cells(&self) -> Seq<Number> {
        self.graph.values()
    }

    /// Whether the solver is as `new` made it: nothing was filled in yet, so
    /// that the cells that hold a digit are exactly the given ones.
    pub closed spec fn wf(&self) -> bool {
        forall|c: int|
            0 <= c < 81 ==> #[trigger] self.graph.givens()[c] == (self.graph.values()[c]
                != Number::Empty)
    }

    /// Makes a solver for `puzzle`: builds the conflict table and a working
    /// copy of the cells, in which the cells that hold a digit are marked as
    /// given.
    pub fn new(puzzle: &Sudoku) -> (solver: Self)
        ensures
            solver.wf(),
            solver.cells() == puzzle@,
    {
        Self { matrix: AdjacencyMatrix::new(), graph: Graph::new(puzzle) }
    }

    /// Whether the digit in row `x`, column `y` is in order: no cell that
    /// conflicts with this one holds the same digit. An empty cell is
    /// always in order.
    pub fn num_works(&self, x: usize, y: usize) -> (ok: bool)
        requires
            x < 9,
            y < 9,
        ensures
            ok == valid_at(self.cells(), x * 9 + y),
    {
        let idx: usize = 9 * x + y;
        let here = self.graph.index(x, y).value();
        if here == Number::Empty {
            // Only digits clash.
            return true;
        }
        proof {
            self.graph.lemma_len();
        }
        for i in 0usize..81usize
            invariant
                x < 9,
                y < 9,
                idx == 9 * x + y,
                here == self.graph.values()[idx as int],
                here != Number::Empty,
                self.graph.values().len() == 81,
                forall|d: int|
                    0 <= d < i && conflicts(idx as int, d) ==> #[trigger] self.graph.values()[d]
                        != here,
        {
            if self.matrix.index(idx, i) {
                let (x2, y2) = (i / 9, i % 9);
                if self.graph.index(x2, y2).value() == here {
                    return false;
                }
            }
        }

        true
    }

    /// Fills the open cells by backtracking and returns the completed grid,
    /// or `None` if the puzzle has no solution.
    ///
    /// The given cells are checked against each other first. The open cells
    /// are then tried in row-major order, each with the digits one to nine
    /// in rising order, so that the grid returned is the first solution in
    /// that order.
    pub fn solve(self) -> (r: Option<Sudoku>)
        requires
            self.wf(),
        ensures
            is_outcome(self.cells(), cells_of(r)),
            r matches Some(s) ==> s.is_solved(),
    {
        let ghost p = self.cells();
        let mut solver = self;
        let mut stack: Vec<(usize, usize)> = Vec::new();
        let mut stack_idx: isize = 0;
        let ghost mut order: Seq<int> = Seq::empty();

        proof {
            solver.graph.lemma_len();
        }
        for i in 0usize..9usize
            invariant
                p == self.cells(),
                solver.graph.values() == p,
                solver.wf(),
                p.len() == 81,
                order =~= stack@.map_values(|xy: (usize, usize)| cell_of(xy)),
                forall|k: int| 0 <= k < stack.len() ==> (#[trigger] stack[k]).0 < 9 && stack[k].1 < 9,
                stack.len() <= i * 9,
                lists_open_cells(p, order, i * 9),
                forall|c: int| 0 <= c < i * 9 ==> #[trigger] valid_at(p, c),
        {
            for j in 0usize..9usize
                invariant
                    i < 9,
                    p == self.cells(),
                    solver.graph.values() == p,
                    solver.wf(),
                    p.len() == 81,
                    order =~= stack@.map_values(|xy: (usize, usize)| cell_of(xy)),
                    forall|k: int|
                        0 <= k < stack.len() ==> (#[trigger] stack[k]).0 < 9 && stack[k].1 < 9,
                    stack.len() <= i * 9 + j,
                    lists_open_cells(p, order, i * 9 + j),
                    forall|c: int| 0 <= c < i * 9 + j ==> #[trigger] valid_at(p, c),
            {
                let ghost c = i * 9 + j;
                if !solver.graph.index(i, j).is_fixed() {
                    let ghost before = order;
                    stack.push((i, j));
                    proof {
                        order = order.push(c);
                        assert(p[c] == Number::Empty);
                        assert forall|d: int|
                            0 <= d < c + 1 && #[trigger] p[d] == Number::Empty implies order.contains(
                            d,
                        ) by {
                            if d < c {
                                assert(before.contains(d));
                                let k = choose|k: int| 0 <= k < before.len() && before[k] == d;
                                assert(order[k] == d);
                            } else {
                                assert(order[before.len() as int] == d);
                            }
                        }
                    }
                } else {
                    let valid = solver.num_works(i, j);
                    if !valid {
                        proof {
                            lemma_invalid_given_unsolvable(p, c);
                        }
                        return None;
                    }
                }
            }
        }

        proof {
            assert forall|c: int| is_cell(c) implies #[trigger] valid_at(p, c) by {}
            lemma_valid_everywhere(p);
        }
        if stack.len() == 0 {
            // Nothing is open: the givens are the whole grid, and they are
            // in order.
            proof {
                assert forall|c: int| 0 <= c < p.len() implies #[trigger] p[c] != Number::Empty by {
                    if p[c] == Number::Empty {
                        assert(order.contains(c));
                    }
                }
                lemma_full_puzzle(p);
            }
            return Some(Sudoku::from(solver.graph));
        }
        proof {
            lemma_search_start(p, order);
        }

        while stack_idx >= 0
            invariant_except_break
                stack_idx >= 0 ==> search_state(p, order, solver.graph.values(), stack_idx as int),
            invariant
                -1 <= stack_idx < stack.len(),
                stack.len() <= isize::MAX,
                p.len() == 81,
                order =~= stack@.map_values(|xy: (usize, usize)| cell_of(xy)),
                forall|k: int| 0 <= k < stack.len() ==> (#[trigger] stack[k]).0 < 9 && stack[k].1 < 9,
                solver.graph.givens().len() == 81,
                forall|c: int|
                    0 <= c < 81 ==> #[trigger] solver.graph.givens()[c] == (p[c] != Number::Empty),
                stack_idx < 0 ==> !solvable(p),
            ensures
                stack_idx < 0 ==> !solvable(p),
                stack_idx >= 0 ==> is_first_solution(p, solver.graph.values()),
            decreases
                    if stack_idx >= 0 {
                        steps_left(order, solver.graph.values(), stack_idx as int) + 1
                    } else {
                        0
                    },
        {
            let ghost i = stack_idx as int;
            let ghost g = solver.graph.values();
            proof {
                lemma_steps_left_nonnegative(order, g, i);
                assert(order[i] == cell_of(stack[i]));
            }
            let (x, y) = stack[stack_idx as usize];
            if solver.graph.index(x, y).value() == Number::Nine {
                solver.graph.set_value(x, y, Number::Empty);
                stack_idx -= 1;
                proof {
                    lemma_exhaust(p, order, g, i);
                    if i > 0 {
                        lemma_steps_left_nonnegative(order, solver.graph.values(), i - 1);
                    }
                }
            } else {
                solver.graph.inc(x, y);

                let (x, y) = solver.graph.index(x, y).coords();
                let valid = solver.num_works(x, y);
                if valid {
                    if stack_idx as usize == stack.len() - 1 {
                        proof {
                            lemma_found(p, order, g, solver.graph.values(), i);
                        }
                        break ;
                    } else {
                        proof {
                            lemma_descend(p, order, g, solver.graph.values(), i);
                            lemma_steps_left_nonnegative(order, solver.graph.values(), i + 1);
                        }
                        stack_idx += 1;
                        continue ;
                    }
                } else {
                    proof {
                        lemma_reject(p, order, g, solver.graph.values(), i);
                        lemma_steps_left_nonnegative(order, solver.graph.values(), i);
                    }
                    continue ;
                }
            }
        }

        if stack_idx < 0 {
            None
        } else {
            Some(Sudoku::from(solver.graph))
        }
    }
}

} // verus!
