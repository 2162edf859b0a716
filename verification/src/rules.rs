//! What it means to solve a puzzle.
//!
//! A grid is a sequence of 81 cell contents in row-major order. Everything
//! here is stated over such sequences; the executable types only carry them.

use crate::adj_mat::{conflicts, is_cell};
use crate::sudoku::is_filled;
use crate::sudoku::number::Number;
use vstd::prelude::*;

verus! {

/// Whether `g` has one entry for each cell of the board.
pub open spec fn is_grid(g: Seq<Number>) -> bool {
    g.len() == 81
}

/// No two conflicting cells hold the same digit. Empty cells clash with
/// nothing, not even with each other.
pub open spec fn conflict_free(g: Seq<Number>) -> bool {
    forall|a: int, b: int|
        #![trigger g[a], g[b]]
        is_cell(a) && is_cell(b) && conflicts(a, b) && g[a] != Number::Empty ==> g[a] != g[b]
}

/// Whether the cell `c` is in order: it is empty, or no cell that conflicts
/// with it holds the same digit.
pub open spec fn valid_at(g: Seq<Number>, c: int) -> bool {
    g[c] == Number::Empty || forall|d: int|
        is_cell(d) && conflicts(c, d) ==> #[trigger] g[d] != g[c]
}

/// Every digit that the puzzle `p` gives stands unchanged in `g`.
pub open spec fn keeps_givens(p: Seq<Number>, g: Seq<Number>) -> bool {
    forall|c: int|
        #![trigger p[c]]
        #![trigger g[c]]
        is_cell(c) && p[c] != Number::Empty ==> g[c] == p[c]
}

/// Whether `g` solves the puzzle `p`: every cell holds a digit, the given
/// digits are kept, and no row, column or box holds a digit twice.
pub open spec fn is_solution(p: Seq<Number>, g: Seq<Number>) -> bool {
    &&& is_grid(g)
    &&& is_filled(g)
    &&& keeps_givens(p, g)
    &&& conflict_free(g)
}

/// Whether some grid solves the puzzle `p`.
pub open spec fn solvable(p: Seq<Number>) -> bool {
    exists|g: Seq<Number>| is_solution(p, g)
}

/// The grids `g` and `h` hold the same in every cell before `k`, and in `k`
/// itself `g` holds the smaller digit.
pub open spec fn parts_at(g: Seq<Number>, h: Seq<Number>, k: int) -> bool {
    &&& is_cell(k)
    &&& forall|j: int| 0 <= j < k ==> #[trigger] g[j] == h[j]
    &&& g[k].digit() < h[k].digit()
}

/// The order in which solutions are found: `g` comes before `h` when, at the
/// first cell in row-major order where they differ, `g` holds the smaller
/// digit.
pub open spec fn precedes(g: Seq<Number>, h: Seq<Number>) -> bool {
    exists|k: int| parts_at(g, h, k)
}

/// Whether `g` is the solution of `p` that comes before all others.
pub open spec fn is_first_solution(p: Seq<Number>, g: Seq<Number>) -> bool {
    &&& is_solution(p, g)
    &&& forall|h: Seq<Number>| #[trigger] is_solution(p, h) ==> h == g || precedes(g, h)
}

/// What solving `p` has to give: the first solution where there is one,
/// nothing where there is none.
pub open spec fn is_outcome(p: Seq<Number>, r: Option<Seq<Number>>) -> bool {
    match r {
        Some(g) => is_first_solution(p, g),
        None => !solvable(p),
    }
}

/// Of two grids, at most one comes before the other.
pub proof fn lemma_precedes_one_way(g: Seq<Number>, h: Seq<Number>)
    requires
        precedes(g, h),
    ensures
        !precedes(h, g),
        g != h,
{
    let k = choose|k: int| parts_at(g, h, k);
    if precedes(h, g) {
        let l = choose|l: int| parts_at(h, g, l);
        if l < k {
            assert(g[l] == h[l]);
        } else if k < l {
            assert(h[k] == g[k]);
        }
    }
}

/// A puzzle has at most one first solution.
pub proof fn lemma_first_solution_unique(p: Seq<Number>, g: Seq<Number>, h: Seq<Number>)
    requires
        is_first_solution(p, g),
        is_first_solution(p, h),
    ensures
        g == h,
{
    if g != h {
        lemma_precedes_one_way(g, h);
    }
}

/// Solving is a function of the puzzle: two outcomes for the same puzzle are
/// the same outcome.
pub proof fn lemma_outcome_unique(
    p: Seq<Number>,
    r1: Option<Seq<Number>>,
    r2: Option<Seq<Number>>,
)
    requires
        is_outcome(p, r1),
        is_outcome(p, r2),
    ensures
        r1 == r2,
{
    match (r1, r2) {
        (Some(g), Some(h)) => {
            lemma_first_solution_unique(p, g, h);
        },
        (Some(g), None) => {
            assert(is_solution(p, g));
        },
        (None, Some(h)) => {
            assert(is_solution(p, h));
        },
        (None, None) => {},
    }
}

/// A puzzle that gives the same digit twice in one row has no solution, and
/// so has one that gives it twice in one column or in one box, whatever the
/// other cells hold.
pub proof fn lemma_clashing_givens_unsolvable(p: Seq<Number>, a: int, b: int)
    requires
        is_cell(a),
        is_cell(b),
        conflicts(a, b),
        p[a] != Number::Empty,
        p[a] == p[b],
    ensures
        !solvable(p),
{
    assert forall|g: Seq<Number>| !is_solution(p, g) by {
        if is_solution(p, g) {
            assert(g[a] == p[a]);
            assert(g[b] == p[b]);
            assert(g[a] != g[b]);
        }
    }
}

/// A given cell that is not in order makes the puzzle unsolvable.
pub proof fn lemma_invalid_given_unsolvable(p: Seq<Number>, c: int)
    requires
        is_cell(c),
        !valid_at(p, c),
    ensures
        !solvable(p),
{
    let d = choose|d: int| is_cell(d) && conflicts(c, d) && #[trigger] p[d] == p[c];
    lemma_clashing_givens_unsolvable(p, c, d);
}

/// A grid in which every cell is in order is free of conflicts.
pub proof fn lemma_valid_everywhere(g: Seq<Number>)
    requires
        forall|c: int| is_cell(c) ==> #[trigger] valid_at(g, c),
    ensures
        conflict_free(g),
{
    assert forall|a: int, b: int|
        #![trigger g[a], g[b]]
        is_cell(a) && is_cell(b) && conflicts(a, b) && g[a] != Number::Empty implies g[a]
        != g[b] by {
        assert(valid_at(g, a));
    }
}

/// A full puzzle that is free of conflicts is its own and only solution.
pub proof fn lemma_full_puzzle(p: Seq<Number>)
    requires
        is_grid(p),
        is_filled(p),
        conflict_free(p),
    ensures
        is_first_solution(p, p),
{
    assert forall|h: Seq<Number>| #[trigger] is_solution(p, h) implies h == p || precedes(p, h) by {
        assert forall|c: int| 0 <= c < 81 implies h[c] == p[c] by {
            assert(p[c] != Number::Empty);
        }
        assert(h =~= p);
    }
}

} // verus!
