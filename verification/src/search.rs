//! The state of the backtracking search and why each of its steps is right.
//!
//! The search walks the open cells of a puzzle in row-major order with a
//! cursor. Cells before the cursor hold a digit, the cell under the cursor
//! holds the last digit that was tried there, cells behind it are empty.
//! Everything here is stated over sequences; the solver carries them.

use crate::adj_mat::{conflicts, is_cell};
use crate::rules::{
    conflict_free, is_first_solution, is_grid, is_solution, keeps_givens, parts_at, precedes,
    solvable, valid_at,
};
use crate::sudoku::number::Number;
use vstd::prelude::*;

verus! {

/// Whether `order` lists the open cells of `p` that lie before the cell
/// `upto`, each once and in rising order.
pub open spec fn lists_open_cells(p: Seq<Number>, order: Seq<int>, upto: int) -> bool {
    &&& forall|j: int|
        0 <= j < order.len() ==> 0 <= #[trigger] order[j] < upto && p[order[j]] == Number::Empty
    &&& forall|j: int, k: int| 0 <= j < k < order.len() ==> #[trigger] order[j] < #[trigger] order[k]
    &&& forall|c: int| 0 <= c < upto && #[trigger] p[c] == Number::Empty ==> order.contains(c)
}

/// Whether `order` is the list of all open cells of the puzzle `p`, in
/// row-major order: the cells that the search has to fill.
pub open spec fn is_search_order(p: Seq<Number>, order: Seq<int>) -> bool {
    lists_open_cells(p, order, 81)
}

/// The solution `h` lies ahead of the search at the place `j` of the order:
/// it holds what the grid `g` holds in all open cells before that place, and
/// a larger digit in that place itself.
pub open spec fn ahead_at(order: Seq<int>, g: Seq<Number>, h: Seq<Number>, j: int) -> bool {
    &&& 0 <= j < order.len()
    &&& forall|m: int| 0 <= m < j ==> h[#[trigger] order[m]] == g[order[m]]
    &&& h[order[j]].digit() > g[order[j]].digit()
}

/// Nothing was passed over: every solution of `p` lies ahead of the search
/// at some place up to the cursor `i`.
pub open spec fn none_missed(p: Seq<Number>, order: Seq<int>, g: Seq<Number>, i: int) -> bool {
    forall|h: Seq<Number>| #[trigger]
        is_solution(p, h) ==> exists|j: int| j <= i && #[trigger] ahead_at(order, g, h, j)
}

/// The invariant of the search with the cursor at the place `i`.
pub open spec fn search_state(p: Seq<Number>, order: Seq<int>, g: Seq<Number>, i: int) -> bool {
    &&& is_grid(p)
    &&& is_grid(g)
    &&& is_search_order(p, order)
    &&& 0 <= i < order.len()
    &&& keeps_givens(p, g)
    &&& forall|j: int| 0 <= j < i ==> g[#[trigger] order[j]] != Number::Empty
    &&& forall|j: int| i < j < order.len() ==> g[#[trigger] order[j]] == Number::Empty
    &&& conflict_free(g.update(order[i], Number::Empty))
    &&& none_missed(p, order, g, i)
}

/// An upper bound on the steps that it takes to try one digit in a cell
/// with `d` open cells behind it.
pub open spec fn weight(d: nat) -> nat
    decreases d,
{
    if d == 0 {
        1
    } else {
        9 * weight((d - 1) as nat) + 2
    }
}

/// An upper bound on the steps that the search still takes from a state
/// with the cursor at the place `i`.
pub open spec fn steps_left(order: Seq<int>, g: Seq<Number>, i: int) -> int
    decreases i + 1,
{
    if i < 0 {
        0
    } else {
        steps_left(order, g, i - 1) + (9 - g[order[i]].digit()) * weight(
            (order.len() - 1 - i) as nat,
        ) + 1
    }
}

/// The bound is never negative.
pub proof fn lemma_steps_left_nonnegative(order: Seq<int>, g: Seq<Number>, i: int)
    ensures
        steps_left(order, g, i) >= 0,
    decreases i + 1,
{
    if i >= 0 {
        lemma_steps_left_nonnegative(order, g, i - 1);
        let w = weight((order.len() - 1 - i) as nat) as int;
        let a = 9 - g[order[i]].digit();
        assert(a >= 0);
        assert(a * w >= 0) by (nonlinear_arith)
            requires
                a >= 0,
                w >= 0,
        ;
    }
}

/// The bound depends on nothing but the cells up to the cursor.
pub proof fn lemma_steps_left_same(order: Seq<int>, g: Seq<Number>, g2: Seq<Number>, i: int)
    requires
        i < order.len(),
        forall|j: int| 0 <= j <= i ==> g[#[trigger] order[j]] == g2[order[j]],
    ensures
        steps_left(order, g, i) == steps_left(order, g2, i),
    decreases i + 1,
{
    if i >= 0 {
        lemma_steps_left_same(order, g, g2, i - 1);
        assert(g[order[i]] == g2[order[i]]);
    }
}

/// The search starts on the puzzle itself with the cursor on the first open
/// cell.
pub proof fn lemma_search_start(p: Seq<Number>, order: Seq<int>)
    requires
        is_grid(p),
        is_search_order(p, order),
        order.len() > 0,
        conflict_free(p),
    ensures
        search_state(p, order, p, 0),
{
    assert(p.update(order[0], Number::Empty) =~= p);
    assert forall|h: Seq<Number>| #[trigger] is_solution(p, h) implies exists|j: int|
        j <= 0 && #[trigger] ahead_at(order, p, h, j) by {
        assert(h[order[0]] != Number::Empty);
        assert(ahead_at(order, p, h, 0));
    }
}

/// When the cell under the cursor has run through all nine digits, it is
/// cleared and the cursor steps back; from the first open cell there is
/// nowhere to step back to, and the puzzle has no solution.
pub proof fn lemma_exhaust(p: Seq<Number>, order: Seq<int>, g: Seq<Number>, i: int)
    requires
        search_state(p, order, g, i),
        g[order[i]] == Number::Nine,
    ensures
        i == 0 ==> !solvable(p),
        i > 0 ==> search_state(p, order, g.update(order[i], Number::Empty), i - 1),
        i > 0 ==> steps_left(order, g.update(order[i], Number::Empty), i - 1) < steps_left(
            order,
            g,
            i,
        ),
{
    let g2 = g.update(order[i], Number::Empty);
    // No solution lies ahead at the cursor itself: no digit is above nine.
    assert forall|h: Seq<Number>| #[trigger] is_solution(p, h) implies exists|j: int|
        j <= i - 1 && #[trigger] ahead_at(order, g2, h, j) by {
        let j = choose|j: int| j <= i && #[trigger] ahead_at(order, g, h, j);
        assert(j != i);
        assert forall|m: int| 0 <= m < j implies h[#[trigger] order[m]] == g2[order[m]] by {
            assert(order[m] < order[i]);
        }
        assert(order[j] < order[i]);
        assert(ahead_at(order, g2, h, j));
    }
    if i == 0 {
        assert forall|h: Seq<Number>| !is_solution(p, h) by {
            if is_solution(p, h) {
                let j = choose|j: int| j <= i - 1 && #[trigger] ahead_at(order, g2, h, j);
                assert(false);
            }
        }
    } else {
        assert(keeps_givens(p, g2));
        assert forall|j: int| 0 <= j < i - 1 implies g2[#[trigger] order[j]] != Number::Empty by {
            assert(order[j] < order[i]);
        }
        assert forall|j: int| i - 1 < j < order.len() implies g2[#[trigger] order[j]]
            == Number::Empty by {
            if j > i {
                assert(order[i] < order[j]);
            }
        }
        let g1 = g.update(order[i], Number::Empty);
        let g3 = g2.update(order[i - 1], Number::Empty);
        assert forall|a: int, b: int|
            #![trigger g3[a], g3[b]]
            is_cell(a) && is_cell(b) && conflicts(a, b) && g3[a] != Number::Empty implies g3[a]
            != g3[b] by {
            assert(g1[a] != Number::Empty);
            if g3[b] != Number::Empty {
                assert(g1[a] != g1[b]);
            }
        }
        assert forall|j: int| 0 <= j <= i - 1 implies g[#[trigger] order[j]] == g2[order[j]] by {
            assert(order[j] < order[i]);
        }
        lemma_steps_left_same(order, g, g2, i - 1);
        assert(g[order[i]].digit() == 9);
    }
}

/// A cell that holds a digit and is not under the cursor is a given one or
/// comes before the cursor, so every solution that has kept up with the
/// search holds the same digit there.
proof fn lemma_settled_cell(
    p: Seq<Number>,
    order: Seq<int>,
    g: Seq<Number>,
    h: Seq<Number>,
    i: int,
    d: int,
)
    requires
        is_grid(p),
        is_grid(g),
        is_search_order(p, order),
        0 <= i < order.len(),
        keeps_givens(p, g),
        keeps_givens(p, h),
        forall|j: int| i < j < order.len() ==> g[#[trigger] order[j]] == Number::Empty,
        forall|m: int| 0 <= m < i ==> h[#[trigger] order[m]] == g[order[m]],
        is_cell(d),
        d != order[i],
        g[d] != Number::Empty,
    ensures
        h[d] == g[d],
{
    if p[d] == Number::Empty {
        assert(order.contains(d));
        let j = choose|j: int| 0 <= j < order.len() && order[j] == d;
        assert(j < i);
    }
}

/// A digit that clashes with a settled cell is passed over: the grid with
/// the new digit is again a state of the search, with fewer steps left.
pub proof fn lemma_reject(
    p: Seq<Number>,
    order: Seq<int>,
    g: Seq<Number>,
    g2: Seq<Number>,
    i: int,
)
    requires
        search_state(p, order, g, i),
        g2 == g.update(order[i], g2[order[i]]),
        g2[order[i]].digit() == g[order[i]].digit() + 1,
        !valid_at(g2, order[i]),
    ensures
        search_state(p, order, g2, i),
        steps_left(order, g2, i) < steps_left(order, g, i),
{
    let c = order[i];
    assert(g2.update(c, Number::Empty) =~= g.update(c, Number::Empty));
    assert forall|j: int| 0 <= j < i implies g2[#[trigger] order[j]] != Number::Empty by {
        assert(order[j] < c);
    }
    assert forall|j: int| i < j < order.len() implies g2[#[trigger] order[j]]
        == Number::Empty by {
        assert(c < order[j]);
    }
    let d = choose|d: int| is_cell(d) && conflicts(c, d) && #[trigger] g2[d] == g2[c];
    assert forall|h: Seq<Number>| #[trigger] is_solution(p, h) implies exists|j: int|
        j <= i && #[trigger] ahead_at(order, g2, h, j) by {
        let j = choose|j: int| j <= i && #[trigger] ahead_at(order, g, h, j);
        assert forall|m: int| 0 <= m < j implies h[#[trigger] order[m]] == g2[order[m]] by {
            assert(order[m] < c);
        }
        if j < i {
            assert(order[j] < c);
            assert(ahead_at(order, g2, h, j));
        } else {
            if h[c].digit() == g2[c].digit() {
                assert(h[c] == g2[c]);
                lemma_settled_cell(p, order, g2, h, i, d);
                assert(h[c] != h[d]);
                assert(false);
            }
            assert(ahead_at(order, g2, h, i));
        }
    }
    lemma_step_cost(order, g, g2, i);
}

/// Raising the digit under the cursor by one lowers the bound by the weight
/// of the cursor's place.
proof fn lemma_step_cost(order: Seq<int>, g: Seq<Number>, g2: Seq<Number>, i: int)
    requires
        0 <= i < order.len(),
        forall|j: int, k: int| 0 <= j < k < order.len() ==> #[trigger] order[j] < #[trigger] order[k],
        g2 == g.update(order[i], g2[order[i]]),
        is_cell(order[i]),
        g.len() == 81,
        forall|j: int| 0 <= j < order.len() ==> 0 <= #[trigger] order[j] < 81,
        g2[order[i]].digit() == g[order[i]].digit() + 1,
    ensures
        steps_left(order, g2, i) == steps_left(order, g, i) - weight((order.len() - 1 - i) as nat),
{
    assert forall|j: int| 0 <= j <= i - 1 implies g[#[trigger] order[j]] == g2[order[j]] by {
        assert(order[j] < order[i]);
    }
    lemma_steps_left_same(order, g, g2, i - 1);
    let w = weight((order.len() - 1 - i) as nat) as int;
    let a = 9 - g[order[i]].digit();
    assert((a - 1) * w == a * w - w) by (nonlinear_arith);
}

/// With a digit under the cursor that clashes with nothing, the grid is free
/// of conflicts as far as it is filled.
proof fn lemma_accept(p: Seq<Number>, order: Seq<int>, g: Seq<Number>, g2: Seq<Number>, i: int)
    requires
        search_state(p, order, g, i),
        g2 == g.update(order[i], g2[order[i]]),
        valid_at(g2, order[i]),
    ensures
        conflict_free(g2),
{
    let c = order[i];
    let g0 = g.update(c, Number::Empty);
    assert forall|a: int, b: int|
        #![trigger g2[a], g2[b]]
        is_cell(a) && is_cell(b) && conflicts(a, b) && g2[a] != Number::Empty implies g2[a]
        != g2[b] by {
        if a == c {
            assert(g2[b] != g2[c]);
        } else if b == c {
            assert(conflicts(c, a));
            assert(g2[a] != g2[c]);
        } else {
            assert(g0[a] != Number::Empty);
            assert(g0[a] != g0[b]);
        }
    }
}

/// A digit that clashes with nothing stays, and the cursor moves on to the
/// next open cell, which is still empty.
pub proof fn lemma_descend(
    p: Seq<Number>,
    order: Seq<int>,
    g: Seq<Number>,
    g2: Seq<Number>,
    i: int,
)
    requires
        search_state(p, order, g, i),
        g2 == g.update(order[i], g2[order[i]]),
        g2[order[i]].digit() == g[order[i]].digit() + 1,
        valid_at(g2, order[i]),
        i + 1 < order.len(),
    ensures
        search_state(p, order, g2, i + 1),
        steps_left(order, g2, i + 1) < steps_left(order, g, i),
{
    let c = order[i];
    lemma_accept(p, order, g, g2, i);
    assert(c < order[i + 1]);
    assert(g2[order[i + 1]] == Number::Empty);
    assert(g2.update(order[i + 1], Number::Empty) =~= g2);
    assert forall|j: int| 0 <= j < i + 1 implies g2[#[trigger] order[j]] != Number::Empty by {
        if j < i {
            assert(order[j] < c);
        }
    }
    assert forall|j: int| i + 1 < j < order.len() implies g2[#[trigger] order[j]]
        == Number::Empty by {
        assert(c < order[j]);
    }
    assert forall|h: Seq<Number>| #[trigger] is_solution(p, h) implies exists|j: int|
        j <= i + 1 && #[trigger] ahead_at(order, g2, h, j) by {
        let j = choose|j: int| j <= i && #[trigger] ahead_at(order, g, h, j);
        assert forall|m: int| 0 <= m < j implies h[#[trigger] order[m]] == g2[order[m]] by {
            assert(order[m] < c);
        }
        if j < i {
            assert(order[j] < c);
            assert(ahead_at(order, g2, h, j));
        } else if h[c].digit() > g2[c].digit() {
            assert(ahead_at(order, g2, h, i));
        } else {
            assert(h[c] == g2[c]);
            assert(h[order[i + 1]] != Number::Empty);
            assert forall|m: int| 0 <= m < i + 1 implies h[#[trigger] order[m]] == g2[order[m]] by {
                if m < i {
                    assert(order[m] < c);
                }
            }
            assert(ahead_at(order, g2, h, i + 1));
        }
    }
    lemma_step_cost(order, g, g2, i);
    assert(steps_left(order, g2, i + 1) == steps_left(order, g2, i) + (9 - 0) * weight(
        (order.len() - 1 - (i + 1)) as nat,
    ) + 1);
    assert(weight((order.len() - 1 - i) as nat) == 9 * weight(
        (order.len() - 1 - (i + 1)) as nat,
    ) + 2);
}

/// A digit that clashes with nothing in the last open cell completes the
/// grid, and the grid is the first solution of the puzzle.
pub proof fn lemma_found(
    p: Seq<Number>,
    order: Seq<int>,
    g: Seq<Number>,
    g2: Seq<Number>,
    i: int,
)
    requires
        search_state(p, order, g, i),
        g2 == g.update(order[i], g2[order[i]]),
        g2[order[i]].digit() == g[order[i]].digit() + 1,
        valid_at(g2, order[i]),
        i + 1 == order.len(),
    ensures
        is_first_solution(p, g2),
{
    let c = order[i];
    lemma_accept(p, order, g, g2, i);
    assert forall|d: int| 0 <= d < g2.len() implies #[trigger] g2[d] != Number::Empty by {
        if d != c && p[d] == Number::Empty {
            assert(order.contains(d));
            let j = choose|j: int| 0 <= j < order.len() && order[j] == d;
            assert(g[order[j]] != Number::Empty);
        }
    }
    assert(is_solution(p, g2));
    assert forall|h: Seq<Number>| #[trigger] is_solution(p, h) implies h == g2 || precedes(
        g2,
        h,
    ) by {
        let j = choose|j: int| j <= i && #[trigger] ahead_at(order, g, h, j);
        assert forall|m: int| 0 <= m < j implies h[#[trigger] order[m]] == g2[order[m]] by {
            assert(order[m] < c);
        }
        if j < i || h[c].digit() > g2[c].digit() {
            if j < i {
                assert(order[j] < c);
            }
            let k = order[j];
            assert(g2[k].digit() < h[k].digit());
            assert forall|d: int| 0 <= d < k implies #[trigger] g2[d] == h[d] by {
                if p[d] == Number::Empty {
                    assert(order.contains(d));
                    let m = choose|m: int| 0 <= m < order.len() && order[m] == d;
                    if m >= j {
                        if m > j {
                            assert(order[j] < order[m]);
                        }
                        assert(false);
                    }
                    assert(h[order[m]] == g2[order[m]]);
                } else {
                    assert(g2[d] == p[d]);
                    assert(h[d] == p[d]);
                }
            }
            assert(parts_at(g2, h, k));
        } else {
            assert(h[c] == g2[c]);
            assert forall|d: int| 0 <= d < 81 implies h[d] == g2[d] by {
                if p[d] == Number::Empty {
                    assert(order.contains(d));
                    let m = choose|m: int| 0 <= m < order.len() && order[m] == d;
                    if m < i {
                        assert(h[order[m]] == g2[order[m]]);
                    }
                } else {
                    assert(g2[d] == p[d]);
                    assert(h[d] == p[d]);
                }
            }
            assert(h =~= g2);
        }
    }
}

} // verus!
