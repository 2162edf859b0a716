//! The conflict model: which pairs of cells may not hold the same digit.
//!
//! The model depends on the geometry of the 9×9 board alone, never on a
//! puzzle. A cell is named by its row-major index, `9 * row + column`.

use vstd::prelude::*;

verus! {

/// The number of ordered pairs of cells.
pub const PAIRS: usize = 6561;

/// The row of a cell, counted from zero.
pub open spec fn row_of(c: int) -> int {
    c / 9
}

/// The column of a cell, counted from zero.
pub open spec fn col_of(c: int) -> int {
    c % 9
}

/// Whether `c` is the index of a cell of the board.
pub open spec fn is_cell(c: int) -> bool {
    0 <= c < 81
}

/// Whether two cells lie in the same row.
pub open spec fn same_row(a: int, b: int) -> bool {
    row_of(a) == row_of(b)
}

/// Whether two cells lie in the same column.
pub open spec fn same_col(a: int, b: int) -> bool {
    col_of(a) == col_of(b)
}

/// Whether two cells lie in the same 3×3 box.
pub open spec fn same_box(a: int, b: int) -> bool {
    row_of(a) / 3 == row_of(b) / 3 && col_of(a) / 3 == col_of(b) / 3
}

/// The conflict relation: two different cells that share a row, a column or
/// a box.
pub open spec fn conflicts(a: int, b: int) -> bool {
    a != b && (same_row(a, b) || same_col(a, b) || same_box(a, b))
}

/// The conflict relation is symmetric, and no cell conflicts with itself.
pub proof fn lemma_conflicts_symmetric_irreflexive(a: int, b: int)
    ensures
        conflicts(a, b) == conflicts(b, a),
        !conflicts(a, a),
{
}

/// The place of the pair `(a, b)` in a table that is laid out row by row.
pub open spec fn pair_index(a: int, b: int) -> int {
    a * 81 + b
}

/// The entry of a row-by-row table for the pair `(a, b)`.
pub open spec fn entry(t: Seq<bool>, a: int, b: int) -> bool {
    t[pair_index(a, b)]
}

/// The table and the conflict relation agree on every pair of cells.
pub open spec fn table_exact(t: Seq<bool>) -> bool {
    forall|a: int, b: int|
        is_cell(a) && is_cell(b) ==> #[trigger] entry(t, a, b) == conflicts(a, b)
}

/// Whether `r` and `c` are a row and a column of the board.
pub open spec fn on_board(r: int, c: int) -> bool {
    0 <= r < 9 && 0 <= c < 9
}

/// The entry for the pair of the cell at `(r1, c1)` and the cell at
/// `(r2, c2)`.
pub open spec fn marked(t: Seq<bool>, r1: int, c1: int, r2: int, c2: int) -> bool {
    t[(r1 * 9 + c1) * 81 + (r2 * 9 + c2)]
}

/// Two different cells, given by row and column, that share a row or a
/// column.
pub open spec fn line_rule(r1: int, c1: int, r2: int, c2: int) -> bool {
    (r1 != r2 || c1 != c2) && (r1 == r2 || c1 == c2)
}

/// Two different cells, given by row and column, that share a box.
pub open spec fn box_rule(r1: int, c1: int, r2: int, c2: int) -> bool {
    (r1 != r2 || c1 != c2) && r1 / 3 == r2 / 3 && c1 / 3 == c2 / 3
}

/// Every entry that is set stands for a conflict.
pub open spec fn marks_sound(t: Seq<bool>) -> bool {
    forall|r1: int, c1: int, r2: int, c2: int|
        on_board(r1, c1) && on_board(r2, c2) && #[trigger] marked(t, r1, c1, r2, c2) ==> line_rule(
            r1,
            c1,
            r2,
            c2,
        ) || box_rule(r1, c1, r2, c2)
}

/// The entries of every cell that comes before `(i, j)` in row-major order
/// are set for the other cells of its row and of its column.
pub open spec fn lines_done(t: Seq<bool>, i: int, j: int) -> bool {
    forall|r1: int, c1: int, r2: int, c2: int|
        on_board(r1, c1) && on_board(r2, c2) && (r1 < i || (r1 == i && c1 < j)) && line_rule(
            r1,
            c1,
            r2,
            c2,
        ) ==> #[trigger] marked(t, r1, c1, r2, c2)
}

/// The entries of the cell `(i, j)` are set for the cells of its row in the
/// columns before `k`.
pub open spec fn row_done(t: Seq<bool>, i: int, j: int, k: int) -> bool {
    forall|c2: int| 0 <= c2 < 9 && c2 < k && c2 != j ==> #[trigger] marked(t, i, j, i, c2)
}

/// The entries of the cell `(i, j)` are set for the cells of its column in
/// the rows before `k`.
pub open spec fn col_done(t: Seq<bool>, i: int, j: int, k: int) -> bool {
    forall|r2: int| 0 <= r2 < 9 && r2 < k && r2 != i ==> #[trigger] marked(t, i, j, r2, j)
}

/// Which cells the pass over the boxes has finished when it stands at the box
/// whose first cell is `(bi, bj)`, on the cell `(ii, jj)` of that box.
pub open spec fn box_visited(r: int, c: int, bi: int, bj: int, ii: int, jj: int) -> bool {
    r < bi || (r < bi + 3 && c < bj) || (r < ii && c < bj + 3) || (r == ii && c < jj)
}

/// The entries of every cell that the pass over the boxes has finished are
/// set for the other cells of its box.
pub open spec fn boxes_done(t: Seq<bool>, bi: int, bj: int, ii: int, jj: int) -> bool {
    forall|r1: int, c1: int, r2: int, c2: int|
        on_board(r1, c1) && on_board(r2, c2) && box_visited(r1, c1, bi, bj, ii, jj) && box_rule(
            r1,
            c1,
            r2,
            c2,
        ) ==> #[trigger] marked(t, r1, c1, r2, c2)
}

/// The entries of the cell `(ii, jj)` are set for the cells of its box that
/// come before `(k, l)`.
pub open spec fn box_cell_done(t: Seq<bool>, ii: int, jj: int, k: int, l: int) -> bool {
    forall|r2: int, c2: int|
        on_board(r2, c2) && box_rule(ii, jj, r2, c2) && (r2 < k || (r2 == k && c2 < l))
            ==> #[trigger] marked(t, ii, jj, r2, c2)
}

/// Setting the entries of a pair of cells, in both orders, changes no other
/// entry.
proof fn lemma_mark(before: Seq<bool>, after: Seq<bool>, r1: int, c1: int, r2: int, c2: int)
    requires
        before.len() == 6561,
        on_board(r1, c1),
        on_board(r2, c2),
        after == before.update((r1 * 9 + c1) * 81 + (r2 * 9 + c2), true).update(
            (r2 * 9 + c2) * 81 + (r1 * 9 + c1),
            true,
        ),
    ensures
        forall|x1: int, y1: int, x2: int, y2: int|
            on_board(x1, y1) && on_board(x2, y2) ==> #[trigger] marked(after, x1, y1, x2, y2) == (
            marked(before, x1, y1, x2, y2) || (x1 == r1 && y1 == c1 && x2 == r2 && y2 == c2) || (x1
                == r2 && y1 == c2 && x2 == r1 && y2 == c1)),
{
}

/// A table whose marks are sound and complete for rows, columns and boxes
/// holds exactly the conflict relation.
proof fn lemma_table_complete(t: Seq<bool>)
    requires
        t.len() == 6561,
        marks_sound(t),
        lines_done(t, 9, 0),
        boxes_done(t, 9, 0, 9, 0),
    ensures
        table_exact(t),
{
    assert forall|a: int, b: int| is_cell(a) && is_cell(b) implies #[trigger] entry(t, a, b)
        == conflicts(a, b) by {
        let (r1, c1, r2, c2) = (a / 9, a % 9, b / 9, b % 9);
        assert(entry(t, a, b) == marked(t, r1, c1, r2, c2));
        assert(conflicts(a, b) == (line_rule(r1, c1, r2, c2) || box_rule(r1, c1, r2, c2)));
    }
}

/// The precomputed conflict relation over all 81×81 pairs of cells.
pub struct AdjacencyMatrix {
    matrix: [bool; PAIRS],
}

impl AdjacencyMatrix {
    /// A table holds exactly the conflict relation.
    #[verifier::type_invariant]
    spec fn holds_conflicts(&self) -> bool {
        table_exact(self.matrix@)
    }

    /// Builds the table from the geometry of the board.
    ///
    /// Each cell is marked against the other cells of its row and of its
    /// column, then against the other cells of its box. Every mark is set
    /// for both orders of the pair; a pair that two of the three relations
    /// reach is simply set twice.
    pub fn new() -> (m: Self)
        ensures
            forall|a: int, b: int|
                is_cell(a) && is_cell(b) ==> #[trigger] m.related(a, b) == conflicts(a, b),
    {
        let mut matrix: [bool; PAIRS] = [false; PAIRS];

        for i in 0usize..9usize
            invariant
                marks_sound(matrix@),
                lines_done(matrix@, i as int, 0),
        {
            for j in 0usize..9usize
                invariant
                    i < 9,
                    marks_sound(matrix@),
                    lines_done(matrix@, i as int, j as int),
            {
                let curr_sq: usize = i * 9 + j;

                for k in 0usize..9usize
                    invariant
                        i < 9,
                        j < 9,
                        curr_sq == i * 9 + j,
                        marks_sound(matrix@),
                        lines_done(matrix@, i as int, j as int),
                        row_done(matrix@, i as int, j as int, k as int),
                {
                    let sq2: usize = i * 9 + k;

                    if curr_sq != sq2 {
                        let ghost before = matrix@;
                        matrix[curr_sq * 81 + sq2] = true;
                        matrix[sq2 * 81 + curr_sq] = true;
                        proof {
                            lemma_mark(before, matrix@, i as int, j as int, i as int, k as int);
                        }
                    }
                }

                for k in 0usize..9usize
                    invariant
                        i < 9,
                        j < 9,
                        curr_sq == i * 9 + j,
                        marks_sound(matrix@),
                        lines_done(matrix@, i as int, j as int),
                        row_done(matrix@, i as int, j as int, 9),
                        col_done(matrix@, i as int, j as int, k as int),
                {
                    let sq2: usize = k * 9 + j;

                    if curr_sq != sq2 {
                        let ghost before = matrix@;
                        matrix[curr_sq * 81 + sq2] = true;
                        matrix[sq2 * 81 + curr_sq] = true;
                        proof {
                            lemma_mark(before, matrix@, i as int, j as int, k as int, j as int);
                        }
                    }
                }
            }
        }

        let mut bi: usize = 0;
        while bi < 9
            invariant
                bi <= 9,
                bi % 3 == 0,
                marks_sound(matrix@),
                lines_done(matrix@, 9, 0),
                boxes_done(matrix@, bi as int, 0, bi as int, 0),
            decreases 9 - bi,
        {
            let mut bj: usize = 0;
            while bj < 9
                invariant
                    bi < 9,
                    bi % 3 == 0,
                    bj <= 9,
                    bj % 3 == 0,
                    marks_sound(matrix@),
                    lines_done(matrix@, 9, 0),
                    boxes_done(matrix@, bi as int, bj as int, bi as int, bj as int),
                decreases 9 - bj,
            {
                for ii in bi..(bi + 3)
                    invariant
                        bi < 9,
                        bi % 3 == 0,
                        bj < 9,
                        bj % 3 == 0,
                        marks_sound(matrix@),
                        lines_done(matrix@, 9, 0),
                        boxes_done(matrix@, bi as int, bj as int, ii as int, 0),
                {
                    for jj in bj..(bj + 3)
                        invariant
                            bi < 9,
                            bi % 3 == 0,
                            bj < 9,
                            bj % 3 == 0,
                            bi <= ii < bi + 3,
                            marks_sound(matrix@),
                            lines_done(matrix@, 9, 0),
                            boxes_done(matrix@, bi as int, bj as int, ii as int, jj as int),
                    {
                        let curr_sq: usize = ii * 9 + jj;

                        for k in bi..(bi + 3)
                            invariant
                                bi < 9,
                                bi % 3 == 0,
                                bj < 9,
                                bj % 3 == 0,
                                bi <= ii < bi + 3,
                                bj <= jj < bj + 3,
                                curr_sq == ii * 9 + jj,
                                marks_sound(matrix@),
                                lines_done(matrix@, 9, 0),
                                boxes_done(matrix@, bi as int, bj as int, ii as int, jj as int),
                                box_cell_done(matrix@, ii as int, jj as int, k as int, bj as int),
                        {
                            for l in bj..(bj + 3)
                                invariant
                                    bi < 9,
                                    bi % 3 == 0,
                                    bj < 9,
                                    bj % 3 == 0,
                                    bi <= ii < bi + 3,
                                    bj <= jj < bj + 3,
                                    bi <= k < bi + 3,
                                    curr_sq == ii * 9 + jj,
                                    marks_sound(matrix@),
                                    lines_done(matrix@, 9, 0),
                                    boxes_done(matrix@, bi as int, bj as int, ii as int, jj as int),
                                    box_cell_done(matrix@, ii as int, jj as int, k as int, l as int),
                            {
                                let sq2: usize = k * 9 + l;

                                if sq2 != curr_sq {
                                    let ghost before = matrix@;
                                    matrix[curr_sq * 81 + sq2] = true;
                                    matrix[sq2 * 81 + curr_sq] = true;
                                    proof {
                                        lemma_mark(
                                            before,
                                            matrix@,
                                            ii as int,
                                            jj as int,
                                            k as int,
                                            l as int,
                                        );
                                    }
                                }
                            }
                        }
                    }
                }
                bj += 3;
            }
            bi += 3;
        }

        proof {
            lemma_table_complete(matrix@);
        }
        Self { matrix }
    }

    /// The entry of the table for the pair `(a, b)`.
    pub closed spec fn related(&self, a: int, b: int) -> bool {
        entry(self.matrix@, a, b)
    }

    /// Whether the cells `x` and `y` conflict.
    pub fn index(&self, x: usize, y: usize) -> (hit: bool)
        requires
            x < 81,
            y < 81,
        ensures
            hit == conflicts(x as int, y as int),
    {
        proof {
            use_type_invariant(self);
            assert(self.matrix@[x * 81 + y] == entry(self.matrix@, x as int, y as int));
        }
        self.matrix[x * 81 + y]
    }
}

} // verus!
