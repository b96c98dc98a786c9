//! The mathematical model of a puzzle grid.
//!
//! A grid is a sequence of eighty-one digits in row-major order; zero marks an
//! empty cell.  The constraint of the game, what a completed grid is, and what
//! it means for one grid to extend another are all defined here, together with
//! the laws that the solver's proofs rest on.

use vstd::prelude::*;

verus! {

/// The row-major position of the cell in column `x` of row `y`.
pub open spec fn idx(x: int, y: int) -> int {
    y * 9 + x
}

/// Both coordinates name one of the nine columns or rows.
pub open spec fn in_range(x: int, y: int) -> bool {
    0 <= x < 9 && 0 <= y < 9
}

/// A grid holds eighty-one cells, each a digit zero through nine.
pub open spec fn grid_wf(g: Seq<u8>) -> bool {
    &&& g.len() == 81
    &&& forall|i: int| 0 <= i < 81 ==> #[trigger] g[i] <= 9
}

/// Row `y` holds no digit twice.
pub open spec fn row_ok(g: Seq<u8>, y: int) -> bool {
    forall|i: int, j: int|
        0 <= i < 9 && 0 <= j < 9 && i != j && #[trigger] g[idx(i, y)] != 0
            ==> g[idx(i, y)] != #[trigger] g[idx(j, y)]
}

/// Column `x` holds no digit twice.
pub open spec fn col_ok(g: Seq<u8>, x: int) -> bool {
    forall|i: int, j: int|
        0 <= i < 9 && 0 <= j < 9 && i != j && #[trigger] g[idx(x, i)] != 0
            ==> g[idx(x, i)] != #[trigger] g[idx(x, j)]
}

/// The three-by-three square whose top-left cell is `(3*bx, 3*by)` holds no
/// digit twice.
pub open spec fn block_ok(g: Seq<u8>, bx: int, by: int) -> bool {
    forall|a1: int, b1: int, a2: int, b2: int|
        0 <= a1 < 3 && 0 <= b1 < 3 && 0 <= a2 < 3 && 0 <= b2 < 3
            && (a1 != a2 || b1 != b2)
            && #[trigger] g[idx(3 * bx + a1, 3 * by + b1)] != 0
            ==> g[idx(3 * bx + a1, 3 * by + b1)]
                != #[trigger] g[idx(3 * bx + a2, 3 * by + b2)]
}

/// The grid obeys the constraint of the game: no digit one through nine is
/// repeated in any row, column or three-by-three square.  Empty cells never
/// conflict.
pub open spec fn spec_valid(g: Seq<u8>) -> bool {
    &&& forall|y: int| 0 <= y < 9 ==> #[trigger] row_ok(g, y)
    &&& forall|x: int| 0 <= x < 9 ==> #[trigger] col_ok(g, x)
    &&& forall|bx: int, by: int| 0 <= bx < 3 && 0 <= by < 3 ==> #[trigger] block_ok(g, bx, by)
}

/// The grid has no empty cell.
pub open spec fn spec_complete(g: Seq<u8>) -> bool {
    forall|i: int| 0 <= i < 81 ==> #[trigger] g[i] != 0
}

/// Every filled cell of `g` is filled with the same digit in `h`.
pub open spec fn extends(g: Seq<u8>, h: Seq<u8>) -> bool {
    &&& h.len() == 81
    &&& forall|i: int| 0 <= i < 81 && #[trigger] g[i] != 0 ==> h[i] == g[i]
}

/// `h` solves the puzzle `g`: it is a well-formed, complete, constraint-obeying
/// grid that leaves every given of `g` in place.
pub open spec fn is_solution(g: Seq<u8>, h: Seq<u8>) -> bool {
    &&& grid_wf(h)
    &&& spec_complete(h)
    &&& spec_valid(h)
    &&& extends(g, h)
}

/// Some grid solves the puzzle `g`.
pub open spec fn solvable(g: Seq<u8>) -> bool {
    exists|h: Seq<u8>| is_solution(g, h)
}

/// Digit `d` already stands somewhere in row `y`.
pub open spec fn row_has(g: Seq<u8>, y: int, d: u8) -> bool {
    exists|i: int| 0 <= i < 9 && #[trigger] g[idx(i, y)] == d
}

/// Digit `d` already stands somewhere in column `x`.
pub open spec fn col_has(g: Seq<u8>, x: int, d: u8) -> bool {
    exists|i: int| 0 <= i < 9 && #[trigger] g[idx(x, i)] == d
}

/// Digit `d` already stands somewhere in the three-by-three square of cell
/// `(x, y)`.
pub open spec fn block_has(g: Seq<u8>, x: int, y: int, d: u8) -> bool {
    exists|a: int, b: int|
        0 <= a < 3 && 0 <= b < 3 && #[trigger] g[idx(3 * (x / 3) + a, 3 * (y / 3) + b)] == d
}

/// Digit `d` stands in the row, the column or the square of cell `(x, y)`.
pub open spec fn group_has(g: Seq<u8>, x: int, y: int, d: u8) -> bool {
    row_has(g, y, d) || col_has(g, x, d) || block_has(g, x, y, d)
}

/// Digit `d` is a legal candidate for cell `(x, y)`: it is a real digit and
/// nothing in the cell's row, column or square already uses it.
pub open spec fn is_candidate(g: Seq<u8>, x: int, y: int, d: u8) -> bool {
    1 <= d <= 9 && !group_has(g, x, y, d)
}

/// Two distinct cells stand in a common group: the same row, the same column
/// or the same three-by-three square.
pub open spec fn sees(x1: int, y1: int, x2: int, y2: int) -> bool {
    &&& (x1 != x2 || y1 != y2)
    &&& (y1 == y2 || x1 == x2 || (x1 / 3 == x2 / 3 && y1 / 3 == y2 / 3))
}

/// No two distinct cells of a common group hold the same digit.
pub open spec fn no_conflicts(g: Seq<u8>) -> bool {
    forall|x1: int, y1: int, x2: int, y2: int|
        in_range(x1, y1) && in_range(x2, y2) && sees(x1, y1, x2, y2)
            && #[trigger] g[idx(x1, y1)] != 0 ==> g[idx(x1, y1)] != #[trigger] g[idx(x2, y2)]
}

/// The group-by-group statement of the constraint and the pairwise one agree.
pub proof fn lemma_valid_iff_no_conflicts(g: Seq<u8>)
    ensures
        spec_valid(g) <==> no_conflicts(g),
{
    if spec_valid(g) {
        assert forall|x1: int, y1: int, x2: int, y2: int|
            in_range(x1, y1) && in_range(x2, y2) && sees(x1, y1, x2, y2)
                && #[trigger] g[idx(x1, y1)] != 0 implies g[idx(x1, y1)]
            != #[trigger] g[idx(x2, y2)] by {
            if y1 == y2 {
                assert(row_ok(g, y1));
            } else if x1 == x2 {
                assert(col_ok(g, x1));
            } else {
                let bx = x1 / 3;
                let by = y1 / 3;
                let a1 = x1 - 3 * bx;
                let b1 = y1 - 3 * by;
                let a2 = x2 - 3 * bx;
                let b2 = y2 - 3 * by;
                assert(0 <= a1 < 3 && 0 <= b1 < 3 && 0 <= bx < 3 && 0 <= by < 3)
                    by (nonlinear_arith)
                    requires
                        0 <= x1 < 9 && 0 <= y1 < 9 && bx == x1 / 3 && by == y1 / 3 && a1 == x1
                            - 3 * bx && b1 == y1 - 3 * by,
                ;
                assert(0 <= a2 < 3 && 0 <= b2 < 3) by (nonlinear_arith)
                    requires
                        0 <= x2 < 9 && 0 <= y2 < 9 && x2 / 3 == bx && y2 / 3 == by && a2 == x2
                            - 3 * bx && b2 == y2 - 3 * by,
                ;
                assert(block_ok(g, bx, by));
                assert(g[idx(3 * bx + a1, 3 * by + b1)] != g[idx(3 * bx + a2, 3 * by + b2)]);
            }
        }
    }
    if no_conflicts(g) {
        assert forall|y: int| 0 <= y < 9 implies #[trigger] row_ok(g, y) by {
            assert forall|i: int, j: int|
                0 <= i < 9 && 0 <= j < 9 && i != j && #[trigger] g[idx(i, y)] != 0 implies g[idx(
                i,
                y,
            )] != #[trigger] g[idx(j, y)] by {
                assert(sees(i, y, j, y));
            }
        }
        assert forall|x: int| 0 <= x < 9 implies #[trigger] col_ok(g, x) by {
            assert forall|i: int, j: int|
                0 <= i < 9 && 0 <= j < 9 && i != j && #[trigger] g[idx(x, i)] != 0 implies g[idx(
                x,
                i,
            )] != #[trigger] g[idx(x, j)] by {
                assert(sees(x, i, x, j));
            }
        }
        assert forall|bx: int, by: int| 0 <= bx < 3 && 0 <= by < 3 implies #[trigger] block_ok(
            g,
            bx,
            by,
        ) by {
            assert forall|a1: int, b1: int, a2: int, b2: int|
                0 <= a1 < 3 && 0 <= b1 < 3 && 0 <= a2 < 3 && 0 <= b2 < 3 && (a1 != a2 || b1 != b2)
                    && #[trigger] g[idx(3 * bx + a1, 3 * by + b1)] != 0 implies g[idx(
                3 * bx + a1,
                3 * by + b1,
            )] != #[trigger] g[idx(3 * bx + a2, 3 * by + b2)] by {
                assert((3 * bx + a1) / 3 == bx && (3 * by + b1) / 3 == by && (3 * bx + a2) / 3 == bx
                    && (3 * by + b2) / 3 == by) by (nonlinear_arith)
                    requires
                        0 <= a1 < 3 && 0 <= b1 < 3 && 0 <= a2 < 3 && 0 <= b2 < 3 && 0 <= bx < 3 && 0
                            <= by < 3,
                ;
                assert(sees(3 * bx + a1, 3 * by + b1, 3 * bx + a2, 3 * by + b2));
            }
        }
    }
}

/// Filling an empty cell with a legal candidate keeps the grid well formed
/// and keeps the constraint satisfied.
pub proof fn lemma_place_candidate_keeps_valid(g: Seq<u8>, x: int, y: int, d: u8)
    requires
        grid_wf(g),
        spec_valid(g),
        in_range(x, y),
        g[idx(x, y)] == 0,
        is_candidate(g, x, y, d),
    ensures
        grid_wf(g.update(idx(x, y), d)),
        spec_valid(g.update(idx(x, y), d)),
{
    let g2 = g.update(idx(x, y), d);
    lemma_valid_iff_no_conflicts(g);
    lemma_valid_iff_no_conflicts(g2);
    assert forall|x1: int, y1: int, x2: int, y2: int|
        in_range(x1, y1) && in_range(x2, y2) && sees(x1, y1, x2, y2)
            && #[trigger] g2[idx(x1, y1)] != 0 implies g2[idx(x1, y1)]
        != #[trigger] g2[idx(x2, y2)] by {
        lemma_idx_injective();
        if x1 == x && y1 == y {
            // The new digit conflicts with nothing: it was a candidate.
            if g2[idx(x2, y2)] == d {
                lemma_group_witness(g, x, y, x2, y2, d);
            }
        } else if x2 == x && y2 == y {
            if g2[idx(x1, y1)] == d {
                lemma_group_witness(g, x, y, x1, y1, d);
            }
        } else {
            // Both cells are untouched, so the old grid already separates them.
            assert(g2[idx(x1, y1)] == g[idx(x1, y1)]);
            assert(g2[idx(x2, y2)] == g[idx(x2, y2)]);
        }
    }
}

/// Distinct in-range coordinates name distinct cell positions.
pub proof fn lemma_idx_injective()
    ensures
        forall|x1: int, y1: int, x2: int, y2: int|
            in_range(x1, y1) && in_range(x2, y2) && #[trigger] idx(x1, y1) == #[trigger] idx(
                x2,
                y2,
            ) ==> x1 == x2 && y1 == y2,
{
}

/// A cell of the group of `(x, y)` that holds digit `d` witnesses that the
/// group uses `d`.
proof fn lemma_group_witness(g: Seq<u8>, x: int, y: int, x2: int, y2: int, d: u8)
    requires
        in_range(x, y),
        in_range(x2, y2),
        sees(x, y, x2, y2),
        g[idx(x2, y2)] == d,
    ensures
        group_has(g, x, y, d),
{
    if y2 == y {
        assert(row_has(g, y, d));
    } else if x2 == x {
        assert(col_has(g, x, d));
    } else {
        let a = x2 - 3 * (x / 3);
        let b = y2 - 3 * (y / 3);
        assert(0 <= a < 3 && 0 <= b < 3) by (nonlinear_arith)
            requires
                0 <= x < 9 && 0 <= y < 9 && 0 <= x2 < 9 && 0 <= y2 < 9 && x2 / 3 == x / 3 && y2 / 3
                    == y / 3 && a == x2 - 3 * (x / 3) && b == y2 - 3 * (y / 3),
        ;
        assert(g[idx(3 * (x / 3) + a, 3 * (y / 3) + b)] == d);
        assert(block_has(g, x, y, d));
    }
}

/// In any solution, the digit standing at a cell that the puzzle leaves empty
/// is a legal candidate for that cell in the puzzle itself.
pub proof fn lemma_solution_digit_is_candidate(g: Seq<u8>, h: Seq<u8>, x: int, y: int)
    requires
        grid_wf(g),
        in_range(x, y),
        g[idx(x, y)] == 0,
        is_solution(g, h),
    ensures
        is_candidate(g, x, y, h[idx(x, y)]),
{
    let d = h[idx(x, y)];
    assert(d != 0 && d <= 9);
    lemma_valid_iff_no_conflicts(h);
    if row_has(g, y, d) {
        let i = choose|i: int| 0 <= i < 9 && g[idx(i, y)] == d;
        assert(h[idx(i, y)] == d);
        assert(sees(x, y, i, y));
        assert(false);
    }
    if col_has(g, x, d) {
        let i = choose|i: int| 0 <= i < 9 && g[idx(x, i)] == d;
        assert(h[idx(x, i)] == d);
        assert(sees(x, y, x, i));
        assert(false);
    }
    if block_has(g, x, y, d) {
        let (a, b) = choose|a: int, b: int|
            0 <= a < 3 && 0 <= b < 3 && #[trigger] g[idx(3 * (x / 3) + a, 3 * (y / 3) + b)] == d;
        let x2 = 3 * (x / 3) + a;
        let y2 = 3 * (y / 3) + b;
        assert(in_range(x2, y2) && x2 / 3 == x / 3 && y2 / 3 == y / 3) by (nonlinear_arith)
            requires
                0 <= x < 9 && 0 <= y < 9 && 0 <= a < 3 && 0 <= b < 3 && x2 == 3 * (x / 3) + a && y2
                    == 3 * (y / 3) + b,
        ;
        assert(h[idx(x2, y2)] == d);
        assert(x2 != x || y2 != y);
        assert(sees(x, y, x2, y2));
        assert(false);
    }
}

/// A puzzle with an empty cell that no digit can legally fill has no
/// solution.
pub proof fn lemma_no_candidates_unsolvable(g: Seq<u8>, x: int, y: int)
    requires
        grid_wf(g),
        in_range(x, y),
        g[idx(x, y)] == 0,
        forall|d: u8| !is_candidate(g, x, y, d),
    ensures
        !solvable(g),
{
    if solvable(g) {
        let h = choose|h: Seq<u8>| is_solution(g, h);
        lemma_solution_digit_is_candidate(g, h, x, y);
    }
}

/// Whatever extends a grid inherits its conflicts: if the extension obeys
/// the constraint, so did the grid.  In particular an invalid puzzle has no
/// solution.
pub proof fn lemma_extends_preserves_valid(g: Seq<u8>, h: Seq<u8>)
    requires
        g.len() == 81,
        extends(g, h),
        spec_valid(h),
    ensures
        spec_valid(g),
{
    lemma_valid_iff_no_conflicts(g);
    lemma_valid_iff_no_conflicts(h);
    assert forall|x1: int, y1: int, x2: int, y2: int|
        in_range(x1, y1) && in_range(x2, y2) && sees(x1, y1, x2, y2)
            && #[trigger] g[idx(x1, y1)] != 0 implies g[idx(x1, y1)]
        != #[trigger] g[idx(x2, y2)] by {
        assert(h[idx(x1, y1)] == g[idx(x1, y1)]);
        if g[idx(x2, y2)] != 0 {
            assert(h[idx(x2, y2)] == g[idx(x2, y2)]);
        }
    }
}

/// Solving the puzzle after one of its empty cells is filled with `d` is the
/// same as solving the original puzzle with that cell pinned to `d`.
pub proof fn lemma_solution_after_update(g: Seq<u8>, h: Seq<u8>, x: int, y: int, d: u8)
    requires
        g.len() == 81,
        in_range(x, y),
        g[idx(x, y)] == 0,
        d != 0,
    ensures
        is_solution(g.update(idx(x, y), d), h) <==> (is_solution(g, h) && h[idx(x, y)] == d),
{
    let g2 = g.update(idx(x, y), d);
    assert(0 <= idx(x, y) < 81);
    if is_solution(g2, h) {
        assert forall|i: int| 0 <= i < 81 && #[trigger] g[i] != 0 implies h[i] == g[i] by {
            assert(g2[i] == g[i]);
        }
        assert(g2[idx(x, y)] != 0);
        assert(h[idx(x, y)] == g2[idx(x, y)]);
        assert(is_solution(g, h) && h[idx(x, y)] == d);
    }
    if is_solution(g, h) && h[idx(x, y)] == d {
        assert forall|i: int| 0 <= i < 81 && #[trigger] g2[i] != 0 implies h[i] == g2[i] by {
            if i != idx(x, y) {
                assert(g2[i] == g[i]);
            }
        }
    }
}

/// A complete, constraint-obeying grid is its own solution, and no other grid
/// solves it: the search must return it unchanged.
pub proof fn lemma_complete_valid_unique_solution(g: Seq<u8>)
    requires
        grid_wf(g),
        spec_complete(g),
        spec_valid(g),
    ensures
        is_solution(g, g),
        forall|h: Seq<u8>| is_solution(g, h) ==> h == g,
{
    assert(extends(g, g));
    assert forall|h: Seq<u8>| is_solution(g, h) implies h == g by {
        assert forall|i: int| 0 <= i < 81 implies h[i] == g[i] by {
            assert(g[i] != 0);
        }
        assert(h =~= g);
    }
}

/// A digit repeated at two distinct cells of one row, one column or one
/// square makes the grid invalid: the validity check admits no false
/// negative under duplication.
pub proof fn lemma_duplicate_is_invalid(g: Seq<u8>, x1: int, y1: int, x2: int, y2: int)
    requires
        g.len() == 81,
        in_range(x1, y1),
        in_range(x2, y2),
        sees(x1, y1, x2, y2),
        g[idx(x1, y1)] != 0,
        g[idx(x1, y1)] == g[idx(x2, y2)],
    ensures
        !spec_valid(g),
{
    lemma_valid_iff_no_conflicts(g);
}

/// The all-empty grid is valid — zeros never conflict — and not complete.
pub proof fn lemma_empty_grid_valid(g: Seq<u8>)
    requires
        g.len() == 81,
        forall|i: int| 0 <= i < 81 ==> #[trigger] g[i] == 0,
    ensures
        spec_valid(g),
        !spec_complete(g),
{
    lemma_valid_iff_no_conflicts(g);
    assert(g[0] == 0);
}

/// How many of the first `n` cells are empty.
pub open spec fn count_empty_to(g: Seq<u8>, n: int) -> int
    decreases n,
{
    if n <= 0 {
        0
    } else {
        count_empty_to(g, n - 1) + if g[n - 1] == 0 { 1int } else { 0int }
    }
}

/// How many cells of the grid are empty.
pub open spec fn count_empty(g: Seq<u8>) -> int {
    count_empty_to(g, 81)
}

proof fn lemma_count_empty_to_update(g: Seq<u8>, i: int, d: u8, n: int)
    requires
        0 <= i < g.len(),
        g[i] == 0,
        d != 0,
        n <= g.len(),
    ensures
        count_empty_to(g.update(i, d), n) == count_empty_to(g, n) - if i < n {
            1int
        } else {
            0int
        },
    decreases n,
{
    if n > 0 {
        lemma_count_empty_to_update(g, i, d, n - 1);
    }
}

/// Filling an empty cell reduces the number of empty cells by one.
pub proof fn lemma_count_empty_update(g: Seq<u8>, i: int, d: u8)
    requires
        g.len() == 81,
        0 <= i < 81,
        g[i] == 0,
        d != 0,
    ensures
        count_empty(g.update(i, d)) == count_empty(g) - 1,
{
    lemma_count_empty_to_update(g, i, d, 81);
}

proof fn lemma_count_empty_to_set(g: Seq<u8>, i: int, d: u8, n: int)
    requires
        0 <= i < g.len(),
        n <= g.len(),
    ensures
        count_empty_to(g.update(i, d), n) == count_empty_to(g, n) + if i < n {
            (if d == 0 {
                1int
            } else {
                0int
            }) - (if g[i] == 0 {
                1int
            } else {
                0int
            })
        } else {
            0int
        },
    decreases n,
{
    if n > 0 {
        lemma_count_empty_to_set(g, i, d, n - 1);
    }
}

/// How overwriting one cell changes the number of empty cells.
pub proof fn lemma_count_empty_set(g: Seq<u8>, i: int, d: u8)
    requires
        g.len() == 81,
        0 <= i < 81,
    ensures
        count_empty(g.update(i, d)) == count_empty(g) + (if d == 0 {
            1int
        } else {
            0int
        }) - (if g[i] == 0 {
            1int
        } else {
            0int
        }),
{
    lemma_count_empty_to_set(g, i, d, 81);
}

proof fn lemma_count_empty_to_bounds(g: Seq<u8>, n: int)
    requires
        n <= g.len(),
    ensures
        0 <= count_empty_to(g, n) <= if n >= 0 {
            n
        } else {
            0int
        },
    decreases n,
{
    if n > 0 {
        lemma_count_empty_to_bounds(g, n - 1);
    }
}

/// The number of empty cells lies between zero and eighty-one.
pub proof fn lemma_count_empty_bounds(g: Seq<u8>)
    requires
        g.len() == 81,
    ensures
        0 <= count_empty(g) <= 81,
{
    lemma_count_empty_to_bounds(g, 81);
}

proof fn lemma_count_empty_to_pos(g: Seq<u8>, i: int, n: int)
    requires
        0 <= i < n <= g.len(),
        g[i] == 0,
    ensures
        count_empty_to(g, n) >= 1,
    decreases n,
{
    if i < n - 1 {
        lemma_count_empty_to_pos(g, i, n - 1);
        lemma_count_empty_to_bounds(g, n - 1);
    } else {
        lemma_count_empty_to_bounds(g, n - 1);
    }
}

proof fn lemma_count_empty_to_complete(g: Seq<u8>, n: int)
    requires
        n <= g.len(),
        spec_complete(g),
        g.len() == 81,
    ensures
        count_empty_to(g, n) == 0,
    decreases n,
{
    if n > 0 {
        lemma_count_empty_to_complete(g, n - 1);
    }
}

/// A complete grid has no empty cell to count.
pub proof fn lemma_count_empty_complete(g: Seq<u8>)
    requires
        g.len() == 81,
        spec_complete(g),
    ensures
        count_empty(g) == 0,
{
    lemma_count_empty_to_complete(g, 81);
}

/// A grid with an empty cell has a positive count of empty cells.
pub proof fn lemma_count_empty_pos(g: Seq<u8>, i: int)
    requires
        g.len() == 81,
        0 <= i < 81,
        g[i] == 0,
    ensures
        count_empty(g) >= 1,
{
    lemma_count_empty_to_pos(g, i, 81);
}

} // verus!
