//! Solving routines: the validity check, the completeness check, candidate
//! computation, the most-constrained-cell heuristic, and the backtracking
//! search, exposed both as a one-shot [`solve`] and as the lazy
//! [`SolutionIter`] enumerator.

use vstd::prelude::*;

use crate::board::Board;
use crate::board::BOARD_SIZE;
use crate::board::SQUARE_SIZE;
use crate::grid::block_ok;
use crate::grid::col_ok;
use crate::grid::count_empty;
use crate::grid::extends;
use crate::grid::grid_wf;
use crate::grid::group_has;
use crate::grid::idx;
use crate::grid::in_range;
use crate::grid::lemma_complete_valid_unique_solution;
use crate::grid::lemma_count_empty_bounds;
use crate::grid::lemma_count_empty_update;
use crate::grid::lemma_extends_preserves_valid;
use crate::grid::lemma_no_candidates_unsolvable;
use crate::grid::lemma_place_candidate_keeps_valid;
use crate::grid::lemma_solution_after_update;
use crate::grid::lemma_solution_digit_is_candidate;
use crate::grid::is_candidate;
use crate::grid::is_solution;
use crate::grid::row_ok;
use crate::grid::solvable;
use crate::grid::spec_complete;
use crate::grid::spec_valid;

verus! {

/// Bit `e` of mask `m` is set.
pub open spec fn bit_set(m: u16, e: u16) -> bool {
    m & (1u16 << e) != 0
}

proof fn lemma_bit_empty()
    by (bit_vector)
    ensures
        forall|e: u16| e < 16 ==> !#[trigger] bit_set(0u16, e),
{
}

proof fn lemma_bit_or_single(m: u16, d: u16)
    by (bit_vector)
    requires
        d < 16,
    ensures
        forall|e: u16|
            e < 16 ==> (#[trigger] bit_set(m | (1u16 << d), e) <==> bit_set(m, e) || e == d),
{
}

/// Test whether a board state obeys the constraints of the game.
///
/// The constraints are:
///
/// * No digit 1-9 is repeated in any given row, column or square.
///
/// Note that zeroes represent unfilled cells, and do not count as duplicates.
pub fn valid(b: &Board) -> (r: bool)
    requires
        b.wf(),
    ensures
        r == spec_valid(b@),
{
    proof {
        b.lemma_view_masks();
    }
    // Reject out-of-range cell values outright.  Under the mask invariant
    // this pass finds nothing, but a caller that ignored the one-hot
    // precondition of `set_cell_as_mask` is answered with "invalid" rather
    // than with an arbitrary verdict.
    let mut cy: usize = 0;
    while cy < BOARD_SIZE
        invariant
            b.wf(),
            cy <= 9,
        decreases 9 - cy,
    {
        let mut cx: usize = 0;
        while cx < BOARD_SIZE
            invariant
                b.wf(),
                cy < 9,
                cx <= 9,
            decreases 9 - cx,
        {
            if b.get_cell(cx, cy) > 9 {
                return false;
            }
            cx = cx + 1;
        }
        cy = cy + 1;
    }
    // Check rows.
    let mut y: usize = 0;
    while y < BOARD_SIZE
        invariant
            b.wf(),
            y <= 9,
            forall|y2: int| 0 <= y2 < y ==> #[trigger] row_ok(b@, y2),
        decreases 9 - y,
    {
        let mut seen: u16 = 0;
        let mut x: usize = 0;
        proof {
            lemma_bit_empty();
        }
        while x < BOARD_SIZE
            invariant
                b.wf(),
                y < 9,
                x <= 9,
                forall|e: u8|
                    1 <= e <= 9 ==> (#[trigger] bit_set(seen, e as u16) <==> exists|i: int|
                        0 <= i < x && #[trigger] b@[idx(i, y as int)] == e),
                forall|i: int, j: int|
                    0 <= i < x && 0 <= j < x && i != j && #[trigger] b@[idx(i, y as int)] != 0
                        ==> b@[idx(i, y as int)] != #[trigger] b@[idx(j, y as int)],
            decreases 9 - x,
        {
            let d = b.get_cell(x, y);
            if d != 0 && seen & (1u16 << (d as u16)) != 0 {
                proof {
                    assert(bit_set(seen, d as u16));
                    let i = choose|i: int| 0 <= i < x && #[trigger] b@[idx(i, y as int)] == d;
                    assert(!row_ok(b@, y as int)) by {
                        if row_ok(b@, y as int) {
                            assert(b@[idx(i, y as int)] != b@[idx(x as int, y as int)]);
                        }
                    }
                }
                return false;
            }
            proof {
                lemma_bit_or_single(seen, d as u16);
                assert forall|i2: int, j2: int|
                    0 <= i2 < x + 1 && 0 <= j2 < x + 1 && i2 != j2 && #[trigger] b@[idx(
                        i2,
                        y as int,
                    )] != 0 implies b@[idx(i2, y as int)] != #[trigger] b@[idx(
                    j2,
                    y as int,
                )] by {
                    if j2 == x && b@[idx(i2, y as int)] == b@[idx(x as int, y as int)] {
                        assert(b@[idx(i2, y as int)] == d);
                        assert(bit_set(seen, d as u16));
                    }
                    if i2 == x && b@[idx(i2, y as int)] == b@[idx(j2, y as int)] {
                        assert(b@[idx(j2, y as int)] == d);
                        assert(bit_set(seen, d as u16));
                    }
                }
            }
            seen = seen | (1u16 << (d as u16));
            x = x + 1;
        }
        y = y + 1;
    }
    // Check columns.
    let mut x: usize = 0;
    while x < BOARD_SIZE
        invariant
            b.wf(),
            x <= 9,
            forall|y2: int| 0 <= y2 < 9 ==> #[trigger] row_ok(b@, y2),
            forall|x2: int| 0 <= x2 < x ==> #[trigger] col_ok(b@, x2),
        decreases 9 - x,
    {
        let mut seen: u16 = 0;
        let mut y: usize = 0;
        proof {
            lemma_bit_empty();
        }
        while y < BOARD_SIZE
            invariant
                b.wf(),
                x < 9,
                y <= 9,
                forall|e: u8|
                    1 <= e <= 9 ==> (#[trigger] bit_set(seen, e as u16) <==> exists|i: int|
                        0 <= i < y && #[trigger] b@[idx(x as int, i)] == e),
                forall|i: int, j: int|
                    0 <= i < y && 0 <= j < y && i != j && #[trigger] b@[idx(x as int, i)] != 0
                        ==> b@[idx(x as int, i)] != #[trigger] b@[idx(x as int, j)],
            decreases 9 - y,
        {
            let d = b.get_cell(x, y);
            if d != 0 && seen & (1u16 << (d as u16)) != 0 {
                proof {
                    assert(bit_set(seen, d as u16));
                    let i = choose|i: int| 0 <= i < y && #[trigger] b@[idx(x as int, i)] == d;
                    assert(!col_ok(b@, x as int)) by {
                        if col_ok(b@, x as int) {
                            assert(b@[idx(x as int, i)] != b@[idx(x as int, y as int)]);
                        }
                    }
                }
                return false;
            }
            proof {
                lemma_bit_or_single(seen, d as u16);
                assert forall|i2: int, j2: int|
                    0 <= i2 < y + 1 && 0 <= j2 < y + 1 && i2 != j2 && #[trigger] b@[idx(
                        x as int,
                        i2,
                    )] != 0 implies b@[idx(x as int, i2)] != #[trigger] b@[idx(
                    x as int,
                    j2,
                )] by {
                    if j2 == y && b@[idx(x as int, i2)] == b@[idx(x as int, y as int)] {
                        assert(b@[idx(x as int, i2)] == d);
                        assert(bit_set(seen, d as u16));
                    }
                    if i2 == y && b@[idx(x as int, i2)] == b@[idx(x as int, j2)] {
                        assert(b@[idx(x as int, j2)] == d);
                        assert(bit_set(seen, d as u16));
                    }
                }
            }
            seen = seen | (1u16 << (d as u16));
            y = y + 1;
        }
        x = x + 1;
    }
    // Check squares.
    let mut square: usize = 0;
    while square < BOARD_SIZE
        invariant
            b.wf(),
            square <= 9,
            forall|y2: int| 0 <= y2 < 9 ==> #[trigger] row_ok(b@, y2),
            forall|x2: int| 0 <= x2 < 9 ==> #[trigger] col_ok(b@, x2),
            forall|s: int| 0 <= s < square ==> #[trigger] block_ok(b@, s % 3, s / 3),
        decreases 9 - square,
    {
        let xs = SQUARE_SIZE * (square % SQUARE_SIZE);
        let ys = SQUARE_SIZE * (square / SQUARE_SIZE);
        let ghost bx = (square % 3) as int;
        let ghost by = (square / 3) as int;
        let mut seen: u16 = 0;
        let mut i: usize = 0;
        proof {
            lemma_bit_empty();
        }
        while i < BOARD_SIZE
            invariant
                b.wf(),
                square < 9,
                xs == 3 * bx && ys == 3 * by && 0 <= bx < 3 && 0 <= by < 3,
                i <= 9,
                forall|e: u8|
                    1 <= e <= 9 ==> (#[trigger] bit_set(seen, e as u16) <==> exists|k: int|
                        0 <= k < i && #[trigger] b@[idx(3 * bx + k % 3, 3 * by + k / 3)] == e),
                forall|k1: int, k2: int|
                    0 <= k1 < i && 0 <= k2 < i && k1 != k2 && #[trigger] b@[idx(
                        3 * bx + k1 % 3,
                        3 * by + k1 / 3,
                    )] != 0 ==> b@[idx(3 * bx + k1 % 3, 3 * by + k1 / 3)] != #[trigger] b@[idx(
                        3 * bx + k2 % 3,
                        3 * by + k2 / 3,
                    )],
            decreases 9 - i,
        {
            let cx = xs + i % 3;
            let cy = ys + i / 3;
            assert(cx == 3 * bx + (i as int) % 3 && cy == 3 * by + (i as int) / 3 && cx < 9 && cy
                < 9);
            let d = b.get_cell(cx, cy);
            if d != 0 && seen & (1u16 << (d as u16)) != 0 {
                proof {
                    assert(bit_set(seen, d as u16));
                    let k = choose|k: int|
                        0 <= k < i && #[trigger] b@[idx(3 * bx + k % 3, 3 * by + k / 3)] == d;
                    assert(!block_ok(b@, bx, by)) by {
                        if block_ok(b@, bx, by) {
                            let a1 = k % 3;
                            let b1 = k / 3;
                            let a2 = (i as int) % 3;
                            let b2 = (i as int) / 3;
                            assert(a1 != a2 || b1 != b2);
                            assert(b@[idx(3 * bx + a1, 3 * by + b1)] != b@[idx(
                                3 * bx + a2,
                                3 * by + b2,
                            )]);
                        }
                    }
                    assert(!spec_valid(b@));
                }
                return false;
            }
            proof {
                lemma_bit_or_single(seen, d as u16);
                assert forall|k1: int, k2: int|
                    0 <= k1 < i + 1 && 0 <= k2 < i + 1 && k1 != k2 && #[trigger] b@[idx(
                        3 * bx + k1 % 3,
                        3 * by + k1 / 3,
                    )] != 0 implies b@[idx(3 * bx + k1 % 3, 3 * by + k1 / 3)] != #[trigger] b@[idx(
                    3 * bx + k2 % 3,
                    3 * by + k2 / 3,
                )] by {
                    if k2 == i && b@[idx(3 * bx + k1 % 3, 3 * by + k1 / 3)] == b@[idx(
                        3 * bx + (i as int) % 3,
                        3 * by + (i as int) / 3,
                    )] {
                        assert(b@[idx(3 * bx + k1 % 3, 3 * by + k1 / 3)] == d);
                        assert(bit_set(seen, d as u16));
                    }
                    if k1 == i && b@[idx(3 * bx + k1 % 3, 3 * by + k1 / 3)] == b@[idx(
                        3 * bx + k2 % 3,
                        3 * by + k2 / 3,
                    )] {
                        assert(b@[idx(3 * bx + k2 % 3, 3 * by + k2 / 3)] == d);
                        assert(bit_set(seen, d as u16));
                    }
                }
            }
            seen = seen | (1u16 << (d as u16));
            i = i + 1;
        }
        proof {
            assert(block_ok(b@, bx, by)) by {
                assert forall|a1: int, b1: int, a2: int, b2: int|
                    0 <= a1 < 3 && 0 <= b1 < 3 && 0 <= a2 < 3 && 0 <= b2 < 3 && (a1 != a2 || b1
                        != b2) && #[trigger] b@[idx(3 * bx + a1, 3 * by + b1)] != 0 implies b@[idx(
                    3 * bx + a1,
                    3 * by + b1,
                )] != #[trigger] b@[idx(3 * bx + a2, 3 * by + b2)] by {
                    let k1 = 3 * b1 + a1;
                    let k2 = 3 * b2 + a2;
                    assert(k1 % 3 == a1 && k1 / 3 == b1 && k2 % 3 == a2 && k2 / 3 == b2)
                        by (nonlinear_arith)
                        requires
                            0 <= a1 < 3 && 0 <= b1 < 3 && 0 <= a2 < 3 && 0 <= b2 < 3 && k1 == 3 * b1
                                + a1 && k2 == 3 * b2 + a2,
                    ;
                    assert(0 <= k1 < 9 && 0 <= k2 < 9 && k1 != k2);
                }
            }
        }
        square = square + 1;
    }
    proof {
        assert forall|bx2: int, by2: int| 0 <= bx2 < 3 && 0 <= by2 < 3 implies #[trigger] block_ok(
            b@,
            bx2,
            by2,
        ) by {
            let s = 3 * by2 + bx2;
            assert(s % 3 == bx2 && s / 3 == by2) by (nonlinear_arith)
                requires
                    0 <= bx2 < 3 && 0 <= by2 < 3 && s == 3 * by2 + bx2,
            ;
            assert(0 <= s < 9);
            assert(block_ok(b@, s % 3, s / 3));
        }
    }
    true
}

proof fn lemma_bit_one()
    by (bit_vector)
    ensures
        forall|e: u16| 1 <= e < 16 ==> !#[trigger] bit_set(1u16, e),
        1u16 < 1024 && 1u16 & 1 == 1,
{
}

proof fn lemma_or_keeps_bound(m: u16, d: u16)
    by (bit_vector)
    requires
        m < 1024,
        d <= 9,
    ensures
        (m | (1u16 << d)) < 1024,
        m & 1 == 1 ==> (m | (1u16 << d)) & 1 == 1,
{
}

proof fn lemma_xor_invert(m: u16)
    by (bit_vector)
    requires
        m < 1024,
        m & 1 == 1,
    ensures
        !bit_set(m ^ 0x3ffu16, 0),
        (m ^ 0x3ffu16) < 1024,
        forall|e: u16| e < 10 ==> (#[trigger] bit_set(m ^ 0x3ffu16, e) <==> !bit_set(m, e)),
{
}

/// Compute the set of digits which may legally be placed in the cell at
/// column `x` and row `y`, as a bitmask: bit `d` is set exactly when digit
/// `d` appears nowhere in the cell's row, column or three-by-three square.
pub fn valid_choices_for_cell(b: &Board, x: usize, y: usize) -> (r: u16)
    requires
        b.wf(),
        x < 9,
        y < 9,
    ensures
        !bit_set(r, 0),
        r < 1024,
        forall|d: u8|
            1 <= d <= 9 ==> (#[trigger] bit_set(r, d as u16) <==> is_candidate(
                b@,
                x as int,
                y as int,
                d,
            )),
{
    proof {
        b.lemma_view_masks();
        lemma_bit_one();
        lemma_bit_empty();
    }
    let mut cs: u16 = 0b00_0000_0001;
    let xs = SQUARE_SIZE * (x / SQUARE_SIZE);
    let ys = SQUARE_SIZE * (y / SQUARE_SIZE);
    let ghost bx = (x / 3) as int;
    let ghost by = (y / 3) as int;
    // Gather a mask of already-used values.
    let mut i: usize = 0;
    while i < BOARD_SIZE
        invariant
            b.wf(),
            x < 9,
            y < 9,
            i <= 9,
            xs == 3 * bx && ys == 3 * by && 0 <= bx < 3 && 0 <= by < 3,
            bx == (x as int) / 3 && by == (y as int) / 3,
            cs < 1024,
            cs & 1 == 1,
            forall|e: u8|
                1 <= e <= 9 ==> (#[trigger] bit_set(cs, e as u16) <==> scanned_used(
                    b@,
                    x as int,
                    y as int,
                    bx,
                    by,
                    i as int,
                    e,
                )),
        decreases 9 - i,
    {
        proof {
            b.lemma_view_masks();
        }
        let m1 = b.get_cell_as_mask(x, i);
        let m2 = b.get_cell_as_mask(i, y);
        let m3 = b.get_cell_as_mask(xs + i % 3, ys + i / 3);
        let ghost d1 = b@[idx(x as int, i as int)];
        let ghost d2 = b@[idx(i as int, y as int)];
        let ghost ba = (i as int) % 3;
        let ghost bc = (i as int) / 3;
        let ghost d3 = b@[idx(3 * bx + ba, 3 * by + bc)];
        proof {
            lemma_bit_or_single(cs, d1 as u16);
            lemma_or_keeps_bound(cs, d1 as u16);
            lemma_bit_or_single(cs | m1, d2 as u16);
            lemma_or_keeps_bound(cs | m1, d2 as u16);
            lemma_bit_or_single(cs | m1 | m2, d3 as u16);
            lemma_or_keeps_bound(cs | m1 | m2, d3 as u16);
            assert(0 <= ba < 3 && 0 <= bc < 3 && 3 * bc + ba == i as int);
            assert forall|e: u8|
                1 <= e <= 9 implies (#[trigger] bit_set(cs | m1 | m2 | m3, e as u16)
                <==> scanned_used(b@, x as int, y as int, bx, by, i + 1, e)) by {
                let xi = x as int;
                let yi = y as int;
                let n = i as int;
                if bit_set(cs | m1 | m2 | m3, e as u16) {
                    if bit_set(cs, e as u16) {
                        lemma_scanned_used_grow(b@, xi, yi, bx, by, n, e);
                    } else {
                        assert(e == d1 || e == d2 || e == d3);
                        if e == d1 {
                            assert(b@[idx(xi, n)] == e);
                        } else if e == d2 {
                            assert(b@[idx(n, yi)] == e);
                        } else {
                            assert(b@[idx(3 * bx + ba, 3 * by + bc)] == e);
                        }
                        assert(scanned_used(b@, xi, yi, bx, by, n + 1, e));
                    }
                } else {
                    assert(!bit_set(cs, e as u16) && e != d1 && e != d2 && e != d3);
                    if scanned_used(b@, xi, yi, bx, by, n + 1, e) {
                        lemma_scanned_used_last(b@, xi, yi, bx, by, n, e);
                        assert(scanned_used(b@, xi, yi, bx, by, n, e) || b@[idx(xi, n)] == e
                            || b@[idx(n, yi)] == e || b@[idx(3 * bx + ba, 3 * by + bc)] == e);
                        assert(false);
                    }
                }
            }
        }
        cs = cs | m1 | m2 | m3;
        i = i + 1;
    }
    proof {
        assert forall|d: u8| 1 <= d <= 9 implies (#[trigger] bit_set(cs, d as u16) <==> group_has(
            b@,
            x as int,
            y as int,
            d,
        )) by {
            lemma_scanned_used_full(b@, x as int, y as int, bx, by, d);
        }
        lemma_xor_invert(cs);
    }
    // Invert the mask to indicate which choices are still available.
    cs ^ 0b11_1111_1111u16
}

/// Digit `e` stands at one of the first `n` cells scanned of the column of
/// `x`, the row of `y`, or the square `(bx, by)`.
spec fn scanned_used(g: Seq<u8>, x: int, y: int, bx: int, by: int, n: int, e: u8) -> bool {
    ||| exists|k: int| 0 <= k < n && #[trigger] g[idx(x, k)] == e
    ||| exists|k: int| 0 <= k < n && #[trigger] g[idx(k, y)] == e
    ||| exists|a: int, c: int|
        0 <= a < 3 && 0 <= c < 3 && 3 * c + a < n && #[trigger] g[idx(3 * bx + a, 3 * by + c)]
            == e
}

proof fn lemma_scanned_used_grow(g: Seq<u8>, x: int, y: int, bx: int, by: int, n: int, e: u8)
    requires
        scanned_used(g, x, y, bx, by, n, e),
    ensures
        scanned_used(g, x, y, bx, by, n + 1, e),
{
    if exists|k: int| 0 <= k < n && #[trigger] g[idx(x, k)] == e {
        let k = choose|k: int| 0 <= k < n && #[trigger] g[idx(x, k)] == e;
        assert(0 <= k < n + 1 && g[idx(x, k)] == e);
    } else if exists|k: int| 0 <= k < n && #[trigger] g[idx(k, y)] == e {
        let k = choose|k: int| 0 <= k < n && #[trigger] g[idx(k, y)] == e;
        assert(0 <= k < n + 1 && g[idx(k, y)] == e);
    } else {
        let (a, c) = choose|a: int, c: int|
            0 <= a < 3 && 0 <= c < 3 && 3 * c + a < n && #[trigger] g[idx(3 * bx + a, 3 * by + c)]
                == e;
        assert(0 <= a < 3 && 0 <= c < 3 && 3 * c + a < n + 1 && g[idx(3 * bx + a, 3 * by + c)]
            == e);
    }
}

proof fn lemma_scanned_used_last(g: Seq<u8>, x: int, y: int, bx: int, by: int, n: int, e: u8)
    requires
        0 <= n < 9,
        scanned_used(g, x, y, bx, by, n + 1, e),
    ensures
        scanned_used(g, x, y, bx, by, n, e) || g[idx(x, n)] == e || g[idx(n, y)] == e || g[idx(
            3 * bx + n % 3,
            3 * by + n / 3,
        )] == e,
{
    if exists|k: int| 0 <= k < n + 1 && #[trigger] g[idx(x, k)] == e {
        let k = choose|k: int| 0 <= k < n + 1 && #[trigger] g[idx(x, k)] == e;
        if k < n {
            assert(scanned_used(g, x, y, bx, by, n, e));
        }
    } else if exists|k: int| 0 <= k < n + 1 && #[trigger] g[idx(k, y)] == e {
        let k = choose|k: int| 0 <= k < n + 1 && #[trigger] g[idx(k, y)] == e;
        if k < n {
            assert(scanned_used(g, x, y, bx, by, n, e));
        }
    } else {
        let (a, c) = choose|a: int, c: int|
            0 <= a < 3 && 0 <= c < 3 && 3 * c + a < n + 1 && #[trigger] g[idx(
                3 * bx + a,
                3 * by + c,
            )] == e;
        if 3 * c + a < n {
            assert(scanned_used(g, x, y, bx, by, n, e));
        } else {
            assert(3 * c + a == n);
            assert(a == n % 3 && c == n / 3) by (nonlinear_arith)
                requires
                    0 <= a < 3 && 0 <= c < 3 && 3 * c + a == n,
            ;
        }
    }
}

proof fn lemma_scanned_used_full(g: Seq<u8>, x: int, y: int, bx: int, by: int, e: u8)
    requires
        in_range(x, y),
        bx == x / 3,
        by == y / 3,
    ensures
        scanned_used(g, x, y, bx, by, 9, e) <==> group_has(g, x, y, e),
{
    if scanned_used(g, x, y, bx, by, 9, e) {
        if exists|k: int| 0 <= k < 9 && #[trigger] g[idx(x, k)] == e {
            assert(crate::grid::col_has(g, x, e));
        } else if exists|k: int| 0 <= k < 9 && #[trigger] g[idx(k, y)] == e {
            assert(crate::grid::row_has(g, y, e));
        } else {
            let (a, c) = choose|a: int, c: int|
                0 <= a < 3 && 0 <= c < 3 && 3 * c + a < 9 && #[trigger] g[idx(
                    3 * bx + a,
                    3 * by + c,
                )] == e;
            assert(g[idx(3 * (x / 3) + a, 3 * (y / 3) + c)] == e);
            assert(crate::grid::block_has(g, x, y, e));
        }
    }
    if group_has(g, x, y, e) {
        if crate::grid::row_has(g, y, e) {
            let k = choose|k: int| 0 <= k < 9 && #[trigger] g[idx(k, y)] == e;
            assert(0 <= k < 9 && g[idx(k, y)] == e);
        } else if crate::grid::col_has(g, x, e) {
            let k = choose|k: int| 0 <= k < 9 && #[trigger] g[idx(x, k)] == e;
            assert(0 <= k < 9 && g[idx(x, k)] == e);
        } else {
            let (a, c) = choose|a: int, c: int|
                0 <= a < 3 && 0 <= c < 3 && #[trigger] g[idx(3 * (x / 3) + a, 3 * (y / 3) + c)]
                    == e;
            assert(0 <= a < 3 && 0 <= c < 3 && 3 * c + a < 9 && g[idx(3 * bx + a, 3 * by + c)]
                == e);
        }
        assert(scanned_used(g, x, y, bx, by, 9, e));
    }
}

/// How many of the digits from `d` upwards are legal candidates for the
/// cell at column `x` and row `y`.
pub open spec fn cand_count_from(g: Seq<u8>, x: int, y: int, d: int) -> int
    decreases 10 - d,
{
    if d < 1 || d >= 10 {
        0
    } else {
        (if is_candidate(g, x, y, d as u8) {
            1int
        } else {
            0int
        }) + cand_count_from(g, x, y, d + 1)
    }
}

/// How many digits are legal candidates for the cell at column `x` and row
/// `y`.
pub open spec fn cand_count(g: Seq<u8>, x: int, y: int) -> int {
    cand_count_from(g, x, y, 1)
}

/// How many of the digit bits from `d` upwards a candidate mask has set.
spec fn digit_count_from(cs: u16, d: int) -> int
    decreases 10 - d,
{
    if d < 1 || d >= 10 {
        0
    } else {
        (if bit_set(cs, d as u16) {
            1int
        } else {
            0int
        }) + digit_count_from(cs, d + 1)
    }
}

proof fn lemma_counts_match(g: Seq<u8>, x: int, y: int, cs: u16, d: int)
    requires
        1 <= d <= 10,
        forall|e: u8|
            1 <= e <= 9 ==> (#[trigger] bit_set(cs, e as u16) <==> is_candidate(g, x, y, e)),
    ensures
        digit_count_from(cs, d) == cand_count_from(g, x, y, d),
    decreases 10 - d,
{
    if d < 10 {
        lemma_counts_match(g, x, y, cs, d + 1);
    }
}

proof fn lemma_nonzero_mask_has_digit(m: u16)
    by (bit_vector)
    requires
        m != 0,
        m < 1024,
        !bit_set(m, 0),
    ensures
        bit_set(m, 1) || bit_set(m, 2) || bit_set(m, 3) || bit_set(m, 4) || bit_set(m, 5)
            || bit_set(m, 6) || bit_set(m, 7) || bit_set(m, 8) || bit_set(m, 9),
{
}

proof fn lemma_digit_count_nonneg(cs: u16, d: int)
    ensures
        digit_count_from(cs, d) >= 0,
    decreases 10 - d,
{
    if 1 <= d < 10 {
        lemma_digit_count_nonneg(cs, d + 1);
    }
}

proof fn lemma_digit_count_at_least(cs: u16, d: int, e: int)
    requires
        1 <= d <= e <= 9,
        bit_set(cs, e as u16),
    ensures
        digit_count_from(cs, d) >= 1,
    decreases 10 - d,
{
    lemma_digit_count_nonneg(cs, d + 1);
    if d < e {
        lemma_digit_count_at_least(cs, d + 1, e);
    }
}

/// A candidate mask that is not empty offers at least one digit.
proof fn lemma_mask_digit_count_pos(cs: u16)
    requires
        cs != 0,
        cs < 1024,
        !bit_set(cs, 0),
    ensures
        digit_count_from(cs, 1) >= 1,
{
    lemma_nonzero_mask_has_digit(cs);
    if bit_set(cs, 1) {
        lemma_digit_count_at_least(cs, 1, 1);
    } else if bit_set(cs, 2) {
        lemma_digit_count_at_least(cs, 1, 2);
    } else if bit_set(cs, 3) {
        lemma_digit_count_at_least(cs, 1, 3);
    } else if bit_set(cs, 4) {
        lemma_digit_count_at_least(cs, 1, 4);
    } else if bit_set(cs, 5) {
        lemma_digit_count_at_least(cs, 1, 5);
    } else if bit_set(cs, 6) {
        lemma_digit_count_at_least(cs, 1, 6);
    } else if bit_set(cs, 7) {
        lemma_digit_count_at_least(cs, 1, 7);
    } else {
        if bit_set(cs, 8) {
            lemma_digit_count_at_least(cs, 1, 8);
        } else {
            lemma_digit_count_at_least(cs, 1, 9);
        }
    }
}

proof fn lemma_cand_count_none(g: Seq<u8>, x: int, y: int, d: int)
    requires
        forall|e: u8| !is_candidate(g, x, y, e),
    ensures
        cand_count_from(g, x, y, d) == 0,
    decreases 10 - d,
{
    if 1 <= d < 10 {
        lemma_cand_count_none(g, x, y, d + 1);
    }
}

/// How many digits a candidate mask offers.
fn count_candidates(cs: u16) -> (n: usize)
    ensures
        n <= 9,
        n == digit_count_from(cs, 1),
{
    let mut n: usize = 0;
    let mut d: u16 = 1;
    while d <= 9
        invariant
            1 <= d <= 10,
            n < d,
            n + digit_count_from(cs, d as int) == digit_count_from(cs, 1),
        decreases 10 - d,
    {
        if cs & (1u16 << d) != 0 {
            proof {
                assert(bit_set(cs, d as u16));
            }
            n = n + 1;
        }
        d = d + 1;
    }
    n
}

/// Find the empty cell with the fewest legal candidates.
///
/// Returns `None` exactly when some empty cell admits no digit at all — the
/// board is a dead end, and the scan never masks such a cell behind an
/// earlier, more promising one.  Returns `Some((0, 0, 0))` when no empty
/// cell remains: the board is complete.  Otherwise returns the most
/// constrained empty cell together with its candidate mask, ties broken in
/// row-major scan order.
pub fn cell_with_fewest_candidates(b: &Board) -> (r: Option<(usize, usize, u16)>)
    requires
        b.wf(),
    ensures
        (r is None <==> exists|x: int, y: int|
            in_range(x, y) && #[trigger] b@[idx(x, y)] == 0 && (forall|d: u8|
                !is_candidate(b@, x, y, d))),
        (r is None ==> !solvable(b@)),
        (r matches Some((x, y, cs)) ==> {
            &&& (cs == 0 ==> spec_complete(b@))
            &&& (cs != 0 ==> x < 9 && y < 9 && b@[idx(x as int, y as int)] == 0 && !bit_set(cs, 0)
                && cs < 1024 && (forall|d: u8|
                1 <= d <= 9 ==> (#[trigger] bit_set(cs, d as u16) <==> is_candidate(
                    b@,
                    x as int,
                    y as int,
                    d,
                ))) && cand_count(b@, x as int, y as int) >= 1 && (forall|x2: int, y2: int|
                in_range(x2, y2) && b@[idx(x2, y2)] == 0 ==> #[trigger] cand_count(b@, x2, y2)
                    >= cand_count(b@, x as int, y as int)) && (forall|x2: int, y2: int|
                in_range(x2, y2) && b@[idx(x2, y2)] == 0 && idx(x2, y2) < idx(
                    x as int,
                    y as int,
                ) ==> #[trigger] cand_count(b@, x2, y2) > cand_count(b@, x as int, y as int)))
        }),
        spec_complete(b@) ==> r == Some((0usize, 0usize, 0u16)),
{
    let mut min_x: usize = 0;
    let mut min_y: usize = 0;
    let mut min_candidates: u16 = 0;
    let mut min_count: usize = BOARD_SIZE + 1;
    // Find the cell with the least number of possible valid values.
    let mut y: usize = 0;
    while y < BOARD_SIZE
        invariant
            b.wf(),
            y <= 9,
            min_count <= 10,
            (min_candidates == 0 <==> (min_count == 10 && forall|x2: int, y2: int|
                0 <= x2 < 9 && 0 <= y2 < y ==> #[trigger] b@[idx(x2, y2)] != 0)),
            min_candidates == 0 ==> min_x == 0 && min_y == 0,
            min_candidates != 0 ==> min_x < 9 && min_y < 9 && b@[idx(
                min_x as int,
                min_y as int,
            )] == 0 && !bit_set(min_candidates, 0) && min_candidates < 1024 && (forall|d: u8|
                1 <= d <= 9 ==> (#[trigger] bit_set(min_candidates, d as u16) <==> is_candidate(
                    b@,
                    min_x as int,
                    min_y as int,
                    d,
                ))),
            min_candidates != 0 ==> 1 <= min_count && min_count == cand_count(
                b@,
                min_x as int,
                min_y as int,
            ),
            min_candidates != 0 ==> min_y < y,
            forall|x2: int, y2: int|
                0 <= x2 < 9 && 0 <= y2 < y && b@[idx(x2, y2)] == 0 ==> #[trigger] cand_count(
                    b@,
                    x2,
                    y2,
                ) >= min_count,
            forall|x2: int, y2: int|
                0 <= x2 < 9 && 0 <= y2 < y && b@[idx(x2, y2)] == 0 ==> #[trigger] cand_count(
                    b@,
                    x2,
                    y2,
                ) >= 1,
            min_candidates != 0 ==> (forall|x2: int, y2: int|
                in_range(x2, y2) && b@[idx(x2, y2)] == 0 && idx(x2, y2) < idx(
                    min_x as int,
                    min_y as int,
                ) ==> #[trigger] cand_count(b@, x2, y2) > min_count),
        decreases 9 - y,
    {
        let mut x: usize = 0;
        while x < BOARD_SIZE
            invariant
                b.wf(),
                y < 9,
                x <= 9,
                min_count <= 10,
                (min_candidates == 0 <==> (min_count == 10 && (forall|x2: int, y2: int|
                    0 <= x2 < 9 && 0 <= y2 < y ==> #[trigger] b@[idx(x2, y2)] != 0) && (
                forall|x2: int|
                    0 <= x2 < x ==> #[trigger] b@[idx(x2, y as int)] != 0))),
                min_candidates == 0 ==> min_x == 0 && min_y == 0,
                min_candidates != 0 ==> min_x < 9 && min_y < 9 && b@[idx(
                    min_x as int,
                    min_y as int,
                )] == 0 && !bit_set(min_candidates, 0) && min_candidates < 1024 && (forall|d: u8|
                    1 <= d <= 9 ==> (#[trigger] bit_set(min_candidates, d as u16)
                        <==> is_candidate(b@, min_x as int, min_y as int, d))),
                min_candidates != 0 ==> 1 <= min_count && min_count == cand_count(
                    b@,
                    min_x as int,
                    min_y as int,
                ),
                min_candidates != 0 ==> (min_y < y || (min_y == y && min_x < x)),
                forall|x2: int, y2: int|
                    0 <= x2 < 9 && 0 <= y2 < y && b@[idx(x2, y2)] == 0 ==> #[trigger] cand_count(
                        b@,
                        x2,
                        y2,
                    ) >= min_count,
                forall|x2: int|
                    0 <= x2 < x && b@[idx(x2, y as int)] == 0 ==> #[trigger] cand_count(
                        b@,
                        x2,
                        y as int,
                    ) >= min_count,
                forall|x2: int, y2: int|
                    0 <= x2 < 9 && 0 <= y2 < y && b@[idx(x2, y2)] == 0 ==> #[trigger] cand_count(
                        b@,
                        x2,
                        y2,
                    ) >= 1,
                forall|x2: int|
                    0 <= x2 < x && b@[idx(x2, y as int)] == 0 ==> #[trigger] cand_count(
                        b@,
                        x2,
                        y as int,
                    ) >= 1,
                min_candidates != 0 ==> (forall|x2: int, y2: int|
                    in_range(x2, y2) && b@[idx(x2, y2)] == 0 && idx(x2, y2) < idx(
                        min_x as int,
                        min_y as int,
                    ) ==> #[trigger] cand_count(b@, x2, y2) > min_count),
            decreases 9 - x,
        {
            if b.get_cell(x, y) == 0 {
                let cs = valid_choices_for_cell(b, x, y);
                if cs == 0 {
                    // No valid choices for this empty cell, so we need to backtrack.
                    proof {
                        lemma_bit_empty();
                        assert forall|d: u8| !is_candidate(b@, x as int, y as int, d) by {
                            if 1 <= d <= 9 {
                                assert(!bit_set(0u16, d as u16));
                                assert(!bit_set(cs, d as u16));
                            }
                        }
                        b.lemma_view_masks();
                        assert(grid_wf(b@));
                        lemma_no_candidates_unsolvable(b@, x as int, y as int);
                    }
                    return None;
                }
                let count = count_candidates(cs);
                proof {
                    lemma_counts_match(b@, x as int, y as int, cs, 1);
                    lemma_mask_digit_count_pos(cs);
                }
                if count < min_count {
                    min_x = x;
                    min_y = y;
                    min_candidates = cs;
                    min_count = count;
                }
            }
            x = x + 1;
        }
        y = y + 1;
    }
    proof {
        if min_candidates == 0 {
            assert forall|i: int| 0 <= i < 81 implies #[trigger] b@[i] != 0 by {
                let x2 = i % 9;
                let y2 = i / 9;
                assert(0 <= x2 < 9 && 0 <= y2 < 9 && i == y2 * 9 + x2) by (nonlinear_arith)
                    requires
                        0 <= i < 81 && x2 == i % 9 && y2 == i / 9,
                ;
                assert(b@[idx(x2, y2)] != 0);
            }
        } else {
            assert(b@[idx(min_x as int, min_y as int)] == 0);
            assert(!spec_complete(b@));
        }
        // The full scan saw every empty cell, so none of them is dead.
        assert(!(exists|x2: int, y2: int|
            in_range(x2, y2) && #[trigger] b@[idx(x2, y2)] == 0 && (forall|d: u8|
                !is_candidate(b@, x2, y2, d)))) by {
            if exists|x2: int, y2: int|
                in_range(x2, y2) && #[trigger] b@[idx(x2, y2)] == 0 && (forall|d: u8|
                    !is_candidate(b@, x2, y2, d)) {
                let (x2, y2) = choose|x2: int, y2: int|
                    in_range(x2, y2) && #[trigger] b@[idx(x2, y2)] == 0 && (forall|d: u8|
                        !is_candidate(b@, x2, y2, d));
                lemma_cand_count_none(b@, x2, y2, 1);
                assert(cand_count(b@, x2, y2) >= 1);
            }
        }
    }
    Some((min_x, min_y, min_candidates))
}

/// Validity is a pure function of the board's contents, never of its
/// history: any two results of the check over the same grid agree.
pub proof fn lemma_valid_deterministic(g: Seq<u8>, r1: bool, r2: bool)
    requires
        r1 == spec_valid(g),
        r2 == spec_valid(g),
    ensures
        r1 == r2,
{
}

fn real_solve(b: &Board) -> (r: Option<Board>)
    requires
        b.wf(),
        spec_valid(b@),
    ensures
        (r matches Some(s) ==> s.wf() && is_solution(b@, s@)),
        (r is None ==> !solvable(b@)),
    decreases count_empty(b@),
{
    proof {
        b.lemma_view_masks();
        assert(grid_wf(b@));
        lemma_count_empty_bounds(b@);
    }
    if complete(b) {
        proof {
            lemma_complete_valid_unique_solution(b@);
        }
        return Some(b.duplicate());
    }
    match cell_with_fewest_candidates(b) {
        None => {
            // Some empty cell has no candidate left: the puzzle is a dead
            // end.
            None
        },
        Some((x, y, cs)) => {
            proof {
                if cs == 0 {
                    assert(spec_complete(b@));
                }
            }
            // Try all the possible values for the selected cell, in ascending
            // order.
            let mut v: u8 = 1;
            while v <= 9
                invariant
                    b.wf(),
                    spec_valid(b@),
                    grid_wf(b@),
                    !spec_complete(b@),
                    1 <= v <= 10,
                    x < 9,
                    y < 9,
                    b@[idx(x as int, y as int)] == 0,
                    forall|d: u8|
                        1 <= d <= 9 ==> (#[trigger] bit_set(cs, d as u16) <==> is_candidate(
                            b@,
                            x as int,
                            y as int,
                            d,
                        )),
                    forall|d: u8|
                        1 <= d < v && #[trigger] bit_set(cs, d as u16) ==> !solvable(
                            b@.update(idx(x as int, y as int), d),
                        ),
                decreases 10 - v,
            {
                if cs & (1u16 << (v as u16)) != 0 {
                    proof {
                        assert(bit_set(cs, v as u16));
                        lemma_place_candidate_keeps_valid(b@, x as int, y as int, v);
                        lemma_count_empty_update(b@, idx(x as int, y as int), v);
                        lemma_count_empty_bounds(b@.update(idx(x as int, y as int), v));
                    }
                    let b2 = b.with_cell(x, y, v);
                    let r2 = real_solve(&b2);
                    match r2 {
                        Some(s) => {
                            proof {
                                // A solution of the extended puzzle solves the
                                // original one.
                                assert forall|i: int|
                                    0 <= i < 81 && #[trigger] b@[i] != 0 implies s@[i] == b@[i] by {
                                    assert(b2@[i] == b@[i]);
                                }
                            }
                            return Some(s);
                        },
                        None => {
                            proof {
                                assert forall|d: u8|
                                    1 <= d < v + 1 && #[trigger] bit_set(cs, d as u16)
                                    implies !solvable(b@.update(idx(x as int, y as int), d)) by {
                                    if d == v {
                                        if solvable(b2@) {
                                            assert(false);
                                        }
                                    }
                                }
                            }
                        },
                    }
                }
                v = v + 1;
            }
            proof {
                // Every candidate for the chosen cell has been ruled out, and
                // any solution would have to place one of them there.
                if solvable(b@) {
                    let h = choose|h: Seq<u8>| is_solution(b@, h);
                    lemma_solution_digit_is_candidate(b@, h, x as int, y as int);
                    let d = h[idx(x as int, y as int)];
                    assert(bit_set(cs, d as u16));
                    lemma_solution_after_update(b@, h, x as int, y as int, d);
                    assert(is_solution(b@.update(idx(x as int, y as int), d), h));
                    assert(!solvable(b@.update(idx(x as int, y as int), d)));
                    assert(false);
                }
            }
            None
        },
    }
}

/// What [`solve`] promises of its result: a returned board is a complete,
/// valid completion of the puzzle; nothing is returned exactly when no such
/// completion exists; and a board that is already complete and valid comes
/// back unchanged.
pub open spec fn solve_post(b: Board, r: Option<Board>) -> bool {
    &&& (r matches Some(s) ==> s.wf() && is_solution(b@, s@))
    &&& (r is None <==> !solvable(b@))
    &&& (spec_complete(b@) && spec_valid(b@) ==> (r matches Some(s) && s@ == b@))
}

/// Solve a puzzle.
///
/// Returns an `Option<Board>` which is either `None`, if no solution exists,
/// or a `Some` variant wrapping the first solution found.
pub fn solve(b: &Board) -> (r: Option<Board>)
    requires
        b.wf(),
    ensures
        solve_post(*b, r),
{
    proof {
        b.lemma_view_masks();
        assert(grid_wf(b@));
    }
    if !valid(b) {
        proof {
            if solvable(b@) {
                let h = choose|h: Seq<u8>| is_solution(b@, h);
                lemma_extends_preserves_valid(b@, h);
            }
        }
        return None;
    }
    let r = real_solve(b);
    proof {
        if spec_complete(b@) && spec_valid(b@) {
            lemma_complete_valid_unique_solution(b@);
            if r is None {
                assert(is_solution(b@, b@));
                assert(false);
            }
            assert(r matches Some(s) ==> s@ == b@);
        }
    }
    r
}

/// Solving is deterministic: on a puzzle with at most one solution, any two
/// results that meet [`solve`]'s contract agree, so solving the same board
/// twice yields the same first solution.
pub proof fn lemma_solve_deterministic(b: Board, r1: Option<Board>, r2: Option<Board>)
    requires
        solve_post(b, r1),
        solve_post(b, r2),
        forall|h1: Seq<u8>, h2: Seq<u8>|
            #[trigger] is_solution(b@, h1) && #[trigger] is_solution(b@, h2) ==> h1 == h2,
    ensures
        r1 is Some <==> r2 is Some,
        r1 matches Some(s1) ==> (r2 matches Some(s2) && s1@ == s2@),
{
    match (r1, r2) {
        (Some(s1), Some(s2)) => {
            assert(is_solution(b@, s1@) && is_solution(b@, s2@));
        },
        _ => {},
    }
}

/// Test whether a board is complete.
///
/// A board is regarded as complete if it contains no unfilled cells.
///
/// Note that a complete board may not be a valid solution, since the game's
/// constraints may not be satisfied.
pub fn complete(b: &Board) -> (r: bool)
    requires
        b.wf(),
    ensures
        r == spec_complete(b@),
{
    let mut x: usize = 0;
    while x < BOARD_SIZE
        invariant
            b.wf(),
            x <= 9,
            forall|x2: int, y2: int|
                0 <= x2 < x && 0 <= y2 < 9 ==> #[trigger] b@[idx(x2, y2)] != 0,
        decreases 9 - x,
    {
        let mut y: usize = 0;
        while y < BOARD_SIZE
            invariant
                b.wf(),
                x < 9,
                y <= 9,
                forall|x2: int, y2: int|
                    0 <= x2 < x && 0 <= y2 < 9 ==> #[trigger] b@[idx(x2, y2)] != 0,
                forall|y2: int| 0 <= y2 < y ==> #[trigger] b@[idx(x as int, y2)] != 0,
            decreases 9 - y,
        {
            if b.get_cell(x, y) == 0 {
                return false;
            }
            y = y + 1;
        }
        x = x + 1;
    }
    proof {
        assert forall|i: int| 0 <= i < 81 implies #[trigger] b@[i] != 0 by {
            let x2 = i % 9;
            let y2 = i / 9;
            assert(0 <= x2 < 9 && 0 <= y2 < 9 && i == y2 * 9 + x2) by (nonlinear_arith)
                requires
                    0 <= i < 81 && x2 == i % 9 && y2 == i / 9,
            ;
            assert(b@[idx(x2, y2)] != 0);
        }
    }
    true
}

// ---------------------------------------------------------------------------
// The lazy solution enumerator.
// ---------------------------------------------------------------------------

#[verifier::external_type_specification]
#[verifier::external_body]
#[verifier::reject_recursive_types(T)]
pub struct ExBitIter<T>(bit_iter::BitIter<T>);

/// The positions that a `bit_iter::BitIter<u16>` has yet to yield, in the
/// order it will yield them.
pub uninterp spec fn bit_iter_seq(it: bit_iter::BitIter<u16>) -> Seq<usize>;

/// The positions of the set bits of `m` from `p` upwards, in ascending
/// order.
pub open spec fn bit_positions_from(m: u16, p: int) -> Seq<usize>
    decreases 16 - p,
{
    if p < 0 || p >= 16 {
        Seq::empty()
    } else if bit_set(m, p as u16) {
        seq![p as usize] + bit_positions_from(m, p + 1)
    } else {
        bit_positions_from(m, p + 1)
    }
}

/// The positions of the set bits of `m`, in ascending order.
pub open spec fn bit_positions(m: u16) -> Seq<usize> {
    bit_positions_from(m, 0)
}

/// Relies on `bit_iter::BitIter::from`: the iterator yields the positions of
/// the set bits of the word, from least significant to most significant.
#[verifier::external_body]
fn bit_iter_of(m: u16) -> (it: bit_iter::BitIter<u16>)
    ensures
        bit_iter_seq(it) == bit_positions(m),
{
    bit_iter::BitIter::from(m)
}

/// Relies on `bit_iter::BitIter::next`: it yields the lowest set-bit
/// position still held and clears that bit; once the word is zero it yields
/// nothing and changes nothing.
#[verifier::external_body]
fn bit_iter_next(it: &mut bit_iter::BitIter<u16>) -> (r: Option<usize>)
    ensures
        bit_iter_seq(*old(it)).len() == 0 ==> r is None && bit_iter_seq(*final(it))
            == bit_iter_seq(*old(it)),
        bit_iter_seq(*old(it)).len() > 0 ==> r == Some(bit_iter_seq(*old(it))[0]) && bit_iter_seq(
            *final(it),
        ) == bit_iter_seq(*old(it)).drop_first(),
{
    it.next()
}

proof fn lemma_bit_positions_from_props(m: u16, p: int)
    requires
        0 <= p <= 16,
    ensures
        bit_positions_from(m, p).len() <= 16 - p,
        forall|j: int|
            0 <= j < bit_positions_from(m, p).len() ==> p <= #[trigger] bit_positions_from(m, p)[j]
                < 16 && bit_set(m, bit_positions_from(m, p)[j] as u16),
        forall|j1: int, j2: int|
            0 <= j1 < j2 < bit_positions_from(m, p).len() ==> #[trigger] bit_positions_from(
                m,
                p,
            )[j1] < #[trigger] bit_positions_from(m, p)[j2],
        forall|e: u16|
            p <= e < 16 && #[trigger] bit_set(m, e) ==> bit_positions_from(m, p).contains(
                e as usize,
            ),
    decreases 16 - p,
{
    if p < 16 {
        lemma_bit_positions_from_props(m, p + 1);
        let s = bit_positions_from(m, p);
        let rest = bit_positions_from(m, p + 1);
        if bit_set(m, p as u16) {
            assert(s == seq![p as usize] + rest);
            assert(s[0] == p as usize);
            assert(forall|j: int| 1 <= j < s.len() ==> #[trigger] s[j] == rest[j - 1]);
            assert(s.contains(p as usize));
        }
        assert forall|e: u16|
            p <= e < 16 && #[trigger] bit_set(m, e) implies s.contains(e as usize) by {
            if p < e {
                let j = choose|j: int| 0 <= j < rest.len() && rest[j] == e as usize;
                if bit_set(m, p as u16) {
                    assert(s[j + 1] == e as usize);
                } else {
                    assert(s[j] == e as usize);
                }
            }
        }
    }
}

proof fn lemma_push_contains<A>(s: Seq<A>, v: A, w: A)
    ensures
        s.push(v).contains(w) <==> (s.contains(w) || w == v),
{
    if s.push(v).contains(w) {
        let j = choose|j: int| 0 <= j < s.push(v).len() && s.push(v)[j] == w;
        if j < s.len() {
            assert(s[j] == w);
        }
    }
    if s.contains(w) {
        let j = choose|j: int| 0 <= j < s.len() && s[j] == w;
        assert(s.push(v)[j] == w);
    }
    if w == v {
        assert(s.push(v)[s.len() as int] == w);
    }
}

proof fn lemma_head_tail_contains(s: Seq<usize>, w: usize)
    requires
        s.len() > 0,
    ensures
        s.contains(w) <==> (w == s[0] || s.drop_first().contains(w)),
{
    if s.contains(w) {
        let j = choose|j: int| 0 <= j < s.len() && s[j] == w;
        if j > 0 {
            assert(s.drop_first()[j - 1] == w);
        }
    }
    if s.drop_first().contains(w) {
        let j = choose|j: int| 0 <= j < s.drop_first().len() && s.drop_first()[j] == w;
        assert(s[j + 1] == w);
    }
}

proof fn lemma_digit_mask_bits(m: u16)
    by (bit_vector)
    requires
        m < 1024,
        !bit_set(m, 0),
    ensures
        forall|e: u16| e < 16 && #[trigger] bit_set(m, e) ==> 1 <= e <= 9,
{
}

/// The remaining digits of a candidate iterator built from a candidate mask
/// all lie between one and nine.
proof fn lemma_candidate_positions_digits(m: u16)
    requires
        m < 1024,
        !bit_set(m, 0),
    ensures
        forall|j: int|
            0 <= j < bit_positions(m).len() ==> 1 <= #[trigger] bit_positions(m)[j] <= 9,
{
    lemma_bit_positions_from_props(m, 0);
    lemma_digit_mask_bits(m);
    assert forall|j: int|
        0 <= j < bit_positions(m).len() implies 1 <= #[trigger] bit_positions(m)[j] <= 9 by {
        assert(bit_set(m, bit_positions(m)[j] as u16));
    }
}

/// One entry of the explicit backtracking stack: a cell and the candidate
/// digits not yet tried there.
struct Frame {
    x: usize,
    y: usize,
    it: bit_iter::BitIter<u16>,
}

/// A stack frame names a cell that the starting puzzle leaves empty, that
/// currently holds a tried digit, and whose untried candidates are all real
/// digits.
spec fn frame_ok(f: Frame, init: Seq<u8>, g: Seq<u8>) -> bool {
    &&& f.x < 9
    &&& f.y < 9
    &&& init[idx(f.x as int, f.y as int)] == 0
    &&& g[idx(f.x as int, f.y as int)] != 0
    &&& forall|j: int|
        0 <= j < bit_iter_seq(f.it).len() ==> 1 <= #[trigger] bit_iter_seq(f.it)[j] <= 9
    &&& forall|j: int|
        0 <= j < bit_iter_seq(f.it).len() ==> #[trigger] bit_iter_seq(f.it)[j] as int > g[idx(
            f.x as int,
            f.y as int,
        )] as int
    &&& forall|j1: int, j2: int|
        0 <= j1 < j2 < bit_iter_seq(f.it).len() ==> #[trigger] bit_iter_seq(f.it)[j1]
            < #[trigger] bit_iter_seq(f.it)[j2]
}

spec fn frames_ok(fs: Seq<Frame>, init: Seq<u8>, g: Seq<u8>) -> bool {
    forall|i: int| 0 <= i < fs.len() ==> frame_ok(#[trigger] fs[i], init, g)
}

spec fn frames_distinct(fs: Seq<Frame>) -> bool {
    forall|i: int, j: int|
        #![trigger fs[i], fs[j]]
        0 <= i < j < fs.len() ==> !(fs[i].x == fs[j].x && fs[i].y == fs[j].y)
}

/// The grid as it stood when frame `i` was opened: the grid `g` with the
/// cells of frame `i` and of every deeper frame reset to empty.
spec fn cleared_from(g: Seq<u8>, fs: Seq<Frame>, i: int) -> Seq<u8>
    decreases fs.len() - i,
{
    if i < 0 || i >= fs.len() {
        g
    } else {
        cleared_from(g.update(idx(fs[i].x as int, fs[i].y as int), 0u8), fs, i + 1)
    }
}

proof fn lemma_cleared_push(g: Seq<u8>, fs: Seq<Frame>, f: Frame, i: int)
    requires
        0 <= i <= fs.len(),
    ensures
        cleared_from(g, fs.push(f), i) == cleared_from(g, fs, i).update(
            idx(f.x as int, f.y as int),
            0u8,
        ),
    decreases fs.len() - i,
{
    let gs = fs.push(f);
    let c = idx(f.x as int, f.y as int);
    if i == fs.len() {
        assert(gs[i] == f);
        assert(cleared_from(g.update(c, 0u8), gs, i + 1) == g.update(c, 0u8));
        assert(cleared_from(g, fs, i) == g);
    } else {
        assert(gs[i] == fs[i]);
        lemma_cleared_push(g.update(idx(fs[i].x as int, fs[i].y as int), 0u8), fs, f, i + 1);
    }
}

proof fn lemma_cleared_len(g: Seq<u8>, fs: Seq<Frame>, i: int)
    requires
        forall|j: int|
            i <= j < fs.len() ==> 0 <= idx((#[trigger] fs[j]).x as int, fs[j].y as int)
                < g.len(),
    ensures
        cleared_from(g, fs, i).len() == g.len(),
    decreases fs.len() - i,
{
    if 0 <= i < fs.len() {
        let c = idx(fs[i].x as int, fs[i].y as int);
        assert(0 <= c < g.len());
        lemma_cleared_len(g.update(c, 0u8), fs, i + 1);
    }
}

proof fn lemma_cleared_commute(g: Seq<u8>, fs: Seq<Frame>, i: int, p: int, v: u8)
    requires
        0 <= i <= fs.len(),
        0 <= p < g.len(),
        forall|j: int|
            i <= j < fs.len() ==> idx((#[trigger] fs[j]).x as int, fs[j].y as int) != p,
        forall|j: int|
            i <= j < fs.len() ==> 0 <= idx((#[trigger] fs[j]).x as int, fs[j].y as int)
                < g.len(),
    ensures
        cleared_from(g.update(p, v), fs, i) == cleared_from(g, fs, i).update(p, v),
    decreases fs.len() - i,
{
    if i < fs.len() {
        let c = idx(fs[i].x as int, fs[i].y as int);
        assert(c != p && 0 <= c < g.len());
        assert(g.update(p, v).update(c, 0u8) =~= g.update(c, 0u8).update(p, v));
        lemma_cleared_commute(g.update(c, 0u8), fs, i + 1, p, v);
    }
}

/// Placing a digit at the active cell and pushing that cell as a frame
/// leaves the grids under every old frame unchanged, and opens the active
/// cell's own grid under the new frame.
proof fn lemma_bases_after_place(gcur: Seq<u8>, fs: Seq<Frame>, f: Frame, cur: int, v: u8)
    requires
        0 <= cur < gcur.len(),
        gcur[cur] == 0,
        idx(f.x as int, f.y as int) == cur,
        forall|j: int|
            0 <= j < fs.len() ==> idx((#[trigger] fs[j]).x as int, fs[j].y as int) != cur,
        forall|j: int|
            0 <= j < fs.len() ==> 0 <= idx((#[trigger] fs[j]).x as int, fs[j].y as int)
                < gcur.len(),
    ensures
        forall|i: int|
            0 <= i < fs.len() ==> #[trigger] cleared_from(gcur.update(cur, v), fs.push(f), i)
                == cleared_from(gcur, fs, i),
        cleared_from(gcur.update(cur, v), fs.push(f), fs.len() as int) == gcur,
{
    let g2 = gcur.update(cur, v);
    assert(gcur.update(cur, 0u8) =~= gcur);
    assert forall|i: int|
        0 <= i < fs.len() implies #[trigger] cleared_from(g2, fs.push(f), i) == cleared_from(
        gcur,
        fs,
        i,
    ) by {
        lemma_cleared_push(g2, fs, f, i);
        lemma_cleared_commute(gcur, fs, i, cur, v);
        lemma_cleared_len(gcur, fs, i);
        assert(cleared_from(gcur, fs, i).update(cur, v).update(cur, 0u8) =~= cleared_from(
            gcur,
            fs,
            i,
        ).update(cur, 0u8));
        lemma_cleared_commute(gcur, fs, i, cur, 0u8);
    }
    assert(g2.update(cur, 0u8) =~= gcur);
    lemma_cleared_push(g2, fs, f, fs.len() as int);
}

/// Dropping the deepest frame leaves the grids under the remaining frames
/// unchanged, and the dropped frame's own grid is the base grid with its
/// cell emptied.
proof fn lemma_bases_after_pop(g: Seq<u8>, fs: Seq<Frame>)
    requires
        fs.len() > 0,
        0 <= idx(fs.last().x as int, fs.last().y as int) < g.len(),
        forall|j: int|
            0 <= j < fs.len() - 1 ==> idx((#[trigger] fs[j]).x as int, fs[j].y as int) != idx(
                fs.last().x as int,
                fs.last().y as int,
            ),
        forall|j: int|
            0 <= j < fs.len() - 1 ==> 0 <= idx((#[trigger] fs[j]).x as int, fs[j].y as int)
                < g.len(),
    ensures
        forall|i: int|
            0 <= i < fs.len() - 1 ==> #[trigger] cleared_from(
                g.update(idx(fs.last().x as int, fs.last().y as int), 0u8),
                fs.drop_last(),
                i,
            ) == cleared_from(g, fs, i),
        cleared_from(g, fs, fs.len() - 1) == g.update(
            idx(fs.last().x as int, fs.last().y as int),
            0u8,
        ),
{
    let c = idx(fs.last().x as int, fs.last().y as int);
    let fsp = fs.drop_last();
    assert(fs =~= fsp.push(fs.last()));
    assert forall|i: int|
        0 <= i < fs.len() - 1 implies #[trigger] cleared_from(g.update(c, 0u8), fsp, i)
        == cleared_from(g, fs, i) by {
        lemma_cleared_push(g, fsp, fs.last(), i);
        lemma_cleared_commute(g, fsp, i, c, 0u8);
    }
    lemma_cleared_push(g, fsp, fs.last(), fs.len() - 1);
}

/// The solutions the search can still reach through stack frame `i`: those
/// that solve the grid as it stood when the frame was opened and place one
/// of the frame's untried digits at the frame's cell.
spec fn pending_at(g: Seq<u8>, fs: Seq<Frame>, i: int, h: Seq<u8>) -> bool {
    &&& is_solution(cleared_from(g, fs, i), h)
    &&& bit_iter_seq(fs[i].it).contains(h[idx(fs[i].x as int, fs[i].y as int)] as usize)
}

/// The solutions the search can still reach through the active frame: those
/// that solve `base` — the grid with the active cell empty — and place one
/// of the untried digits `vs` there.
spec fn cur_pending(base: Seq<u8>, x: int, y: int, vs: Seq<usize>, h: Seq<u8>) -> bool {
    &&& is_solution(base, h)
    &&& vs.contains(h[idx(x, y)] as usize)
}

/// The weight of a frame at stack depth `81 - k`: deep frames weigh less, so
/// that trading one candidate for a whole deeper frame still shrinks the
/// search measure.
spec fn weight(k: nat) -> int
    decreases k,
{
    if k == 0 {
        1
    } else {
        18 * weight((k - 1) as nat)
    }
}

spec fn frames_measure(fs: Seq<Frame>, i: int) -> int
    decreases fs.len() - i,
{
    if i < 0 || i >= fs.len() {
        0
    } else {
        bit_iter_seq(fs[i].it).len() * weight((81 - i) as nat) + frames_measure(fs, i + 1)
    }
}

/// The number of search steps still possible from a stack, used as the
/// termination measure of the enumerator's inner loop.
spec fn stack_measure(fs: Seq<Frame>) -> int {
    frames_measure(fs, 0)
}

proof fn lemma_weight_pos(k: nat)
    ensures
        weight(k) >= 1,
    decreases k,
{
    if k > 0 {
        lemma_weight_pos((k - 1) as nat);
    }
}

proof fn lemma_frames_measure_nonneg(fs: Seq<Frame>, i: int)
    ensures
        frames_measure(fs, i) >= 0,
    decreases fs.len() - i,
{
    if 0 <= i < fs.len() {
        lemma_frames_measure_nonneg(fs, i + 1);
        lemma_weight_pos((81 - i) as nat);
        let l = bit_iter_seq(fs[i].it).len() as int;
        let w = weight((81 - i) as nat);
        assert(l * w >= 0) by (nonlinear_arith)
            requires
                l >= 0 && w >= 1,
        ;
    }
}

proof fn lemma_frames_measure_push(fs: Seq<Frame>, f: Frame, i: int)
    requires
        0 <= i <= fs.len(),
    ensures
        frames_measure(fs.push(f), i) == frames_measure(fs, i) + bit_iter_seq(f.it).len()
            * weight((81 - fs.len()) as nat),
    decreases fs.len() - i,
{
    let gs = fs.push(f);
    if i == fs.len() {
        assert(gs[i] == f);
        assert(frames_measure(gs, i + 1) == 0);
        assert(frames_measure(fs, i) == 0);
    } else {
        lemma_frames_measure_push(fs, f, i + 1);
        assert(gs[i] == fs[i]);
    }
}

proof fn lemma_frames_measure_pop(fs: Seq<Frame>)
    requires
        fs.len() > 0,
    ensures
        stack_measure(fs) == stack_measure(fs.drop_last()) + bit_iter_seq(fs.last().it).len()
            * weight((81 - (fs.len() - 1)) as nat),
{
    assert(fs =~= fs.drop_last().push(fs.last()));
    lemma_frames_measure_push(fs.drop_last(), fs.last(), 0);
}

/// An iterator which produces the set of solutions to a puzzle.
///
/// Strictly speaking, such puzzles should have only one solution.  However,
/// it is possible to construct puzzles with multiple solutions, and
/// `SolutionIter` provides a means of generating them lazily, one per call
/// of [`SolutionIter::next`].
pub struct SolutionIter {
    first: bool,
    board: Board,
    stack: Vec<Frame>,
    initial: Ghost<Seq<u8>>,
    yielded: Ghost<Seq<Seq<u8>>>,
}

impl SolutionIter {
    /// The digit grid of the starting puzzle.
    pub closed spec fn start(&self) -> Seq<u8> {
        self.initial@
    }

    /// The grids of the solutions the enumerator has yielded so far, in
    /// order.
    pub closed spec fn yielded_grids(&self) -> Seq<Seq<u8>> {
        self.yielded@
    }

    /// The enumerator has not been driven yet.
    pub closed spec fn fresh(&self) -> bool {
        self.first
    }

    /// The enumerator has run out of solutions; this state is sticky.
    pub closed spec fn exhausted(&self) -> bool {
        !self.first && self.stack@.len() == 0
    }

    /// The enumerator's invariant, established by [`SolutionIter::new`] and
    /// preserved by [`SolutionIter::next`].
    pub closed spec fn wf(&self) -> bool {
        &&& self.board.wf()
        &&& grid_wf(self.initial@)
        &&& (forall|i: int|
            0 <= i < 81 && #[trigger] self.initial@[i] != 0 ==> self.board@[i] == self.initial@[i])
        &&& frames_ok(self.stack@, self.initial@, self.board@)
        &&& frames_distinct(self.stack@)
        &&& count_empty(self.board@) == count_empty(self.initial@) - self.stack@.len()
        &&& self.stack@.len() <= 81
        &&& (self.first ==> (self.board@ == self.initial@ && self.stack@.len() == 0))
        &&& (self.first ==> self.yielded@.len() == 0)
        &&& (forall|j: int|
            0 <= j < self.yielded@.len() ==> is_solution(
                self.initial@,
                #[trigger] self.yielded@[j],
            ))
        &&& (!self.first ==> (forall|h: Seq<u8>|
            #[trigger] is_solution(self.initial@, h) ==> self.yielded@.contains(h) || (
            exists|i: int|
                0 <= i < self.stack@.len() && #[trigger] pending_at(
                    self.board@,
                    self.stack@,
                    i,
                    h,
                ))))
        &&& (forall|i: int, h: Seq<u8>|
            0 <= i < self.stack@.len() && #[trigger] pending_at(self.board@, self.stack@, i, h)
                ==> is_solution(self.initial@, h) && !self.yielded@.contains(h))
    }

    /// Construct a `SolutionIter` value from a [`Board`].
    pub fn new(board: &Board) -> (it: SolutionIter)
        requires
            board.wf(),
        ensures
            it.wf(),
            it.fresh(),
            it.start() == board@,
            it.yielded_grids().len() == 0,
    {
        proof {
            board.lemma_view_masks();
        }
        SolutionIter {
            first: true,
            board: board.duplicate(),
            stack: Vec::new(),
            initial: Ghost(board@),
            yielded: Ghost(Seq::empty()),
        }
    }

    /// Resume the depth-first search with `(x0, y0)` as the active cell and
    /// `values0` as its untried candidates, until the next solution or
    /// exhaustion.
    fn search(&mut self, x0: usize, y0: usize, values0: bit_iter::BitIter<u16>) -> (r: Option<
        Board,
    >)
        requires
            old(self).board.wf(),
            old(self).board@.len() == 81,
            grid_wf(old(self).initial@),
            !old(self).first,
            x0 < 9,
            y0 < 9,
            old(self).initial@[idx(x0 as int, y0 as int)] == 0,
            forall|i: int|
                0 <= i < 81 && #[trigger] old(self).initial@[i] != 0 ==> old(self).board@[i] == old(self).initial@[i],
            forall|j: int|
                0 <= j < bit_iter_seq(values0).len() ==> 1 <= #[trigger] bit_iter_seq(values0)[j]
                    <= 9,
            forall|j: int|
                0 <= j < bit_iter_seq(values0).len() ==> #[trigger] bit_iter_seq(values0)[j] as int
                    > old(self).board@[idx(x0 as int, y0 as int)] as int,
            forall|j1: int, j2: int|
                0 <= j1 < j2 < bit_iter_seq(values0).len() ==> #[trigger] bit_iter_seq(
                    values0,
                )[j1] < #[trigger] bit_iter_seq(values0)[j2],
            frames_ok(old(self).stack@, old(self).initial@, old(self).board@),
            frames_distinct(old(self).stack@),
            forall|i: int|
                0 <= i < old(self).stack@.len() ==> !((#[trigger] old(self).stack@[i]).x == x0
                    && old(self).stack@[i].y == y0),
            count_empty(old(self).board@) == count_empty(old(self).initial@) - old(self).stack@.len() - (if old(self).board@[idx(x0 as int, y0 as int)] != 0 {
                1int
            } else {
                0int
            }),
            old(self).stack@.len() <= 81,
            forall|j: int|
                0 <= j < old(self).yielded@.len() ==> is_solution(
                    old(self).initial@,
                    #[trigger] old(self).yielded@[j],
                ),
            forall|h: Seq<u8>|
                #[trigger] is_solution(old(self).initial@, h) ==> old(self).yielded@.contains(h)
                    || cur_pending(
                    old(self).board@.update(idx(x0 as int, y0 as int), 0u8),
                    x0 as int,
                    y0 as int,
                    bit_iter_seq(values0),
                    h,
                ) || (exists|i: int|
                    0 <= i < old(self).stack@.len() && #[trigger] pending_at(
                        old(self).board@.update(idx(x0 as int, y0 as int), 0u8),
                        old(self).stack@,
                        i,
                        h,
                    )),
            forall|h: Seq<u8>|
                #[trigger] cur_pending(
                    old(self).board@.update(idx(x0 as int, y0 as int), 0u8),
                    x0 as int,
                    y0 as int,
                    bit_iter_seq(values0),
                    h,
                ) ==> is_solution(old(self).initial@, h) && !old(self).yielded@.contains(h),
            forall|i: int, h: Seq<u8>|
                0 <= i < old(self).stack@.len() && #[trigger] pending_at(
                    old(self).board@.update(idx(x0 as int, y0 as int), 0u8),
                    old(self).stack@,
                    i,
                    h,
                ) ==> is_solution(old(self).initial@, h) && !old(self).yielded@.contains(h),
        ensures
            final(self).wf(),
            !final(self).first,
            final(self).initial == old(self).initial,
            (r matches Some(s) ==> s.wf() && is_solution(old(self).initial@, s@) && !old(self).yielded@.contains(s@) && final(self).yielded@ == old(self).yielded@.push(s@)),
            (r is None ==> final(self).stack@.len() == 0 && final(self).yielded@ == old(self).yielded@ && (forall|h: Seq<u8>|
                #[trigger] is_solution(old(self).initial@, h) ==> old(self).yielded@.contains(
                    h,
                ))),
    {
        let mut x = x0;
        let mut y = y0;
        let mut values = values0;
        loop
            invariant
                self.board.wf(),
                self.board@.len() == 81,
                grid_wf(self.initial@),
                !self.first,
                x < 9,
                y < 9,
                self.initial@[idx(x as int, y as int)] == 0,
                forall|i: int|
                    0 <= i < 81 && #[trigger] self.initial@[i] != 0 ==> self.board@[i]
                        == self.initial@[i],
                forall|j: int|
                    0 <= j < bit_iter_seq(values).len() ==> 1 <= #[trigger] bit_iter_seq(values)[j]
                        <= 9,
                forall|j: int|
                    0 <= j < bit_iter_seq(values).len() ==> #[trigger] bit_iter_seq(
                        values,
                    )[j] as int > self.board@[idx(x as int, y as int)] as int,
                forall|j1: int, j2: int|
                    0 <= j1 < j2 < bit_iter_seq(values).len() ==> #[trigger] bit_iter_seq(
                        values,
                    )[j1] < #[trigger] bit_iter_seq(values)[j2],
                frames_ok(self.stack@, self.initial@, self.board@),
                frames_distinct(self.stack@),
                forall|i: int|
                    0 <= i < self.stack@.len() ==> !((#[trigger] self.stack@[i]).x == x
                        && self.stack@[i].y == y),
                count_empty(self.board@) == count_empty(self.initial@) - self.stack@.len() - (
                if self.board@[idx(x as int, y as int)] != 0 {
                    1int
                } else {
                    0int
                }),
                self.stack@.len() <= 81,
                self.initial == old(self).initial,
                self.yielded == old(self).yielded,
                forall|j: int|
                    0 <= j < self.yielded@.len() ==> is_solution(
                        self.initial@,
                        #[trigger] self.yielded@[j],
                    ),
                forall|h: Seq<u8>|
                    #[trigger] is_solution(self.initial@, h) ==> self.yielded@.contains(h)
                        || cur_pending(
                        self.board@.update(idx(x as int, y as int), 0u8),
                        x as int,
                        y as int,
                        bit_iter_seq(values),
                        h,
                    ) || (exists|i: int|
                        0 <= i < self.stack@.len() && #[trigger] pending_at(
                            self.board@.update(idx(x as int, y as int), 0u8),
                            self.stack@,
                            i,
                            h,
                        )),
                forall|h: Seq<u8>|
                    #[trigger] cur_pending(
                        self.board@.update(idx(x as int, y as int), 0u8),
                        x as int,
                        y as int,
                        bit_iter_seq(values),
                        h,
                    ) ==> is_solution(self.initial@, h) && !self.yielded@.contains(h),
                forall|i: int, h: Seq<u8>|
                    0 <= i < self.stack@.len() && #[trigger] pending_at(
                        self.board@.update(idx(x as int, y as int), 0u8),
                        self.stack@,
                        i,
                        h,
                    ) ==> is_solution(self.initial@, h) && !self.yielded@.contains(h),
            decreases stack_measure(self.stack@) + bit_iter_seq(values).len() * weight(
                (81 - self.stack@.len()) as nat,
            ) + self.stack@.len(),
        {
            let ghost vs_old = bit_iter_seq(values);
            let ghost fs_old = self.stack@;
            let ghost g_old = self.board@;
            let ghost init = self.initial@;
            let ghost ys = self.yielded@;
            let ghost xo = x as int;
            let ghost yo = y as int;
            let ghost cp = idx(x as int, y as int);
            let ghost gcur = self.board@.update(idx(x as int, y as int), 0u8);
            let ghost len_old = self.stack@.len() as int;
            let ghost w_cur = weight((81 - len_old) as nat);
            proof {
                lemma_weight_pos((81 - len_old) as nat);
                lemma_frames_measure_nonneg(fs_old, 0);
                assert(0 <= cp < 81);
                assert(gcur.len() == 81 && gcur[cp] == 0);
                crate::grid::lemma_idx_injective();
                assert forall|j: int|
                    0 <= j < fs_old.len() implies idx(
                    (#[trigger] fs_old[j]).x as int,
                    fs_old[j].y as int,
                ) != cp && 0 <= idx(fs_old[j].x as int, fs_old[j].y as int) < 81 by {
                    assert(frame_ok(fs_old[j], init, g_old));
                    assert(!(fs_old[j].x == x && fs_old[j].y == y));
                }
            }
            match bit_iter_next(&mut values) {
                Some(value) => {
                    proof {
                        assert(1 <= vs_old[0] <= 9);
                        assert forall|j: int|
                            0 <= j < bit_iter_seq(values).len() implies 1 <= #[trigger] bit_iter_seq(
                            values,
                        )[j] <= 9 by {
                            assert(bit_iter_seq(values)[j] == vs_old[j + 1]);
                        }
                        crate::grid::lemma_count_empty_set(
                            self.board@,
                            idx(x as int, y as int),
                            value as u8,
                        );
                        crate::grid::lemma_idx_injective();
                    }
                    self.board.set_cell(x, y, value as u8);
                    proof {
                        assert forall|i: int|
                            0 <= i < self.stack@.len() implies frame_ok(
                            #[trigger] self.stack@[i],
                            self.initial@,
                            self.board@,
                        ) by {
                            let f = self.stack@[i];
                            assert(frame_ok(f, self.initial@, g_old));
                            assert(idx(f.x as int, f.y as int) != idx(x as int, y as int));
                        }
                        // The grid with the active cell emptied is untouched
                        // by the placement.
                        assert(self.board@.update(cp, 0u8) =~= gcur);
                        assert(self.board@ =~= gcur.update(cp, value as u8));
                        // The untried digits stay real digits, ascending and
                        // above the digit just placed.
                        assert(self.board@[cp] == value as u8);
                        assert forall|j: int|
                            0 <= j < bit_iter_seq(values).len() implies #[trigger] bit_iter_seq(
                            values,
                        )[j] as int > self.board@[cp] as int by {
                            assert(bit_iter_seq(values)[j] == vs_old[j + 1]);
                            assert(vs_old[0] < vs_old[j + 1]);
                        }
                        assert forall|j1: int, j2: int|
                            0 <= j1 < j2 < bit_iter_seq(values).len() implies #[trigger] bit_iter_seq(
                            values,
                        )[j1] < #[trigger] bit_iter_seq(values)[j2] by {
                            assert(bit_iter_seq(values)[j1] == vs_old[j1 + 1]);
                            assert(bit_iter_seq(values)[j2] == vs_old[j2 + 1]);
                        }
                        // Splitting the active cell's reachable solutions on
                        // the drawn digit.
                        assert(vs_old.contains(value)) by {
                            assert(vs_old[0] == value);
                        }
                        assert forall|h: Seq<u8>|
                            #[trigger] cur_pending(gcur, x as int, y as int, vs_old, h) implies (
                        is_solution(self.board@, h) || cur_pending(
                            gcur,
                            x as int,
                            y as int,
                            bit_iter_seq(values),
                            h,
                        )) by {
                            lemma_head_tail_contains(vs_old, h[cp] as usize);
                            if h[cp] as usize == vs_old[0] {
                                assert(h[cp] == value as u8);
                                lemma_solution_after_update(gcur, h, x as int, y as int,
                                    value as u8);
                            }
                        }
                        assert forall|h: Seq<u8>|
                            is_solution(self.board@, h) implies #[trigger] cur_pending(
                            gcur,
                            x as int,
                            y as int,
                            vs_old,
                            h,
                        ) by {
                            lemma_solution_after_update(gcur, h, x as int, y as int, value as u8);
                        }
                        assert forall|h: Seq<u8>|
                            #[trigger] cur_pending(
                                gcur,
                                x as int,
                                y as int,
                                bit_iter_seq(values),
                                h,
                            ) implies cur_pending(gcur, x as int, y as int, vs_old, h) by {
                            lemma_head_tail_contains(vs_old, h[cp] as usize);
                        }
                    }
                    match cell_with_fewest_candidates(&self.board) {
                        Some(mrv) => {
                            let (nx, ny, ncs) = mrv;
                            if ncs == 0 {
                                // The board is complete; the final validity
                                // check makes the yield self-contained.
                                if valid(&self.board) {
                                    proof {
                                        self.board.lemma_view_masks();
                                        crate::grid::lemma_count_empty_complete(self.board@);
                                        lemma_count_empty_bounds(self.initial@);
                                    }
                                    let f = Frame { x, y, it: values };
                                    self.stack.push(f);
                                    self.yielded = Ghost(ys.push(self.board@));
                                    proof {
                                        let g2 = self.board@;
                                        assert(grid_wf(g2));
                                        assert forall|i: int|
                                            0 <= i < self.stack@.len() implies frame_ok(
                                            #[trigger] self.stack@[i],
                                            self.initial@,
                                            self.board@,
                                        ) by {
                                            if i < fs_old.len() {
                                                assert(self.stack@[i] == fs_old[i]);
                                            } else {
                                                assert(self.stack@[i] == f);
                                            }
                                        }
                                        assert(frames_distinct(self.stack@));
                                        // The yielded board solves the
                                        // starting puzzle.
                                        assert forall|i: int|
                                            0 <= i < 81 && #[trigger] init[i] != 0 implies g2[i]
                                            == init[i] by {
                                            assert(i != cp);
                                            assert(g_old[i] == init[i]);
                                        }
                                        assert(is_solution(init, g2));
                                        // It was still owed: the search had
                                        // not yielded it before.
                                        assert(extends(gcur, g2)) by {
                                            assert forall|i: int|
                                                0 <= i < 81 && #[trigger] gcur[i] != 0 implies g2[i]
                                                == gcur[i] by {
                                                assert(i != cp);
                                            }
                                        }
                                        assert(is_solution(gcur, g2));
                                        assert(g2[cp] as usize == value);
                                        assert(cur_pending(gcur, x as int, y as int, vs_old, g2));
                                        assert(!ys.contains(g2));
                                        // A complete grid is extended only by
                                        // itself.
                                        assert forall|h: Seq<u8>|
                                            is_solution(g2, h) implies h == g2 by {
                                            assert forall|i: int|
                                                0 <= i < 81 implies h[i] == g2[i] by {
                                                assert(g2[i] != 0);
                                            }
                                            assert(h =~= g2);
                                        }
                                        lemma_bases_after_place(gcur, fs_old, f, cp, value as u8);
                                        assert(self.board@ == gcur.update(cp, value as u8));
                                        assert(cleared_from(
                                            self.board@,
                                            self.stack@,
                                            fs_old.len() as int,
                                        ) == gcur);
                                        // Every solution is now yielded or
                                        // still pending under some frame.
                                        assert forall|h: Seq<u8>|
                                            #[trigger] is_solution(init, h) implies (
                                        self.yielded@.contains(h) || (exists|i: int|
                                            0 <= i < self.stack@.len() && #[trigger] pending_at(
                                                self.board@,
                                                self.stack@,
                                                i,
                                                h,
                                            ))) by {
                                            lemma_push_contains(ys, g2, h);
                                            if !ys.contains(h) {
                                                if cur_pending(
                                                    gcur,
                                                    x as int,
                                                    y as int,
                                                    vs_old,
                                                    h,
                                                ) {
                                                    if is_solution(self.board@, h) {
                                                        assert(h == g2);
                                                    } else {
                                                        assert(cur_pending(
                                                            gcur,
                                                            x as int,
                                                            y as int,
                                                            bit_iter_seq(f.it),
                                                            h,
                                                        ));
                                                        assert(self.stack@[fs_old.len() as int]
                                                            == f);
                                                        assert(pending_at(
                                                            self.board@,
                                                            self.stack@,
                                                            fs_old.len() as int,
                                                            h,
                                                        ));
                                                    }
                                                } else {
                                                    let i = choose|i: int|
                                                        0 <= i < fs_old.len()
                                                            && #[trigger] pending_at(
                                                            gcur,
                                                            fs_old,
                                                            i,
                                                            h,
                                                        );
                                                    assert(cleared_from(
                                                        self.board@,
                                                        self.stack@,
                                                        i,
                                                    ) == cleared_from(gcur, fs_old, i)) by {
                                                        assert(self.stack@ == fs_old.push(f));
                                                    }
                                                    assert(self.stack@[i] == fs_old[i]);
                                                    assert(pending_at(
                                                        self.board@,
                                                        self.stack@,
                                                        i,
                                                        h,
                                                    ));
                                                }
                                            }
                                        }
                                        // Nothing still pending was ever
                                        // yielded, the fresh board included.
                                        assert forall|i: int, h: Seq<u8>|
                                            0 <= i < self.stack@.len() && #[trigger] pending_at(
                                                self.board@,
                                                self.stack@,
                                                i,
                                                h,
                                            ) implies is_solution(init, h)
                                            && !self.yielded@.contains(h) by {
                                            lemma_push_contains(ys, g2, h);
                                            if i < fs_old.len() {
                                                assert(self.stack@[i] == fs_old[i]);
                                                assert(cleared_from(self.board@, self.stack@, i)
                                                    == cleared_from(gcur, fs_old, i)) by {
                                                    assert(self.stack@ == fs_old.push(f));
                                                }
                                                assert(pending_at(gcur, fs_old, i, h));
                                                let ci = idx(
                                                    fs_old[i].x as int,
                                                    fs_old[i].y as int,
                                                );
                                                assert(frame_ok(
                                                    self.stack@[i],
                                                    init,
                                                    self.board@,
                                                ));
                                                let vs_i = bit_iter_seq(fs_old[i].it);
                                                let j = choose|j: int|
                                                    0 <= j < vs_i.len() && vs_i[j] == h[ci] as usize;
                                                assert(vs_i[j] as int > g2[ci] as int);
                                                assert(h[ci] != g2[ci]);
                                            } else {
                                                assert(self.stack@[i] == f);
                                                assert(cleared_from(self.board@, self.stack@, i)
                                                    == gcur);
                                                assert(cur_pending(
                                                    gcur,
                                                    x as int,
                                                    y as int,
                                                    bit_iter_seq(f.it),
                                                    h,
                                                ));
                                                assert(cur_pending(
                                                    gcur,
                                                    x as int,
                                                    y as int,
                                                    vs_old,
                                                    h,
                                                ));
                                                let vs_n = bit_iter_seq(f.it);
                                                let j = choose|j: int|
                                                    0 <= j < vs_n.len() && vs_n[j] == h[cp] as usize;
                                                assert(vs_n[j] as int > g2[cp] as int);
                                                assert(h[cp] != g2[cp]);
                                            }
                                            assert(h != g2);
                                        }
                                        assert forall|j: int|
                                            0 <= j < self.yielded@.len() implies is_solution(
                                            init,
                                            #[trigger] self.yielded@[j],
                                        ) by {
                                            if j == ys.len() {
                                                assert(self.yielded@[j] == g2);
                                            }
                                        }
                                    }
                                    return Some(self.board.duplicate());
                                }
                                // Unreachable while the invariant holds: the
                                // search only ever places legal candidates.
                                // Treating it as a dead end keeps soundness
                                // local to this function.
                                proof {
                                    assert((vs_old.len() - 1) * w_cur == vs_old.len() * w_cur
                                        - w_cur) by (nonlinear_arith);
                                    assert(vs_old.len() * w_cur >= 0) by (nonlinear_arith)
                                        requires
                                            vs_old.len() >= 0 && w_cur >= 1,
                                    ;
                                    // An invalid completion extends no
                                    // solution, so nothing reachable is lost.
                                    assert forall|h: Seq<u8>|
                                        !is_solution(self.board@, h) by {
                                        if is_solution(self.board@, h) {
                                            lemma_extends_preserves_valid(self.board@, h);
                                        }
                                    }
                                }
                            } else {
                                proof {
                                    lemma_candidate_positions_digits(ncs);
                                    lemma_bit_positions_from_props(ncs, 0);
                                    crate::grid::lemma_count_empty_pos(
                                        self.board@,
                                        idx(nx as int, ny as int),
                                    );
                                    lemma_count_empty_bounds(self.initial@);
                                }
                                let f = Frame { x, y, it: values };
                                proof {
                                    lemma_frames_measure_push(fs_old, f, 0);
                                }
                                self.stack.push(f);
                                x = nx;
                                y = ny;
                                values = bit_iter_of(ncs);
                                proof {
                                    assert forall|i: int|
                                        0 <= i < self.stack@.len() implies frame_ok(
                                        #[trigger] self.stack@[i],
                                        self.initial@,
                                        self.board@,
                                    ) by {
                                        if i < fs_old.len() {
                                            assert(self.stack@[i] == fs_old[i]);
                                        } else {
                                            assert(self.stack@[i] == f);
                                        }
                                    }
                                    assert(frames_distinct(self.stack@));
                                    assert forall|i: int|
                                        0 <= i < self.stack@.len() implies !((
                                        #[trigger] self.stack@[i]).x == x && self.stack@[i].y
                                        == y) by {
                                        let fi = self.stack@[i];
                                        assert(frame_ok(fi, self.initial@, self.board@));
                                        assert(self.board@[idx(x as int, y as int)] == 0);
                                    }
                                    // The new cell is free in the starting
                                    // puzzle: a given would still be there.
                                    assert(self.initial@[idx(x as int, y as int)] == 0);
                                    // Every solution of the just-extended
                                    // grid is reachable through the new
                                    // active cell, and the grids under the
                                    // old frames are untouched.
                                    let g2 = self.board@;
                                    self.board.lemma_view_masks();
                                    assert(grid_wf(g2));
                                    assert(g2.update(idx(x as int, y as int), 0u8) =~= g2);
                                    lemma_bases_after_place(gcur, fs_old, f, cp, value as u8);
                                    assert(g2 == gcur.update(cp, value as u8));
                                    assert(cleared_from(g2, self.stack@, fs_old.len() as int)
                                        == gcur);
                                    assert forall|h: Seq<u8>|
                                        is_solution(g2, h) implies #[trigger] cur_pending(
                                        g2,
                                        x as int,
                                        y as int,
                                        bit_iter_seq(values),
                                        h,
                                    ) by {
                                        lemma_solution_digit_is_candidate(
                                            g2,
                                            h,
                                            x as int,
                                            y as int,
                                        );
                                        let d = h[idx(x as int, y as int)];
                                        assert(is_candidate(g2, x as int, y as int, d));
                                        assert(bit_set(ncs, d as u16));
                                        assert(bit_positions(ncs).contains((d as u16) as usize));
                                        assert((d as u16) as usize == d as usize);
                                    }
                                    assert forall|h: Seq<u8>|
                                        #[trigger] is_solution(init, h) implies (ys.contains(h)
                                        || cur_pending(
                                        g2,
                                        x as int,
                                        y as int,
                                        bit_iter_seq(values),
                                        h,
                                    ) || (exists|i: int|
                                        0 <= i < self.stack@.len() && #[trigger] pending_at(
                                            g2,
                                            self.stack@,
                                            i,
                                            h,
                                        ))) by {
                                        if !ys.contains(h) {
                                            if cur_pending(gcur, xo, yo, vs_old, h) {
                                                if is_solution(g2, h) {
                                                } else {
                                                    assert(cur_pending(
                                                        gcur,
                                                        xo,
                                                        yo,
                                                        bit_iter_seq(f.it),
                                                        h,
                                                    ));
                                                    assert(self.stack@[fs_old.len() as int] == f);
                                                    assert(pending_at(
                                                        g2,
                                                        self.stack@,
                                                        fs_old.len() as int,
                                                        h,
                                                    ));
                                                }
                                            } else {
                                                let i = choose|i: int|
                                                    0 <= i < fs_old.len() && #[trigger] pending_at(
                                                        gcur,
                                                        fs_old,
                                                        i,
                                                        h,
                                                    );
                                                assert(cleared_from(g2, self.stack@, i)
                                                    == cleared_from(gcur, fs_old, i)) by {
                                                    assert(self.stack@ == fs_old.push(f));
                                                }
                                                assert(self.stack@[i] == fs_old[i]);
                                                assert(pending_at(g2, self.stack@, i, h));
                                            }
                                        }
                                    }
                                    assert forall|h: Seq<u8>|
                                        #[trigger] cur_pending(
                                            g2,
                                            x as int,
                                            y as int,
                                            bit_iter_seq(values),
                                            h,
                                        ) implies is_solution(init, h) && !ys.contains(h) by {
                                        assert(is_solution(g2, h));
                                        assert(cur_pending(gcur, xo, yo, vs_old, h));
                                    }
                                    assert forall|i: int, h: Seq<u8>|
                                        0 <= i < self.stack@.len() && #[trigger] pending_at(
                                            g2,
                                            self.stack@,
                                            i,
                                            h,
                                        ) implies is_solution(init, h) && !ys.contains(h) by {
                                        if i < fs_old.len() {
                                            assert(self.stack@[i] == fs_old[i]);
                                            assert(cleared_from(g2, self.stack@, i)
                                                == cleared_from(gcur, fs_old, i)) by {
                                                assert(self.stack@ == fs_old.push(f));
                                            }
                                            assert(pending_at(gcur, fs_old, i, h));
                                        } else {
                                            assert(self.stack@[i] == f);
                                            assert(cleared_from(g2, self.stack@, i) == gcur);
                                            assert(cur_pending(
                                                gcur,
                                                xo,
                                                yo,
                                                bit_iter_seq(f.it),
                                                h,
                                            ));
                                            assert(cur_pending(gcur, xo, yo, vs_old, h));
                                        }
                                    }
                                    // The measure shrinks: one candidate was
                                    // spent, and a whole fresh frame weighs
                                    // less than it did.
                                    let wp = weight((81 - (len_old + 1)) as nat);
                                    lemma_weight_pos((81 - (len_old + 1)) as nat);
                                    assert(w_cur == 18 * wp);
                                    assert((vs_old.len() - 1) * w_cur == vs_old.len() * w_cur
                                        - w_cur) by (nonlinear_arith);
                                    assert(bit_iter_seq(values).len() * wp <= 16 * wp)
                                        by (nonlinear_arith)
                                        requires
                                            bit_iter_seq(values).len() <= 16 && wp >= 0,
                                    ;
                                    assert(vs_old.len() * w_cur >= 0) by (nonlinear_arith)
                                        requires
                                            vs_old.len() >= 0 && w_cur >= 1,
                                    ;
                                }
                            }
                        },
                        None => {
                            // Dead end: some empty cell lost its last
                            // candidate.  The next untried digit, or the
                            // parent frame, takes over.
                            proof {
                                assert((vs_old.len() - 1) * w_cur == vs_old.len() * w_cur - w_cur)
                                    by (nonlinear_arith);
                                assert(vs_old.len() * w_cur >= 0) by (nonlinear_arith)
                                    requires
                                        vs_old.len() >= 0 && w_cur >= 1,
                                ;
                                // The placement leads nowhere, so nothing
                                // reachable is lost by skipping it.
                                assert forall|h: Seq<u8>| !is_solution(self.board@, h) by {
                                    if is_solution(self.board@, h) {
                                        assert(solvable(self.board@));
                                    }
                                }
                            }
                        },
                    }
                },
                None => {
                    // All candidates for this cell are spent: revert it and
                    // resume the parent frame.
                    proof {
                        crate::grid::lemma_count_empty_set(
                            self.board@,
                            idx(x as int, y as int),
                            0u8,
                        );
                        crate::grid::lemma_idx_injective();
                        assert(vs_old.len() == 0);
                        assert forall|h: Seq<u8>| !cur_pending(gcur, xo, yo, vs_old, h) by {
                            if vs_old.contains(h[cp] as usize) {
                                let j = choose|j: int|
                                    0 <= j < vs_old.len() && vs_old[j] == h[cp] as usize;
                            }
                        }
                    }
                    self.board.set_cell(x, y, 0);
                    proof {
                        assert(self.board@ == gcur) by {
                            assert(self.board@ =~= gcur);
                        }
                        assert forall|i: int|
                            0 <= i < self.stack@.len() implies frame_ok(
                            #[trigger] self.stack@[i],
                            self.initial@,
                            self.board@,
                        ) by {
                            let f = self.stack@[i];
                            assert(frame_ok(f, self.initial@, g_old));
                            assert(idx(f.x as int, f.y as int) != idx(x as int, y as int));
                        }
                    }
                    let ghost fs_rev = self.stack@;
                    match self.stack.pop() {
                        Some(f) => {
                            proof {
                                assert(f == fs_rev[len_old - 1]);
                                assert(frame_ok(f, self.initial@, self.board@));
                                assert(self.stack@ =~= fs_rev.drop_last());
                                lemma_frames_measure_pop(fs_rev);
                                lemma_frames_measure_nonneg(self.stack@, 0);
                                assert forall|i: int|
                                    0 <= i < self.stack@.len() implies !((
                                    #[trigger] self.stack@[i]).x == f.x && self.stack@[i].y
                                    == f.y) by {
                                    assert(self.stack@[i] == fs_rev[i]);
                                    assert(fs_rev[len_old - 1] == f);
                                }
                                assert(bit_iter_seq(f.it).len() * weight(
                                    (81 - (len_old - 1)) as nat,
                                ) >= 0) by (nonlinear_arith)
                                    requires
                                        bit_iter_seq(f.it).len() >= 0 && weight(
                                            (81 - (len_old - 1)) as nat,
                                        ) >= 1,
                                ;
                                lemma_weight_pos((81 - (len_old - 1)) as nat);
                                // The popped frame becomes the active cell;
                                // its pending solutions carry over exactly,
                                // and the other frames' grids are untouched.
                                let cf = idx(f.x as int, f.y as int);
                                assert(fs_rev.last() == f);
                                assert forall|j: int|
                                    0 <= j < fs_rev.len() - 1 implies idx(
                                    (#[trigger] fs_rev[j]).x as int,
                                    fs_rev[j].y as int,
                                ) != cf && 0 <= idx(fs_rev[j].x as int, fs_rev[j].y as int)
                                    < 81 by {
                                    assert(fs_rev[j] == self.stack@[j]);
                                    assert(frame_ok(fs_rev[j], self.initial@, self.board@));
                                    assert(!(fs_rev[j].x == f.x && fs_rev[j].y == f.y));
                                }
                                lemma_bases_after_pop(gcur, fs_rev);
                                assert(cleared_from(gcur, fs_rev, len_old - 1) == gcur.update(
                                    cf,
                                    0u8,
                                ));
                                assert forall|h: Seq<u8>|
                                    #[trigger] is_solution(init, h) implies (ys.contains(h)
                                    || cur_pending(
                                    gcur.update(cf, 0u8),
                                    f.x as int,
                                    f.y as int,
                                    bit_iter_seq(f.it),
                                    h,
                                ) || (exists|i: int|
                                    0 <= i < self.stack@.len() && #[trigger] pending_at(
                                        gcur.update(cf, 0u8),
                                        self.stack@,
                                        i,
                                        h,
                                    ))) by {
                                    if !ys.contains(h) {
                                        let i = choose|i: int|
                                            0 <= i < fs_rev.len() && #[trigger] pending_at(
                                                gcur,
                                                fs_rev,
                                                i,
                                                h,
                                            );
                                        if i < len_old - 1 {
                                            assert(cleared_from(
                                                gcur.update(cf, 0u8),
                                                self.stack@,
                                                i,
                                            ) == cleared_from(gcur, fs_rev, i)) by {
                                                assert(self.stack@ == fs_rev.drop_last());
                                            }
                                            assert(self.stack@[i] == fs_rev[i]);
                                            assert(pending_at(
                                                gcur.update(cf, 0u8),
                                                self.stack@,
                                                i,
                                                h,
                                            ));
                                        } else {
                                            assert(pending_at(gcur, fs_rev, len_old - 1, h));
                                            assert(cur_pending(
                                                gcur.update(cf, 0u8),
                                                f.x as int,
                                                f.y as int,
                                                bit_iter_seq(f.it),
                                                h,
                                            ));
                                        }
                                    }
                                }
                                assert forall|h: Seq<u8>|
                                    #[trigger] cur_pending(
                                        gcur.update(cf, 0u8),
                                        f.x as int,
                                        f.y as int,
                                        bit_iter_seq(f.it),
                                        h,
                                    ) implies is_solution(init, h) && !ys.contains(h) by {
                                    assert(pending_at(gcur, fs_rev, len_old - 1, h));
                                }
                                assert forall|i: int, h: Seq<u8>|
                                    0 <= i < self.stack@.len() && #[trigger] pending_at(
                                        gcur.update(cf, 0u8),
                                        self.stack@,
                                        i,
                                        h,
                                    ) implies is_solution(init, h) && !ys.contains(h) by {
                                    assert(cleared_from(gcur.update(cf, 0u8), self.stack@, i)
                                        == cleared_from(gcur, fs_rev, i)) by {
                                        assert(self.stack@ == fs_rev.drop_last());
                                    }
                                    assert(self.stack@[i] == fs_rev[i]);
                                    assert(pending_at(gcur, fs_rev, i, h));
                                }
                            }
                            x = f.x;
                            y = f.y;
                            values = f.it;
                        },
                        None => {
                            proof {
                                assert forall|h: Seq<u8>|
                                    #[trigger] is_solution(init, h) implies ys.contains(h) by {
                                    if !ys.contains(h) {
                                        let i = choose|i: int|
                                            0 <= i < fs_rev.len() && #[trigger] pending_at(
                                                gcur,
                                                fs_rev,
                                                i,
                                                h,
                                            );
                                    }
                                }
                            }
                            return None;
                        },
                    }
                },
            }
        }
    }

    /// Produce the next solution, if any remain.
    ///
    /// Every board handed out is complete, obeys the constraint, and leaves
    /// all the givens of the starting puzzle in place.  A starting board
    /// that is already complete and valid is yielded as-is on the first
    /// call.  Once the enumerator is exhausted it stays exhausted: every
    /// further call yields nothing.
    pub fn next(&mut self) -> (r: Option<Board>)
        requires
            old(self).wf(),
        ensures
            final(self).wf(),
            final(self).start() == old(self).start(),
            !final(self).fresh(),
            (r matches Some(s) ==> s.wf() && is_solution(old(self).start(), s@) && !old(self).yielded_grids().contains(s@) && final(self).yielded_grids() == old(self).yielded_grids().push(s@)),
            (r is None ==> final(self).yielded_grids() == old(self).yielded_grids() && (
            forall|h: Seq<u8>|
                #[trigger] is_solution(old(self).start(), h) ==> final(self).yielded_grids().contains(h))),
            ((old(self).fresh() && spec_valid(old(self).start()) && spec_complete(
                old(self).start(),
            )) ==> (r matches Some(s) && s@ == old(self).start())),
            ((old(self).fresh() && solvable(old(self).start())) ==> r is Some),
            (r is None ==> final(self).exhausted()),
            (old(self).exhausted() ==> r is None && final(self).exhausted()),
            (!solvable(old(self).start()) ==> r is None),
            ((old(self).fresh() && !spec_valid(old(self).start())) ==> r is None),
    {
        proof {
            self.board.lemma_view_masks();
        }
        let ghost init = self.initial@;
        if self.first {
            self.first = false;
            if valid(&self.board) {
                match cell_with_fewest_candidates(&self.board) {
                    Some(mrv) => {
                        let (fx, fy, fcs) = mrv;
                        if fcs == 0 {
                            // The starting board is already a solution, and
                            // its own unique one.
                            self.yielded = Ghost(self.yielded@.push(self.board@));
                            proof {
                                assert(grid_wf(self.board@));
                                assert(extends(init, self.board@));
                                assert(is_solution(init, self.board@));
                                assert(solvable(init));
                                lemma_complete_valid_unique_solution(self.board@);
                                assert forall|h: Seq<u8>|
                                    #[trigger] is_solution(init, h) implies self.yielded@.contains(
                                    h,
                                ) by {
                                    assert(h == self.board@);
                                    assert(self.yielded@[0] == self.board@);
                                }
                            }
                            return Some(self.board.duplicate());
                        }
                        let values = bit_iter_of(fcs);
                        proof {
                            lemma_candidate_positions_digits(fcs);
                            lemma_bit_positions_from_props(fcs, 0);
                            let cf = idx(fx as int, fy as int);
                            assert(self.board@.update(cf, 0u8) =~= self.board@);
                            assert(grid_wf(self.board@));
                            // Initially every solution is reachable through
                            // the chosen cell.
                            assert forall|h: Seq<u8>|
                                #[trigger] is_solution(init, h) implies cur_pending(
                                self.board@.update(cf, 0u8),
                                fx as int,
                                fy as int,
                                bit_iter_seq(values),
                                h,
                            ) by {
                                lemma_solution_digit_is_candidate(
                                    self.board@,
                                    h,
                                    fx as int,
                                    fy as int,
                                );
                                let d = h[cf];
                                assert(is_candidate(self.board@, fx as int, fy as int, d));
                                assert(bit_set(fcs, d as u16));
                                assert(bit_positions(fcs).contains((d as u16) as usize));
                                assert((d as u16) as usize == d as usize);
                            }
                            assert forall|h: Seq<u8>|
                                #[trigger] cur_pending(
                                    self.board@.update(cf, 0u8),
                                    fx as int,
                                    fy as int,
                                    bit_iter_seq(values),
                                    h,
                                ) implies is_solution(init, h) && !self.yielded@.contains(h) by {
                                assert(is_solution(self.board@, h));
                                if self.yielded@.contains(h) {
                                    let j = choose|j: int|
                                        0 <= j < self.yielded@.len() && self.yielded@[j] == h;
                                }
                            }
                        }
                        let r = self.search(fx, fy, values);
                        proof {
                            if r is None && solvable(init) {
                                let h = choose|h: Seq<u8>| is_solution(init, h);
                                let j = choose|j: int|
                                    0 <= j < self.yielded@.len() && self.yielded@[j] == h;
                            }
                        }
                        r
                    },
                    None => {
                        proof {
                            assert forall|h: Seq<u8>| !is_solution(init, h) by {
                                if is_solution(init, h) {
                                    assert(solvable(init));
                                }
                            }
                        }
                        None
                    },
                }
            } else {
                proof {
                    assert forall|h: Seq<u8>| !is_solution(init, h) by {
                        if is_solution(init, h) {
                            lemma_extends_preserves_valid(init, h);
                        }
                    }
                }
                None
            }
        } else {
            match self.stack.pop() {
                Some(f) => {
                    let ghost fs_old = self.stack@.push(f);
                    let ghost g = self.board@;
                    let ghost cf = idx(f.x as int, f.y as int);
                    proof {
                        assert(old(self).stack@ =~= fs_old);
                        assert(frame_ok(f, self.initial@, self.board@));
                        assert forall|i: int|
                            0 <= i < self.stack@.len() implies frame_ok(
                            #[trigger] self.stack@[i],
                            self.initial@,
                            self.board@,
                        ) by {
                            assert(self.stack@[i] == fs_old[i]);
                        }
                        assert forall|i: int|
                            0 <= i < self.stack@.len() implies !((#[trigger] self.stack@[i]).x
                            == f.x && self.stack@[i].y == f.y) by {
                            assert(self.stack@[i] == fs_old[i]);
                            assert(fs_old[fs_old.len() - 1] == f);
                        }
                        // The popped frame's pending solutions become the
                        // active cell's; the other frames keep theirs.
                        crate::grid::lemma_idx_injective();
                        assert(fs_old.last() == f);
                        assert forall|j: int|
                            0 <= j < fs_old.len() - 1 implies idx(
                            (#[trigger] fs_old[j]).x as int,
                            fs_old[j].y as int,
                        ) != cf && 0 <= idx(fs_old[j].x as int, fs_old[j].y as int) < 81 by {
                            assert(fs_old[j] == self.stack@[j]);
                            assert(frame_ok(fs_old[j], self.initial@, self.board@));
                            assert(!(fs_old[j].x == f.x && fs_old[j].y == f.y));
                        }
                        lemma_bases_after_pop(g, fs_old);
                        assert(cleared_from(g, fs_old, fs_old.len() - 1) == g.update(cf, 0u8));
                        assert forall|h: Seq<u8>|
                            #[trigger] is_solution(init, h) implies (self.yielded@.contains(h)
                            || cur_pending(
                            g.update(cf, 0u8),
                            f.x as int,
                            f.y as int,
                            bit_iter_seq(f.it),
                            h,
                        ) || (exists|i: int|
                            0 <= i < self.stack@.len() && #[trigger] pending_at(
                                g.update(cf, 0u8),
                                self.stack@,
                                i,
                                h,
                            ))) by {
                            if !self.yielded@.contains(h) {
                                let i = choose|i: int|
                                    0 <= i < fs_old.len() && #[trigger] pending_at(
                                        g,
                                        fs_old,
                                        i,
                                        h,
                                    );
                                if i < fs_old.len() - 1 {
                                    assert(cleared_from(g.update(cf, 0u8), self.stack@, i)
                                        == cleared_from(g, fs_old, i)) by {
                                        assert(self.stack@ == fs_old.drop_last());
                                    }
                                    assert(self.stack@[i] == fs_old[i]);
                                    assert(pending_at(g.update(cf, 0u8), self.stack@, i, h));
                                } else {
                                    assert(pending_at(g, fs_old, fs_old.len() - 1, h));
                                    assert(cur_pending(
                                        g.update(cf, 0u8),
                                        f.x as int,
                                        f.y as int,
                                        bit_iter_seq(f.it),
                                        h,
                                    ));
                                }
                            }
                        }
                        assert forall|h: Seq<u8>|
                            #[trigger] cur_pending(
                                g.update(cf, 0u8),
                                f.x as int,
                                f.y as int,
                                bit_iter_seq(f.it),
                                h,
                            ) implies is_solution(init, h) && !self.yielded@.contains(h) by {
                            assert(pending_at(g, fs_old, fs_old.len() - 1, h));
                        }
                        assert forall|i: int, h: Seq<u8>|
                            0 <= i < self.stack@.len() && #[trigger] pending_at(
                                g.update(cf, 0u8),
                                self.stack@,
                                i,
                                h,
                            ) implies is_solution(init, h) && !self.yielded@.contains(h) by {
                            assert(cleared_from(g.update(cf, 0u8), self.stack@, i)
                                == cleared_from(g, fs_old, i)) by {
                                assert(self.stack@ == fs_old.drop_last());
                            }
                            assert(self.stack@[i] == fs_old[i]);
                            assert(pending_at(g, fs_old, i, h));
                        }
                    }
                    let fx = f.x;
                    let fy = f.y;
                    self.search(fx, fy, f.it)
                },
                None => {
                    None
                },
            }
        }
    }
}

} // verus!
