//! The `Board` type.
//!
//! Puzzles and solutions are represented by the `Board` type.
//!
//! A `Board` is a nine-by-nine grid of cells.  Each cell contains either a
//! number from 1 to 9, or a zero if the cell is unfilled.  Internally a cell
//! is stored as a ten-bit one-hot mask — bit 0 for an empty cell, bit `d` for
//! digit `d` — so that the solver can gather the digits used along a row,
//! column or square with plain bitwise ors.  The view of a `Board` is the
//! row-major sequence of its eighty-one digits.

use vstd::prelude::*;
use vstd::pervasive::VecAdditionalExecFns;

use crate::grid::idx;

verus! {

/// The height or width of a square of cells within the board.
pub const SQUARE_SIZE: usize = 3;

/// The number of cells in a row, column or square.
pub const BOARD_SIZE: usize = SQUARE_SIZE * SQUARE_SIZE;

/// The digit encoded by a one-hot cell mask; ten marks a mask that encodes
/// nothing.
pub open spec fn mask_digit(m: u16) -> u8 {
    if m == 1 {
        0
    } else if m == 2 {
        1
    } else if m == 4 {
        2
    } else if m == 8 {
        3
    } else if m == 16 {
        4
    } else if m == 32 {
        5
    } else if m == 64 {
        6
    } else if m == 128 {
        7
    } else if m == 256 {
        8
    } else if m == 512 {
        9
    } else {
        10
    }
}

/// The one-hot mask that encodes digit `d`; zero encodes the empty cell.
pub open spec fn digit_mask(d: u8) -> u16 {
    1u16 << (d as u16)
}

/// A cell mask is well formed when it has exactly one bit set, between bit 0
/// and bit 9.
pub open spec fn mask_wf(m: u16) -> bool {
    mask_digit(m) <= 9
}

/// Encoding a digit and reading it back round-trips, and yields a well-formed
/// mask.
pub proof fn lemma_digit_mask_roundtrip(d: u8)
    requires
        d <= 9,
    ensures
        mask_wf(digit_mask(d)),
        mask_digit(digit_mask(d)) == d,
{
    assert(mask_digit(digit_mask(d)) == d) by (bit_vector)
        requires
            d <= 9,
    ;
}

/// A well-formed mask is the encoding of the digit it decodes to.
pub proof fn lemma_mask_digit_roundtrip(m: u16)
    requires
        mask_wf(m),
    ensures
        digit_mask(mask_digit(m)) == m,
{
    assert(mask_digit(m) <= 9 ==> (1u16 << (mask_digit(m) as u16)) == m) by (bit_vector);
}

/// A representation of a puzzle or solution.
///
/// Equality and hashing are structural: two boards are equal exactly when
/// every cell mask matches.
#[derive(Debug, Eq, Hash)]
pub struct Board {
    cells: Vec<u16>,
}

impl View for Board {
    type V = Seq<u8>;

    /// The eighty-one digits of the board, row-major.
    closed spec fn view(&self) -> Seq<u8> {
        Seq::new(81, |i: int| mask_digit(self.cells@[i]))
    }
}

impl Board {
    /// The raw one-hot masks of the eighty-one cells, row-major.
    pub closed spec fn masks(&self) -> Seq<u16> {
        self.cells@
    }

    /// The board holds eighty-one cells and every mask is one-hot between
    /// bit 0 and bit 9.
    pub open spec fn wf(&self) -> bool {
        &&& self.masks().len() == 81
        &&& self@.len() == 81
        &&& forall|i: int| 0 <= i < 81 ==> mask_wf(#[trigger] self.masks()[i])
    }

    /// The digits and the masks of a well-formed board determine each other.
    pub proof fn lemma_view_masks(&self)
        requires
            self.wf(),
        ensures
            self@.len() == 81,
            forall|i: int| 0 <= i < 81 ==> #[trigger] self@[i] <= 9,
            forall|i: int| 0 <= i < 81 ==> #[trigger] self.masks()[i] == digit_mask(self@[i]),
    {
        assert forall|i: int| 0 <= i < 81 implies #[trigger] self.masks()[i] == digit_mask(
            self@[i],
        ) by {
            lemma_mask_digit_roundtrip(self.masks()[i]);
        }
    }

    /// Create a `Board` with the given content.
    ///
    /// The `cells` parameter is a two-dimensional array slice, rows first,
    /// each supplied value a digit 0 through 9 (zero for an unfilled cell).
    pub fn new(cells: &[[u8; BOARD_SIZE]; BOARD_SIZE]) -> (b: Board)
        requires
            forall|y: int, x: int|
                0 <= y < 9 && 0 <= x < 9 ==> #[trigger] cells@[y]@[x] <= 9,
        ensures
            b.wf(),
            forall|y: int, x: int|
                0 <= y < 9 && 0 <= x < 9 ==> #[trigger] b@[idx(x, y)] == cells@[y]@[x],
    {
        let mut b = Board::default();
        let mut y: usize = 0;
        while y < BOARD_SIZE
            invariant
                y <= 9,
                b.wf(),
                forall|y2: int, x2: int|
                    0 <= y2 < 9 && 0 <= x2 < 9 ==> #[trigger] cells@[y2]@[x2] <= 9,
                forall|y2: int, x2: int|
                    0 <= y2 < y && 0 <= x2 < 9 ==> #[trigger] b@[idx(x2, y2)] == cells@[y2]@[x2],
            decreases 9 - y,
        {
            let mut x: usize = 0;
            while x < BOARD_SIZE
                invariant
                    y < 9,
                    x <= 9,
                    b.wf(),
                    forall|y2: int, x2: int|
                        0 <= y2 < 9 && 0 <= x2 < 9 ==> #[trigger] cells@[y2]@[x2] <= 9,
                    forall|y2: int, x2: int|
                        0 <= y2 < y && 0 <= x2 < 9 ==> #[trigger] b@[idx(x2, y2)]
                            == cells@[y2]@[x2],
                    forall|x2: int|
                        0 <= x2 < x ==> #[trigger] b@[idx(x2, y as int)] == cells@[y as int]@[x2],
                decreases 9 - x,
            {
                b.set_cell(x, y, cells[y][x]);
                x = x + 1;
            }
            y = y + 1;
        }
        b
    }

    /// Get the contents of the cell at the given coordinates.
    ///
    /// This returns the contents of the cell at column `x` and row `y`.  A
    /// zero represents a cell which is unfilled, otherwise the value is
    /// between 1 and 9 inclusive.
    pub fn get_cell(&self, x: usize, y: usize) -> (d: u8)
        requires
            self.wf(),
            x < 9,
            y < 9,
        ensures
            d == self@[idx(x as int, y as int)],
            d <= 9,
    {
        let m = self.cells[y * 9 + x];
        if m == 1 {
            0
        } else if m == 2 {
            1
        } else if m == 4 {
            2
        } else if m == 8 {
            3
        } else if m == 16 {
            4
        } else if m == 32 {
            5
        } else if m == 64 {
            6
        } else if m == 128 {
            7
        } else if m == 256 {
            8
        } else if m == 512 {
            9
        } else {
            10
        }
    }

    /// Expose the raw one-hot mask of the cell at column `x` and row `y`.
    pub fn get_cell_as_mask(&self, x: usize, y: usize) -> (m: u16)
        requires
            self.wf(),
            x < 9,
            y < 9,
        ensures
            m == self.masks()[idx(x as int, y as int)],
            m == digit_mask(self@[idx(x as int, y as int)]),
    {
        proof {
            lemma_mask_digit_roundtrip(self.masks()[idx(x as int, y as int)]);
        }
        self.cells[y * 9 + x]
    }

    /// Overwrite the raw mask of the cell at column `x` and row `y`.
    ///
    /// The mask must be one-hot between bit 0 and bit 9, so that it encodes a
    /// digit or the empty cell.
    pub fn set_cell_as_mask(&mut self, x: usize, y: usize, mask: u16)
        requires
            old(self).wf(),
            x < 9,
            y < 9,
            mask_wf(mask),
        ensures
            final(self).wf(),
            final(self).masks() == old(self).masks().update(idx(x as int, y as int), mask),
            final(self)@ == old(self)@.update(idx(x as int, y as int), mask_digit(mask)),
    {
        self.cells.set(y * 9 + x, mask);
        proof {
            assert(self@ =~= old(self)@.update(idx(x as int, y as int), mask_digit(mask)));
        }
    }

    /// Set the contents of the cell at column `x` and row `y` to the given
    /// digit; zero empties the cell.
    pub fn set_cell(&mut self, x: usize, y: usize, value: u8)
        requires
            old(self).wf(),
            x < 9,
            y < 9,
            value <= 9,
        ensures
            final(self).wf(),
            final(self)@ == old(self)@.update(idx(x as int, y as int), value),
    {
        proof {
            lemma_digit_mask_roundtrip(value);
        }
        self.set_cell_as_mask(x, y, 1u16 << (value as u16));
    }

    /// Construct a board which differs from this one in a single cell.
    ///
    /// The returned board is the same as the input one, except that the cell
    /// at column `x` and row `y` holds `value`.
    pub fn with_cell(&self, x: usize, y: usize, value: u8) -> (b: Board)
        requires
            self.wf(),
            x < 9,
            y < 9,
            value <= 9,
        ensures
            b.wf(),
            b@ == self@.update(idx(x as int, y as int), value),
    {
        let mut b = self.duplicate();
        b.set_cell(x, y, value);
        b
    }

    /// An independent copy of the board: mutating the copy never affects the
    /// original.
    pub fn duplicate(&self) -> (b: Board)
        requires
            self.wf(),
        ensures
            b.wf(),
            b.masks() == self.masks(),
            b@ == self@,
    {
        let mut cells: Vec<u16> = Vec::new();
        let mut i: usize = 0;
        while i < 81
            invariant
                self.wf(),
                i <= 81,
                cells@ =~= self.masks().subrange(0, i as int),
            decreases 81 - i,
        {
            cells.push(self.cells[i]);
            i = i + 1;
        }
        let b = Board { cells };
        proof {
            assert(b.masks() =~= self.masks());
            assert(b@ =~= self@);
        }
        b
    }
}

impl Default for Board {
    /// The all-empty board: every cell unfilled.
    fn default() -> (b: Board)
        ensures
            b.wf(),
            forall|i: int| 0 <= i < 81 ==> #[trigger] b@[i] == 0,
    {
        let mut cells: Vec<u16> = Vec::new();
        let mut i: usize = 0;
        while i < 81
            invariant
                i <= 81,
                cells@.len() == i,
                forall|j: int| 0 <= j < i ==> #[trigger] cells@[j] == 1u16,
            decreases 81 - i,
        {
            cells.push(1u16);
            i = i + 1;
        }
        Board { cells }
    }
}

impl PartialEq for Board {
    /// Two boards are equal exactly when every cell mask matches.
    fn eq(&self, other: &Board) -> (r: bool) {
        if self.cells.len() != other.cells.len() {
            return false;
        }
        let mut i: usize = 0;
        while i < self.cells.len()
            invariant
                self.cells.len() == other.cells.len(),
                i <= self.cells.len(),
                forall|j: int| 0 <= j < i ==> #[trigger] self.masks()[j] == other.masks()[j],
            decreases self.cells.len() - i,
        {
            if self.cells[i] != other.cells[i] {
                return false;
            }
            i = i + 1;
        }
        proof {
            assert(self.masks() =~= other.masks());
        }
        true
    }
}

impl vstd::std_specs::cmp::PartialEqSpecImpl for Board {
    open spec fn obeys_eq_spec() -> bool {
        true
    }

    open spec fn eq_spec(&self, other: &Board) -> bool {
        self.masks() == other.masks()
    }
}

} // verus!
