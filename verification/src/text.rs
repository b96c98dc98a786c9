//! Textual rendering of a board, and parsing the rendering back.
//!
//! A board renders as nine rows separated by newlines; within a row the nine
//! cells are separated by single spaces, a filled cell showing its digit and
//! an empty cell showing a dash.  Parsing accepts exactly that shape, and
//! rendering followed by parsing reproduces the digit grid.

use vstd::prelude::*;
use vstd::string::StrSliceExecFns;
use vstd::string::StringExecFns;

use crate::board::Board;
use crate::grid::grid_wf;
use crate::grid::idx;

verus! {

/// The character that renders digit `d`; zero, the empty cell, renders as a
/// dash.
pub open spec fn digit_char(d: u8) -> char {
    if d == 1 {
        '1'
    } else if d == 2 {
        '2'
    } else if d == 3 {
        '3'
    } else if d == 4 {
        '4'
    } else if d == 5 {
        '5'
    } else if d == 6 {
        '6'
    } else if d == 7 {
        '7'
    } else if d == 8 {
        '8'
    } else if d == 9 {
        '9'
    } else {
        '-'
    }
}

/// The digit a cell character stands for; ten marks a character that renders
/// no cell.
pub open spec fn char_digit(c: char) -> u8 {
    if c == '-' {
        0
    } else if c == '1' {
        1
    } else if c == '2' {
        2
    } else if c == '3' {
        3
    } else if c == '4' {
        4
    } else if c == '5' {
        5
    } else if c == '6' {
        6
    } else if c == '7' {
        7
    } else if c == '8' {
        8
    } else if c == '9' {
        9
    } else {
        10
    }
}

/// The character at position `i` of the rendering: each row occupies
/// eighteen positions — nine cell characters at even offsets, eight spaces
/// at odd offsets, and a newline at offset seventeen — except the last row,
/// which ends the text without a newline.
pub open spec fn render_char_at(g: Seq<u8>, i: int) -> char {
    let y = i / 18;
    let r = i % 18;
    if r == 17 {
        '\n'
    } else if r % 2 == 1 {
        ' '
    } else {
        digit_char(g[idx(r / 2, y)])
    }
}

/// The full rendering of a grid: nine rows of seventeen characters joined by
/// eight newlines.
pub open spec fn spec_render(g: Seq<u8>) -> Seq<char> {
    Seq::new(161, |i: int| render_char_at(g, i))
}

/// The text has exactly the rendered shape: the right length, newlines and
/// spaces in their places, and a digit or dash at every cell position.
pub open spec fn parse_ok(s: Seq<char>) -> bool {
    &&& s.len() == 161
    &&& forall|i: int| 0 <= i < 161 && i % 18 == 17 ==> #[trigger] s[i] == '\n'
    &&& forall|i: int| 0 <= i < 161 && i % 18 != 17 && i % 18 % 2 == 1 ==> #[trigger] s[i] == ' '
    &&& forall|i: int| 0 <= i < 161 && i % 18 % 2 == 0 ==> char_digit(#[trigger] s[i]) <= 9
}

/// The grid a well-shaped text denotes, cell by cell.
pub open spec fn parsed_grid(s: Seq<char>) -> Seq<u8> {
    Seq::new(81, |k: int| char_digit(s[(k / 9) * 18 + (k % 9) * 2]))
}

/// What parsing a text yields: the denoted grid where the text has the
/// rendered shape, and nothing otherwise.
pub open spec fn spec_parse(s: Seq<char>) -> Option<Seq<u8>> {
    if parse_ok(s) {
        Some(parsed_grid(s))
    } else {
        None
    }
}

proof fn lemma_cell_pos(k: int)
    by (nonlinear_arith)
    requires
        0 <= k < 81,
    ensures
        0 <= (k / 9) * 18 + (k % 9) * 2 < 161,
        ((k / 9) * 18 + (k % 9) * 2) / 18 == k / 9,
        ((k / 9) * 18 + (k % 9) * 2) % 18 == (k % 9) * 2,
        (k / 9) * 9 + k % 9 == k,
        0 <= k % 9 < 9,
        0 <= k / 9 < 9,
{
}

proof fn lemma_grid_pos(x: int, y: int)
    by (nonlinear_arith)
    requires
        0 <= x < 9,
        0 <= y < 9,
    ensures
        (y * 18 + 2 * x) / 18 == y,
        (y * 18 + 2 * x) % 18 == 2 * x,
        x < 8 ==> (y * 18 + 2 * x + 1) / 18 == y && (y * 18 + 2 * x + 1) % 18 == 2 * x + 1,
        (y * 18 + 17) / 18 == y && (y * 18 + 17) % 18 == 17,
        (2 * x) % 2 == 0 && (2 * x) / 2 == x && (2 * x + 1) % 2 == 1,
        0 <= y * 18 + 2 * x < 161,
        x < 8 ==> y * 18 + 2 * x + 1 < 161,
        y < 8 ==> y * 18 + 17 < 161,
{
}

/// Rendering a well-formed grid and parsing the text back reproduces the
/// grid exactly: the round trip through the textual form loses nothing.
pub proof fn lemma_render_parse_round_trip(g: Seq<u8>)
    requires
        grid_wf(g),
    ensures
        spec_parse(spec_render(g)) == Some(g),
{
    let s = spec_render(g);
    assert forall|i: int| 0 <= i < 161 && i % 18 % 2 == 0 implies char_digit(#[trigger] s[i])
        <= 9 by {
        let y = i / 18;
        let r = i % 18;
        assert(0 <= r < 18 && i == 18 * y + r && 0 <= y < 9) by (nonlinear_arith)
            requires
                0 <= i < 161 && y == i / 18 && r == i % 18,
        ;
        assert(r % 2 == 0 ==> 0 <= r / 2 < 9);
        assert(g[idx(r / 2, y)] <= 9);
    }
    assert(parse_ok(s));
    assert forall|k: int| 0 <= k < 81 implies parsed_grid(s)[k] == g[k] by {
        lemma_cell_pos(k);
        let p = (k / 9) * 18 + (k % 9) * 2;
        assert(s[p] == render_char_at(g, p));
        assert((p % 18) % 2 == 0 && p % 18 != 17) by (nonlinear_arith)
            requires
                p % 18 == (k % 9) * 2 && 0 <= k % 9 < 9,
        ;
        assert((p % 18) / 2 == k % 9) by (nonlinear_arith)
            requires
                p % 18 == (k % 9) * 2,
        ;
        assert(idx(k % 9, k / 9) == k);
        assert(s[p] == digit_char(g[k]));
        assert(g[k] <= 9);
    }
    assert(parsed_grid(s) =~= g);
}

impl Board {
    /// Render the board as text: nine space-separated rows, a digit for each
    /// filled cell and a dash for each empty one.
    pub fn render(&self) -> (s: String)
        requires
            self.wf(),
        ensures
            s@ == spec_render(self@),
    {
        proof {
            self.lemma_view_masks();
            reveal_strlit("1");
            reveal_strlit("2");
            reveal_strlit("3");
            reveal_strlit("4");
            reveal_strlit("5");
            reveal_strlit("6");
            reveal_strlit("7");
            reveal_strlit("8");
            reveal_strlit("9");
            reveal_strlit("-");
            reveal_strlit(" ");
            reveal_strlit("\n");
        }
        let mut s = String::new();
        let mut y: usize = 0;
        while y < 9
            invariant
                self.wf(),
                self@.len() == 81,
                y <= 9,
                s@ =~= spec_render(self@).subrange(
                    0,
                    if y < 9 {
                        18 * y as int
                    } else {
                        161
                    },
                ),
            decreases 9 - y,
        {
            let mut x: usize = 0;
            while x < 9
                invariant
                    self.wf(),
                    self@.len() == 81,
                    y < 9,
                    x <= 9,
                    s@ =~= spec_render(self@).subrange(
                        0,
                        18 * y as int + if x > 0 {
                            2 * x as int - 1
                        } else {
                            0
                        },
                    ),
                decreases 9 - x,
            {
                proof {
                    reveal_strlit("1");
                    reveal_strlit("2");
                    reveal_strlit("3");
                    reveal_strlit("4");
                    reveal_strlit("5");
                    reveal_strlit("6");
                    reveal_strlit("7");
                    reveal_strlit("8");
                    reveal_strlit("9");
                    reveal_strlit("-");
                    reveal_strlit(" ");
                    lemma_grid_pos(x as int, y as int);
                }
                if x != 0 {
                    s.append(" ");
                    proof {
                        let p = 18 * y as int + 2 * x as int - 1;
                        assert(spec_render(self@)[p] == ' ') by {
                            assert((p / 18) == y as int && p % 18 == 2 * (x as int) - 1)
                                by (nonlinear_arith)
                                requires
                                    p == 18 * (y as int) + 2 * (x as int) - 1 && 0 < x < 9 && 0 <= y
                                        < 9,
                            ;
                        }
                        assert(s@ =~= spec_render(self@).subrange(0, p + 1));
                    }
                }
                let v = self.get_cell(x, y);
                match v {
                    1 => s.append("1"),
                    2 => s.append("2"),
                    3 => s.append("3"),
                    4 => s.append("4"),
                    5 => s.append("5"),
                    6 => s.append("6"),
                    7 => s.append("7"),
                    8 => s.append("8"),
                    9 => s.append("9"),
                    _ => s.append("-"),
                }
                proof {
                    let p = 18 * y as int + 2 * x as int;
                    assert(spec_render(self@)[p] == digit_char(self@[idx(x as int, y as int)]));
                    assert(s@ =~= spec_render(self@).subrange(0, p + 1));
                }
                x = x + 1;
            }
            if y != 8 {
                s.append("\n");
                proof {
                    reveal_strlit("\n");
                    lemma_grid_pos(8, y as int);
                    let p = 18 * y as int + 17;
                    assert(spec_render(self@)[p] == '\n');
                    assert(s@ =~= spec_render(self@).subrange(0, 18 * (y as int + 1)));
                }
            } else {
                proof {
                    assert(s@ =~= spec_render(self@).subrange(0, 161));
                }
            }
            y = y + 1;
        }
        proof {
            assert(s@ =~= spec_render(self@));
        }
        s
    }
}

/// Parse a rendered board back into a `Board`.
///
/// Accepts exactly the shape that [`Board::render`] produces and yields the
/// board whose digits the text shows; any other text yields nothing.
pub fn parse_board(s: &str) -> (r: Option<Board>)
    ensures
        (r matches Some(b) ==> b.wf() && spec_parse(s@) == Some(b@)),
        (r is None ==> spec_parse(s@) is None),
{
    let n = s.unicode_len();
    if n != 161 {
        return None;
    }
    let mut b = Board::default();
    let mut y: usize = 0;
    while y < 9
        invariant
            s@.len() == 161,
            y <= 9,
            b.wf(),
            forall|y2: int, x2: int|
                0 <= y2 < y && 0 <= x2 < 9 ==> char_digit(#[trigger] s@[y2 * 18 + 2 * x2]) <= 9
                    && b@[idx(x2, y2)] == char_digit(s@[y2 * 18 + 2 * x2]),
            forall|y2: int, x2: int|
                0 <= y2 < y && 0 <= x2 < 8 ==> #[trigger] s@[y2 * 18 + 2 * x2 + 1] == ' ',
            forall|y2: int| 0 <= y2 < y && y2 < 8 ==> #[trigger] s@[y2 * 18 + 17] == '\n',
        decreases 9 - y,
    {
        let mut x: usize = 0;
        while x < 9
            invariant
                s@.len() == 161,
                y < 9,
                x <= 9,
                b.wf(),
                forall|y2: int, x2: int|
                    0 <= y2 < y && 0 <= x2 < 9 ==> char_digit(#[trigger] s@[y2 * 18 + 2 * x2]) <= 9
                        && b@[idx(x2, y2)] == char_digit(s@[y2 * 18 + 2 * x2]),
                forall|y2: int, x2: int|
                    0 <= y2 < y && 0 <= x2 < 8 ==> #[trigger] s@[y2 * 18 + 2 * x2 + 1] == ' ',
                forall|y2: int| 0 <= y2 < y && y2 < 8 ==> #[trigger] s@[y2 * 18 + 17] == '\n',
                forall|x2: int|
                    0 <= x2 < x ==> char_digit(#[trigger] s@[y as int * 18 + 2 * x2]) <= 9
                        && b@[idx(x2, y as int)] == char_digit(s@[y as int * 18 + 2 * x2]),
                forall|x2: int|
                    0 <= x2 < x && x2 < 8 ==> #[trigger] s@[y as int * 18 + 2 * x2 + 1] == ' ',
            decreases 9 - x,
        {
            proof {
                lemma_grid_pos(x as int, y as int);
                crate::grid::lemma_idx_injective();
            }
            let c = s.get_char(y * 18 + 2 * x);
            let d: u8 = match c {
                '1' => 1,
                '2' => 2,
                '3' => 3,
                '4' => 4,
                '5' => 5,
                '6' => 6,
                '7' => 7,
                '8' => 8,
                '9' => 9,
                '-' => 0,
                _ => {
                    proof {
                        assert(char_digit(s@[y as int * 18 + 2 * (x as int)]) == 10);
                        assert((y as int * 18 + 2 * (x as int)) % 18 % 2 == 0);
                    }
                    return None;
                },
            };
            b.set_cell(x, y, d);
            if x < 8 {
                let c2 = s.get_char(y * 18 + 2 * x + 1);
                if c2 != ' ' {
                    proof {
                        assert(s@[y as int * 18 + 2 * (x as int) + 1] != ' ');
                        assert((y as int * 18 + 2 * (x as int) + 1) % 18 != 17);
                        assert((y as int * 18 + 2 * (x as int) + 1) % 18 % 2 == 1);
                    }
                    return None;
                }
            }
            proof {
                assert(b@[idx(x as int, y as int)] == d);
                assert(char_digit(s@[y as int * 18 + 2 * (x as int)]) == d);
            }
            x = x + 1;
        }
        if y < 8 {
            proof {
                lemma_grid_pos(8, y as int);
            }
            let c3 = s.get_char(y * 18 + 17);
            if c3 != '\n' {
                proof {
                    assert((y as int * 18 + 17) % 18 == 17);
                }
                return None;
            }
        }
        y = y + 1;
    }
    proof {
        assert forall|i: int| 0 <= i < 161 && i % 18 == 17 implies #[trigger] s@[i] == '\n' by {
            let y2 = i / 18;
            assert(i == 18 * y2 + 17 && 0 <= y2 < 8) by (nonlinear_arith)
                requires
                    0 <= i < 161 && i % 18 == 17 && y2 == i / 18,
            ;
            assert(s@[y2 * 18 + 17] == '\n');
        }
        assert forall|i: int|
            0 <= i < 161 && i % 18 != 17 && i % 18 % 2 == 1 implies #[trigger] s@[i] == ' ' by {
            let y2 = i / 18;
            let x2 = (i % 18 - 1) / 2;
            assert(i == y2 * 18 + 2 * x2 + 1 && 0 <= y2 < 9 && 0 <= x2 < 8) by (nonlinear_arith)
                requires
                    0 <= i < 161 && i % 18 != 17 && i % 18 % 2 == 1 && y2 == i / 18 && x2 == (i % 18
                        - 1) / 2,
            ;
            assert(s@[y2 * 18 + 2 * x2 + 1] == ' ');
        }
        assert forall|i: int|
            0 <= i < 161 && i % 18 % 2 == 0 implies char_digit(#[trigger] s@[i]) <= 9 by {
            let y2 = i / 18;
            let x2 = (i % 18) / 2;
            assert(i == y2 * 18 + 2 * x2 && 0 <= y2 < 9 && 0 <= x2 < 9) by (nonlinear_arith)
                requires
                    0 <= i < 161 && i % 18 % 2 == 0 && y2 == i / 18 && x2 == (i % 18) / 2,
            ;
            assert(char_digit(s@[y2 * 18 + 2 * x2]) <= 9);
        }
        assert(parse_ok(s@));
        assert forall|k: int| 0 <= k < 81 implies parsed_grid(s@)[k] == b@[k] by {
            lemma_cell_pos(k);
            let x2 = k % 9;
            let y2 = k / 9;
            assert(b@[idx(x2, y2)] == char_digit(s@[y2 * 18 + 2 * x2]));
            assert((k / 9) * 18 + (k % 9) * 2 == y2 * 18 + 2 * x2);
            assert(idx(x2, y2) == k);
        }
        assert(parsed_grid(s@) =~= b@);
    }
    Some(b)
}

} // verus!
