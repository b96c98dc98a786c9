use sudoku_solver::complete;
use sudoku_solver::solver::cell_with_fewest_candidates;
use sudoku_solver::parse_board;
use sudoku_solver::solve;
use sudoku_solver::valid;
use sudoku_solver::Board;
use sudoku_solver::SolutionIter;
use sudoku_solver::BOARD_SIZE;

#[test]
fn validity_is_repeatable() {
    let board = Board::new(&[
        [4, 0, 0, 0, 6, 0, 0, 0, 1], // row 1
        [0, 0, 0, 0, 0, 0, 0, 0, 0], // row 2
        [0, 0, 0, 0, 0, 0, 0, 0, 0], // row 3
        [0, 0, 0, 0, 0, 0, 0, 0, 0], // row 4
        [3, 0, 0, 0, 8, 0, 0, 0, 5], // row 5
        [0, 0, 0, 0, 0, 0, 0, 0, 0], // row 6
        [0, 0, 0, 0, 0, 0, 0, 0, 0], // row 7
        [0, 0, 0, 0, 0, 0, 0, 0, 0], // row 8
        [7, 0, 0, 0, 1, 0, 0, 0, 9], // row 9
    ]);

    assert_eq!(valid(&board), valid(&board));
    assert!(valid(&board));

    let board = board.with_cell(0, 3, 4);

    assert_eq!(valid(&board), valid(&board));
    assert!(!valid(&board));
}

#[test]
fn empty_board_is_valid_and_incomplete() {
    let board = Board::default();

    assert!(valid(&board));
    assert!(!complete(&board));
}

#[test]
fn complete_valid_board_solves_to_itself() {
    let board = Board::new(&[
        [4, 3, 5, 2, 6, 9, 7, 8, 1], // row 1
        [6, 8, 2, 5, 7, 1, 4, 9, 3], // row 2
        [1, 9, 7, 8, 3, 4, 5, 6, 2], // row 3
        [8, 2, 6, 1, 9, 5, 3, 4, 7], // row 4
        [3, 7, 4, 6, 8, 2, 9, 1, 5], // row 5
        [9, 5, 1, 7, 4, 3, 6, 2, 8], // row 6
        [5, 1, 9, 3, 2, 6, 8, 7, 4], // row 7
        [2, 4, 8, 9, 5, 7, 1, 3, 6], // row 8
        [7, 6, 3, 4, 1, 8, 2, 5, 9], // row 9
    ]);

    assert!(complete(&board) && valid(&board));
    assert_eq!(solve(&board).unwrap(), board);

    let mut solutions = SolutionIter::new(&board);
    assert_eq!(solutions.next().unwrap(), board);
    assert!(solutions.next().is_none());
}

#[test]
fn solving_twice_gives_the_same_solution() {
    let board = Board::new(&[
        [0, 2, 0, 0, 0, 0, 0, 0, 0], // row 1
        [0, 0, 0, 6, 0, 0, 0, 0, 3], // row 2
        [0, 7, 4, 0, 8, 0, 0, 0, 0], // row 3
        [0, 0, 0, 0, 0, 3, 0, 0, 2], // row 4
        [0, 8, 0, 0, 4, 0, 0, 1, 0], // row 5
        [6, 0, 0, 5, 0, 0, 0, 0, 0], // row 6
        [0, 0, 0, 0, 1, 0, 7, 8, 0], // row 7
        [5, 0, 0, 0, 0, 9, 0, 0, 0], // row 8
        [0, 0, 0, 0, 0, 0, 0, 4, 0], // row 9
    ]);

    let one = solve(&board);
    let two = solve(&board);

    assert_eq!(one.unwrap(), two.unwrap());
}

#[test]
fn duplicate_nine_in_column_is_invalid() {
    let board = Board::new(&[[0u8; BOARD_SIZE]; BOARD_SIZE]).with_cell(0, 0, 9).with_cell(0, 5, 9);

    assert!(!valid(&board));
}

#[test]
fn two_solution_puzzle_enumerates_exactly_two() {
    let board = Board::new(&[
        [9, 0, 6, 0, 7, 0, 4, 0, 3], // row 1
        [0, 0, 0, 4, 0, 0, 2, 0, 0], // row 2
        [0, 7, 0, 0, 2, 3, 0, 1, 0], // row 3
        [5, 0, 0, 0, 0, 0, 1, 0, 0], // row 4
        [0, 4, 0, 2, 0, 8, 0, 6, 0], // row 5
        [0, 0, 3, 0, 0, 0, 0, 0, 5], // row 6
        [0, 3, 0, 7, 0, 0, 0, 5, 0], // row 7
        [0, 0, 7, 0, 0, 5, 0, 0, 0], // row 8
        [4, 0, 5, 0, 1, 0, 7, 0, 8], // row 9
    ]);

    let mut solutions = SolutionIter::new(&board);

    let first = solutions.next().unwrap();
    let second = solutions.next().unwrap();
    assert!(solutions.next().is_none());
    assert!(solutions.next().is_none());

    assert!(complete(&first) && valid(&first));
    assert!(complete(&second) && valid(&second));
    assert_ne!(first, second);

    assert_eq!(
        first,
        Board::new(&[
            [9, 2, 6, 5, 7, 1, 4, 8, 3], // row 1
            [3, 5, 1, 4, 8, 6, 2, 7, 9], // row 2
            [8, 7, 4, 9, 2, 3, 5, 1, 6], // row 3
            [5, 8, 2, 3, 6, 7, 1, 9, 4], // row 4
            [1, 4, 9, 2, 5, 8, 3, 6, 7], // row 5
            [7, 6, 3, 1, 4, 9, 8, 2, 5], // row 6
            [2, 3, 8, 7, 9, 4, 6, 5, 1], // row 7
            [6, 1, 7, 8, 3, 5, 9, 4, 2], // row 8
            [4, 9, 5, 6, 1, 2, 7, 3, 8], // row 9
        ])
    );

    assert_eq!(
        second,
        Board::new(&[
            [9, 2, 6, 5, 7, 1, 4, 8, 3], // row 1
            [3, 5, 1, 4, 8, 6, 2, 7, 9], // row 2
            [8, 7, 4, 9, 2, 3, 5, 1, 6], // row 3
            [5, 8, 2, 3, 6, 7, 1, 9, 4], // row 4
            [1, 4, 9, 2, 5, 8, 3, 6, 7], // row 5
            [7, 6, 3, 1, 9, 4, 8, 2, 5], // row 6
            [2, 3, 8, 7, 4, 9, 6, 5, 1], // row 7
            [6, 1, 7, 8, 3, 5, 9, 4, 2], // row 8
            [4, 9, 5, 6, 1, 2, 7, 3, 8], // row 9
        ])
    );
}

#[test]
fn dead_cell_is_found_behind_a_single_candidate_cell() {
    // The first empty cell in scan order, at column 0 of row 1, admits only
    // the digit 1, while the cell at column 0 of row 9 admits nothing at
    // all: the selector must report the dead end, not the promising cell.
    let board = Board::new(&[
        [0, 2, 3, 4, 5, 6, 7, 8, 9], // row 1
        [0, 0, 0, 0, 0, 0, 0, 0, 0], // row 2
        [0, 0, 0, 0, 0, 0, 0, 0, 0], // row 3
        [0, 0, 0, 0, 0, 0, 0, 0, 0], // row 4
        [9, 0, 0, 0, 0, 0, 0, 0, 0], // row 5
        [0, 0, 0, 0, 0, 0, 0, 0, 0], // row 6
        [0, 0, 0, 0, 0, 0, 0, 0, 0], // row 7
        [0, 0, 0, 0, 0, 0, 0, 0, 0], // row 8
        [0, 1, 2, 3, 4, 5, 6, 7, 8], // row 9
    ]);

    assert!(valid(&board));
    assert!(cell_with_fewest_candidates(&board).is_none());
    assert!(solve(&board).is_none());
}

#[test]
fn enumerating_unsolvable_board_yields_nothing() {
    let board = Board::new(&[
        [3, 0, 0, 2, 6, 0, 7, 0, 1], // row 1
        [6, 8, 0, 0, 7, 0, 0, 9, 0], // row 2
        [1, 9, 0, 0, 0, 4, 5, 0, 0], // row 3
        [8, 2, 0, 1, 0, 0, 0, 4, 0], // row 4
        [0, 0, 4, 6, 0, 2, 9, 0, 0], // row 5
        [0, 5, 0, 0, 0, 3, 0, 2, 8], // row 6
        [0, 0, 9, 3, 0, 0, 0, 7, 4], // row 7
        [0, 4, 0, 0, 5, 0, 0, 3, 6], // row 8
        [7, 0, 3, 0, 1, 8, 0, 0, 0], // row 9
    ]);

    let mut solutions = SolutionIter::new(&board);

    assert!(solutions.next().is_none());
    assert!(solutions.next().is_none());
}

#[test]
fn render_then_parse_reproduces_the_board() {
    let board = Board::new(&[
        [0, 2, 0, 0, 0, 0, 0, 0, 0], // row 1
        [0, 0, 0, 6, 0, 0, 0, 0, 3], // row 2
        [0, 7, 4, 0, 8, 0, 0, 0, 0], // row 3
        [0, 0, 0, 0, 0, 3, 0, 0, 2], // row 4
        [0, 8, 0, 0, 4, 0, 0, 1, 0], // row 5
        [6, 0, 0, 5, 0, 0, 0, 0, 0], // row 6
        [0, 0, 0, 0, 1, 0, 7, 8, 0], // row 7
        [5, 0, 0, 0, 0, 9, 0, 0, 0], // row 8
        [0, 0, 0, 0, 0, 0, 0, 4, 0], // row 9
    ]);

    let text = board.render();
    let reparsed = parse_board(text.as_str()).unwrap();

    assert_eq!(reparsed, board);

    for y in 0..BOARD_SIZE {
        for x in 0..BOARD_SIZE {
            assert_eq!(reparsed.get_cell(x, y), board.get_cell(x, y));
        }
    }
}

#[test]
fn parse_rejects_malformed_text() {
    assert!(parse_board("").is_none());
    assert!(parse_board("1 2 3").is_none());

    let board = Board::default();
    let mut text = board.render();
    text.push('x');
    assert!(parse_board(text.as_str()).is_none());

    let bad = board.render().replace('-', "x");
    assert!(parse_board(bad.as_str()).is_none());
}
