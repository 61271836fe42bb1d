use sudoku_solver::Board;
use sudoku_solver::BoardIdx;
use sudoku_solver::solve;
use sudoku_solver::solve_seq;

const FULL_GRID: &str = "123456789456789123789123456234567891567891234891234567345678912678912345912345678";

const CLASSIC_PUZZLE: &str = "53xx7xxxx6xx195xxxx98xxxx6x8xxx6xxx34xx8x3xx17xxx2xxx6x6xxxx28xxxx419xx5xxxx8xx79";

const CLASSIC_SOLUTION: &str = "534678912672195348198342567859761423426853791713924856961537284287419635345286179";

fn boards_equal(a: &Board, b: &Board) -> bool {
    for row in 0..9 {
        for col in 0..9 {
            let idx = BoardIdx::new(col, row);
            if a.get(idx) != b.get(idx) || a.is_played(idx) != b.is_played(idx) {
                return false;
            }
        }
    }
    true
}

fn digit_at(b: &Board, col: usize, row: usize) -> u8 {
    let poss = b.get(BoardIdx::new(col, row)).possibilities();
    assert_eq!(poss.len(), 1, "cell ({col}, {row}) is not committed");
    poss[0]
}

/// Every row, column and block of a solved board holds each digit once.
fn assert_valid_solution(b: &Board) {
    for row in 0..9 {
        let mut mask: u16 = 0;
        for col in 0..9 {
            mask |= 1 << digit_at(b, col, row);
        }
        assert_eq!(mask, 0b1111111110);
    }
    for col in 0..9 {
        let mut mask: u16 = 0;
        for row in 0..9 {
            mask |= 1 << digit_at(b, col, row);
        }
        assert_eq!(mask, 0b1111111110);
    }
    for block in 0..9 {
        let mut mask: u16 = 0;
        for k in 0..9 {
            let col = (block % 3) * 3 + k % 3;
            let row = (block / 3) * 3 + k / 3;
            mask |= 1 << digit_at(b, col, row);
        }
        assert_eq!(mask, 0b1111111110);
    }
}

#[test]
fn empty_board_solves_to_valid_grid() {
    let board = Board::from_str(&"x".repeat(81));
    let solved = solve(board).expect("an empty board has solutions");
    assert_valid_solution(&solved);
}

#[test]
fn duplicate_clues_in_row_give_no_solution() {
    let mut text = String::from("55");
    text.push_str(&"x".repeat(79));
    assert!(solve(Board::from_str(&text)).is_none());
    assert!(solve_seq(Board::from_str(&text)).is_none());
}

#[test]
fn single_missing_cell_gets_unique_completion() {
    let mut text = String::from(FULL_GRID);
    // blank the centre cell, whose unique completion is 9
    text.replace_range(40..41, "x");
    let solved = solve(Board::from_str(&text)).expect("one-hole board is solvable");
    assert_eq!(digit_at(&solved, 4, 4), 9);
    assert_valid_solution(&solved);
    let solved_seq = solve_seq(Board::from_str(&text)).expect("one-hole board is solvable");
    assert_eq!(digit_at(&solved_seq, 4, 4), 9);
}

#[test]
fn solved_board_comes_back_unchanged() {
    let board = Board::from_str(FULL_GRID);
    assert!(board.verify().is_ok());
    let again = solve(Board::from_str(FULL_GRID)).expect("a solved board stays solved");
    assert!(boards_equal(&board, &again));
    let again_seq = solve_seq(Board::from_str(FULL_GRID)).expect("a solved board stays solved");
    assert!(boards_equal(&board, &again_seq));
}

#[test]
fn classic_puzzle_reaches_known_solution() {
    let solved = solve(Board::from_str(CLASSIC_PUZZLE)).expect("the puzzle is solvable");
    let expected = Board::from_str(CLASSIC_SOLUTION);
    assert_valid_solution(&solved);
    for row in 0..9 {
        for col in 0..9 {
            assert_eq!(digit_at(&solved, col, row), digit_at(&expected, col, row));
        }
    }
}

#[test]
fn classic_puzzle_sequential_matches_parallel() {
    let a = solve_seq(Board::from_str(CLASSIC_PUZZLE)).expect("the puzzle is solvable");
    let b = solve(Board::from_str(CLASSIC_PUZZLE)).expect("the puzzle is solvable");
    assert!(boards_equal(&a, &b));
}

#[test]
fn verify_outcome_is_deterministic() {
    // the same position reached through different play orders verifies alike
    let mut a = Board::new();
    a.play_cell(BoardIdx::new(0, 0), 5);
    a.play_cell(BoardIdx::new(3, 0), 7);
    let mut b = Board::new();
    b.play_cell(BoardIdx::new(3, 0), 7);
    b.play_cell(BoardIdx::new(0, 0), 5);
    assert!(boards_equal(&a, &b));
    assert_eq!(a.verify().is_ok(), b.verify().is_ok());
    assert!(a.verify().is_ok());
    // and repeated calls agree with themselves
    assert_eq!(a.verify().is_ok(), a.verify().is_ok());
}

#[test]
fn unsolvable_pruned_board_gives_none() {
    // (8, 0) is forced to 9 by the first eight clues; a 9 below it leaves
    // that cell without candidates
    let mut board = Board::from_str("12345678x");
    board.play_cell(BoardIdx::new(8, 1), 9);
    assert!(solve(board).is_none());
}
