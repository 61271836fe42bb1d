use sudoku_solver::Board;
use sudoku_solver::BoardIdx;
use sudoku_solver::SquareIdx;

fn boards_equal(a: &Board, b: &Board) -> bool {
    for row in 0..9 {
        for col in 0..9 {
            let idx = BoardIdx::new(col, row);
            if a.get(idx) != b.get(idx) || a.is_played(idx) != b.is_played(idx) {
                return false;
            }
        }
    }
    true
}

#[test]
fn board_idx_linear_address() {
    let idx = BoardIdx::new(4, 7);
    assert_eq!(idx.col, 4);
    assert_eq!(idx.row, 7);
    assert_eq!(idx.idx, 67);
}

#[test]
fn board_idx_square() {
    assert_eq!(BoardIdx::new(0, 0).square(), SquareIdx::TL);
    assert_eq!(BoardIdx::new(4, 4).square(), SquareIdx::MM);
    assert_eq!(BoardIdx::new(8, 8).square(), SquareIdx::BR);
    assert_eq!(BoardIdx::new(7, 1).square(), SquareIdx::TR);
    assert_eq!(BoardIdx::new(2, 6).square(), SquareIdx::BL);
}

#[test]
fn square_idx_round_trip() {
    for i in 0..9 {
        assert_eq!(SquareIdx::from_idx(i).to_idx(), i);
    }
}

#[test]
fn square_topleft_cells() {
    assert_eq!(SquareIdx::MM.to_topleft_cell().idx, BoardIdx::new(3, 3).idx);
    assert_eq!(SquareIdx::BR.to_topleft_cell().idx, BoardIdx::new(6, 6).idx);
    assert_eq!(SquareIdx::TL.to_topleft_cell().idx, 0);
}

#[test]
fn new_board_is_unconstrained() {
    let b = Board::new();
    for row in 0..9 {
        for col in 0..9 {
            let idx = BoardIdx::new(col, row);
            assert_eq!(b.get(idx).num_possibilities(), 9);
            assert!(!b.is_played(idx));
        }
    }
    assert!(b.verify().is_ok());
}

#[test]
fn play_cell_eliminates_from_peers() {
    let mut b = Board::new();
    b.play_cell(BoardIdx::new(0, 0), 5);
    assert_eq!(b.get(BoardIdx::new(0, 0)).possibilities(), vec![5]);
    assert!(b.is_played(BoardIdx::new(0, 0)));
    // same row, same column, same block all lose candidate 5
    assert!(!b.get(BoardIdx::new(7, 0)).is_possible(5));
    assert!(!b.get(BoardIdx::new(0, 6)).is_possible(5));
    assert!(!b.get(BoardIdx::new(2, 2)).is_possible(5));
    // an unrelated cell keeps it
    assert!(b.get(BoardIdx::new(4, 4)).is_possible(5));
    assert_eq!(b.get(BoardIdx::new(4, 4)).num_possibilities(), 9);
}

#[test]
fn play_cell_is_idempotent() {
    let mut once = Board::new();
    once.play_cell(BoardIdx::new(3, 4), 8);
    let mut twice = Board::new();
    twice.play_cell(BoardIdx::new(3, 4), 8);
    twice.play_cell(BoardIdx::new(3, 4), 8);
    assert!(boards_equal(&once, &twice));
}

#[test]
fn verify_rejects_duplicate_in_row() {
    let mut b = Board::new();
    b.play_cell(BoardIdx::new(0, 0), 5);
    assert!(b.verify().is_ok());
    b.play_cell(BoardIdx::new(3, 0), 5);
    assert!(b.verify().is_err());
}

#[test]
fn verify_rejects_duplicate_in_column() {
    let b = Board::from_str("5xxxxxxxx\nxxxxxxxxx\n5xxxxxxxx");
    assert!(b.verify().is_err());
}

#[test]
fn verify_rejects_duplicate_in_block() {
    let b = Board::from_str("xx3xxxxxx\nxxxxxxxxx\n3xxxxxxxx");
    assert!(b.verify().is_err());
}

#[test]
fn verify_accepts_partial_board() {
    let b = Board::from_str("123456789xxxxxxxxx45x");
    assert!(b.verify().is_ok());
}

#[test]
fn verify_rejects_emptied_cell() {
    // after the eight clues, (8, 0) has the single candidate 9; committing a
    // 9 below it in the same column empties (8, 0)
    let mut c = Board::from_str("12345678x");
    assert_eq!(c.get(BoardIdx::new(8, 0)).possibilities(), vec![9]);
    c.play_cell(BoardIdx::new(8, 1), 9);
    assert_eq!(c.get(BoardIdx::new(8, 0)).num_possibilities(), 0);
    assert!(c.verify().is_err());
}

#[test]
fn from_str_assigns_row_major() {
    let b = Board::from_str("12x3");
    assert_eq!(b.get(BoardIdx::new(0, 0)).possibilities(), vec![1]);
    assert_eq!(b.get(BoardIdx::new(1, 0)).possibilities(), vec![2]);
    assert!(!b.is_played(BoardIdx::new(2, 0)));
    assert_eq!(b.get(BoardIdx::new(3, 0)).possibilities(), vec![3]);
    assert!(b.is_played(BoardIdx::new(3, 0)));
    // everything after the marks stays empty
    assert!(!b.is_played(BoardIdx::new(4, 0)));
    assert!(!b.is_played(BoardIdx::new(0, 8)));
}

#[test]
fn from_str_accepts_upper_case_x() {
    let a = Board::from_str("X5");
    let b = Board::from_str("x5");
    assert!(boards_equal(&a, &b));
}

#[test]
fn from_str_ignores_noise_characters() {
    let clean = Board::from_str("123x56789");
    let noisy = Board::from_str(" 1,2;3!\nx@5*6#7 8\t9??");
    assert!(boards_equal(&clean, &noisy));
}

#[test]
fn iter_groups_have_nine_members() {
    let b = Board::new();
    for i in 0..9 {
        assert_eq!(b.iter_col(i).len(), 9);
        assert_eq!(b.iter_row(i).len(), 9);
        assert_eq!(b.iter_square(SquareIdx::from_idx(i)).len(), 9);
    }
    for idx in b.iter_col(3) {
        assert_eq!(idx.col, 3);
    }
    for idx in b.iter_row(6) {
        assert_eq!(idx.row, 6);
    }
    for idx in b.iter_square(SquareIdx::MM) {
        assert!(idx.col >= 3 && idx.col < 6 && idx.row >= 3 && idx.row < 6);
    }
}
