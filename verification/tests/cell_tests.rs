use sudoku_solver::Cell;

#[test]
fn fixed_has_single_possibility() {
    let c = Cell::fixed(5);
    assert_eq!(c.possibilities(), vec![5]);
    assert_eq!(c.num_possibilities(), 1);
    assert!(c.is_possible(5));
    assert!(!c.is_possible(4));
}

#[test]
fn any_possible_has_all_nine() {
    let c = Cell::any_possible();
    assert_eq!(c.possibilities(), vec![1, 2, 3, 4, 5, 6, 7, 8, 9]);
    assert_eq!(c.num_possibilities(), 9);
}

#[test]
fn none_possible_is_empty() {
    let c = Cell::none_possible();
    assert_eq!(c.possibilities(), Vec::<u8>::new());
    assert_eq!(c.num_possibilities(), 0);
}

#[test]
fn set_possible_clears_and_restores() {
    let mut c = Cell::any_possible();
    c.set_possible(7, false);
    assert!(!c.is_possible(7));
    assert_eq!(c.num_possibilities(), 8);
    c.set_possible(7, true);
    assert!(c.is_possible(7));
    assert_eq!(c.num_possibilities(), 9);
}

#[test]
fn equality_ignores_unimportant_bits() {
    // bit 0 and bits 10..16 carry no information
    assert_eq!(Cell(0xffff), Cell(0b1111111110));
    assert_eq!(Cell::any_possible().important_bits(), 0b1111111110);
    assert_ne!(Cell(0b10), Cell(0b100));
}

#[test]
fn both_possible_intersects() {
    let a = Cell::fixed(3);
    let b = Cell::any_possible();
    let c = a.both_possible(b);
    assert_eq!(c.possibilities(), vec![3]);
    let d = a.both_possible(Cell::fixed(4));
    assert_eq!(d.num_possibilities(), 0);
}

#[test]
fn not_possible_complements() {
    let c = Cell::fixed(9).not_possible();
    assert_eq!(c.possibilities(), vec![1, 2, 3, 4, 5, 6, 7, 8]);
}

#[test]
fn one_possible_is_symmetric_difference() {
    let c = Cell::fixed(1).one_possible(Cell::fixed(2));
    assert_eq!(c.possibilities(), vec![1, 2]);
    let d = Cell::fixed(1).one_possible(Cell::fixed(1));
    assert_eq!(d.num_possibilities(), 0);
}
