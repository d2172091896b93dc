use equaline::board::Cell::{Number, Operator};
use equaline::board::Operator::{Add, Mul, Sub};
use equaline::board::{Board, Cell, Pos};
use equaline::search::solve;

fn sample() -> Board {
    Board::new(vec![
        vec![Number(1), Operator(Add), Number(3)],
        vec![Operator(Sub), Number(5), Operator(Add)],
        vec![Number(7), Operator(Mul), Number(9)],
    ])
}

fn jagged() -> Board {
    Board::new(vec![
        vec![Number(2), Operator(Mul), Number(4), Operator(Sub), Number(1)],
        vec![Operator(Add)],
        vec![Number(6), Operator(Add), Number(8)],
    ])
}

#[test]
fn test_calc() {
    let board = sample();

    assert_eq!(board.calc(&[]), None);
    assert_eq!(board.calc(&[(1, 0)]), None);
    assert_eq!(board.calc(&[(0, 0), (0, 1)]), None);
    assert_eq!(board.calc(&[(0, 0), (0, 1), (0, 2), (1, 2)]), None);
    assert_eq!(board.calc(&[(1, 1)]), Some(5));
    assert_eq!(board.calc(&[(1, 1), (1, 0), (0, 0)]), Some(6));
    assert_eq!(
        board.calc(&[(2, 2), (1, 2), (0, 2), (0, 1), (0, 0)]),
        Some(62)
    );
}

#[test]
fn test_solve() {
    let board = sample();

    let expected: Vec<Vec<Pos>> =
        vec![vec![(0, 0), (1, 0), (2, 0), (2, 1), (1, 1), (1, 2), (2, 2)]];
    assert_eq!(solve(&board, 81), expected);
}

#[test]
fn cell_number_and_operator() {
    assert_eq!(Number(-4).number(), Some(-4));
    assert_eq!(Number(0).number(), Some(0));
    assert_eq!(Number(7).operator(), None);
    assert_eq!(Operator(Mul).operator(), Some(Mul));
    assert_eq!(Operator(Add).operator(), Some(Add));
    assert_eq!(Operator(Sub).number(), None);
}

#[test]
fn cell_at_reads_by_column_then_row() {
    let board = sample();
    assert_eq!(board.cell_at((0, 0)), Some(Number(1)));
    assert_eq!(board.cell_at((1, 0)), Some(Operator(Add)));
    assert_eq!(board.cell_at((2, 0)), Some(Number(3)));
    assert_eq!(board.cell_at((0, 1)), Some(Operator(Sub)));
    assert_eq!(board.cell_at((1, 2)), Some(Operator(Mul)));
    assert_eq!(board.cell_at((2, 2)), Some(Number(9)));
}

#[test]
fn cell_at_outside_is_none() {
    let board = sample();
    assert_eq!(board.cell_at((-1, 0)), None);
    assert_eq!(board.cell_at((0, -1)), None);
    assert_eq!(board.cell_at((3, 0)), None);
    assert_eq!(board.cell_at((0, 3)), None);
    assert_eq!(board.cell_at((isize::MIN, isize::MIN)), None);
    assert_eq!(board.cell_at((isize::MAX, isize::MAX)), None);
    assert_eq!(Board::new(Vec::new()).cell_at((0, 0)), None);
    assert_eq!(Board::new(vec![Vec::new()]).cell_at((0, 0)), None);
}

#[test]
fn cell_at_on_rows_of_different_length() {
    let board = jagged();
    assert_eq!(board.cell_at((4, 0)), Some(Number(1)));
    assert_eq!(board.cell_at((0, 1)), Some(Operator(Add)));
    assert_eq!(board.cell_at((1, 1)), None);
    assert_eq!(board.cell_at((2, 2)), Some(Number(8)));
    assert_eq!(board.cell_at((3, 2)), None);
}

#[test]
fn rows_and_row_len() {
    let board = jagged();
    assert_eq!(board.rows(), 3);
    assert_eq!(board.row_len(0), 5);
    assert_eq!(board.row_len(1), 1);
    assert_eq!(board.row_len(2), 3);
    assert_eq!(Board::new(Vec::new()).rows(), 0);
}

#[test]
fn mut_cell_at_writes_one_cell() {
    let mut board = sample();
    *board.mut_cell_at((1, 1)).unwrap() = Number(-2);
    *board.mut_cell_at((1, 0)).unwrap() = Operator(Mul);
    let expected = [
        [Number(1), Operator(Mul), Number(3)],
        [Operator(Sub), Number(-2), Operator(Add)],
        [Number(7), Operator(Mul), Number(9)],
    ];
    for y in 0..3 {
        for x in 0..3 {
            assert_eq!(board.cell_at((x as isize, y as isize)), Some(expected[y][x]));
        }
    }
}

#[test]
fn mut_cell_at_hands_out_the_cell_it_finds() {
    let mut board = sample();
    let cell: Cell = *board.mut_cell_at((2, 1)).unwrap();
    assert_eq!(cell, Operator(Add));
}

#[test]
fn mut_cell_at_outside_is_none() {
    let mut board = sample();
    assert!(board.mut_cell_at((-1, 0)).is_none());
    assert!(board.mut_cell_at((0, -1)).is_none());
    assert!(board.mut_cell_at((3, 2)).is_none());
    assert!(board.mut_cell_at((2, 3)).is_none());
    let mut jagged = jagged();
    assert!(jagged.mut_cell_at((1, 1)).is_none());
    assert!(jagged.mut_cell_at((0, 1)).is_some());
}

#[test]
fn contains_path_checks_every_position() {
    let board = sample();
    assert!(board.contains_path(&[]));
    assert!(board.contains_path(&[(0, 0), (2, 2), (1, 1), (0, 0)]));
    assert!(!board.contains_path(&[(0, 0), (3, 0)]));
    assert!(!board.contains_path(&[(-1, 0), (0, 0)]));
    assert!(!board.contains_path(&[(0, 0), (0, 1), (0, 3)]));
    assert!(!jagged().contains_path(&[(0, 0), (1, 1)]));
}

#[test]
fn calc_single_number() {
    let board = sample();
    assert_eq!(board.calc(&[(1, 1)]), Some(5));
    assert_eq!(board.calc(&[(0, 0)]), Some(1));
    assert_eq!(board.calc(&[(2, 2)]), Some(9));
}

#[test]
fn calc_adds() {
    assert_eq!(sample().calc(&[(1, 1), (1, 0), (0, 0)]), Some(6));
}

#[test]
fn calc_subtracts() {
    assert_eq!(sample().calc(&[(0, 0), (0, 1), (0, 2)]), Some(-6));
    assert_eq!(sample().calc(&[(0, 2), (0, 1), (0, 0)]), Some(6));
}

#[test]
fn calc_multiplies() {
    assert_eq!(sample().calc(&[(0, 2), (1, 2), (2, 2)]), Some(63));
}

#[test]
fn calc_folds_from_the_left_without_precedence() {
    let board = sample();
    assert_eq!(
        board.calc(&[(2, 2), (1, 2), (0, 2), (0, 1), (0, 0)]),
        Some(62)
    );
    // 1 - 7 * 9, taken from the left: (1 - 7) * 9.
    assert_eq!(
        board.calc(&[(0, 0), (0, 1), (0, 2), (1, 2), (2, 2)]),
        Some(-54)
    );
}

#[test]
fn calc_rejects_empty_path() {
    assert_eq!(sample().calc(&[]), None);
    assert_eq!(Board::new(Vec::new()).calc(&[]), None);
}

#[test]
fn calc_rejects_even_length() {
    let board = sample();
    assert_eq!(board.calc(&[(0, 0), (1, 0)]), None);
    assert_eq!(board.calc(&[(0, 0), (1, 0), (2, 0), (2, 1)]), None);
}

#[test]
fn calc_rejects_operator_at_even_place() {
    let board = sample();
    assert_eq!(board.calc(&[(1, 0)]), None);
    assert_eq!(board.calc(&[(0, 0), (1, 0), (1, 2)]), None);
}

#[test]
fn calc_rejects_number_at_odd_place() {
    let board = sample();
    assert_eq!(board.calc(&[(0, 0), (1, 1), (2, 2)]), None);
    assert_eq!(board.calc(&[(0, 0), (1, 0), (2, 0), (0, 2), (2, 2)]), None);
}

#[test]
fn calc_rejects_position_outside() {
    let board = sample();
    assert_eq!(board.calc(&[(3, 0)]), None);
    assert_eq!(board.calc(&[(0, 0), (1, 0), (3, 0)]), None);
    assert_eq!(board.calc(&[(0, 0), (-1, 0), (2, 0)]), None);
    assert_eq!(board.calc(&[(0, 0), (1, 0), (2, 0), (2, 1), (2, 5)]), None);
}

#[test]
fn calc_does_not_ask_for_neighbours_or_distinct_positions() {
    let board = sample();
    assert_eq!(board.calc(&[(0, 0), (1, 2), (2, 2)]), Some(9));
    assert_eq!(board.calc(&[(1, 1), (1, 0), (1, 1), (1, 0), (1, 1)]), Some(15));
}

#[test]
fn calc_wraps_at_the_limits_of_the_numbers() {
    let board = Board::new(vec![vec![
        Number(i64::MAX),
        Operator(Add),
        Number(1),
        Operator(Sub),
        Number(2),
        Operator(Mul),
        Number(2),
    ]]);
    assert_eq!(board.calc(&[(0, 0), (1, 0), (2, 0)]), Some(i64::MIN));
    assert_eq!(
        board.calc(&[(0, 0), (1, 0), (2, 0), (3, 0), (4, 0)]),
        Some(i64::MAX - 1)
    );
    assert_eq!(board.calc(&[(0, 0), (5, 0), (6, 0)]), Some(-2));
}

#[test]
fn calc_with_numbers_below_zero() {
    let board = Board::new(vec![vec![
        Number(-3),
        Operator(Mul),
        Number(-4),
        Operator(Sub),
        Number(0),
        Operator(Add),
        Number(-20),
    ]]);
    assert_eq!(
        board.calc(&[(0, 0), (1, 0), (2, 0), (3, 0), (4, 0), (5, 0), (6, 0)]),
        Some(-8)
    );
}
