use equaline::board::Cell::{Number, Operator};
use equaline::board::Operator::{Add, Mul, Sub};
use equaline::board::{Board, Pos};
use equaline::search::solve;

fn sample() -> Board {
    Board::new(vec![
        vec![Number(1), Operator(Add), Number(3)],
        vec![Operator(Sub), Number(5), Operator(Add)],
        vec![Number(7), Operator(Mul), Number(9)],
    ])
}

fn is_neighbour(a: Pos, b: Pos) -> bool {
    (a.0 - b.0).abs() + (a.1 - b.1).abs() == 1
}

#[test]
fn solve_finds_the_one_path_to_81() {
    let found = solve(&sample(), 81);
    assert_eq!(found.len(), 1);
    assert_eq!(
        found[0],
        vec![(0, 0), (1, 0), (2, 0), (2, 1), (1, 1), (1, 2), (2, 2)]
    );
}

#[test]
fn solve_keeps_the_order_of_the_search() {
    let expected: Vec<Vec<Pos>> = vec![
        vec![(0, 0), (0, 1), (1, 1), (2, 1), (2, 2)],
        vec![(1, 1)],
        vec![(0, 2), (0, 1), (1, 1), (2, 1), (2, 0)],
        vec![(0, 2), (0, 1), (1, 1), (1, 0), (2, 0)],
    ];
    assert_eq!(solve(&sample(), 5), expected);
}

#[test]
fn solve_tries_left_right_up_down() {
    let expected: Vec<Vec<Pos>> = vec![
        vec![(2, 0), (1, 0), (1, 1)],
        vec![(2, 0), (2, 1), (1, 1)],
        vec![(1, 1), (2, 1), (2, 0)],
        vec![(1, 1), (1, 0), (2, 0)],
    ];
    let found: Vec<Vec<Pos>> = solve(&sample(), 8)
        .into_iter()
        .filter(|path| path.len() == 3)
        .collect();
    assert_eq!(found, expected);
}

#[test]
fn solve_records_a_path_and_goes_on_beyond_it() {
    let expected: Vec<Vec<Pos>> = vec![
        vec![
            (0, 2),
            (1, 2),
            (2, 2),
            (2, 1),
            (2, 0),
            (1, 0),
            (0, 0),
            (0, 1),
            (1, 1),
        ],
        vec![
            (2, 2),
            (1, 2),
            (0, 2),
            (0, 1),
            (1, 1),
            (2, 1),
            (2, 0),
            (1, 0),
            (0, 0),
        ],
        vec![(2, 2), (1, 2), (0, 2), (0, 1), (0, 0)],
    ];
    assert_eq!(solve(&sample(), 62), expected);
}

#[test]
fn solve_starts_row_by_row() {
    let expected: Vec<Vec<Pos>> = vec![
        vec![(0, 0)],
        vec![(2, 0), (1, 0), (1, 1), (0, 1), (0, 2)],
        vec![(2, 0), (2, 1), (1, 1), (0, 1), (0, 2)],
    ];
    assert_eq!(solve(&sample(), 1), expected);
}

#[test]
fn solve_without_solution_is_empty() {
    assert!(solve(&sample(), 1000).is_empty());
    assert!(solve(&sample(), -1000).is_empty());
}

#[test]
fn solve_on_empty_boards_is_empty() {
    assert!(solve(&Board::new(Vec::new()), 0).is_empty());
    assert!(solve(&Board::new(vec![Vec::new(), Vec::new()]), 0).is_empty());
}

#[test]
fn solve_on_single_cells() {
    let expected: Vec<Vec<Pos>> = vec![vec![(0, 0)]];
    assert_eq!(solve(&Board::new(vec![vec![Number(4)]]), 4), expected);
    assert!(solve(&Board::new(vec![vec![Number(4)]]), 5).is_empty());
    assert!(solve(&Board::new(vec![vec![Operator(Add)]]), 0).is_empty());
}

#[test]
fn solve_on_rows_of_different_length() {
    let board = Board::new(vec![
        vec![Number(2), Operator(Mul), Number(4), Operator(Sub), Number(1)],
        vec![Operator(Add)],
        vec![Number(6), Operator(Add), Number(8)],
    ]);
    let expected: Vec<Vec<Pos>> = vec![
        vec![(0, 0), (1, 0), (2, 0)],
        vec![(0, 0), (0, 1), (0, 2)],
        vec![(2, 0), (1, 0), (0, 0)],
        vec![
            (4, 0),
            (3, 0),
            (2, 0),
            (1, 0),
            (0, 0),
            (0, 1),
            (0, 2),
            (1, 2),
            (2, 2),
        ],
        vec![(0, 2), (0, 1), (0, 0)],
        vec![(2, 2)],
    ];
    assert_eq!(solve(&board, 8), expected);
    let longest: Vec<Vec<Pos>> = vec![vec![
        (2, 2),
        (1, 2),
        (0, 2),
        (0, 1),
        (0, 0),
        (1, 0),
        (2, 0),
        (3, 0),
        (4, 0),
    ]];
    assert_eq!(solve(&board, 63), longest);
}

#[test]
fn solve_passes_through_cells_that_break_the_pattern() {
    // Two numbers side by side: no path may cross them, yet the search
    // does not stop at the first.
    let board = Board::new(vec![vec![
        Number(1),
        Number(2),
        Operator(Add),
        Number(3),
    ]]);
    let expected: Vec<Vec<Pos>> = vec![vec![(1, 0), (2, 0), (3, 0)], vec![(3, 0), (2, 0), (1, 0)]];
    assert_eq!(solve(&board, 5), expected);
}

#[test]
fn solve_returns_only_paths_that_evaluate_to_the_target() {
    let board = sample();
    for target in -60..100 {
        for path in solve(&board, target) {
            assert_eq!(board.calc(&path), Some(target));
        }
    }
}

#[test]
fn solve_returns_only_walks_inside_the_board() {
    let board = sample();
    for target in -60..100 {
        for path in solve(&board, target) {
            assert!(!path.is_empty());
            assert!(board.contains_path(&path));
            for i in 0..path.len() {
                assert!(0 <= path[i].0 && path[i].0 < 3);
                assert!(0 <= path[i].1 && path[i].1 < 3);
                for j in 0..i {
                    assert_ne!(path[i], path[j]);
                }
                if i > 0 {
                    assert!(is_neighbour(path[i - 1], path[i]));
                }
            }
        }
    }
}

#[test]
fn solve_returns_no_path_twice() {
    let board = sample();
    for target in -60..100 {
        let found = solve(&board, target);
        for i in 0..found.len() {
            for j in 0..i {
                assert_ne!(found[i], found[j]);
            }
        }
    }
}

#[test]
fn solve_returns_every_short_solution() {
    let board = sample();
    let starts: [Pos; 5] = [(0, 0), (2, 0), (1, 1), (0, 2), (2, 2)];
    let steps: [Pos; 4] = [(-1, 0), (1, 0), (0, -1), (0, 1)];
    for start in starts {
        for first in steps {
            for second in steps {
                let middle = (start.0 + first.0, start.1 + first.1);
                let end = (middle.0 + second.0, middle.1 + second.1);
                let path = vec![start, middle, end];
                if end == start {
                    continue;
                }
                if let Some(value) = board.calc(&path) {
                    assert!(solve(&board, value).contains(&path));
                }
            }
        }
    }
}

#[test]
fn solve_is_reproducible() {
    let board = sample();
    assert_eq!(solve(&board, 6), solve(&board, 6));
    let expected: Vec<Vec<Pos>> = vec![
        vec![(0, 0), (1, 0), (1, 1)],
        vec![(1, 1), (1, 0), (0, 0)],
        vec![(0, 2), (0, 1), (1, 1), (2, 1), (2, 0), (1, 0), (0, 0)],
        vec![(0, 2), (0, 1), (0, 0)],
        vec![(2, 2), (2, 1), (2, 0), (1, 0), (0, 0), (0, 1), (0, 2)],
    ];
    assert_eq!(solve(&board, 6), expected);
}

#[test]
fn solve_with_wrapping_numbers() {
    let board = Board::new(vec![vec![Number(i64::MAX), Operator(Add), Number(1)]]);
    let expected: Vec<Vec<Pos>> = vec![vec![(0, 0), (1, 0), (2, 0)], vec![(2, 0), (1, 0), (0, 0)]];
    assert_eq!(solve(&board, i64::MIN), expected);
}
