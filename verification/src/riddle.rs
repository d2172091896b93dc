//! The progressive riddle: one board, a rising row of targets, and for each
//! target a solution whose cells move on before the next target is tried.

use vstd::prelude::*;
use vstd::slice::slice_to_vec;
use crate::board::{grid_cell, Board, Cell, Operator, Pos};
use crate::riddle_laws::{lemma_chain_length, lemma_progression, solves_from};
use crate::search::{is_pos, paths_of, solutions, solve};
use crate::search_laws::lemma_solutions;
use crate::walk::inside;

verus! {

/// The number of the last problem of the riddle.
pub const LAST_PROBLEM: i64 = 10;

/// The cell that follows `cell`: a number grows by one, wrapping around at
/// the limits of `i64`, and an operator moves on in the cycle addition,
/// subtraction, multiplication.
pub open spec fn incremented(cell: Cell) -> Cell {
    match cell {
        Cell::Number(x) => Cell::Number(x.wrapping_add(1)),
        Cell::Operator(Operator::Add) => Cell::Operator(Operator::Sub),
        Cell::Operator(Operator::Sub) => Cell::Operator(Operator::Mul),
        Cell::Operator(Operator::Mul) => Cell::Operator(Operator::Add),
    }
}

/// The cell that `cell` follows: a number shrinks by one, wrapping around at
/// the limits of `i64`, and an operator moves back in the cycle.
pub open spec fn decremented(cell: Cell) -> Cell {
    match cell {
        Cell::Number(x) => Cell::Number(x.wrapping_sub(1)),
        Cell::Operator(Operator::Add) => Cell::Operator(Operator::Mul),
        Cell::Operator(Operator::Sub) => Cell::Operator(Operator::Add),
        Cell::Operator(Operator::Mul) => Cell::Operator(Operator::Sub),
    }
}

/// Moves a cell one step forward.
pub fn increment(cell: Cell) -> (r: Cell)
    ensures
        r == incremented(cell),
{
    match cell {
        Cell::Number(x) => Cell::Number(x.wrapping_add(1)),
        Cell::Operator(Operator::Add) => Cell::Operator(Operator::Sub),
        Cell::Operator(Operator::Sub) => Cell::Operator(Operator::Mul),
        Cell::Operator(Operator::Mul) => Cell::Operator(Operator::Add),
    }
}

/// Moves a cell one step back.
pub fn decrement(cell: Cell) -> (r: Cell)
    ensures
        r == decremented(cell),
{
    match cell {
        Cell::Number(x) => Cell::Number(x.wrapping_sub(1)),
        Cell::Operator(Operator::Add) => Cell::Operator(Operator::Mul),
        Cell::Operator(Operator::Sub) => Cell::Operator(Operator::Add),
        Cell::Operator(Operator::Mul) => Cell::Operator(Operator::Sub),
    }
}

/// Whether the cell in column `x` of row `y` lies on `path`.
pub open spec fn on_path(path: Seq<Pos>, x: int, y: int) -> bool {
    is_pos(x, y) && path.contains((x as isize, y as isize))
}

/// `grid` with every cell on `path` moved one step forward.
pub open spec fn advanced(grid: Seq<Seq<Cell>>, path: Seq<Pos>) -> Seq<Seq<Cell>> {
    Seq::new(
        grid.len(),
        |y: int|
            Seq::new(
                grid[y].len(),
                |x: int|
                    if on_path(path, x, y) {
                        incremented(grid[y][x])
                    } else {
                        grid[y][x]
                    },
            ),
    )
}

/// `grid` with every cell on `path` moved one step back.
pub open spec fn reverted(grid: Seq<Seq<Cell>>, path: Seq<Pos>) -> Seq<Seq<Cell>> {
    Seq::new(
        grid.len(),
        |y: int|
            Seq::new(
                grid[y].len(),
                |x: int|
                    if on_path(path, x, y) {
                        decremented(grid[y][x])
                    } else {
                        grid[y][x]
                    },
            ),
    )
}

/// Moves every cell on `path` one step forward. The positions of `path` are
/// distinct and inside the board.
pub fn advance(board: &mut Board, path: &[Pos])
    requires
        inside(old(board)@, path@),
        path@.no_duplicates(),
    ensures
        final(board)@ == advanced(old(board)@, path@),
{
    let ghost grid = board@;
    let mut i: usize = 0;
    assert(board@ =~~= advanced(grid, path@.take(0)));
    while i < path.len()
        invariant
            i <= path.len(),
            inside(grid, path@),
            path@.no_duplicates(),
            board@ == advanced(grid, path@.take(i as int)),
        decreases path.len() - i,
    {
        let pos = path[i];
        let ghost done = path@.take(i as int);
        assert(grid_cell(grid, path@[i as int]) is Some);
        assert(!done.contains(pos));
        match board.mut_cell_at(pos) {
            Some(cell) => {
                *cell = increment(*cell);
            },
            None => {},
        }
        proof {
            let next = path@.take(i + 1);
            assert(next == done.push(pos));
            assert forall|x: int, y: int| on_path(next, x, y) <==> on_path(done, x, y) || (x
                == pos.0 && y == pos.1) by {
                if is_pos(x, y) {
                    let p = (x as isize, y as isize);
                    if done.contains(p) {
                        let k = choose|k: int| 0 <= k < done.len() && done[k] == p;
                        assert(next[k] == p);
                    }
                    if x == pos.0 && y == pos.1 {
                        assert(next[i as int] == p);
                    }
                }
            }
            assert(board@ =~~= advanced(grid, next));
        }
        i += 1;
    }
    assert(path@.take(i as int) == path@);
}

/// Moves every cell on `path` one step back. The positions of `path` are
/// distinct and inside the board.
pub fn revert(board: &mut Board, path: &[Pos])
    requires
        inside(old(board)@, path@),
        path@.no_duplicates(),
    ensures
        final(board)@ == reverted(old(board)@, path@),
{
    let ghost grid = board@;
    let mut i: usize = 0;
    assert(board@ =~~= reverted(grid, path@.take(0)));
    while i < path.len()
        invariant
            i <= path.len(),
            inside(grid, path@),
            path@.no_duplicates(),
            board@ == reverted(grid, path@.take(i as int)),
        decreases path.len() - i,
    {
        let pos = path[i];
        let ghost done = path@.take(i as int);
        assert(grid_cell(grid, path@[i as int]) is Some);
        assert(!done.contains(pos));
        match board.mut_cell_at(pos) {
            Some(cell) => {
                *cell = decrement(*cell);
            },
            None => {},
        }
        proof {
            let next = path@.take(i + 1);
            assert(next == done.push(pos));
            assert forall|x: int, y: int| on_path(next, x, y) <==> on_path(done, x, y) || (x
                == pos.0 && y == pos.1) by {
                if is_pos(x, y) {
                    let p = (x as isize, y as isize);
                    if done.contains(p) {
                        let k = choose|k: int| 0 <= k < done.len() && done[k] == p;
                        assert(next[k] == p);
                    }
                    if x == pos.0 && y == pos.1 {
                        assert(next[i as int] == p);
                    }
                }
            }
            assert(board@ =~~= reverted(grid, next));
        }
        i += 1;
    }
    assert(path@.take(i as int) == path@);
}

/// Moving the cells on a path forward and then back, or back and then
/// forward, leaves every cell of the grid as it was.
pub proof fn lemma_advance_revert(grid: Seq<Seq<Cell>>, path: Seq<Pos>)
    ensures
        reverted(advanced(grid, path), path) == grid,
        advanced(reverted(grid, path), path) == grid,
{
    assert(reverted(advanced(grid, path), path) =~~= grid);
    assert(advanced(reverted(grid, path), path) =~~= grid);
}

/// Forward and back are inverse to each other on every cell, whatever
/// number it holds, and three steps forward bring an operator back to where
/// it was.
pub proof fn lemma_increment_decrement(cell: Cell)
    ensures
        decremented(incremented(cell)) == cell,
        incremented(decremented(cell)) == cell,
        cell is Operator ==> incremented(incremented(incremented(cell))) == cell,
        cell is Operator ==> decremented(decremented(decremented(cell))) == cell,
        incremented(cell) is Number <==> cell is Number,
        decremented(cell) is Number <==> cell is Number,
{
}

/// The target of problem `n`: the `n`-th triangular number.
pub open spec fn triangular(n: int) -> int {
    n * (n + 1) / 2
}

/// The outcome of the riddle on `grid` from problem `level` on, when the
/// first `skip` solutions of that problem are passed over: the solution
/// chosen for each problem from `level` to the last, or nothing if no choice
/// leads through all of them. The solutions of a problem are tried in the
/// order of the search, on the grid as the solutions chosen before have left
/// it, and the first that leads through the problems after it is chosen.
pub open spec fn progression(grid: Seq<Seq<Cell>>, level: int, skip: int) -> Option<Seq<Seq<Pos>>>
    decreases LAST_PROBLEM + 1 - level, solutions(grid, triangular(level) as i64).len() - skip,
{
    let candidates = solutions(grid, triangular(level) as i64);
    if level > LAST_PROBLEM {
        Some(Seq::empty())
    } else if skip < 0 || skip >= candidates.len() {
        None
    } else {
        match progression(advanced(grid, candidates[skip]), level + 1, 0) {
            Some(rest) => Some(seq![candidates[skip]] + rest),
            None => progression(grid, level, skip + 1),
        }
    }
}

/// Solves the riddle on `board` from problem `problem_number` on: for each
/// problem in turn it looks for a solution after which, its cells moved
/// forward, the problems that follow can be solved too. It returns the
/// solutions chosen, or `None` if there is no such choice; either way the
/// board is left as it was found.
pub fn solve_from(board: &mut Board, problem_number: i64) -> (r: Option<Vec<Vec<Pos>>>)
    requires
        1 <= problem_number,
    ensures
        final(board)@ == old(board)@,
        match r {
            Some(chosen) => {
                &&& progression(old(board)@, problem_number as int, 0) == Some(paths_of(chosen@))
                &&& solves_from(old(board)@, problem_number as int, paths_of(chosen@))
                &&& chosen.len() == if problem_number > LAST_PROBLEM {
                    0
                } else {
                    LAST_PROBLEM + 1 - problem_number
                }
            },
            None => {
                &&& progression(old(board)@, problem_number as int, 0) is None
                &&& forall|chain: Seq<Seq<Pos>>|
                    !solves_from(old(board)@, problem_number as int, chain)
            },
        },
    decreases LAST_PROBLEM + 1 - problem_number,
{
    proof {
        lemma_progression(board@, problem_number as int);
        if let Some(chain) = progression(board@, problem_number as int, 0) {
            lemma_chain_length(board@, problem_number as int, chain);
        }
    }
    if problem_number > LAST_PROBLEM {
        let none: Vec<Vec<Pos>> = Vec::new();
        assert(paths_of(none@) == Seq::<Seq<Pos>>::empty());
        return Some(none);
    }
    assert((problem_number + 1) * problem_number <= 110 && (problem_number + 1) * problem_number
        == problem_number * (problem_number + 1)) by (nonlinear_arith)
        requires
            1 <= problem_number <= 10,
    ;
    let target: i64 = (problem_number + 1) * problem_number / 2;
    let ghost grid = board@;
    let ghost level = problem_number as int;
    let candidates = solve(board, target);
    let mut i: usize = 0;
    while i < candidates.len()
        invariant
            i <= candidates.len(),
            1 <= problem_number <= LAST_PROBLEM,
            level == problem_number,
            target == triangular(level),
            board@ == grid,
            grid == old(board)@,
            paths_of(candidates@) == solutions(grid, target),
            progression(grid, level, 0) == progression(grid, level, i as int),
        decreases candidates.len() - i,
    {
        let solution = slice_to_vec(candidates[i].as_slice());
        proof {
            lemma_solutions(grid, target);
            assert(paths_of(candidates@)[i as int] == solution@);
            assert(solutions(grid, target).contains(solution@));
        }
        advance(board, solution.as_slice());
        let solutions_deeper = solve_from(board, problem_number + 1);
        proof {
            assert(inside(board@, solution@)) by {
                assert forall|k: int| 0 <= k < solution@.len() implies (#[trigger] grid_cell(
                    board@,
                    solution@[k],
                )) is Some by {
                    assert(grid_cell(grid, solution@[k]) is Some);
                }
            }
            lemma_advance_revert(grid, solution@);
        }
        revert(board, solution.as_slice());
        if let Some(mut solutions_deeper) = solutions_deeper {
            let ghost rest = paths_of(solutions_deeper@);
            solutions_deeper.insert(0, solution);
            proof {
                let chain = seq![solution@] + rest;
                assert(paths_of(solutions_deeper@) == chain);
                lemma_progression(grid, level);
                lemma_chain_length(grid, level, chain);
            }
            return Some(solutions_deeper);
        }
        i += 1;
    }
    None
}

/// The grid on which the riddle starts: three rows of three cells, numbers
/// and operators in turn, every number a one and every operator an
/// addition.
pub open spec fn seed_grid() -> Seq<Seq<Cell>> {
    let one = Cell::Number(1);
    let add = Cell::Operator(Operator::Add);
    seq![seq![one, add, one], seq![add, one, add], seq![one, add, one]]
}

/// A board that holds the grid on which the riddle starts.
pub fn seed() -> (r: Board)
    ensures
        r@ == seed_grid(),
{
    let one = Cell::Number(1);
    let add = Cell::Operator(Operator::Add);
    let rows = vec![vec![one, add, one], vec![add, one, add], vec![one, add, one]];
    let board = Board::new(rows);
    assert(board@ =~~= seed_grid());
    board
}

/// Solves the riddle from its first problem on the board on which it
/// starts.
pub fn solve_riddle() -> (r: Option<Vec<Vec<Pos>>>)
    ensures
        match r {
            Some(chosen) => {
                &&& progression(seed_grid(), 1, 0) == Some(paths_of(chosen@))
                &&& solves_from(seed_grid(), 1, paths_of(chosen@))
                &&& chosen.len() == LAST_PROBLEM
            },
            None => {
                &&& progression(seed_grid(), 1, 0) is None
                &&& forall|chain: Seq<Seq<Pos>>| !solves_from(seed_grid(), 1, chain)
            },
        },
{
    let mut board = seed();
    solve_from(&mut board, 1)
}

} // verus!
