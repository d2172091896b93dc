//! The board: its cells, bounds-checked access, and path evaluation.

use vstd::prelude::*;
use crate::exact::{exact_fold, lemma_fold_exact, lemma_fold_wraps, wrapped};
use crate::walk::inside;

verus! {

/// A grid position `(x, y)`: column first, then row.
pub type Pos = (isize, isize);

/// The arithmetic an operator cell applies to the running value.
#[derive(Debug, Clone, Copy, PartialEq, Eq, Structural)]
pub enum Operator {
    Add,
    Sub,
    Mul,
}

/// One slot of the grid.
#[derive(Debug, Clone, Copy, PartialEq, Eq, Structural)]
pub enum Cell {
    Number(i64),
    Operator(Operator),
}

impl Cell {
    /// The value of a number cell; `None` for an operator cell.
    pub fn number(self) -> (r: Option<i64>)
        ensures
            r == (match self {
                Cell::Number(x) => Some(x),
                Cell::Operator(_) => None,
            }),
    {
        match self {
            Cell::Number(x) => Some(x),
            _ => None,
        }
    }

    /// The kind of an operator cell; `None` for a number cell.
    pub fn operator(self) -> (r: Option<Operator>)
        ensures
            r == (match self {
                Cell::Operator(op) => Some(op),
                Cell::Number(_) => None,
            }),
    {
        match self {
            Cell::Operator(op) => Some(op),
            _ => None,
        }
    }
}

/// A grid of cells, stored row by row. Rows may differ in length.
#[derive(Debug)]
pub struct Board {
    board: Vec<Vec<Cell>>,
}

/// The rows of a nested vector, each as a sequence.
pub open spec fn rows_of(rows: Seq<Vec<Cell>>) -> Seq<Seq<Cell>> {
    Seq::new(rows.len(), |y: int| rows[y]@)
}

/// The cell of `grid` at `pos`, if `pos` lies inside it.
pub open spec fn grid_cell(grid: Seq<Seq<Cell>>, pos: Pos) -> Option<Cell> {
    if 0 <= pos.1 < grid.len() && 0 <= pos.0 < grid[pos.1 as int].len() {
        Some(grid[pos.1 as int][pos.0 as int])
    } else {
        None
    }
}

/// `grid` with the cell at `pos` replaced by `cell`. `pos` should lie inside
/// `grid`.
pub open spec fn grid_with(grid: Seq<Seq<Cell>>, pos: Pos, cell: Cell) -> Seq<Seq<Cell>> {
    grid.update(pos.1 as int, grid[pos.1 as int].update(pos.0 as int, cell))
}

/// One step of an evaluation: `op` applied to the running value and the next
/// number. The arithmetic is that of `i64` and wraps around at its limits.
pub open spec fn apply(op: Operator, acc: i64, number: i64) -> i64 {
    match op {
        Operator::Add => acc.wrapping_add(number),
        Operator::Sub => acc.wrapping_sub(number),
        Operator::Mul => acc.wrapping_mul(number),
    }
}

/// Whether position `i` of a path may hold `cell`: numbers stand at the even
/// places, operators at the odd ones, and nothing lies outside the grid.
pub open spec fn fits_place(cell: Option<Cell>, i: int) -> bool {
    match cell {
        Some(Cell::Number(_)) => i % 2 == 0,
        Some(Cell::Operator(_)) => i % 2 == 1,
        None => false,
    }
}

/// Whether `path` reads as number, operator, number, ..., number on `grid`.
pub open spec fn well_formed(grid: Seq<Seq<Cell>>, path: Seq<Pos>) -> bool {
    &&& path.len() % 2 == 1
    &&& forall|i: int| 0 <= i < path.len() ==> fits_place(#[trigger] grid_cell(grid, path[i]), i)
}

/// The number that the cell at `pos` holds; meaningful on number cells only.
pub open spec fn number_at(grid: Seq<Seq<Cell>>, pos: Pos) -> i64 {
    match grid_cell(grid, pos) {
        Some(Cell::Number(x)) => x,
        _ => 0,
    }
}

/// The operator that the cell at `pos` holds; meaningful on operator cells
/// only.
pub open spec fn operator_at(grid: Seq<Seq<Cell>>, pos: Pos) -> Operator {
    match grid_cell(grid, pos) {
        Some(Cell::Operator(op)) => op,
        _ => Operator::Add,
    }
}

/// The left fold of a well-formed path: the first number, then each
/// operator applied in turn to the value so far and the number after it,
/// with no precedence among the operators.
pub open spec fn fold(grid: Seq<Seq<Cell>>, path: Seq<Pos>) -> i64
    decreases path.len(),
{
    if path.len() < 3 {
        number_at(grid, path[0])
    } else {
        apply(
            operator_at(grid, path[path.len() - 2]),
            fold(grid, path.take(path.len() - 2)),
            number_at(grid, path[path.len() - 1]),
        )
    }
}

/// What `path` evaluates to on `grid`: its left fold when it is well formed,
/// nothing otherwise.
pub open spec fn evaluate(grid: Seq<Seq<Cell>>, path: Seq<Pos>) -> Option<i64> {
    if well_formed(grid, path) {
        Some(fold(grid, path))
    } else {
        None
    }
}

/// A path evaluates to nothing if its length is even, if a position at an
/// even place does not hold a number, or if a position at an odd place does
/// not hold an operator (a position outside the grid holds neither); and in
/// no other case.
pub proof fn lemma_evaluate_fails(grid: Seq<Seq<Cell>>, path: Seq<Pos>)
    ensures
        evaluate(grid, path) is None <==> {
            ||| path.len() % 2 == 0
            ||| exists|i: int|
                0 <= i < path.len() && i % 2 == 0 && !(#[trigger] grid_cell(grid, path[i])
                    matches Some(Cell::Number(_)))
            ||| exists|i: int|
                0 <= i < path.len() && i % 2 == 1 && !(#[trigger] grid_cell(grid, path[i])
                    matches Some(Cell::Operator(_)))
        },
{
    if evaluate(grid, path) is None && path.len() % 2 == 1 {
        let i = choose|i: int|
            0 <= i < path.len() && !fits_place(#[trigger] grid_cell(grid, path[i]), i);
        if i % 2 == 0 {
            assert(!(grid_cell(grid, path[i]) matches Some(Cell::Number(_))));
        } else {
            assert(!(grid_cell(grid, path[i]) matches Some(Cell::Operator(_))));
        }
    }
    if exists|i: int|
        0 <= i < path.len() && i % 2 == 0 && !(#[trigger] grid_cell(grid, path[i]) matches Some(
            Cell::Number(_),
        )) {
        let i = choose|i: int|
            0 <= i < path.len() && i % 2 == 0 && !(#[trigger] grid_cell(grid, path[i])
                matches Some(Cell::Number(_)));
        assert(!fits_place(grid_cell(grid, path[i]), i));
    }
    if exists|i: int|
        0 <= i < path.len() && i % 2 == 1 && !(#[trigger] grid_cell(grid, path[i]) matches Some(
            Cell::Operator(_),
        )) {
        let i = choose|i: int|
            0 <= i < path.len() && i % 2 == 1 && !(#[trigger] grid_cell(grid, path[i])
                matches Some(Cell::Operator(_)));
        assert(!fits_place(grid_cell(grid, path[i]), i));
    }
}

impl View for Board {
    type V = Seq<Seq<Cell>>;

    closed spec fn view(&self) -> Seq<Seq<Cell>> {
        rows_of(self.board@)
    }
}

impl Board {
    /// Wraps the given rows.
    pub fn new(board: Vec<Vec<Cell>>) -> (r: Self)
        ensures
            r@ == rows_of(board@),
    {
        Board { board }
    }

    /// The number of rows.
    pub fn rows(&self) -> (r: usize)
        ensures
            r == self@.len(),
    {
        self.board.len()
    }

    /// The number of cells in row `y`.
    pub fn row_len(&self, y: usize) -> (r: usize)
        requires
            y < self@.len(),
        ensures
            r == self@[y as int].len(),
    {
        self.board[y].len()
    }

    /// The cell at `pos`, or `None` when `pos` is outside the grid.
    pub fn cell_at(&self, pos: Pos) -> (r: Option<Cell>)
        ensures
            r == grid_cell(self@, pos),
    {
        let (x, y) = pos;
        if y < 0 || x < 0 {
            return None;
        }
        let row_index: usize = y as usize;
        let column: usize = x as usize;
        if row_index >= self.board.len() {
            return None;
        }
        let row = &self.board[row_index];
        if column >= row.len() {
            return None;
        }
        Some(row[column])
    }

    /// The number in the cell at `pos`; `None` when `pos` is outside the
    /// grid or holds an operator.
    fn number_at(&self, pos: Pos) -> (r: Option<i64>)
        ensures
            r == (match grid_cell(self@, pos) {
                Some(Cell::Number(x)) => Some(x),
                _ => None,
            }),
    {
        match self.cell_at(pos) {
            Some(cell) => cell.number(),
            None => None,
        }
    }

    /// The operator in the cell at `pos`; `None` when `pos` is outside the
    /// grid or holds a number.
    fn operator_at(&self, pos: Pos) -> (r: Option<Operator>)
        ensures
            r == (match grid_cell(self@, pos) {
                Some(Cell::Operator(op)) => Some(op),
                _ => None,
            }),
    {
        match self.cell_at(pos) {
            Some(cell) => cell.operator(),
            None => None,
        }
    }

    /// Evaluates `path` from left to right, with no precedence among the
    /// operators. `None` when the path has even length (the empty path
    /// included), leaves the grid, or does not alternate between numbers and
    /// operators, starting with a number. The arithmetic is that of `i64`
    /// and wraps around; the result is the value that the same fold gives
    /// on the integers whenever an `i64` can hold that value.
    pub fn calc(&self, path: &[Pos]) -> (r: Option<i64>)
        ensures
            r == evaluate(self@, path@),
            r is Some <==> well_formed(self@, path@),
            r matches Some(value) ==> value == wrapped(exact_fold(self@, path@)),
            r matches Some(value) ==> (i64::MIN <= exact_fold(self@, path@) <= i64::MAX ==> value
                == exact_fold(self@, path@)),
    {
        proof {
            lemma_fold_wraps(self@, path@);
            if i64::MIN <= exact_fold(self@, path@) <= i64::MAX {
                lemma_fold_exact(self@, path@);
            }
        }
        if path.len() % 2 != 1 {
            return None;
        }
        let mut acc: i64 = match self.number_at(path[0]) {
            Some(x) => x,
            None => {
                assert(!fits_place(grid_cell(self@, path@[0]), 0));
                return None;
            },
        };
        assert(path@.take(1).len() == 1);
        let mut i: usize = 1;
        while i < path.len()
            invariant
                path.len() % 2 == 1,
                i % 2 == 1,
                1 <= i <= path.len(),
                well_formed(self@, path@.take(i as int)),
                acc == fold(self@, path@.take(i as int)),
            decreases path.len() - i,
        {
            let ghost done = path@.take(i as int);
            let ghost next = path@.take(i + 2);
            let number = match self.number_at(path[i + 1]) {
                Some(x) => x,
                None => {
                    assert(!fits_place(grid_cell(self@, path@[i + 1]), i + 1));
                    return None;
                },
            };
            let op = match self.operator_at(path[i]) {
                Some(op) => op,
                None => {
                    assert(!fits_place(grid_cell(self@, path@[i as int]), i as int));
                    return None;
                },
            };
            acc = match op {
                Operator::Add => acc.wrapping_add(number),
                Operator::Sub => acc.wrapping_sub(number),
                Operator::Mul => acc.wrapping_mul(number),
            };
            proof {
                assert(next.take(next.len() - 2) == done);
                assert forall|k: int| 0 <= k < next.len() implies fits_place(
                    #[trigger] grid_cell(self@, next[k]),
                    k,
                ) by {
                    if k < i {
                        assert(next[k] == done[k]);
                    }
                }
            }
            i += 2;
        }
        assert(path@.take(i as int) == path@);
        Some(acc)
    }

    /// Whether every position of `path` lies inside the grid.
    pub fn contains_path(&self, path: &[Pos]) -> (r: bool)
        ensures
            r == inside(self@, path@),
    {
        let mut i: usize = 0;
        while i < path.len()
            invariant
                i <= path.len(),
                forall|k: int| 0 <= k < i ==> (#[trigger] grid_cell(self@, path@[k])) is Some,
            decreases path.len() - i,
        {
            if self.cell_at(path[i]).is_none() {
                return false;
            }
            i += 1;
        }
        true
    }

    /// A mutable reference to the cell at `pos`, or `None` when `pos` is
    /// outside the grid.
    pub fn mut_cell_at(&mut self, pos: Pos) -> (r: Option<&mut Cell>)
        ensures
            match r {
                Some(cell) => {
                    &&& grid_cell(old(self)@, pos) == Some(*cell)
                    &&& final(self)@ == grid_with(old(self)@, pos, *final(cell))
                },
                None => {
                    &&& grid_cell(old(self)@, pos) is None
                    &&& final(self)@ == old(self)@
                },
            },
    {
        let (x, y) = pos;
        if y < 0 || x < 0 {
            return None;
        }
        let row_index: usize = y as usize;
        let column: usize = x as usize;
        if row_index >= self.board.len() {
            return None;
        }
        if column >= self.board[row_index].len() {
            return None;
        }
        Some(&mut self.board[row_index][column])
    }
}

} // verus!
