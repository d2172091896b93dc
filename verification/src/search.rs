//! The exhaustive search for the paths of a board that evaluate to a target.

use vstd::prelude::*;
use vstd::slice::slice_to_vec;
use crate::board::{evaluate, grid_cell, Board, Cell, Pos};
use crate::search_laws::{in_search_order, lemma_solutions};
use crate::walk::{
    cell_count, inside, is_walk, lemma_distinct_positions_bounded, lemma_extended,
    lemma_push_distinct,
};

verus! {

/// Whether `path` is a solution for `target` on `grid`: a walk that
/// evaluates to `target`.
pub open spec fn is_solution(grid: Seq<Seq<Cell>>, target: i64, path: Seq<Pos>) -> bool {
    is_walk(grid, path) && evaluate(grid, path) == Some(target)
}

/// The sequences that a vector of paths holds.
pub open spec fn paths_of(paths: Seq<Vec<Pos>>) -> Seq<Seq<Pos>> {
    Seq::new(paths.len(), |i: int| paths[i]@)
}

/// Whether the coordinates `(x, y)` can be written as a position.
pub open spec fn is_pos(x: int, y: int) -> bool {
    isize::MIN <= x <= isize::MAX && isize::MIN <= y <= isize::MAX
}

/// The coordinates one step from `pos` in direction `dir`. The directions
/// are numbered in the order in which the search tries them: left, right,
/// up, down.
pub open spec fn neighbour(pos: Pos, dir: int) -> (int, int) {
    if dir == 0 {
        (pos.0 - 1, pos.1 as int)
    } else if dir == 1 {
        (pos.0 + 1, pos.1 as int)
    } else if dir == 2 {
        (pos.0 as int, pos.1 - 1)
    } else {
        (pos.0 as int, pos.1 + 1)
    }
}

/// `path` itself, if it evaluates to `target`.
pub open spec fn hit(grid: Seq<Seq<Cell>>, target: i64, path: Seq<Pos>) -> Seq<Seq<Pos>> {
    if evaluate(grid, path) == Some(target) {
        seq![path]
    } else {
        Seq::empty()
    }
}

/// What the search finds at and below `path`, in the order in which it finds
/// it: `path` itself if it evaluates to `target`, then, direction by
/// direction, everything below `path` extended by one step. `path` is a
/// sequence of distinct positions inside the grid, and not empty.
pub open spec fn search(grid: Seq<Seq<Cell>>, target: i64, path: Seq<Pos>) -> Seq<Seq<Pos>>
    decreases cell_count(grid) - path.len(), 1int,
    when inside(grid, path) && path.no_duplicates() && path.len() > 0
{
    hit(grid, target, path) + branch(grid, target, path, 0) + branch(grid, target, path, 1)
        + branch(grid, target, path, 2) + branch(grid, target, path, 3)
}

/// What the search finds below `path` in direction `dir`: nothing where that
/// step leaves the grid or returns to a position of `path`.
pub open spec fn branch(grid: Seq<Seq<Cell>>, target: i64, path: Seq<Pos>, dir: int) -> Seq<
    Seq<Pos>,
>
    decreases cell_count(grid) - path.len(), 0int,
    when inside(grid, path) && path.no_duplicates() && path.len() > 0
    via branch_decreases
{
    let (x, y) = neighbour(path.last(), dir);
    let next = (x as isize, y as isize);
    if is_pos(x, y) && grid_cell(grid, next) is Some && !path.contains(next) {
        search(grid, target, path.push(next))
    } else {
        Seq::empty()
    }
}

/// What the search finds from the cell in column `x` of row `y`: nothing
/// unless a number stands there.
pub open spec fn search_from(grid: Seq<Seq<Cell>>, target: i64, x: int, y: int) -> Seq<Seq<Pos>> {
    let start = (x as isize, y as isize);
    if is_pos(x, y) && grid_cell(grid, start) matches Some(Cell::Number(_)) {
        search(grid, target, seq![start])
    } else {
        Seq::empty()
    }
}

/// What the search finds from the first `columns` cells of row `y`.
pub open spec fn search_row(grid: Seq<Seq<Cell>>, target: i64, y: int, columns: int) -> Seq<
    Seq<Pos>,
>
    decreases columns,
{
    if columns <= 0 {
        Seq::empty()
    } else {
        search_row(grid, target, y, columns - 1) + search_from(grid, target, columns - 1, y)
    }
}

/// What the search finds from the first `rows` rows.
pub open spec fn search_rows(grid: Seq<Seq<Cell>>, target: i64, rows: int) -> Seq<Seq<Pos>>
    decreases rows,
{
    if rows <= 0 {
        Seq::empty()
    } else {
        search_rows(grid, target, rows - 1) + search_row(
            grid,
            target,
            rows - 1,
            grid[rows - 1].len() as int,
        )
    }
}

/// Every path of `grid` that evaluates to `target`, in the order of the
/// search: by starting cell, row by row and from left to right within a
/// row, and from one starting cell depth first.
pub open spec fn solutions(grid: Seq<Seq<Cell>>, target: i64) -> Seq<Seq<Pos>> {
    search_rows(grid, target, grid.len() as int)
}

#[via_fn]
proof fn branch_decreases(grid: Seq<Seq<Cell>>, target: i64, path: Seq<Pos>, dir: int) {
    let (x, y) = neighbour(path.last(), dir);
    let next = (x as isize, y as isize);
    if is_pos(x, y) && grid_cell(grid, next) is Some && !path.contains(next) {
        lemma_extended(grid, path, next);
    }
}

/// What the search has found below `path` once it has tried the first
/// `tried` directions.
spec fn branches(grid: Seq<Seq<Cell>>, target: i64, path: Seq<Pos>, tried: int) -> Seq<Seq<Pos>> {
    let first = if tried > 0 {
        branch(grid, target, path, 0)
    } else {
        Seq::empty()
    };
    let second = if tried > 1 {
        branch(grid, target, path, 1)
    } else {
        Seq::empty()
    };
    let third = if tried > 2 {
        branch(grid, target, path, 2)
    } else {
        Seq::empty()
    };
    let fourth = if tried > 3 {
        branch(grid, target, path, 3)
    } else {
        Seq::empty()
    };
    first + second + third + fourth
}

/// Whether `pos` occurs in `path`.
fn visited(path: &Vec<Pos>, pos: Pos) -> (r: bool)
    ensures
        r == path@.contains(pos),
{
    let mut i: usize = 0;
    while i < path.len()
        invariant
            i <= path.len(),
            forall|k: int| 0 <= k < i ==> path@[k] != pos,
        decreases path.len() - i,
    {
        if path[i].0 == pos.0 && path[i].1 == pos.1 {
            return true;
        }
        i += 1;
    }
    false
}

/// The position one step from `pos` in direction `dir`, if its coordinates
/// can be written as a position.
fn step(pos: Pos, dir: usize) -> (r: Option<Pos>)
    requires
        dir < 4,
    ensures
        match r {
            Some(next) => neighbour(pos, dir as int) == (next.0 as int, next.1 as int),
            None => !is_pos(neighbour(pos, dir as int).0, neighbour(pos, dir as int).1),
        },
{
    let (x, y) = pos;
    if dir == 0 {
        if x > isize::MIN {
            Some((x - 1, y))
        } else {
            None
        }
    } else if dir == 1 {
        if x < isize::MAX {
            Some((x + 1, y))
        } else {
            None
        }
    } else if dir == 2 {
        if y > isize::MIN {
            Some((x, y - 1))
        } else {
            None
        }
    } else {
        if y < isize::MAX {
            Some((x, y + 1))
        } else {
            None
        }
    }
}

/// One node of the depth-first search: gives up if the newest position of
/// `current_path` lies outside the grid, else records the path if it
/// evaluates to `target` and goes on in each direction in turn.
fn dfs(board: &Board, target: i64, current_path: &mut Vec<Pos>, ans: &mut Vec<Vec<Pos>>)
    requires
        old(current_path)@.len() > 0,
        inside(board@, old(current_path)@.drop_last()),
        old(current_path)@.no_duplicates(),
    ensures
        final(current_path)@ == old(current_path)@,
        paths_of(final(ans)@) == paths_of(old(ans)@) + (if inside(board@, old(current_path)@) {
            search(board@, target, old(current_path)@)
        } else {
            Seq::empty()
        }),
    decreases cell_count(board@) + 1 - old(current_path)@.len(),
{
    let ghost path = current_path@;
    let ghost before = paths_of(ans@);
    if !board.contains_path(current_path.as_slice()) {
        return;
    }
    if board.calc(current_path.as_slice()) == Some(target) {
        ans.push(slice_to_vec(current_path.as_slice()));
        assert(paths_of(ans@) == before + hit(board@, target, path));
    }
    let last = current_path[current_path.len() - 1];
    let mut dir: usize = 0;
    while dir < 4
        invariant
            dir <= 4,
            current_path@ == path,
            path == old(current_path)@,
            path.len() > 0,
            last == path.last(),
            inside(board@, path),
            path.no_duplicates(),
            paths_of(ans@) == before + hit(board@, target, path) + branches(
                board@,
                target,
                path,
                dir as int,
            ),
        decreases 4 - dir,
    {
        let ghost so_far = paths_of(ans@);
        match step(last, dir) {
            Some(next_pos) => {
                if !visited(current_path, next_pos) {
                    proof {
                        assert(path.push(next_pos).drop_last() == path);
                        if grid_cell(board@, next_pos) is Some {
                            lemma_extended(board@, path, next_pos);
                        } else {
                            assert(path.push(next_pos).last() == next_pos);
                            lemma_distinct_positions_bounded(board@, path);
                            lemma_push_distinct(path, next_pos);
                        }
                    }
                    current_path.push(next_pos);
                    dfs(board, target, current_path, ans);
                    current_path.pop();
                }
            },
            None => {},
        }
        assert(paths_of(ans@) == so_far + branch(board@, target, path, dir as int));
        dir += 1;
    }
}

/// Every solution of `board` for `target`: the walks over orthogonal
/// neighbours, without a repeated position, that evaluate to `target`. Each
/// comes once, and they come in the order of the search: by starting cell,
/// row by row and from left to right within a row; a path before those that
/// go on from it; and of two that part ways, first the one that turns left,
/// then right, then up, then down.
pub fn solve(board: &Board, target: i64) -> (r: Vec<Vec<Pos>>)
    ensures
        paths_of(r@) == solutions(board@, target),
        forall|path: Seq<Pos>| #[trigger]
            paths_of(r@).contains(path) <==> is_solution(board@, target, path),
        paths_of(r@).no_duplicates(),
        in_search_order(paths_of(r@)),
{
    proof {
        lemma_solutions(board@, target);
    }
    let mut ans: Vec<Vec<Pos>> = Vec::new();
    let mut y: usize = 0;
    let rows = board.rows();
    while y < rows
        invariant
            y <= rows,
            rows == board@.len(),
            paths_of(ans@) == search_rows(board@, target, y as int),
        decreases rows - y,
    {
        let columns = board.row_len(y);
        let mut x: usize = 0;
        while x < columns
            invariant
                x <= columns,
                y < rows,
                rows == board@.len(),
                columns == board@[y as int].len(),
                paths_of(ans@) == search_rows(board@, target, y as int) + search_row(
                    board@,
                    target,
                    y as int,
                    x as int,
                ),
            decreases columns - x,
        {
            if x <= isize::MAX as usize && y <= isize::MAX as usize {
                let pos: Pos = (x as isize, y as isize);
                let source_cell = board.cell_at(pos);
                if let Some(Cell::Number(_)) = source_cell {
                    let mut current_path: Vec<Pos> = Vec::new();
                    current_path.push(pos);
                    assert(current_path@ == seq![pos]);
                    assert(inside(board@, current_path@));
                    dfs(board, target, &mut current_path, &mut ans);
                }
            }
            x += 1;
        }
        y += 1;
    }
    ans
}

} // verus!
