//! Walks: sequences of distinct grid positions, each next to the one before.
//! A walk can never be longer than the grid has cells.

use vstd::prelude::*;
use vstd::set_lib::{lemma_int_range, lemma_len_subset, set_int_range};
use crate::board::{grid_cell, Cell, Pos};

verus! {

/// Whether every position of `path` lies inside `grid`.
pub open spec fn inside(grid: Seq<Seq<Cell>>, path: Seq<Pos>) -> bool {
    forall|i: int| 0 <= i < path.len() ==> (#[trigger] grid_cell(grid, path[i])) is Some
}

/// Whether `a` and `b` are orthogonal neighbours: one step apart along a
/// row or along a column.
pub open spec fn adjacent(a: Pos, b: Pos) -> bool {
    ||| a.1 == b.1 && (a.0 - b.0 == 1 || b.0 - a.0 == 1)
    ||| a.0 == b.0 && (a.1 - b.1 == 1 || b.1 - a.1 == 1)
}

/// Whether each position of `path` but the first is a neighbour of the one
/// before it.
pub open spec fn chained(path: Seq<Pos>) -> bool {
    forall|i: int| 0 < i < path.len() ==> adjacent(path[i - 1], #[trigger] path[i])
}

/// Whether `path` is a walk on `grid`: not empty, inside the grid, without a
/// repeated position, and chained by neighbourhood.
pub open spec fn is_walk(grid: Seq<Seq<Cell>>, path: Seq<Pos>) -> bool {
    &&& path.len() > 0
    &&& inside(grid, path)
    &&& path.no_duplicates()
    &&& chained(path)
}

/// The number of cells in `grid`.
pub open spec fn cell_count(grid: Seq<Seq<Cell>>) -> nat
    decreases grid.len(),
{
    if grid.len() == 0 {
        0
    } else {
        cell_count(grid.drop_last()) + grid.last().len()
    }
}

/// The place of `pos` when the cells are numbered row by row.
spec fn cell_index(grid: Seq<Seq<Cell>>, pos: Pos) -> int {
    cell_count(grid.take(pos.1 as int)) + pos.0
}

proof fn lemma_cell_count_take(grid: Seq<Seq<Cell>>, a: int, b: int)
    requires
        0 <= a < b <= grid.len(),
    ensures
        cell_count(grid.take(a)) + grid[a].len() <= cell_count(grid.take(b)),
    decreases b - a,
{
    assert(grid.take(b).drop_last() == grid.take(b - 1));
    if a + 1 < b {
        lemma_cell_count_take(grid, a, b - 1);
    }
}

proof fn lemma_cell_index(grid: Seq<Seq<Cell>>, p: Pos, q: Pos)
    requires
        grid_cell(grid, p) is Some,
        grid_cell(grid, q) is Some,
    ensures
        0 <= cell_index(grid, p) < cell_count(grid),
        p != q ==> cell_index(grid, p) != cell_index(grid, q),
{
    assert(grid.take(grid.len() as int) == grid);
    lemma_cell_count_take(grid, p.1 as int, grid.len() as int);
    if p.1 < q.1 {
        lemma_cell_count_take(grid, p.1 as int, q.1 as int);
    } else if q.1 < p.1 {
        lemma_cell_count_take(grid, q.1 as int, p.1 as int);
    }
}

/// Distinct positions inside a grid are at most as many as its cells.
pub proof fn lemma_distinct_positions_bounded(grid: Seq<Seq<Cell>>, path: Seq<Pos>)
    requires
        inside(grid, path),
        path.no_duplicates(),
    ensures
        path.len() <= cell_count(grid),
{
    let indices = Seq::new(path.len(), |i: int| cell_index(grid, path[i]));
    assert forall|i: int, j: int| 0 <= i < indices.len() && 0 <= j < indices.len() && i != j
        implies indices[i] != indices[j] by {
        assert(grid_cell(grid, path[i]) is Some);
        assert(grid_cell(grid, path[j]) is Some);
        lemma_cell_index(grid, path[i], path[j]);
    }
    indices.unique_seq_to_set();
    let all = set_int_range(0, cell_count(grid) as int);
    lemma_int_range(0, cell_count(grid) as int);
    assert forall|v: int| indices.to_set().contains(v) implies all.contains(v) by {
        let i = choose|i: int| 0 <= i < indices.len() && indices[i] == v;
        assert(grid_cell(grid, path[i]) is Some);
        lemma_cell_index(grid, path[i], path[i]);
    }
    lemma_len_subset(indices.to_set(), all);
}

/// A sequence of distinct positions stays one when a position that it lacks
/// is added.
pub proof fn lemma_push_distinct(path: Seq<Pos>, next: Pos)
    requires
        path.no_duplicates(),
        !path.contains(next),
    ensures
        path.push(next).no_duplicates(),
{
    let longer = path.push(next);
    assert forall|i: int, j: int| 0 <= i < longer.len() && 0 <= j < longer.len() && i != j
        implies longer[i] != longer[j] by {
        if i < path.len() && j < path.len() {
            assert(path[i] != path[j]);
        } else if i < path.len() {
            assert(path.contains(path[i]));
        } else {
            assert(path.contains(path[j]));
        }
    }
}

/// A sequence of distinct positions inside the grid stays one when a new
/// position inside the grid is added, and so leaves room in the grid.
pub proof fn lemma_extended(grid: Seq<Seq<Cell>>, path: Seq<Pos>, next: Pos)
    requires
        inside(grid, path),
        path.no_duplicates(),
        grid_cell(grid, next) is Some,
        !path.contains(next),
    ensures
        inside(grid, path.push(next)),
        path.push(next).no_duplicates(),
        path.len() < cell_count(grid),
{
    let longer = path.push(next);
    assert forall|i: int| 0 <= i < longer.len() implies (#[trigger] grid_cell(
        grid,
        longer[i],
    )) is Some by {
        if i < path.len() {
            assert(longer[i] == path[i]);
        }
    }
    lemma_push_distinct(path, next);
    lemma_distinct_positions_bounded(grid, longer);
}

/// A walk extended by a neighbour of its end that is inside the grid and
/// new to it is a walk.
pub proof fn lemma_walk_extended(grid: Seq<Seq<Cell>>, path: Seq<Pos>, next: Pos)
    requires
        is_walk(grid, path),
        adjacent(path.last(), next),
        grid_cell(grid, next) is Some,
        !path.contains(next),
    ensures
        is_walk(grid, path.push(next)),
        path.len() < cell_count(grid),
{
    lemma_extended(grid, path, next);
    let longer = path.push(next);
    assert forall|i: int| 0 < i < longer.len() implies adjacent(
        longer[i - 1],
        #[trigger] longer[i],
    ) by {
        if i < path.len() {
            assert(adjacent(path[i - 1], path[i]));
        }
    }
}

} // verus!
