//! What the search returns, stated without reference to how it proceeds:
//! exactly the solutions, each of them once, the earlier before the later.

use vstd::prelude::*;
use vstd::seq_lib::lemma_no_dup_in_concat;
use crate::board::{fits_place, grid_cell, Cell, Pos};
use crate::search::{
    branch, hit, is_pos, is_solution, neighbour, search, search_from, search_row, search_rows,
    solutions,
};
use crate::walk::{adjacent, cell_count, is_walk, lemma_walk_extended};

verus! {

/// Whether `path` begins with `start`.
pub open spec fn extends(path: Seq<Pos>, start: Seq<Pos>) -> bool {
    start.len() <= path.len() && path.take(start.len() as int) == start
}

/// Whether the search starts from `a` before it starts from `b`: from an
/// upper row before a lower, and within a row from the left before the
/// right.
pub open spec fn starts_before(a: Pos, b: Pos) -> bool {
    a.1 < b.1 || (a.1 == b.1 && a.0 < b.0)
}

/// The number of the direction in which `to` lies from `from`: 0 for left,
/// 1 for right, 2 for up and 3 for down.
pub open spec fn direction(from: Pos, to: Pos) -> int {
    if neighbour(from, 0) == (to.0 as int, to.1 as int) {
        0
    } else if neighbour(from, 1) == (to.0 as int, to.1 as int) {
        1
    } else if neighbour(from, 2) == (to.0 as int, to.1 as int) {
        2
    } else {
        3
    }
}

/// Whether `p` and `q` agree in their first `n` positions and `p` then comes
/// first: because it ends there and `q` goes on, or because it starts from
/// an earlier cell, or because it goes on in an earlier direction.
pub open spec fn parts_before(p: Seq<Pos>, q: Seq<Pos>, n: int) -> bool {
    &&& 0 <= n <= p.len()
    &&& n < q.len()
    &&& p.take(n) == q.take(n)
    &&& if n == p.len() {
        true
    } else if n == 0 {
        starts_before(p[0], q[0])
    } else {
        direction(p[n - 1], p[n]) < direction(q[n - 1], q[n])
    }
}

/// Whether the search comes to `p` before it comes to `q`.
pub open spec fn searched_before(p: Seq<Pos>, q: Seq<Pos>) -> bool {
    exists|n: int| parts_before(p, q, n)
}

/// Whether each element of `found` is searched before those that follow it.
pub open spec fn in_search_order(found: Seq<Seq<Pos>>) -> bool {
    forall|i: int, j: int|
        0 <= i < j < found.len() ==> searched_before(#[trigger] found[i], #[trigger] found[j])
}

/// Of two paths the search comes to one at most before the other.
pub proof fn lemma_searched_before_one_way(p: Seq<Pos>, q: Seq<Pos>)
    ensures
        !(searched_before(p, q) && searched_before(q, p)),
{
    if searched_before(p, q) && searched_before(q, p) {
        let n = choose|n: int| parts_before(p, q, n);
        let m = choose|m: int| parts_before(q, p, m);
        if n < m {
            assert(q.take(m)[n] == q[n] && p.take(m)[n] == p[n]);
            if n > 0 {
                assert(q.take(m)[n - 1] == q[n - 1] && p.take(m)[n - 1] == p[n - 1]);
            }
        } else if m < n {
            assert(q.take(n)[m] == q[m] && p.take(n)[m] == p[m]);
            if m > 0 {
                assert(q.take(n)[m - 1] == q[m - 1] && p.take(n)[m - 1] == p[m - 1]);
            }
        } else if n > 0 {
            assert(q.take(n)[n - 1] == q[n - 1] && p.take(n)[n - 1] == p[n - 1]);
        }
    }
}

/// The order of the search leaves no choice: two sequences that hold the
/// same paths, each once and in the order of the search, are the same
/// sequence.
pub proof fn lemma_search_order_decides(a: Seq<Seq<Pos>>, b: Seq<Seq<Pos>>)
    requires
        a.no_duplicates(),
        b.no_duplicates(),
        in_search_order(a),
        in_search_order(b),
        forall|q: Seq<Pos>| a.contains(q) <==> b.contains(q),
    ensures
        a == b,
    decreases a.len(),
{
    if a.len() == 0 {
        if b.len() > 0 {
            assert(b.contains(b[0]));
        }
        assert(a =~= b);
    } else {
        assert(a.contains(a[0]));
        let k = choose|k: int| 0 <= k < b.len() && b[k] == a[0];
        assert(b.contains(b[0]));
        let m = choose|m: int| 0 <= m < a.len() && a[m] == b[0];
        if k > 0 {
            assert(searched_before(b[0], b[k]));
            if m > 0 {
                assert(searched_before(a[0], a[m]));
                lemma_searched_before_one_way(a[0], b[0]);
            }
        }
        let rest_a = a.drop_first();
        let rest_b = b.drop_first();
        assert forall|q: Seq<Pos>| rest_a.contains(q) <==> rest_b.contains(q) by {
            if rest_a.contains(q) {
                let i = choose|i: int| 0 <= i < rest_a.len() && rest_a[i] == q;
                assert(a[i + 1] == q);
                assert(a.contains(q));
                let j = choose|j: int| 0 <= j < b.len() && b[j] == q;
                assert(rest_b[j - 1] == q);
            }
            if rest_b.contains(q) {
                let i = choose|i: int| 0 <= i < rest_b.len() && rest_b[i] == q;
                assert(b[i + 1] == q);
                assert(b.contains(q));
                let j = choose|j: int| 0 <= j < a.len() && a[j] == q;
                assert(rest_a[j - 1] == q);
            }
        }
        assert forall|i: int, j: int| 0 <= i < j < rest_a.len() implies searched_before(
            #[trigger] rest_a[i],
            #[trigger] rest_a[j],
        ) by {
            assert(searched_before(a[i + 1], a[j + 1]));
        }
        assert forall|i: int, j: int| 0 <= i < j < rest_b.len() implies searched_before(
            #[trigger] rest_b[i],
            #[trigger] rest_b[j],
        ) by {
            assert(searched_before(b[i + 1], b[j + 1]));
        }
        lemma_search_order_decides(rest_a, rest_b);
        assert(a =~= seq![a[0]] + rest_a);
        assert(b =~= seq![b[0]] + rest_b);
    }
}

/// Whether `path` begins with `start` and then steps in direction `dir`.
spec fn turns(path: Seq<Pos>, start: Seq<Pos>, dir: int) -> bool {
    &&& extends(path, start)
    &&& start.len() < path.len()
    &&& neighbour(start.last(), dir) == (
        path[start.len() as int].0 as int,
        path[start.len() as int].1 as int,
    )
}

/// The part of the search below `start` in which it would find `path`: 0 for
/// `start` itself, then one for each direction; 5 if `path` does not begin
/// with `start`.
spec fn part(path: Seq<Pos>, start: Seq<Pos>) -> int {
    if !extends(path, start) {
        5
    } else if path.len() == start.len() {
        0
    } else if turns(path, start, 0) {
        1
    } else if turns(path, start, 1) {
        2
    } else if turns(path, start, 2) {
        3
    } else if turns(path, start, 3) {
        4
    } else {
        5
    }
}

/// Whether `found` holds, each once and in the order of the search, the
/// elements that are `good` and whose `class` is `k`.
spec fn holds_class(
    found: Seq<Seq<Pos>>,
    good: spec_fn(Seq<Pos>) -> bool,
    class: spec_fn(Seq<Pos>) -> int,
    k: int,
) -> bool {
    &&& found.no_duplicates()
    &&& in_search_order(found)
    &&& forall|q: Seq<Pos>| #[trigger] found.contains(q) <==> good(q) && class(q) == k
}

/// Whether `found` holds, each once and in the order of the search, the
/// elements that are `good` and whose `class` is at least 0 and less than
/// `k`.
spec fn holds_classes(
    found: Seq<Seq<Pos>>,
    good: spec_fn(Seq<Pos>) -> bool,
    class: spec_fn(Seq<Pos>) -> int,
    k: int,
) -> bool {
    &&& found.no_duplicates()
    &&& in_search_order(found)
    &&& forall|q: Seq<Pos>| #[trigger] found.contains(q) <==> good(q) && 0 <= class(q) < k
}

/// Whether the search comes to the good elements of a lower class before
/// those of a higher class, for the classes from 0 to `k`.
spec fn classes_in_order(
    good: spec_fn(Seq<Pos>) -> bool,
    class: spec_fn(Seq<Pos>) -> int,
    k: int,
) -> bool {
    forall|p: Seq<Pos>, q: Seq<Pos>|
        good(p) && good(q) && 0 <= class(p) < class(q) <= k ==> #[trigger] searched_before(p, q)
}

/// Two sequences without a repeated or a common element join to a sequence
/// without a repeated element, which holds what either of them holds.
proof fn lemma_join(a: Seq<Seq<Pos>>, b: Seq<Seq<Pos>>)
    requires
        a.no_duplicates(),
        b.no_duplicates(),
        forall|q: Seq<Pos>| #[trigger] a.contains(q) ==> !b.contains(q),
    ensures
        (a + b).no_duplicates(),
        forall|q: Seq<Pos>| #[trigger] (a + b).contains(q) <==> a.contains(q) || b.contains(q),
{
    assert forall|i: int, j: int| 0 <= i < a.len() && 0 <= j < b.len() implies a[i] != b[j] by {
        assert(a.contains(a[i]));
        assert(b.contains(b[j]));
    }
    lemma_no_dup_in_concat(a, b);
    assert forall|q: Seq<Pos>| (a + b).contains(q) <==> a.contains(q) || b.contains(q) by {
        if a.contains(q) {
            let i = choose|i: int| 0 <= i < a.len() && a[i] == q;
            assert((a + b)[i] == q);
        }
        if b.contains(q) {
            let j = choose|j: int| 0 <= j < b.len() && b[j] == q;
            assert((a + b)[a.len() + j] == q);
        }
        if (a + b).contains(q) {
            let k = choose|k: int| 0 <= k < (a + b).len() && (a + b)[k] == q;
            if k < a.len() {
                assert(a[k] == q);
            } else {
                assert(b[k - a.len()] == q);
            }
        }
    }
}

/// The classes below `k` followed by class `k` are the classes below
/// `k + 1`.
proof fn lemma_next_class(
    a: Seq<Seq<Pos>>,
    b: Seq<Seq<Pos>>,
    good: spec_fn(Seq<Pos>) -> bool,
    class: spec_fn(Seq<Pos>) -> int,
    k: int,
)
    requires
        0 <= k,
        holds_classes(a, good, class, k),
        holds_class(b, good, class, k),
        classes_in_order(good, class, k),
    ensures
        holds_classes(a + b, good, class, k + 1),
{
    lemma_join(a, b);
    assert forall|q: Seq<Pos>| #[trigger]
        (a + b).contains(q) <==> good(q) && 0 <= class(q) < k + 1 by {
        assert(a.contains(q) <==> good(q) && 0 <= class(q) < k);
        assert(b.contains(q) <==> good(q) && class(q) == k);
    }
    assert forall|i: int, j: int| 0 <= i < j < (a + b).len() implies searched_before(
        #[trigger] (a + b)[i],
        #[trigger] (a + b)[j],
    ) by {
        if j < a.len() {
            assert(searched_before(a[i], a[j]));
        } else if i >= a.len() {
            assert(searched_before(b[i - a.len()], b[j - a.len()]));
        } else {
            assert(a.contains(a[i]));
            assert(b.contains(b[j - a.len()]));
        }
    }
}

/// A walk is found at itself exactly if it is a solution.
proof fn lemma_hit(grid: Seq<Seq<Cell>>, target: i64, path: Seq<Pos>)
    requires
        is_walk(grid, path),
    ensures
        holds_class(
            hit(grid, target, path),
            |q: Seq<Pos>| is_solution(grid, target, q),
            |q: Seq<Pos>| part(q, path),
            0,
        ),
{
    let here = hit(grid, target, path);
    assert(path.take(path.len() as int) == path);
    assert forall|q: Seq<Pos>| #[trigger]
        here.contains(q) <==> is_solution(grid, target, q) && part(q, path) == 0 by {
        if here.contains(q) {
            let i = choose|i: int| 0 <= i < here.len() && here[i] == q;
            assert(q == path);
        }
        if is_solution(grid, target, q) && part(q, path) == 0 {
            assert(q.take(q.len() as int) == q);
            assert(here[0] == q);
        }
    }
}

/// Below a walk and in one direction, the search finds exactly the
/// solutions that begin with the walk and then step in that direction, each
/// of them once and in the order of the search.
proof fn lemma_branch(grid: Seq<Seq<Cell>>, target: i64, path: Seq<Pos>, dir: int)
    requires
        is_walk(grid, path),
        0 <= dir < 4,
    ensures
        branch(grid, target, path, dir).no_duplicates(),
        in_search_order(branch(grid, target, path, dir)),
        forall|q: Seq<Pos>|
            #[trigger] branch(grid, target, path, dir).contains(q) <==> is_solution(
                grid,
                target,
                q,
            ) && turns(q, path, dir),
    decreases cell_count(grid) - path.len(), 0int,
{
    let (x, y) = neighbour(path.last(), dir);
    let next = (x as isize, y as isize);
    let found = branch(grid, target, path, dir);
    let n = path.len() as int;
    if is_pos(x, y) && grid_cell(grid, next) is Some && !path.contains(next) {
        lemma_walk_extended(grid, path, next);
        lemma_search(grid, target, path.push(next));
        assert forall|q: Seq<Pos>| found.contains(q) <==> is_solution(grid, target, q) && turns(
            q,
            path,
            dir,
        ) by {
            if extends(q, path.push(next)) {
                assert(q.take(n) == q.take(n + 1).take(n));
                assert(path.push(next).take(n) == path);
                assert(q[n] == q.take(n + 1)[n]);
            }
            if is_solution(grid, target, q) && turns(q, path, dir) {
                assert(q[n] == next);
                assert(q.take(n + 1) == q.take(n).push(next));
            }
        }
    } else {
        assert forall|q: Seq<Pos>| !(is_solution(grid, target, q) && turns(q, path, dir)) by {
            if is_solution(grid, target, q) && turns(q, path, dir) {
                assert(q[n] == next);
                assert(grid_cell(grid, q[n]) is Some);
                if path.contains(next) {
                    let i = choose|i: int| 0 <= i < path.len() && path[i] == next;
                    assert(q.take(n)[i] == q[i]);
                    assert(q[i] == q[n]);
                }
            }
        }
    }
}

/// Below a walk and in one direction, the search finds the solutions of that
/// part, each of them once and in the order of the search.
proof fn lemma_branch_part(grid: Seq<Seq<Cell>>, target: i64, path: Seq<Pos>, dir: int)
    requires
        is_walk(grid, path),
        0 <= dir < 4,
    ensures
        holds_class(
            branch(grid, target, path, dir),
            |q: Seq<Pos>| is_solution(grid, target, q),
            |q: Seq<Pos>| part(q, path),
            dir + 1,
        ),
    decreases cell_count(grid) - path.len(), 1int,
{
    lemma_branch(grid, target, path, dir);
    let found = branch(grid, target, path, dir);
    assert forall|q: Seq<Pos>| #[trigger]
        found.contains(q) <==> is_solution(grid, target, q) && part(q, path) == dir + 1 by {
        assert(found.contains(q) <==> is_solution(grid, target, q) && turns(q, path, dir));
    }
}

/// A solution that begins with a walk lies in one of the parts of the search
/// below that walk.
proof fn lemma_parts_cover(grid: Seq<Seq<Cell>>, target: i64, path: Seq<Pos>, q: Seq<Pos>)
    requires
        is_walk(grid, path),
        is_solution(grid, target, q),
        extends(q, path),
    ensures
        0 <= part(q, path) < 5,
{
    if q.len() > path.len() {
        let n = path.len() as int;
        assert(adjacent(q[n - 1], q[n]));
        assert(q.take(n)[n - 1] == q[n - 1]);
    }
}

/// The search comes to the paths of an earlier part below a walk before
/// those of a later part.
proof fn lemma_parts_in_order(path: Seq<Pos>, p: Seq<Pos>, q: Seq<Pos>)
    requires
        path.len() > 0,
        0 <= part(p, path) < part(q, path) < 5,
    ensures
        searched_before(p, q),
{
    let n = path.len() as int;
    assert(p.take(n) == q.take(n));
    if part(p, path) > 0 {
        assert(p.take(n)[n - 1] == p[n - 1]);
        assert(q.take(n)[n - 1] == q[n - 1]);
        assert(direction(p[n - 1], p[n]) == part(p, path) - 1);
        assert(direction(q[n - 1], q[n]) == part(q, path) - 1);
    }
    assert(parts_before(p, q, n));
}

/// At and below a walk, the search finds exactly the solutions that begin
/// with the walk, each of them once and in the order of the search.
pub proof fn lemma_search(grid: Seq<Seq<Cell>>, target: i64, path: Seq<Pos>)
    requires
        is_walk(grid, path),
    ensures
        search(grid, target, path).no_duplicates(),
        in_search_order(search(grid, target, path)),
        forall|q: Seq<Pos>|
            #[trigger] search(grid, target, path).contains(q) <==> is_solution(
                grid,
                target,
                q,
            ) && extends(q, path),
    decreases cell_count(grid) - path.len(), 2int,
{
    let good = |q: Seq<Pos>| is_solution(grid, target, q);
    let class = |q: Seq<Pos>| part(q, path);
    let here = hit(grid, target, path);
    let left = branch(grid, target, path, 0);
    let right = branch(grid, target, path, 1);
    let up = branch(grid, target, path, 2);
    let down = branch(grid, target, path, 3);
    lemma_hit(grid, target, path);
    lemma_branch_part(grid, target, path, 0);
    lemma_branch_part(grid, target, path, 1);
    lemma_branch_part(grid, target, path, 2);
    lemma_branch_part(grid, target, path, 3);
    assert(classes_in_order(good, class, 4)) by {
        assert forall|p: Seq<Pos>, q: Seq<Pos>|
            good(p) && good(q) && 0 <= class(p) < class(q) <= 4 implies #[trigger] searched_before(
            p,
            q,
        ) by {
            lemma_parts_in_order(path, p, q);
        }
    }
    assert(classes_in_order(good, class, 1));
    assert(classes_in_order(good, class, 2));
    assert(classes_in_order(good, class, 3));
    assert(holds_classes(here, good, class, 1));
    lemma_next_class(here, left, good, class, 1);
    lemma_next_class(here + left, right, good, class, 2);
    lemma_next_class(here + left + right, up, good, class, 3);
    lemma_next_class(here + left + right + up, down, good, class, 4);
    let all = search(grid, target, path);
    assert(all == here + left + right + up + down);
    assert forall|q: Seq<Pos>| #[trigger]
        all.contains(q) <==> is_solution(grid, target, q) && extends(q, path) by {
        assert(all.contains(q) <==> good(q) && 0 <= class(q) < 5);
        if is_solution(grid, target, q) && extends(q, path) {
            lemma_parts_cover(grid, target, path, q);
        }
    }
}

/// From one cell, the search finds exactly the solutions that start there,
/// each of them once and in the order of the search.
proof fn lemma_search_from(grid: Seq<Seq<Cell>>, target: i64, x: int, y: int)
    ensures
        holds_class(
            search_from(grid, target, x, y),
            |q: Seq<Pos>| is_solution(grid, target, q) && q[0].1 == y,
            |q: Seq<Pos>| q[0].0 as int,
            x,
        ),
{
    let found = search_from(grid, target, x, y);
    let start = (x as isize, y as isize);
    if is_pos(x, y) && grid_cell(grid, start) matches Some(Cell::Number(_)) {
        let alone = seq![start];
        assert(is_walk(grid, alone));
        lemma_search(grid, target, alone);
        assert forall|q: Seq<Pos>| #[trigger]
            found.contains(q) <==> is_solution(grid, target, q) && q[0].1 == y && q[0].0 == x by {
            if extends(q, alone) {
                assert(q.take(1)[0] == q[0]);
            }
            if is_solution(grid, target, q) && q[0] == start {
                assert(q.take(1) == alone);
            }
        }
    } else {
        assert forall|q: Seq<Pos>| !(is_solution(grid, target, q) && q[0].1 == y && q[0].0 == x) by {
            if is_solution(grid, target, q) && q[0].1 == y && q[0].0 == x {
                assert(q[0] == start);
                assert(fits_place(grid_cell(grid, q[0]), 0));
            }
        }
    }
}

/// The search comes to the paths from an earlier cell before those from a
/// later cell.
proof fn lemma_starts_in_order(p: Seq<Pos>, q: Seq<Pos>)
    requires
        p.len() > 0,
        q.len() > 0,
        starts_before(p[0], q[0]),
    ensures
        searched_before(p, q),
{
    assert(p.take(0) == q.take(0));
    assert(parts_before(p, q, 0));
}

/// From the first `columns` cells of a row, the search finds exactly the
/// solutions that start at one of them, each of them once and in the order
/// of the search.
proof fn lemma_search_row(grid: Seq<Seq<Cell>>, target: i64, y: int, columns: int)
    requires
        0 <= columns,
    ensures
        holds_classes(
            search_row(grid, target, y, columns),
            |q: Seq<Pos>| is_solution(grid, target, q) && q[0].1 == y,
            |q: Seq<Pos>| q[0].0 as int,
            columns,
        ),
    decreases columns,
{
    if columns > 0 {
        let good = |q: Seq<Pos>| is_solution(grid, target, q) && q[0].1 == y;
        let class = |q: Seq<Pos>| q[0].0 as int;
        lemma_search_row(grid, target, y, columns - 1);
        lemma_search_from(grid, target, columns - 1, y);
        assert(classes_in_order(good, class, columns - 1)) by {
            assert forall|p: Seq<Pos>, q: Seq<Pos>|
                good(p) && good(q) && 0 <= class(p) < class(q) <= columns - 1 implies
                #[trigger] searched_before(p, q) by {
                lemma_starts_in_order(p, q);
            }
        }
        lemma_next_class(
            search_row(grid, target, y, columns - 1),
            search_from(grid, target, columns - 1, y),
            good,
            class,
            columns - 1,
        );
    }
}

/// From the first `rows` rows, the search finds exactly the solutions that
/// start in one of them, each of them once and in the order of the search.
proof fn lemma_search_rows(grid: Seq<Seq<Cell>>, target: i64, rows: int)
    requires
        0 <= rows <= grid.len(),
    ensures
        holds_classes(
            search_rows(grid, target, rows),
            |q: Seq<Pos>| is_solution(grid, target, q),
            |q: Seq<Pos>| q[0].1 as int,
            rows,
        ),
    decreases rows,
{
    if rows > 0 {
        let good = |q: Seq<Pos>| is_solution(grid, target, q);
        let class = |q: Seq<Pos>| q[0].1 as int;
        let y = rows - 1;
        let row = search_row(grid, target, y, grid[y].len() as int);
        lemma_search_rows(grid, target, y);
        lemma_search_row(grid, target, y, grid[y].len() as int);
        assert forall|q: Seq<Pos>| #[trigger]
            row.contains(q) <==> is_solution(grid, target, q) && q[0].1 == y by {
            if is_solution(grid, target, q) && q[0].1 == y {
                assert(grid_cell(grid, q[0]) is Some);
            }
        }
        assert(classes_in_order(good, class, y)) by {
            assert forall|p: Seq<Pos>, q: Seq<Pos>|
                good(p) && good(q) && 0 <= class(p) < class(q) <= y implies
                #[trigger] searched_before(p, q) by {
                lemma_starts_in_order(p, q);
            }
        }
        lemma_next_class(search_rows(grid, target, y), row, good, class, y);
    }
}

/// The search finds exactly the solutions, each of them once, and each
/// before those to which it comes later.
pub proof fn lemma_solutions(grid: Seq<Seq<Cell>>, target: i64)
    ensures
        solutions(grid, target).no_duplicates(),
        in_search_order(solutions(grid, target)),
        forall|q: Seq<Pos>| #[trigger]
            solutions(grid, target).contains(q) <==> is_solution(grid, target, q),
{
    lemma_search_rows(grid, target, grid.len() as int);
    assert forall|q: Seq<Pos>| #[trigger]
        solutions(grid, target).contains(q) <==> is_solution(grid, target, q) by {
        if is_solution(grid, target, q) {
            assert(grid_cell(grid, q[0]) is Some);
        }
    }
}

} // verus!
