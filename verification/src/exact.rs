//! How the evaluation of a path, done in `i64`, stands to the same left
//! fold done on the integers: it is that integer, brought into the range of
//! `i64` by a multiple of 2^64, and so the integer itself wherever that fits.

use vstd::prelude::*;
use crate::board::{fold, number_at, operator_at, Cell, Operator, Pos};

verus! {

/// The `i64` that differs from `v` by a multiple of 2^64.
pub open spec fn wrapped(v: int) -> i64 {
    let low = v % 0x1_0000_0000_0000_0000;
    if low > i64::MAX {
        (low - 0x1_0000_0000_0000_0000) as i64
    } else {
        low as i64
    }
}

/// One step of an evaluation on the integers.
pub open spec fn apply_exact(op: Operator, acc: int, number: int) -> int {
    match op {
        Operator::Add => acc + number,
        Operator::Sub => acc - number,
        Operator::Mul => acc * number,
    }
}

/// The left fold of a path on the integers.
pub open spec fn exact_fold(grid: Seq<Seq<Cell>>, path: Seq<Pos>) -> int
    decreases path.len(),
{
    if path.len() < 3 {
        number_at(grid, path[0]) as int
    } else {
        apply_exact(
            operator_at(grid, path[path.len() - 2]),
            exact_fold(grid, path.take(path.len() - 2)),
            number_at(grid, path[path.len() - 1]) as int,
        )
    }
}

/// An `i64` that differs from `v` by a multiple of 2^64 is `wrapped(v)`.
proof fn lemma_wrapped_is(v: int, k: int, w: i64)
    requires
        w == v + k * 0x1_0000_0000_0000_0000,
    ensures
        wrapped(v) == w,
{
    let low = v % 0x1_0000_0000_0000_0000;
    let q = v / 0x1_0000_0000_0000_0000;
    assert(v == q * 0x1_0000_0000_0000_0000 + low);
    assert(0 <= low < 0x1_0000_0000_0000_0000);
    assert(w - low == (q + k) * 0x1_0000_0000_0000_0000) by (nonlinear_arith)
        requires
            w == v + k * 0x1_0000_0000_0000_0000,
            v == q * 0x1_0000_0000_0000_0000 + low,
    ;
    let d = q + k;
    assert(d == 0 || d == -1) by (nonlinear_arith)
        requires
            w - low == d * 0x1_0000_0000_0000_0000,
            -0x8000_0000_0000_0000 <= w < 0x8000_0000_0000_0000,
            0 <= low < 0x1_0000_0000_0000_0000,
    ;
}

/// `wrapped(v)` differs from `v` by a multiple of 2^64.
proof fn lemma_wrapped_differs(v: int) -> (k: int)
    ensures
        wrapped(v) == v + k * 0x1_0000_0000_0000_0000,
{
    let low = v % 0x1_0000_0000_0000_0000;
    let q = v / 0x1_0000_0000_0000_0000;
    assert(v == q * 0x1_0000_0000_0000_0000 + low);
    if low > i64::MAX {
        -q - 1
    } else {
        -q
    }
}

/// A step in `i64` on the wrapped value is the wrapped step on the integers.
proof fn lemma_apply_wraps(op: Operator, acc: int, number: i64)
    ensures
        crate::board::apply(op, wrapped(acc), number) == wrapped(
            apply_exact(op, acc, number as int),
        ),
{
    let k = lemma_wrapped_differs(acc);
    let a = wrapped(acc);
    let r = crate::board::apply(op, a, number);
    match op {
        Operator::Add => {
            let j: int = if a + number > i64::MAX {
                -1
            } else if a + number < i64::MIN {
                1
            } else {
                0
            };
            assert(r == a + number + j * 0x1_0000_0000_0000_0000);
            assert(r == (acc + number) + (k + j) * 0x1_0000_0000_0000_0000) by (nonlinear_arith)
                requires
                    r == a + number + j * 0x1_0000_0000_0000_0000,
                    a == acc + k * 0x1_0000_0000_0000_0000,
            ;
            lemma_wrapped_is(acc + number, k + j, r);
        },
        Operator::Sub => {
            let j: int = if a - number > i64::MAX {
                -1
            } else if a - number < i64::MIN {
                1
            } else {
                0
            };
            assert(r == a - number + j * 0x1_0000_0000_0000_0000);
            assert(r == (acc - number) + (k + j) * 0x1_0000_0000_0000_0000) by (nonlinear_arith)
                requires
                    r == a - number + j * 0x1_0000_0000_0000_0000,
                    a == acc + k * 0x1_0000_0000_0000_0000,
            ;
            lemma_wrapped_is(acc - number, k + j, r);
        },
        Operator::Mul => {
            assert(r == wrapped(a * number));
            let j = lemma_wrapped_differs(a * number);
            assert(r == acc * number + (k * number + j) * 0x1_0000_0000_0000_0000)
                by (nonlinear_arith)
                requires
                    r == a * number + j * 0x1_0000_0000_0000_0000,
                    a == acc + k * 0x1_0000_0000_0000_0000,
            ;
            lemma_wrapped_is(acc * number, k * number + j, r);
        },
    }
}

/// The evaluation in `i64` gives the integer that the same left fold on the
/// integers gives, wrapped.
pub proof fn lemma_fold_wraps(grid: Seq<Seq<Cell>>, path: Seq<Pos>)
    ensures
        fold(grid, path) == wrapped(exact_fold(grid, path)),
    decreases path.len(),
{
    if path.len() < 3 {
        lemma_wrapped_is(number_at(grid, path[0]) as int, 0, number_at(grid, path[0]));
    } else {
        let before = path.take(path.len() - 2);
        lemma_fold_wraps(grid, before);
        lemma_apply_wraps(
            operator_at(grid, path[path.len() - 2]),
            exact_fold(grid, before),
            number_at(grid, path[path.len() - 1]),
        );
    }
}

/// Where the left fold on the integers gives a value that an `i64` can hold,
/// the evaluation in `i64` gives that value, whatever lay in between.
pub proof fn lemma_fold_exact(grid: Seq<Seq<Cell>>, path: Seq<Pos>)
    requires
        i64::MIN <= exact_fold(grid, path) <= i64::MAX,
    ensures
        fold(grid, path) == exact_fold(grid, path),
{
    lemma_fold_wraps(grid, path);
    lemma_wrapped_is(exact_fold(grid, path), 0, exact_fold(grid, path) as i64);
}

} // verus!
