//! What the riddle's outcome is, stated without reference to the order in
//! which solutions are tried: a chain of solutions if there is one, nothing
//! if there is none.

use vstd::prelude::*;
use crate::board::{Cell, Pos};
use crate::riddle::{advanced, progression, triangular, LAST_PROBLEM};
use crate::search::{is_solution, solutions};
use crate::search_laws::lemma_solutions;

verus! {

/// Whether `chain` solves the problems from `level` to the last: it holds
/// one path for each of them, and each path is a solution of its problem on
/// the grid as the paths before it have left it.
pub open spec fn solves_from(grid: Seq<Seq<Cell>>, level: int, chain: Seq<Seq<Pos>>) -> bool
    decreases chain.len(),
{
    if level > LAST_PROBLEM {
        chain.len() == 0
    } else {
        &&& chain.len() > 0
        &&& is_solution(grid, triangular(level) as i64, chain[0])
        &&& solves_from(advanced(grid, chain[0]), level + 1, chain.drop_first())
    }
}

/// A chain that solves the problems from `level` to the last holds one path
/// for each of them.
pub proof fn lemma_chain_length(grid: Seq<Seq<Cell>>, level: int, chain: Seq<Seq<Pos>>)
    requires
        solves_from(grid, level, chain),
    ensures
        chain.len() == if level > LAST_PROBLEM {
            0
        } else {
            LAST_PROBLEM + 1 - level
        },
    decreases chain.len(),
{
    if level <= LAST_PROBLEM {
        lemma_chain_length(advanced(grid, chain[0]), level + 1, chain.drop_first());
    }
}

/// Where the riddle has an outcome, it solves the problems from `level` to
/// the last, and begins with a solution that was not passed over.
proof fn lemma_outcome_solves(grid: Seq<Seq<Cell>>, level: int, skip: int)
    requires
        progression(grid, level, skip) is Some,
    ensures
        solves_from(grid, level, progression(grid, level, skip)->0),
    decreases LAST_PROBLEM + 1 - level, solutions(grid, triangular(level) as i64).len() - skip,
{
    let target = triangular(level) as i64;
    let candidates = solutions(grid, target);
    if level <= LAST_PROBLEM {
        let candidate = candidates[skip];
        let after = advanced(grid, candidate);
        match progression(after, level + 1, 0) {
            Some(rest) => {
                lemma_outcome_solves(after, level + 1, 0);
                lemma_solutions(grid, target);
                assert(candidates.contains(candidate));
                let chain = seq![candidate] + rest;
                assert(chain[0] == candidate);
                assert(chain.drop_first() == rest);
            },
            None => {
                lemma_outcome_solves(grid, level, skip + 1);
            },
        }
    }
}

/// Where the riddle has no outcome, every chain that solves the problems
/// from `level` to the last begins with a solution that was passed over.
proof fn lemma_no_outcome(grid: Seq<Seq<Cell>>, level: int, skip: int, chain: Seq<Seq<Pos>>)
    requires
        0 <= skip,
        progression(grid, level, skip) is None,
        solves_from(grid, level, chain),
    ensures
        ({
            let candidates = solutions(grid, triangular(level) as i64);
            exists|i: int|
                0 <= i < skip && i < candidates.len() && #[trigger] candidates[i] == chain[0]
        }),
    decreases LAST_PROBLEM + 1 - level, solutions(grid, triangular(level) as i64).len() - skip,
{
    let target = triangular(level) as i64;
    let candidates = solutions(grid, target);
    lemma_solutions(grid, target);
    assert(candidates.contains(chain[0]));
    let at = choose|i: int| 0 <= i < candidates.len() && candidates[i] == chain[0];
    if skip < candidates.len() {
        let after = advanced(grid, candidates[skip]);
        lemma_no_outcome(grid, level, skip + 1, chain);
        let i = choose|i: int|
            0 <= i < skip + 1 && i < candidates.len() && #[trigger] candidates[i] == chain[0];
        if i == skip {
            lemma_no_outcome(after, level + 1, 0, chain.drop_first());
        }
    }
}

/// The riddle's outcome from problem `level` on is a chain that solves the
/// problems from `level` to the last; it has none only if there is no such
/// chain.
pub proof fn lemma_progression(grid: Seq<Seq<Cell>>, level: int)
    ensures
        match progression(grid, level, 0) {
            Some(chain) => solves_from(grid, level, chain),
            None => forall|chain: Seq<Seq<Pos>>| !solves_from(grid, level, chain),
        },
{
    if progression(grid, level, 0) is Some {
        lemma_outcome_solves(grid, level, 0);
    } else {
        assert forall|chain: Seq<Seq<Pos>>| !solves_from(grid, level, chain) by {
            if solves_from(grid, level, chain) {
                lemma_no_outcome(grid, level, 0, chain);
            }
        }
    }
}

} // verus!
