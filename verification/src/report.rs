//! What to tell of the solutions that a search has returned.

use vstd::prelude::*;
use vstd::slice::slice_to_vec;
use crate::board::Pos;
use crate::search::paths_of;

verus! {

/// What there is to tell of a list of solutions.
#[derive(Debug, PartialEq, Eq)]
pub enum Summary {
    /// The list is empty.
    NoSolution,
    /// The list holds this one solution.
    Solution(Vec<Pos>),
    /// The list holds several solutions, and these are its shortest and its
    /// longest.
    Extremes { shortest: Vec<Pos>, longest: Vec<Pos> },
}

/// Whether `paths[i]` is the first of the shortest paths in `paths`.
pub open spec fn is_first_shortest(paths: Seq<Seq<Pos>>, i: int) -> bool {
    &&& 0 <= i < paths.len()
    &&& forall|j: int| 0 <= j < paths.len() ==> paths[i].len() <= (#[trigger] paths[j]).len()
    &&& forall|j: int| 0 <= j < i ==> paths[i].len() < (#[trigger] paths[j]).len()
}

/// Whether `paths[i]` is the last of the longest paths in `paths`.
pub open spec fn is_last_longest(paths: Seq<Seq<Pos>>, i: int) -> bool {
    &&& 0 <= i < paths.len()
    &&& forall|j: int| 0 <= j < paths.len() ==> (#[trigger] paths[j]).len() <= paths[i].len()
    &&& forall|j: int| i < j < paths.len() ==> (#[trigger] paths[j]).len() < paths[i].len()
}

/// The place of the first of the shortest paths.
fn first_shortest(paths: &Vec<Vec<Pos>>) -> (r: usize)
    requires
        paths.len() > 0,
    ensures
        is_first_shortest(paths_of(paths@), r as int),
{
    let mut best: usize = 0;
    let mut j: usize = 1;
    while j < paths.len()
        invariant
            1 <= j <= paths.len(),
            is_first_shortest(paths_of(paths@).take(j as int), best as int),
        decreases paths.len() - j,
    {
        let ghost seen = paths_of(paths@).take(j as int);
        let ghost next = paths_of(paths@).take(j + 1);
        if paths[j].len() < paths[best].len() {
            best = j;
        }
        proof {
            assert forall|k: int| 0 <= k < next.len() implies next[best as int].len() <= (
            #[trigger] next[k]).len() by {
                if k < j {
                    assert(next[k] == seen[k]);
                }
            }
            assert forall|k: int| 0 <= k < best implies next[best as int].len() < (
            #[trigger] next[k]).len() by {
                assert(next[k] == seen[k]);
            }
        }
        j += 1;
    }
    assert(paths_of(paths@).take(j as int) == paths_of(paths@));
    best
}

/// The place of the last of the longest paths.
fn last_longest(paths: &Vec<Vec<Pos>>) -> (r: usize)
    requires
        paths.len() > 0,
    ensures
        is_last_longest(paths_of(paths@), r as int),
{
    let mut best: usize = 0;
    let mut j: usize = 1;
    while j < paths.len()
        invariant
            1 <= j <= paths.len(),
            is_last_longest(paths_of(paths@).take(j as int), best as int),
        decreases paths.len() - j,
    {
        let ghost seen = paths_of(paths@).take(j as int);
        let ghost next = paths_of(paths@).take(j + 1);
        if paths[j].len() >= paths[best].len() {
            best = j;
        }
        proof {
            assert forall|k: int| 0 <= k < next.len() implies (#[trigger] next[k]).len()
                <= next[best as int].len() by {
                if k < j {
                    assert(next[k] == seen[k]);
                }
            }
            assert forall|k: int| best < k < next.len() implies (#[trigger] next[k]).len()
                < next[best as int].len() by {
                if k < j {
                    assert(next[k] == seen[k]);
                }
            }
        }
        j += 1;
    }
    assert(paths_of(paths@).take(j as int) == paths_of(paths@));
    best
}

/// Sums up a list of solutions: that there is none, the one that there is,
/// or, of several, the first of the shortest and the last of the longest.
pub fn summarize(paths: &Vec<Vec<Pos>>) -> (r: Summary)
    ensures
        match r {
            Summary::NoSolution => paths.len() == 0,
            Summary::Solution(only) => paths.len() == 1 && only@ == paths_of(paths@)[0],
            Summary::Extremes { shortest, longest } => {
                &&& paths.len() > 1
                &&& exists|i: int|
                    is_first_shortest(paths_of(paths@), i) && shortest@ == #[trigger] paths_of(
                        paths@,
                    )[i]
                &&& exists|i: int|
                    is_last_longest(paths_of(paths@), i) && longest@ == #[trigger] paths_of(
                        paths@,
                    )[i]
            },
        },
{
    if paths.len() == 0 {
        Summary::NoSolution
    } else if paths.len() == 1 {
        Summary::Solution(slice_to_vec(paths[0].as_slice()))
    } else {
        let low = first_shortest(paths);
        let high = last_longest(paths);
        let shortest = slice_to_vec(paths[low].as_slice());
        let longest = slice_to_vec(paths[high].as_slice());
        assert(shortest@ == paths_of(paths@)[low as int]);
        assert(longest@ == paths_of(paths@)[high as int]);
        Summary::Extremes { shortest, longest }
    }
}

} // verus!
