//! Which of several solutions is the best one.

use crate::listing::views;
use crate::step::{BinOp, Op};
use crate::text::chars_of;
use vstd::prelude::*;

verus! {

/// The ways to choose among solutions.
#[derive(Clone, Copy, Debug, PartialEq, Eq, Structural)]
pub enum Strategy {
    /// The fewest steps.
    Shortest,
    /// The most steps.
    Longest,
    /// The most divisions; among solutions with as many divisions, the
    /// fewest steps.
    MostDivides,
}

impl Default for Strategy {
    /// The strategy that is used where none is named: the fewest steps.
    fn default() -> (strategy: Strategy)
        ensures
            strategy == Strategy::Shortest,
    {
        Strategy::Shortest
    }
}

/// The strategy that `name` stands for: `shortest`, `longest` or
/// `most-divides`.
pub open spec fn named(name: Seq<char>) -> Option<Strategy> {
    if name == "shortest"@ {
        Some(Strategy::Shortest)
    } else if name == "longest"@ {
        Some(Strategy::Longest)
    } else if name == "most-divides"@ {
        Some(Strategy::MostDivides)
    } else {
        None
    }
}

fn same_text(a: &Vec<char>, b: &str) -> (same: bool)
    ensures
        same == (a@ == b@),
{
    let other: Vec<char> = chars_of(b);
    if a.len() != other.len() {
        return false;
    }
    let mut k: usize = 0;
    while k < a.len()
        invariant
            other@ == b@,
            a@.len() == other@.len(),
            k <= a@.len(),
            a@.take(k as int) == other@.take(k as int),
        decreases a.len() - k,
    {
        if a[k] != other[k] {
            return false;
        }
        assert(a@.take(k + 1) =~= a@.take(k as int).push(a@[k as int]));
        assert(other@.take(k + 1) =~= other@.take(k as int).push(other@[k as int]));
        k += 1;
    }
    assert(a@.take(a@.len() as int) =~= a@);
    assert(other@.take(other@.len() as int) =~= other@);
    true
}

impl Strategy {
    /// Finds the strategy of the given name.
    pub fn from_name(name: &str) -> (strategy: Option<Strategy>)
        ensures
            strategy == named(name@),
    {
        let chars: Vec<char> = chars_of(name);
        if same_text(&chars, "shortest") {
            Some(Strategy::Shortest)
        } else if same_text(&chars, "longest") {
            Some(Strategy::Longest)
        } else if same_text(&chars, "most-divides") {
            Some(Strategy::MostDivides)
        } else {
            None
        }
    }
}

/// The search found no solution.
#[derive(Clone, Copy, Debug, PartialEq, Eq, Structural)]
pub struct NoSolution;

/// How many of `steps` are divisions.
pub open spec fn divides(steps: Seq<BinOp>) -> nat
    decreases steps.len(),
{
    if steps.len() == 0 {
        0
    } else {
        divides(steps.drop_last()) + if steps.last().op == Op::Div {
            1nat
        } else {
            0nat
        }
    }
}

/// Whether `candidate` is to be preferred to `best`. No solution is better
/// than itself, nor than one with the same number of steps and of divisions.
pub open spec fn better(strategy: Strategy, candidate: Seq<BinOp>, best: Seq<BinOp>) -> bool {
    match strategy {
        Strategy::Shortest => candidate.len() < best.len(),
        Strategy::Longest => candidate.len() > best.len(),
        Strategy::MostDivides => divides(candidate) > divides(best) || (divides(candidate)
            == divides(best) && candidate.len() < best.len()),
    }
}

/// Whether the solution at `at` is the one to pick from `solutions`: none is
/// better, and it is better than every one before it. This is what comparing
/// the solutions in order, and keeping a later one only where it is better,
/// ends with.
pub open spec fn picks(strategy: Strategy, solutions: Seq<Seq<BinOp>>, at: int) -> bool {
    &&& 0 <= at < solutions.len()
    &&& forall|k: int|
        0 <= k < solutions.len() ==> !better(strategy, #[trigger] solutions[k], solutions[at])
    &&& forall|k: int| 0 <= k < at ==> better(strategy, solutions[at], #[trigger] solutions[k])
}

/// Counts the divisions among `steps`.
pub fn count_divides(steps: &Vec<BinOp>) -> (count: usize)
    ensures
        count == divides(steps@),
{
    let mut count: usize = 0;
    let mut k: usize = 0;
    assert(steps@.take(0) =~= Seq::<BinOp>::empty());
    while k < steps.len()
        invariant
            k <= steps.len(),
            count <= k,
            count == divides(steps@.take(k as int)),
        decreases steps.len() - k,
    {
        assert(steps@.take(k + 1).drop_last() =~= steps@.take(k as int));
        match steps[k].op {
            Op::Div => {
                count += 1;
            },
            _ => {},
        }
        k += 1;
    }
    assert(steps@.take(steps@.len() as int) =~= steps@);
    count
}

/// Compares two solutions under `strategy`.
pub fn is_better(strategy: Strategy, candidate: &Vec<BinOp>, best: &Vec<BinOp>) -> (yes: bool)
    ensures
        yes == better(strategy, candidate@, best@),
{
    match strategy {
        Strategy::Shortest => candidate.len() < best.len(),
        Strategy::Longest => candidate.len() > best.len(),
        Strategy::MostDivides => {
            let ours: usize = count_divides(candidate);
            let theirs: usize = count_divides(best);
            ours > theirs || (ours == theirs && candidate.len() < best.len())
        },
    }
}

/// Whether `steps` is the solution that `strategy` picks from `solutions`.
pub open spec fn chosen(strategy: Strategy, solutions: Seq<Seq<BinOp>>, steps: Seq<BinOp>) -> bool {
    exists|at: int| picks(strategy, solutions, at) && solutions[at] == steps
}

/// Only one place of a list of solutions is the one to pick.
pub proof fn lemma_pick_is_settled(strategy: Strategy, solutions: Seq<Seq<BinOp>>, a: int, b: int)
    requires
        picks(strategy, solutions, a),
        picks(strategy, solutions, b),
    ensures
        a == b,
{
    if a < b {
        assert(better(strategy, solutions[b], solutions[a]));
    } else if b < a {
        assert(better(strategy, solutions[a], solutions[b]));
    }
}

/// Choosing twice from the same solutions under the same strategy gives the
/// same solution: as many steps, and as many divisions among them.
pub proof fn lemma_choice_is_settled(
    strategy: Strategy,
    solutions: Seq<Seq<BinOp>>,
    first: Seq<BinOp>,
    second: Seq<BinOp>,
)
    requires
        chosen(strategy, solutions, first),
        chosen(strategy, solutions, second),
    ensures
        first == second,
        first.len() == second.len(),
        divides(first) == divides(second),
{
    let a = choose|at: int| picks(strategy, solutions, at) && solutions[at] == first;
    let b = choose|at: int| picks(strategy, solutions, at) && solutions[at] == second;
    lemma_pick_is_settled(strategy, solutions, a, b);
}

/// Finds the place of the best solution: the solutions are compared in
/// order, the first is the best to begin with, and a later one takes its
/// place only where it is better.
pub fn best_index(solutions: &Vec<Vec<BinOp>>, strategy: Strategy) -> (at: Option<usize>)
    ensures
        at is None <==> solutions@.len() == 0,
        at matches Some(b) ==> picks(strategy, views(solutions@), b as int),
{
    if solutions.len() == 0 {
        return None;
    }
    let ghost all = views(solutions@);
    let mut best: usize = 0;
    let mut k: usize = 1;
    assert(picks(strategy, all.take(1), 0));
    while k < solutions.len()
        invariant
            all == views(solutions@),
            1 <= k <= solutions.len(),
            best < k,
            picks(strategy, all.take(k as int), best as int),
        decreases solutions.len() - k,
    {
        let ghost seen = all.take(k as int);
        let ghost wider = all.take(k + 1);
        let ghost old_best = best;
        assert(all[k as int] == solutions@[k as int]@);
        assert(all[best as int] == solutions@[best as int]@);
        if is_better(strategy, &solutions[k], &solutions[best]) {
            best = k;
        }
        proof {
            assert forall|x: int| 0 <= x < wider.len() implies !better(
                strategy,
                #[trigger] wider[x],
                wider[best as int],
            ) by {
                if x < k {
                    assert(!better(strategy, seen[x], seen[old_best as int]));
                }
            }
            assert forall|x: int| 0 <= x < best implies better(
                strategy,
                wider[best as int],
                #[trigger] wider[x],
            ) by {
                assert(!better(strategy, seen[x], seen[old_best as int]));
                if x < old_best {
                    assert(better(strategy, seen[old_best as int], seen[x]));
                }
            }
        }
        k += 1;
    }
    assert(all.take(solutions@.len() as int) =~= all);
    Some(best)
}

/// Picks the best of `solutions` under `strategy`. There is none to pick
/// where the list is empty.
pub fn pick_best(solutions: &Vec<Vec<BinOp>>, strategy: Strategy) -> (best: Result<
    Vec<BinOp>,
    NoSolution,
>)
    ensures
        best is Err <==> solutions@.len() == 0,
        best matches Ok(steps) ==> chosen(strategy, views(solutions@), steps@),
{
    match best_index(solutions, strategy) {
        None => Err(NoSolution),
        Some(at) => {
            let from: &Vec<BinOp> = &solutions[at];
            let mut steps: Vec<BinOp> = Vec::new();
            let mut k: usize = 0;
            while k < from.len()
                invariant
                    k <= from.len(),
                    steps@ == from@.take(k as int),
                decreases from.len() - k,
            {
                steps.push(from[k]);
                assert(steps@ =~= from@.take(k + 1));
                k += 1;
            }
            assert(from@.take(from@.len() as int) =~= from@);
            assert(views(solutions@)[at as int] == steps@);
            Ok(steps)
        },
    }
}

} // verus!
