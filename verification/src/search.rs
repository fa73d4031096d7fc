//! The two searches that run to their end: the shortest-first search, and
//! the exhaustive search that lists every solution.

use crate::listing::{first_shortest, paths, paths_upto, solutions_of, views};
use crate::listing::{
    lemma_first_hit_is_picked, lemma_listed_solution_replays, lemma_listing_finds_all,
    lemma_pick_after_branch,
};
use crate::model::{after, alike, derives, is_solution, solvable, solved_by};
use crate::model::{lemma_alike, lemma_holds_on_table, lemma_replaced_tiles, lemma_step_listed};
use crate::step::BinOp;
use crate::tiles::{legal_steps, legal_steps_of, replace_op_in};
use crate::tiles::lemma_legal_step_held;
use vstd::prelude::*;

verus! {

/// Finds a shortest solution: one with the fewest steps that combine `values`
/// to `target`. The result is empty where there is no solution.
///
/// Every step that the tiles allow is tried. One that produces the target is
/// returned at once; of the others the search keeps the first whose
/// continuation is shorter than all before it.
pub fn solve(values: &Vec<u32>, target: u32) -> (steps: Vec<BinOp>)
    ensures
        solved_by(values@.to_multiset(), target, steps@),
        first_shortest(solutions_of(values@, target), steps@),
        steps@.len() < values@.len() || steps@.len() == 0,
    decreases values@.len(),
{
    let ghost m = values@.to_multiset();
    let ghost none: Seq<BinOp> = Seq::empty();
    let moves: Vec<BinOp> = legal_steps(values);
    let mut best: Vec<BinOp> = Vec::new();
    let mut k: usize = 0;
    while k < moves.len()
        invariant
            m == values@.to_multiset(),
            moves@ == legal_steps_of(values@),
            k <= moves.len(),
            best@.len() > 0 ==> is_solution(m, target, best@),
            best@.len() < values@.len() || best@.len() == 0,
            none == Seq::<BinOp>::empty(),
            forall|j: int| 0 <= j < k ==> (#[trigger] moves@[j]).result() != Some(target),
            first_shortest(paths_upto(values@, target, none, k as int), best@),
            forall|other: Seq<BinOp>, x: int|
                0 <= x < k && is_solution(m, target, other) && #[trigger] alike(
                    moves@[x],
                    other[0],
                ) ==> 0 < best@.len() <= other.len(),
        decreases moves.len() - k,
    {
        let step: BinOp = moves[k];
        proof {
            lemma_legal_step_held(values@, k as int);
            lemma_holds_on_table(values@, step);
            lemma_replaced_tiles(values@, step);
        }
        let res: u32 = step.apply().unwrap();
        if res == target {
            let found: Vec<BinOp> = vec![step];
            proof {
                assert(found@.drop_first() =~= Seq::<BinOp>::empty());
                assert(derives(after(m, step), found@.drop_first()));
                assert(derives(m, found@));
                assert(is_solution(m, target, found@));
                assert(solvable(m, target));
                assert(found@ =~= seq![step]);
                lemma_first_hit_is_picked(values@, target, k as int);
            }
            return found;
        }
        let next: Vec<u32> = replace_op_in(values, &step, res);
        let rest: Vec<BinOp> = solve(&next, target);
        let ghost old_best = best@;
        proof {
            lemma_pick_after_branch(values@, target, k as int, old_best, rest@);
        }
        if rest.len() > 0 && (best.len() == 0 || rest.len() < best.len() - 1) {
            best = Vec::new();
            best.push(step);
            let mut r: usize = 0;
            while r < rest.len()
                invariant
                    r <= rest.len(),
                    best@ == seq![step] + rest@.take(r as int),
                decreases rest.len() - r,
            {
                best.push(rest[r]);
                assert(best@ =~= seq![step] + rest@.take(r + 1));
                r += 1;
            }
            proof {
                assert(rest@.take(rest@.len() as int) =~= rest@);
                assert(best@ =~= seq![step] + rest@);
                assert(best@.drop_first() =~= rest@);
                assert(!solvable(next@.to_multiset(), target) ==> rest@.len() == 0);
                assert(is_solution(after(m, step), target, rest@));
                assert(best@.last() == rest@.last());
                assert(is_solution(m, target, best@));
            }
        }
        proof {
            assert forall|other: Seq<BinOp>, x: int|
                0 <= x < k + 1 && is_solution(m, target, other) && #[trigger] alike(
                    moves@[x],
                    other[0],
                ) implies 0 < best@.len() <= other.len() by {
                if x < k {
                    assert(0 < old_best.len() <= other.len());
                } else {
                    lemma_alike(m, step, other[0]);
                    let tail = other.drop_first();
                    if other.len() == 1 {
                        assert(other.last() == other[0]);
                    } else {
                        assert(tail.last() == other.last());
                        assert(is_solution(after(m, step), target, tail));
                        assert(solvable(next@.to_multiset(), target));
                        assert(rest@.len() <= tail.len());
                    }
                }
            }
        }
        k += 1;
    }
    proof {
        assert forall|other: Seq<BinOp>| #[trigger]
            is_solution(m, target, other) implies 0 < best@.len() <= other.len() by {
            lemma_holds_on_table(values@, other[0]);
            let x = lemma_step_listed(values@, other[0]);
            assert(alike(moves@[x], other[0]));
        }
    }
    best
}

/// A copy of `steps` with `step` after them.
pub(crate) fn with_step(steps: &Vec<BinOp>, step: BinOp) -> (path: Vec<BinOp>)
    ensures
        path@ == steps@.push(step),
{
    let mut path: Vec<BinOp> = Vec::new();
    let mut k: usize = 0;
    while k < steps.len()
        invariant
            k <= steps.len(),
            path@ == steps@.take(k as int),
        decreases steps.len() - k,
    {
        path.push(steps[k]);
        assert(path@ =~= steps@.take(k + 1));
        k += 1;
    }
    assert(steps@.take(steps@.len() as int) =~= steps@);
    path.push(step);
    path
}

/// Adds to `solutions` every solution that continues `steps` from the table
/// `values`: the search tries each step that the tiles allow, records the
/// path where the step produces the target, and otherwise goes on from the
/// table that the step leaves.
pub fn collect_solutions(
    values: &Vec<u32>,
    target: u32,
    steps: &Vec<BinOp>,
    solutions: &mut Vec<Vec<BinOp>>,
)
    ensures
        views(final(solutions)@) == views(old(solutions)@) + paths(values@, target, steps@),
    decreases values@.len(),
{
    let ghost start = views(solutions@);
    let moves: Vec<BinOp> = legal_steps(values);
    let mut k: usize = 0;
    assert(views(solutions@) =~= start + paths_upto(values@, target, steps@, 0));
    while k < moves.len()
        invariant
            moves@ == legal_steps_of(values@),
            k <= moves.len(),
            views(solutions@) == start + paths_upto(values@, target, steps@, k as int),
        decreases moves.len() - k,
    {
        let step: BinOp = moves[k];
        proof {
            lemma_legal_step_held(values@, k as int);
            lemma_replaced_tiles(values@, step);
        }
        let res: u32 = step.apply().unwrap();
        let path: Vec<BinOp> = with_step(steps, step);
        let ghost so_far = views(solutions@);
        if res == target {
            solutions.push(path);
            assert(views(solutions@) =~= so_far + seq![steps@.push(step)]);
        } else {
            let next: Vec<u32> = replace_op_in(values, &step, res);
            collect_solutions(&next, target, &path, solutions);
        }
        assert(views(solutions@) =~= start + paths_upto(values@, target, steps@, k + 1));
        k += 1;
    }
}

/// Lists every solution of the puzzle that stops when it first produces the
/// target.
pub fn all_solutions(values: &Vec<u32>, target: u32) -> (solutions: Vec<Vec<BinOp>>)
    ensures
        views(solutions@) == solutions_of(values@, target),
        solutions@.len() == 0 <==> !solvable(values@.to_multiset(), target),
        forall|k: int|
            0 <= k < solutions@.len() ==> is_solution(
                values@.to_multiset(),
                target,
                #[trigger] solutions@[k]@,
            ),
{
    let mut solutions: Vec<Vec<BinOp>> = Vec::new();
    let steps: Vec<BinOp> = Vec::new();
    collect_solutions(values, target, &steps, &mut solutions);
    assert(views(solutions@) =~= solutions_of(values@, target));
    proof {
        lemma_listing_finds_all(values@, target);
    }
    assert forall|k: int| 0 <= k < solutions@.len() implies is_solution(
        values@.to_multiset(),
        target,
        #[trigger] solutions@[k]@,
    ) by {
        assert(solutions@[k]@ == views(solutions@)[k]);
        lemma_listed_solution_replays(values@, target, k);
    }
    solutions
}

} // verus!
