//! Solving a puzzle under a strategy.

use crate::model::solvable;
use crate::puzzle::Puzzle;
use crate::listing::solutions_of;
use crate::search::all_solutions;
use crate::step::BinOp;
use crate::strategy::{chosen, pick_best, NoSolution, Strategy};
use vstd::prelude::*;

verus! {

/// Lists the solutions of `puzzle` and picks the best of them under
/// `strategy`. The search fails exactly where the puzzle has no solution.
pub fn best_solution(puzzle: &Puzzle, strategy: Strategy) -> (best: Result<Vec<BinOp>, NoSolution>)
    ensures
        best is Err <==> !solvable(puzzle.spec_values().to_multiset(), puzzle.spec_target()),
        best matches Ok(steps) ==> chosen(
            strategy,
            solutions_of(puzzle.spec_values(), puzzle.spec_target()),
            steps@,
        ),
{
    let solutions: Vec<Vec<BinOp>> = all_solutions(puzzle.values(), puzzle.target());
    pick_best(&solutions, strategy)
}

} // verus!
