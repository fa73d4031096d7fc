//! The list of solutions that the exhaustive search makes, and what holds
//! of it.

use crate::model::{after, derives, is_direct, is_solution, solvable, solved_by};
use crate::model::{lemma_alike, lemma_holds_on_table, lemma_replaced_tiles, lemma_step_listed};
use crate::step::BinOp;
use crate::strategy::{better, chosen, picks, Strategy};
use crate::strategy::lemma_choice_is_settled;
use crate::tiles::{legal_steps_of, replaced};
use crate::tiles::lemma_legal_step_held;
use vstd::prelude::*;

verus! {

/// The solutions that the exhaustive search finds among the first `n` steps
/// that the table `s` allows, each with `prefix` before it, in the order in
/// which the search finds them.
///
/// A step that produces the target ends its branch. After any other step the
/// search goes on from the table that the step leaves, which is always
/// shorter by one tile.
pub open spec fn paths_upto(s: Seq<u32>, target: u32, prefix: Seq<BinOp>, n: int) -> Seq<
    Seq<BinOp>,
>
    decreases s.len(), n,
{
    if n <= 0 || n > legal_steps_of(s).len() {
        Seq::empty()
    } else {
        let step = legal_steps_of(s)[n - 1];
        let res = step.result().unwrap();
        let next = replaced(s, step, res);
        paths_upto(s, target, prefix, n - 1) + (if res == target {
            seq![prefix.push(step)]
        } else if next.len() < s.len() {
            paths_upto(next, target, prefix.push(step), legal_steps_of(next).len() as int)
        } else {
            Seq::empty()
        })
    }
}

/// The solutions that the exhaustive search finds from the table `s`, each
/// with `prefix` before it.
pub open spec fn paths(s: Seq<u32>, target: u32, prefix: Seq<BinOp>) -> Seq<Seq<BinOp>> {
    paths_upto(s, target, prefix, legal_steps_of(s).len() as int)
}

/// All the solutions of a puzzle that stop when they first produce the
/// target, in the order of the exhaustive search.
pub open spec fn solutions_of(s: Seq<u32>, target: u32) -> Seq<Seq<BinOp>> {
    paths(s, target, Seq::empty())
}

/// A list of step sequences, each as the sequence it holds.
pub open spec fn views(list: Seq<Vec<BinOp>>) -> Seq<Seq<BinOp>> {
    Seq::new(list.len(), |k: int| list[k]@)
}

/// Each of `listing` with `step` before it.
pub open spec fn after_step(step: BinOp, listing: Seq<Seq<BinOp>>) -> Seq<Seq<BinOp>> {
    Seq::new(listing.len(), |i: int| seq![step] + listing[i])
}

/// What the shortest-first search owes in terms of the exhaustive listing:
/// the first of the listed solutions that has the fewest steps, and no step
/// where nothing is listed.
pub open spec fn first_shortest(listing: Seq<Seq<BinOp>>, steps: Seq<BinOp>) -> bool {
    if listing.len() == 0 {
        steps.len() == 0
    } else {
        chosen(Strategy::Shortest, listing, steps)
    }
}

/// Every path that the exhaustive search finds is its prefix followed by a
/// solution of the table it started from, and that solution produces the
/// target with its last step only.
pub proof fn lemma_path_solves(s: Seq<u32>, target: u32, prefix: Seq<BinOp>, n: int, k: int) -> (tail:
    Seq<BinOp>)
    requires
        0 <= k < paths_upto(s, target, prefix, n).len(),
    ensures
        paths_upto(s, target, prefix, n)[k] == prefix + tail,
        is_solution(s.to_multiset(), target, tail),
        is_direct(target, tail),
    decreases s.len(), n,
{
    let m = s.to_multiset();
    let step = legal_steps_of(s)[n - 1];
    let res = step.result().unwrap();
    let next = replaced(s, step, res);
    let head = paths_upto(s, target, prefix, n - 1);
    if k < head.len() {
        lemma_path_solves(s, target, prefix, n - 1, k)
    } else {
        lemma_legal_step_held(s, n - 1);
        lemma_holds_on_table(s, step);
        lemma_replaced_tiles(s, step);
        if res == target {
            let tail = seq![step];
            assert(prefix.push(step) =~= prefix + tail);
            assert(tail.drop_first() =~= Seq::<BinOp>::empty());
            assert(derives(after(m, step), tail.drop_first()));
            tail
        } else {
            let deeper = lemma_path_solves(
                next,
                target,
                prefix.push(step),
                legal_steps_of(next).len() as int,
                k - head.len(),
            );
            let tail = seq![step] + deeper;
            assert(prefix.push(step) + deeper =~= prefix + tail);
            assert(tail.drop_first() =~= deeper);
            assert(tail.last() == deeper.last());
            assert forall|x: int| 0 <= x < tail.len() - 1 implies (#[trigger] tail[x]).result()
                != Some(target) by {
                if x > 0 {
                    assert(tail[x] == deeper[x - 1]);
                }
            }
            tail
        }
    }
}

/// Every solution that the exhaustive search lists can be played from the
/// tiles of the puzzle, step by step, and produces the target with its last
/// step and with no step before it.
pub proof fn lemma_listed_solution_replays(s: Seq<u32>, target: u32, k: int)
    requires
        0 <= k < solutions_of(s, target).len(),
    ensures
        is_solution(s.to_multiset(), target, solutions_of(s, target)[k]),
        is_direct(target, solutions_of(s, target)[k]),
{
    let tail = lemma_path_solves(
        s,
        target,
        Seq::empty(),
        legal_steps_of(s).len() as int,
        k,
    );
    assert(Seq::<BinOp>::empty() + tail =~= tail);
}

/// The exhaustive search finds no fewer solutions among more steps.
pub proof fn lemma_paths_grow(s: Seq<u32>, target: u32, prefix: Seq<BinOp>, k: int, n: int)
    requires
        0 <= k <= n <= legal_steps_of(s).len(),
    ensures
        paths_upto(s, target, prefix, k).len() <= paths_upto(s, target, prefix, n).len(),
    decreases n - k,
{
    if k < n {
        lemma_paths_grow(s, target, prefix, k, n - 1);
    }
}

/// Where the tiles on the table have a solution, the exhaustive search finds
/// one.
pub proof fn lemma_solution_is_found(
    s: Seq<u32>,
    target: u32,
    prefix: Seq<BinOp>,
    steps: Seq<BinOp>,
)
    requires
        is_solution(s.to_multiset(), target, steps),
    ensures
        paths(s, target, prefix).len() > 0,
    decreases steps.len(),
{
    let m = s.to_multiset();
    lemma_holds_on_table(s, steps[0]);
    let k = lemma_step_listed(s, steps[0]);
    let step = legal_steps_of(s)[k];
    lemma_alike(m, step, steps[0]);
    lemma_legal_step_held(s, k);
    lemma_replaced_tiles(s, step);
    let res = step.result().unwrap();
    let next = replaced(s, step, res);
    if res != target {
        let tail = steps.drop_first();
        if steps.len() == 1 {
            assert(steps.last() == steps[0]);
        } else {
            assert(tail.last() == steps.last());
        }
        lemma_solution_is_found(next, target, prefix.push(step), tail);
    }
    assert(paths_upto(s, target, prefix, k + 1).len() > 0);
    lemma_paths_grow(s, target, prefix, k + 1, legal_steps_of(s).len() as int);
}

/// The exhaustive search lists a solution exactly where the puzzle has one.
pub proof fn lemma_listing_finds_all(s: Seq<u32>, target: u32)
    ensures
        solvable(s.to_multiset(), target) <==> solutions_of(s, target).len() > 0,
{
    if solvable(s.to_multiset(), target) {
        let steps = choose|steps: Seq<BinOp>| is_solution(s.to_multiset(), target, steps);
        lemma_solution_is_found(s, target, Seq::empty(), steps);
    }
    if solutions_of(s, target).len() > 0 {
        lemma_listed_solution_replays(s, target, 0);
    }
}

/// What the shortest-first search returns, where it returns any step, is no
/// longer than any solution that the exhaustive search lists for the same
/// puzzle.
pub proof fn lemma_shortest_bounds_listed(s: Seq<u32>, target: u32, found: Seq<BinOp>, k: int)
    requires
        solved_by(s.to_multiset(), target, found),
        0 <= k < solutions_of(s, target).len(),
    ensures
        found.len() <= solutions_of(s, target)[k].len(),
{
    lemma_listed_solution_replays(s, target, k);
}

/// Searching twice gives the same: there is only one first shortest solution
/// of a listing.
pub proof fn lemma_first_shortest_is_settled(
    listing: Seq<Seq<BinOp>>,
    first: Seq<BinOp>,
    second: Seq<BinOp>,
)
    requires
        first_shortest(listing, first),
        first_shortest(listing, second),
    ensures
        first == second,
{
    if listing.len() == 0 {
        assert(first =~= second);
    } else {
        lemma_choice_is_settled(Strategy::Shortest, listing, first, second);
    }
}

/// The listing that continues a prefix is the listing that continues
/// nothing, with the prefix before each solution.
pub proof fn lemma_paths_shift(s: Seq<u32>, target: u32, prefix: Seq<BinOp>, n: int)
    ensures
        paths_upto(s, target, prefix, n).len() == paths_upto(s, target, Seq::empty(), n).len(),
        forall|i: int|
            0 <= i < paths_upto(s, target, prefix, n).len() ==> #[trigger] paths_upto(
                s,
                target,
                prefix,
                n,
            )[i] == prefix + paths_upto(s, target, Seq::empty(), n)[i],
    decreases s.len(), n,
{
    let none: Seq<BinOp> = Seq::empty();
    if 0 < n <= legal_steps_of(s).len() {
        let step = legal_steps_of(s)[n - 1];
        let res = step.result().unwrap();
        let next = replaced(s, step, res);
        let all = legal_steps_of(next).len() as int;
        lemma_paths_shift(s, target, prefix, n - 1);
        let head = paths_upto(s, target, prefix, n - 1);
        let bare_head = paths_upto(s, target, none, n - 1);
        if res == target {
            assert(prefix.push(step) =~= prefix + none.push(step));
            assert forall|i: int|
                0 <= i < paths_upto(s, target, prefix, n).len() implies #[trigger] paths_upto(
                s,
                target,
                prefix,
                n,
            )[i] == prefix + paths_upto(s, target, none, n)[i] by {
                if i < head.len() {
                    assert(head[i] == prefix + bare_head[i]);
                }
            }
        } else if next.len() < s.len() {
            lemma_paths_shift(next, target, prefix.push(step), all);
            lemma_paths_shift(next, target, none.push(step), all);
            let deep = paths_upto(next, target, prefix.push(step), all);
            let bare_deep = paths_upto(next, target, none.push(step), all);
            let bottom = paths_upto(next, target, none, all);
            assert forall|i: int|
                0 <= i < paths_upto(s, target, prefix, n).len() implies #[trigger] paths_upto(
                s,
                target,
                prefix,
                n,
            )[i] == prefix + paths_upto(s, target, none, n)[i] by {
                if i < head.len() {
                    assert(head[i] == prefix + bare_head[i]);
                } else {
                    let x = i - head.len();
                    assert(deep[x] == prefix.push(step) + bottom[x]);
                    assert(bare_deep[x] == none.push(step) + bottom[x]);
                    assert(prefix.push(step) + bottom[x] =~= prefix + (none.push(step)
                        + bottom[x]));
                }
            }
        } else {
            assert forall|i: int|
                0 <= i < paths_upto(s, target, prefix, n).len() implies #[trigger] paths_upto(
                s,
                target,
                prefix,
                n,
            )[i] == prefix + paths_upto(s, target, none, n)[i] by {
                assert(head[i] == prefix + bare_head[i]);
            }
        }
    }
}

/// What one more step adds to the listing: the step alone where it produces
/// the target, and otherwise the step before each solution that is listed
/// for the table that it leaves.
pub proof fn lemma_paths_next(s: Seq<u32>, target: u32, n: int)
    requires
        0 < n <= legal_steps_of(s).len(),
    ensures
        legal_steps_of(s)[n - 1].result() is Some,
        paths_upto(s, target, Seq::empty(), n) == paths_upto(s, target, Seq::empty(), n - 1) + (
        if legal_steps_of(s)[n - 1].result() == Some(target) {
            seq![seq![legal_steps_of(s)[n - 1]]]
        } else {
            after_step(
                legal_steps_of(s)[n - 1],
                solutions_of(
                    replaced(
                        s,
                        legal_steps_of(s)[n - 1],
                        legal_steps_of(s)[n - 1].result().unwrap(),
                    ),
                    target,
                ),
            )
        }),
{
    let none: Seq<BinOp> = Seq::empty();
    let step = legal_steps_of(s)[n - 1];
    lemma_legal_step_held(s, n - 1);
    lemma_replaced_tiles(s, step);
    let res = step.result().unwrap();
    let next = replaced(s, step, res);
    let all = legal_steps_of(next).len() as int;
    if res == target {
        assert(seq![none.push(step)] =~= seq![seq![step]]);
    } else {
        lemma_paths_shift(next, target, none.push(step), all);
        let deep = paths_upto(next, target, none.push(step), all);
        assert(none.push(step) =~= seq![step]);
        assert(deep =~= after_step(step, solutions_of(next, target)));
    }
}

/// Every listed solution has a step.
pub proof fn lemma_listed_has_steps(s: Seq<u32>, target: u32, n: int, i: int)
    requires
        0 <= i < paths_upto(s, target, Seq::empty(), n).len(),
    ensures
        paths_upto(s, target, Seq::empty(), n)[i].len() >= 1,
{
    let tail = lemma_path_solves(s, target, Seq::empty(), n, i);
    assert(Seq::<BinOp>::empty() + tail =~= tail);
}

/// Where none of the first `n` steps produces the target, every solution
/// that is listed for them has two steps or more.
pub proof fn lemma_listed_after_misses(s: Seq<u32>, target: u32, n: int, i: int)
    requires
        0 <= n <= legal_steps_of(s).len(),
        forall|j: int| 0 <= j < n ==> (#[trigger] legal_steps_of(s)[j]).result() != Some(target),
        0 <= i < paths_upto(s, target, Seq::empty(), n).len(),
    ensures
        paths_upto(s, target, Seq::empty(), n)[i].len() >= 2,
    decreases n,
{
    let head = paths_upto(s, target, Seq::empty(), n - 1);
    lemma_paths_next(s, target, n);
    if i < head.len() {
        lemma_listed_after_misses(s, target, n - 1, i);
    } else {
        let step = legal_steps_of(s)[n - 1];
        let next = replaced(s, step, step.result().unwrap());
        lemma_listed_has_steps(
            next,
            target,
            legal_steps_of(next).len() as int,
            i - head.len(),
        );
    }
}

/// What is listed for some steps stays where it is when more steps are
/// looked at.
pub proof fn lemma_paths_keep(s: Seq<u32>, target: u32, k: int, n: int, i: int)
    requires
        0 <= k <= n <= legal_steps_of(s).len(),
        0 <= i < paths_upto(s, target, Seq::empty(), k).len(),
    ensures
        i < paths_upto(s, target, Seq::empty(), n).len(),
        paths_upto(s, target, Seq::empty(), n)[i] == paths_upto(s, target, Seq::empty(), k)[i],
    decreases n - k,
{
    if k < n {
        lemma_paths_keep(s, target, k, n - 1, i);
    }
}

/// A step that produces the target, after steps that do not, is alone the
/// first shortest solution of the whole listing.
pub proof fn lemma_first_hit_is_picked(s: Seq<u32>, target: u32, k: int)
    requires
        0 <= k < legal_steps_of(s).len(),
        forall|j: int| 0 <= j < k ==> (#[trigger] legal_steps_of(s)[j]).result() != Some(target),
        legal_steps_of(s)[k].result() == Some(target),
    ensures
        first_shortest(solutions_of(s, target), seq![legal_steps_of(s)[k]]),
{
    let none: Seq<BinOp> = Seq::empty();
    let all = legal_steps_of(s).len() as int;
    let full = solutions_of(s, target);
    let step = legal_steps_of(s)[k];
    let head = paths_upto(s, target, none, k);
    let at = head.len() as int;
    lemma_paths_next(s, target, k + 1);
    assert(paths_upto(s, target, none, k + 1)[at] == seq![step]);
    lemma_paths_keep(s, target, k + 1, all, at);
    assert forall|i: int| 0 <= i < full.len() implies !better(
        Strategy::Shortest,
        #[trigger] full[i],
        full[at],
    ) by {
        lemma_listed_has_steps(s, target, all, i);
    }
    assert forall|i: int| 0 <= i < at implies better(
        Strategy::Shortest,
        full[at],
        #[trigger] full[i],
    ) by {
        lemma_paths_keep(s, target, k, all, i);
        lemma_listed_after_misses(s, target, k, i);
    }
    assert(picks(Strategy::Shortest, full, at));
}

/// How the first shortest solution moves on when one more step is looked
/// at, where that step does not produce the target: the step and the first
/// shortest solution of the table that it leaves take the place of the best
/// so far where they are shorter.
pub proof fn lemma_pick_after_branch(
    s: Seq<u32>,
    target: u32,
    k: int,
    best: Seq<BinOp>,
    rest: Seq<BinOp>,
)
    requires
        0 <= k < legal_steps_of(s).len(),
        legal_steps_of(s)[k].result() is Some,
        legal_steps_of(s)[k].result() != Some(target),
        first_shortest(paths_upto(s, target, Seq::empty(), k), best),
        first_shortest(
            solutions_of(
                replaced(s, legal_steps_of(s)[k], legal_steps_of(s)[k].result().unwrap()),
                target,
            ),
            rest,
        ),
    ensures
        first_shortest(
            paths_upto(s, target, Seq::empty(), k + 1),
            if rest.len() > 0 && (best.len() == 0 || rest.len() + 1 < best.len()) {
                seq![legal_steps_of(s)[k]] + rest
            } else {
                best
            },
        ),
{
    let none: Seq<BinOp> = Seq::empty();
    let step = legal_steps_of(s)[k];
    let next = replaced(s, step, step.result().unwrap());
    let head = paths_upto(s, target, none, k);
    let sub = solutions_of(next, target);
    let tail = after_step(step, sub);
    let wider = paths_upto(s, target, none, k + 1);
    lemma_paths_next(s, target, k + 1);
    assert(wider == head + tail);
    assert forall|i: int| 0 <= i < head.len() implies (#[trigger] head[i]).len() >= 1 by {
        lemma_listed_has_steps(s, target, k, i);
    }
    assert forall|i: int| 0 <= i < sub.len() implies (#[trigger] sub[i]).len() >= 1 by {
        lemma_listed_has_steps(next, target, legal_steps_of(next).len() as int, i);
    }
    if sub.len() == 0 {
        assert(wider =~= head);
    } else {
        let b = choose|at: int| picks(Strategy::Shortest, sub, at) && sub[at] == rest;
        assert(rest.len() >= 1);
        let joined = seq![step] + rest;
        assert(tail[b] == joined);
        if head.len() == 0 {
            assert(wider =~= tail);
            assert forall|i: int| 0 <= i < wider.len() implies !better(
                Strategy::Shortest,
                #[trigger] wider[i],
                wider[b],
            ) by {
                assert(!better(Strategy::Shortest, sub[i], sub[b]));
            }
            assert forall|i: int| 0 <= i < b implies better(
                Strategy::Shortest,
                wider[b],
                #[trigger] wider[i],
            ) by {
                assert(better(Strategy::Shortest, sub[b], sub[i]));
            }
            assert(picks(Strategy::Shortest, wider, b));
        } else {
            let a = choose|at: int| picks(Strategy::Shortest, head, at) && head[at] == best;
            assert(best.len() >= 1);
            if rest.len() + 1 < best.len() {
                let at = head.len() + b;
                assert(wider[at] == joined);
                assert forall|i: int| 0 <= i < wider.len() implies !better(
                    Strategy::Shortest,
                    #[trigger] wider[i],
                    wider[at],
                ) by {
                    if i < head.len() {
                        assert(!better(Strategy::Shortest, head[i], head[a]));
                    } else {
                        assert(!better(Strategy::Shortest, sub[i - head.len()], sub[b]));
                    }
                }
                assert forall|i: int| 0 <= i < at implies better(
                    Strategy::Shortest,
                    wider[at],
                    #[trigger] wider[i],
                ) by {
                    if i < head.len() {
                        assert(!better(Strategy::Shortest, head[i], head[a]));
                    } else {
                        assert(better(Strategy::Shortest, sub[b], sub[i - head.len()]));
                    }
                }
                assert(picks(Strategy::Shortest, wider, at));
            } else {
                assert(wider[a] == best);
                assert forall|i: int| 0 <= i < wider.len() implies !better(
                    Strategy::Shortest,
                    #[trigger] wider[i],
                    wider[a],
                ) by {
                    if i < head.len() {
                        assert(!better(Strategy::Shortest, head[i], head[a]));
                    } else {
                        assert(!better(Strategy::Shortest, sub[i - head.len()], sub[b]));
                    }
                }
                assert forall|i: int| 0 <= i < a implies better(
                    Strategy::Shortest,
                    wider[a],
                    #[trigger] wider[i],
                ) by {
                    assert(better(Strategy::Shortest, head[a], head[i]));
                }
                assert(picks(Strategy::Shortest, wider, a));
            }
        }
    }
}

} // verus!
