//! What the two exhaustive searches find, said without their order.
//!
//! A walk from a table is a sequence of steps, each one of the steps that
//! are listed for the table that the steps before it left. The search that
//! goes depth first lists the walks that produce the target with their last
//! step and with no step before it. The search that goes breadth first hands
//! out the walks that produce the target with their last step, also those
//! that produced it before. So the two find the same solutions but for those
//! that go on after the target was reached.

use crate::lazy::{expand, harvest, hits, load, start};
use crate::lazy::lemma_load_drops;
use crate::model::is_direct;
use crate::model::lemma_replaced_tiles;
use crate::tiles::lemma_legal_step_held;
use crate::listing::{after_step, paths_upto, solutions_of};
use crate::listing::lemma_paths_next;
use crate::step::BinOp;
use crate::tiles::{legal_steps_of, replaced};
use vstd::prelude::*;

verus! {

/// Whether `steps` is a walk from the table `s`: each step is listed for the
/// table that the steps before it left.
pub open spec fn walks(s: Seq<u32>, steps: Seq<BinOp>) -> bool
    decreases steps.len(),
{
    steps.len() == 0 || (legal_steps_of(s).contains(steps[0]) && walks(
        replaced(s, steps[0], steps[0].result().unwrap()),
        steps.drop_first(),
    ))
}

/// Whether the first of `steps` is among the first `n` steps that are listed
/// for the table `s`.
pub open spec fn opens_within(s: Seq<u32>, steps: Seq<BinOp>, n: int) -> bool {
    exists|j: int| 0 <= j < n && j < legal_steps_of(s).len() && legal_steps_of(s)[j] == steps[0]
}

/// The depth-first search lists, for the first `n` steps of a table, the
/// walks that begin with one of them and produce the target with their last
/// step only.
pub proof fn lemma_listed_iff_walk(s: Seq<u32>, target: u32, n: int, steps: Seq<BinOp>)
    requires
        0 <= n <= legal_steps_of(s).len(),
    ensures
        paths_upto(s, target, Seq::empty(), n).contains(steps) <==> {
            &&& opens_within(s, steps, n)
            &&& walks(s, steps)
            &&& hits(steps, target)
            &&& is_direct(target, steps)
        },
    decreases s.len(), n,
{
    let none: Seq<BinOp> = Seq::empty();
    let listing = paths_upto(s, target, none, n);
    if n > 0 {
        let head = paths_upto(s, target, none, n - 1);
        let step = legal_steps_of(s)[n - 1];
        lemma_legal_step_held(s, n - 1);
        lemma_replaced_tiles(s, step);
        let res = step.result().unwrap();
        let next = replaced(s, step, res);
        let all = legal_steps_of(next).len() as int;
        let sub = solutions_of(next, target);
        lemma_paths_next(s, target, n);
        lemma_listed_iff_walk(s, target, n - 1, steps);
        if listing.contains(steps) {
            let i = choose|i: int| 0 <= i < listing.len() && listing[i] == steps;
            if i < head.len() {
                assert(head[i] == steps);
                assert(head.contains(steps));
            } else if res == target {
                assert(steps == seq![step]);
                assert(steps.drop_first() =~= none);
                assert(walks(next, steps.drop_first()));
            } else {
                let x = i - head.len();
                let tail = sub[x];
                assert(sub.contains(tail));
                lemma_listed_iff_walk(next, target, all, tail);
                assert(steps == seq![step] + tail);
                assert(steps.drop_first() =~= tail);
                assert(steps.last() == tail.last());
                assert forall|k: int| 0 <= k < steps.len() - 1 implies (#[trigger] steps[
                    k
                ]).result() != Some(target) by {
                    if k > 0 {
                        assert(steps[k] == tail[k - 1]);
                    }
                }
            }
            assert(opens_within(s, steps, n));
        }
        if opens_within(s, steps, n) && walks(s, steps) && hits(steps, target) && is_direct(
            target,
            steps,
        ) {
            if opens_within(s, steps, n - 1) {
                let i = choose|i: int| 0 <= i < head.len() && head[i] == steps;
                assert(listing[i] == steps);
            } else {
                assert(steps[0] == step);
                if res == target {
                    if steps.len() >= 2 {
                        assert(steps[0].result() != Some(target));
                    }
                    assert(steps =~= seq![step]);
                    assert(listing[head.len() as int] == steps);
                } else {
                    let tail = steps.drop_first();
                    if steps.len() == 1 {
                        assert(steps.last() == steps[0]);
                    }
                    assert(steps.len() >= 2);
                    assert(walks(next, tail));
                    assert(tail.last() == steps.last());
                    assert forall|k: int| 0 <= k < tail.len() - 1 implies (#[trigger] tail[
                        k
                    ]).result() != Some(target) by {
                        assert(tail[k] == steps[k + 1]);
                    }
                    assert(legal_steps_of(next).contains(tail[0]));
                    let j = choose|j: int|
                        0 <= j < legal_steps_of(next).len() && legal_steps_of(next)[j] == tail[0];
                    assert(opens_within(next, tail, all));
                    lemma_listed_iff_walk(next, target, all, tail);
                    let x = choose|x: int| 0 <= x < sub.len() && sub[x] == tail;
                    assert(after_step(step, sub)[x] =~= steps);
                    assert(listing[head.len() + x] == steps);
                }
            }
        }
    } else {
        assert(!listing.contains(steps));
    }
}

/// The depth-first search lists exactly the walks from the tiles of the
/// puzzle that produce the target with their last step and with no step
/// before it.
pub proof fn lemma_listed_are_direct_walks(s: Seq<u32>, target: u32, steps: Seq<BinOp>)
    ensures
        solutions_of(s, target).contains(steps) <==> {
            &&& walks(s, steps)
            &&& hits(steps, target)
            &&& is_direct(target, steps)
        },
{
    let all = legal_steps_of(s).len() as int;
    lemma_listed_iff_walk(s, target, all, steps);
    if walks(s, steps) && hits(steps, target) {
        let j = choose|j: int| 0 <= j < legal_steps_of(s).len() && legal_steps_of(s)[j] == steps[0];
        assert(opens_within(s, steps, all));
    }
}

/// Whether `steps` goes through the queue entry `entry`: it begins with the
/// history of the entry and goes on with a walk from its table.
pub open spec fn extends(entry: (Seq<BinOp>, Seq<u32>), steps: Seq<BinOp>) -> bool {
    &&& entry.0.len() <= steps.len()
    &&& steps.take(entry.0.len() as int) == entry.0
    &&& walks(entry.1, steps.skip(entry.0.len() as int))
}

/// The breadth-first search hands out the walks that go through an entry of
/// its queue and produce the target with their last step.
pub proof fn lemma_harvest_iff(queue: Seq<(Seq<BinOp>, Seq<u32>)>, target: u32, steps: Seq<BinOp>)
    ensures
        harvest(queue, target).contains(steps) <==> (hits(steps, target) && exists|i: int|
            0 <= i < queue.len() && extends(#[trigger] queue[i], steps)),
    decreases load(queue),
{
    let all = harvest(queue, target);
    if queue.len() > 0 {
        let first = queue[0];
        let grown = expand(first.0, first.1);
        let rest = queue.drop_first() + grown;
        let later = harvest(rest, target);
        let here: Seq<Seq<BinOp>> = if hits(first.0, target) {
            seq![first.0]
        } else {
            Seq::empty()
        };
        assert(all == here + later);
        lemma_load_drops(queue);
        lemma_harvest_iff(rest, target, steps);
        let at = first.0.len() as int;
        if all.contains(steps) {
            let x = choose|x: int| 0 <= x < all.len() && all[x] == steps;
            if x < here.len() {
                assert(steps == first.0);
                assert(steps.take(at) =~= first.0);
                assert(steps.skip(at).len() == 0);
                assert(extends(queue[0], steps));
            } else {
                assert(later[x - here.len()] == steps);
                assert(later.contains(steps));
                let i = choose|i: int| 0 <= i < rest.len() && extends(#[trigger] rest[i], steps);
                if i < queue.len() - 1 {
                    assert(rest[i] == queue[i + 1]);
                    assert(extends(queue[i + 1], steps));
                } else {
                    let y = i - (queue.len() - 1);
                    let step = legal_steps_of(first.1)[y];
                    assert(rest[i] == grown[y]);
                    assert(grown[y].0 == first.0.push(step));
                    assert(steps.take(at + 1) == first.0.push(step));
                    assert(steps.take(at) =~= steps.take(at + 1).take(at));
                    assert(first.0.push(step).take(at) =~= first.0);
                    let ext = steps.skip(at);
                    assert(ext[0] == steps.take(at + 1)[at]);
                    assert(ext[0] == step);
                    assert(ext.drop_first() =~= steps.skip(at + 1));
                    assert(extends(queue[0], steps));
                }
            }
        }
        if hits(steps, target) && exists|i: int|
            0 <= i < queue.len() && extends(#[trigger] queue[i], steps) {
            let i = choose|i: int| 0 <= i < queue.len() && extends(#[trigger] queue[i], steps);
            if i >= 1 {
                assert(rest[i - 1] == queue[i]);
                assert(extends(rest[i - 1], steps));
                let x = choose|x: int| 0 <= x < later.len() && later[x] == steps;
                assert(all[here.len() + x] == steps);
            } else {
                let ext = steps.skip(at);
                if ext.len() == 0 {
                    assert(steps =~= steps.take(at));
                    assert(all[0] == steps);
                } else {
                    let step = ext[0];
                    let y = choose|y: int|
                        0 <= y < legal_steps_of(first.1).len() && legal_steps_of(first.1)[y]
                            == step;
                    assert(grown[y].0 == first.0.push(step));
                    assert(steps.take(at + 1) =~= first.0.push(step));
                    assert(ext.drop_first() =~= steps.skip(at + 1));
                    let j = queue.len() - 1 + y;
                    assert(rest[j] == grown[y]);
                    assert(extends(rest[j], steps));
                    let x = choose|x: int| 0 <= x < later.len() && later[x] == steps;
                    assert(all[here.len() + x] == steps);
                }
            }
        }
    } else {
        assert(!all.contains(steps));
    }
}

/// The breadth-first search hands out exactly the walks from the tiles of
/// the puzzle that produce the target with their last step.
pub proof fn lemma_harvest_are_walks(s: Seq<u32>, target: u32, steps: Seq<BinOp>)
    ensures
        harvest(start(s), target).contains(steps) <==> walks(s, steps) && hits(steps, target),
{
    let queue = start(s);
    lemma_harvest_iff(queue, target, steps);
    assert(steps.skip(0) =~= steps);
    assert(steps.take(0) =~= Seq::<BinOp>::empty());
    if walks(s, steps) {
        assert(extends(queue[0], steps));
    }
}

/// The two searches find the same: what the depth-first search lists is
/// what the breadth-first search hands out, without the solutions that
/// produced the target before their last step.
pub proof fn lemma_searches_agree(s: Seq<u32>, target: u32, steps: Seq<BinOp>)
    ensures
        solutions_of(s, target).contains(steps) <==> harvest(start(s), target).contains(steps)
            && is_direct(target, steps),
{
    lemma_listed_are_direct_walks(s, target, steps);
    lemma_harvest_are_walks(s, target, steps);
}

} // verus!
