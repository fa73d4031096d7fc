//! The search for solutions one at a time, breadth first.
//!
//! The search keeps a queue of tables that are still to be looked at, each
//! with the steps that led to it. To look at a table is to put every table
//! that one more step leads to at the end of the queue; the steps that led to
//! the table are then a solution if the last of them produced the target.

use crate::model::{after, derives, is_solution, outcome, usable};
use crate::model::{lemma_holds_on_table, lemma_replaced_tiles};
use crate::puzzle::Puzzle;
use crate::search::with_step;
use crate::step::BinOp;
use crate::tiles::{legal_steps, legal_steps_of, pairs_of, playable, replace_op_in, replaced, slots};
use crate::tiles::{lemma_legal_step_held, lemma_pair_count};
use std::collections::VecDeque;
use vstd::multiset::Multiset;
use vstd::prelude::*;

verus! {

/// The tables that one step leads to from the table `s`, each with the
/// history `history` and that step.
pub open spec fn expand(history: Seq<BinOp>, s: Seq<u32>) -> Seq<(Seq<BinOp>, Seq<u32>)> {
    Seq::new(
        legal_steps_of(s).len(),
        |k: int|
            (
                history.push(legal_steps_of(s)[k]),
                replaced(s, legal_steps_of(s)[k], legal_steps_of(s)[k].result().unwrap()),
            ),
    )
}

/// Whether the last step of `history` produces `target`.
pub open spec fn hits(history: Seq<BinOp>, target: u32) -> bool {
    history.len() > 0 && history.last().result() == Some(target)
}

/// A bound on the number of tables that the search looks at when it starts
/// from one table of `n` tiles.
pub open spec fn weight(n: nat) -> nat
    decreases n,
{
    if n == 0 {
        1
    } else {
        1 + 3 * n * (n - 1) as nat * weight((n - 1) as nat)
    }
}

/// A bound on the number of tables that the search still looks at when its
/// queue is `queue`.
pub open spec fn load(queue: Seq<(Seq<BinOp>, Seq<u32>)>) -> nat
    decreases queue.len(),
{
    if queue.len() == 0 {
        0
    } else {
        load(queue.drop_last()) + weight(queue.last().1.len())
    }
}

pub proof fn lemma_load_joins(a: Seq<(Seq<BinOp>, Seq<u32>)>, b: Seq<(Seq<BinOp>, Seq<u32>)>)
    ensures
        load(a + b) == load(a) + load(b),
    decreases b.len(),
{
    if b.len() == 0 {
        assert(a + b =~= a);
    } else {
        assert((a + b).drop_last() =~= a + b.drop_last());
        lemma_load_joins(a, b.drop_last());
    }
}

/// Where every table of a queue has `n` tiles, its load is its length times
/// the weight of `n`.
pub proof fn lemma_load_even(queue: Seq<(Seq<BinOp>, Seq<u32>)>, n: nat)
    requires
        forall|k: int| 0 <= k < queue.len() ==> (#[trigger] queue[k]).1.len() == n,
    ensures
        load(queue) == queue.len() * weight(n),
    decreases queue.len(),
{
    if queue.len() > 0 {
        lemma_load_even(queue.drop_last(), n);
        assert(queue.last() == queue[queue.len() - 1]);
        assert((queue.len() - 1) * weight(n) + weight(n) == queue.len() * weight(n))
            by (nonlinear_arith);
    }
}

/// To look at the first table of a queue lowers the load.
pub proof fn lemma_load_drops(queue: Seq<(Seq<BinOp>, Seq<u32>)>)
    requires
        queue.len() > 0,
    ensures
        load(queue.drop_first() + expand(queue[0].0, queue[0].1)) < load(queue),
{
    let history = queue[0].0;
    let s = queue[0].1;
    let more = expand(history, s);
    let n = s.len();
    lemma_load_joins(queue.drop_first(), more);
    lemma_load_joins(seq![queue[0]], queue.drop_first());
    assert(seq![queue[0]] + queue.drop_first() =~= queue);
    assert(seq![queue[0]].drop_last() =~= Seq::empty());
    assert(load(seq![queue[0]].drop_last()) == 0);
    assert(seq![queue[0]].last() == queue[0]);
    assert(load(seq![queue[0]]) == weight(n));
    if n == 0 {
        lemma_pair_count(s, 0);
        slots(s).lemma_filter_len(playable());
        assert(more.len() == 0);
    } else {
        let lighter = (n - 1) as nat;
        assert forall|k: int| 0 <= k < more.len() implies (#[trigger] more[k]).1.len()
            == lighter by {
            lemma_legal_step_held(s, k);
            lemma_replaced_tiles(s, legal_steps_of(s)[k]);
        }
        lemma_load_even(more, lighter);
        lemma_pair_count(s, 0);
        slots(s).lemma_filter_len(playable());
        assert(more.len() <= 3 * n * (n - 1)) by (nonlinear_arith)
            requires
                more.len() <= 6 * pairs_of(s).len(),
                2 * pairs_of(s).len() == n * (n - 1),
        ;
        assert(more.len() * weight(lighter) <= 3 * n * (n - 1) * weight(lighter))
            by (nonlinear_arith)
            requires
                more.len() <= 3 * n * (n - 1),
        ;
        assert(3 * n * (n - 1) as nat * weight(lighter) == 3 * n * (n - 1) * weight(lighter))
            by (nonlinear_arith)
            requires
                n >= 1,
        ;
    }
}

/// One call for the next solution: the tables of the queue are looked at in
/// turn until the history of one of them ends in the target. The result is
/// that history, or nothing where the queue ran empty, together with the
/// queue as the call leaves it.
pub open spec fn advance(queue: Seq<(Seq<BinOp>, Seq<u32>)>, target: u32) -> (
    Option<Seq<BinOp>>,
    Seq<(Seq<BinOp>, Seq<u32>)>,
)
    decreases load(queue),
    via advance_ends
{
    if queue.len() == 0 {
        (None, queue)
    } else {
        let rest = queue.drop_first() + expand(queue[0].0, queue[0].1);
        if hits(queue[0].0, target) {
            (Some(queue[0].0), rest)
        } else {
            advance(rest, target)
        }
    }
}

#[via_fn]
proof fn advance_ends(queue: Seq<(Seq<BinOp>, Seq<u32>)>, target: u32) {
    if queue.len() > 0 {
        lemma_load_drops(queue);
    }
}

/// All the solutions that the breadth-first search still hands out when its
/// queue is `queue`, in the order in which they come.
pub open spec fn harvest(queue: Seq<(Seq<BinOp>, Seq<u32>)>, target: u32) -> Seq<Seq<BinOp>>
    decreases load(queue),
    via harvest_ends
{
    if queue.len() == 0 {
        Seq::empty()
    } else {
        let rest = queue.drop_first() + expand(queue[0].0, queue[0].1);
        if hits(queue[0].0, target) {
            seq![queue[0].0] + harvest(rest, target)
        } else {
            harvest(rest, target)
        }
    }
}

#[via_fn]
proof fn harvest_ends(queue: Seq<(Seq<BinOp>, Seq<u32>)>, target: u32) {
    if queue.len() > 0 {
        lemma_load_drops(queue);
    }
}

/// One call for the next solution hands out the first of the harvest and
/// leaves the others; it hands out nothing where the harvest is empty.
pub proof fn lemma_advance_harvest(queue: Seq<(Seq<BinOp>, Seq<u32>)>, target: u32)
    ensures
        harvest(queue, target) == match advance(queue, target).0 {
            Some(steps) => seq![steps] + harvest(advance(queue, target).1, target),
            None => Seq::empty(),
        },
    decreases load(queue),
{
    if queue.len() > 0 {
        let rest = queue.drop_first() + expand(queue[0].0, queue[0].1);
        if !hits(queue[0].0, target) {
            lemma_load_drops(queue);
            lemma_advance_harvest(rest, target);
        }
    }
}

/// The queue that the breadth-first search starts with: the tiles of the
/// puzzle, and no step played.
pub open spec fn start(s: Seq<u32>) -> Seq<(Seq<BinOp>, Seq<u32>)> {
    seq![(Seq::empty(), s)]
}

/// The steps of a history that is played once more.
pub proof fn lemma_derives_one_more(m: Multiset<u32>, history: Seq<BinOp>, step: BinOp)
    requires
        derives(m, history),
        usable(outcome(m, history), step),
    ensures
        derives(m, history.push(step)),
        outcome(m, history.push(step)) == after(outcome(m, history), step),
    decreases history.len(),
{
    let longer = history.push(step);
    if history.len() == 0 {
        assert(longer.drop_first() =~= Seq::<BinOp>::empty());
        assert(derives(after(m, step), longer.drop_first()));
        assert(outcome(after(m, step), longer.drop_first()) == after(m, step));
    } else {
        assert(longer.drop_first() =~= history.drop_first().push(step));
        lemma_derives_one_more(after(m, history[0]), history.drop_first(), step);
    }
}

/// The queue of a search as plain values: each entry is a history and the
/// table that it leads to.
pub open spec fn entries(queue: Seq<(Vec<BinOp>, Vec<u32>)>) -> Seq<(Seq<BinOp>, Seq<u32>)> {
    Seq::new(queue.len(), |k: int| (queue[k].0@, queue[k].1@))
}

/// A search that hands out the solutions of one puzzle one by one.
pub struct Solutions {
    target: u32,
    queue: VecDeque<(Vec<BinOp>, Vec<u32>)>,
    tiles: Ghost<Seq<u32>>,
}

impl Solutions {
    /// Whether the search is in order: every history in the queue can be
    /// played from the tiles of the puzzle and leads to the table that stands
    /// beside it.
    pub closed spec fn wf(&self) -> bool {
        forall|k: int|
            0 <= k < self.queue@.len() ==> {
                &&& derives(self.tiles@.to_multiset(), (#[trigger] self.queue@[k]).0@)
                &&& outcome(self.tiles@.to_multiset(), self.queue@[k].0@)
                    == self.queue@[k].1@.to_multiset()
            }
    }

    /// The target of the puzzle that is searched.
    pub closed spec fn spec_target(&self) -> u32 {
        self.target
    }

    /// The tiles of the puzzle that is searched.
    pub closed spec fn tiles(&self) -> Seq<u32> {
        self.tiles@
    }

    /// The tables that the search has still to look at, in order, each with
    /// the steps that led to it.
    pub closed spec fn pending(&self) -> Seq<(Seq<BinOp>, Seq<u32>)> {
        entries(self.queue@)
    }

    /// Starts a search on the puzzle `p`: the queue holds its six tiles, with
    /// no step played.
    pub fn from_puzzle(p: &Puzzle) -> (search: Solutions)
        ensures
            search.wf(),
            search.spec_target() == p.spec_target(),
            search.tiles() == p.spec_values(),
            search.pending() == start(p.spec_values()),
    {
        let values: &Vec<u32> = p.values();
        let mut table: Vec<u32> = Vec::new();
        let mut k: usize = 0;
        while k < values.len()
            invariant
                k <= values.len(),
                table@ == values@.take(k as int),
            decreases values.len() - k,
        {
            table.push(values[k]);
            assert(table@ =~= values@.take(k + 1));
            k += 1;
        }
        assert(values@.take(values@.len() as int) =~= values@);
        let mut queue: VecDeque<(Vec<BinOp>, Vec<u32>)> = VecDeque::new();
        queue.push_back((Vec::new(), table));
        assert(entries(queue@) =~= seq![(Seq::<BinOp>::empty(), p.spec_values())]);
        Solutions { target: p.target(), queue, tiles: Ghost(p.spec_values()) }
    }

    #[verifier::when_used_as_spec(spec_target)]
    pub fn target(&self) -> (target: u32)
        ensures
            target == self.spec_target(),
    {
        self.target
    }

    /// Hands out the next solution, or nothing when the search is over.
    ///
    /// The tables of the queue are looked at in turn. Each is taken from the
    /// front, and every table that one more step leads to is put at the end.
    /// The call returns the steps that led to the table where the last of
    /// them produced the target, and goes on to the next table otherwise.
    pub fn next(&mut self) -> (found: Option<Vec<BinOp>>)
        requires
            old(self).wf(),
        ensures
            final(self).wf(),
            final(self).spec_target() == old(self).spec_target(),
            final(self).tiles() == old(self).tiles(),
            advance(old(self).pending(), old(self).spec_target()) == (
                match found {
                    Some(steps) => Some(steps@),
                    None => None,
                },
                final(self).pending(),
            ),
            harvest(old(self).pending(), old(self).spec_target()) == (match found {
                Some(steps) => seq![steps@] + harvest(
                    final(self).pending(),
                    old(self).spec_target(),
                ),
                None => Seq::empty(),
            }),
            found matches Some(steps) ==> is_solution(
                old(self).tiles().to_multiset(),
                old(self).spec_target(),
                steps@,
            ),
    {
        let target: u32 = self.target;
        loop
            invariant
                self.wf(),
                self.target == target,
                self.target == old(self).target,
                self.tiles == old(self).tiles,
                advance(entries(self.queue@), target) == advance(
                    entries(old(self).queue@),
                    target,
                ),
            decreases load(entries(self.queue@)),
        {
            let ghost before = entries(self.queue@);
            let ghost m = self.tiles@.to_multiset();
            let ghost queue_before = self.queue@;
            let (ops, digits) = match self.queue.pop_front() {
                Some(entry) => entry,
                None => {
                    proof {
                        lemma_advance_harvest(entries(old(self).queue@), target);
                    }
                    return None;
                },
            };
            assert(queue_before[0] == (ops, digits));
            assert(before[0] == (ops@, digits@));
            assert forall|x: int| 0 <= x < self.queue@.len() implies #[trigger] self.queue@[x]
                == queue_before[x + 1] by {}
            assert(self.wf());
            assert(entries(self.queue@) =~= before.drop_first());
            let moves: Vec<BinOp> = legal_steps(&digits);
            let mut k: usize = 0;
            assert(expand(ops@, digits@).take(0) =~= Seq::empty());
            assert(before.drop_first() + Seq::empty() =~= before.drop_first());
            while k < moves.len()
                invariant
                    self.wf(),
                    self.target == target,
                    self.target == old(self).target,
                    self.tiles == old(self).tiles,
                    m == self.tiles@.to_multiset(),
                    moves@ == legal_steps_of(digits@),
                    k <= moves.len(),
                    before.len() > 0,
                    derives(m, ops@),
                    outcome(m, ops@) == digits@.to_multiset(),
                    entries(self.queue@) == before.drop_first() + expand(ops@, digits@).take(
                        k as int,
                    ),
                decreases moves.len() - k,
            {
                let step: BinOp = moves[k];
                proof {
                    lemma_legal_step_held(digits@, k as int);
                    lemma_holds_on_table(digits@, step);
                    lemma_replaced_tiles(digits@, step);
                    lemma_derives_one_more(m, ops@, step);
                }
                let res: u32 = step.apply().unwrap();
                let table: Vec<u32> = replace_op_in(&digits, &step, res);
                let history: Vec<BinOp> = with_step(&ops, step);
                let ghost queued = entries(self.queue@);
                let ghost queue_was = self.queue@;
                self.queue.push_back((history, table));
                assert forall|x: int| 0 <= x < self.queue@.len() implies {
                    &&& derives(m, (#[trigger] self.queue@[x]).0@)
                    &&& outcome(m, self.queue@[x].0@) == self.queue@[x].1@.to_multiset()
                } by {
                    if x < queue_was.len() {
                        assert(self.queue@[x] == queue_was[x]);
                    }
                }
                assert(entries(self.queue@) =~= queued.push((history@, table@)));
                assert(entries(self.queue@) =~= before.drop_first() + expand(ops@, digits@).take(
                    k + 1,
                ));
                k += 1;
            }
            assert(expand(ops@, digits@).take(moves@.len() as int) =~= expand(ops@, digits@));
            proof {
                lemma_load_drops(before);
            }
            let n: usize = ops.len();
            if n > 0 {
                let last: BinOp = ops[n - 1];
                match last.apply() {
                    Some(v) => {
                        if v == target {
                            proof {
                                lemma_advance_harvest(entries(old(self).queue@), target);
                            }
                            return Some(ops);
                        }
                    },
                    None => {},
                }
            }
        }
    }
}

} // verus!
