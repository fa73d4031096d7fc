//! What a solution is.
//!
//! A puzzle is a multiset of tiles and a target. A step can be played where
//! it has a result and the tiles hold both of its operands; it takes the
//! operands away and puts its result among the tiles. A solution is a
//! sequence of steps, each playable on the tiles that the steps before it
//! left, whose last result is the target.

use crate::step::{candidates, BinOp, Op};
use crate::tiles::{holds, legal_steps_of, playable, position, replaced, slots};
use crate::tiles::{lemma_pair_listed, lemma_positions_found};
use vstd::multiset::Multiset;
use vstd::prelude::*;

verus! {

/// Whether `step` can be played on the tiles `m`: it has a result, and `m`
/// holds its two operands (twice the same value, where they are equal).
pub open spec fn usable(m: Multiset<u32>, step: BinOp) -> bool {
    &&& step.result() is Some
    &&& m.count(step.l) >= 1
    &&& m.remove(step.l).count(step.r) >= 1
}

/// The tiles after `step` was played on `m`.
pub open spec fn after(m: Multiset<u32>, step: BinOp) -> Multiset<u32> {
    m.remove(step.l).remove(step.r).insert(step.result().unwrap())
}

/// Whether `steps` can be played in order, starting from the tiles `m`.
pub open spec fn derives(m: Multiset<u32>, steps: Seq<BinOp>) -> bool
    decreases steps.len(),
{
    steps.len() == 0 || (usable(m, steps[0]) && derives(after(m, steps[0]), steps.drop_first()))
}

/// The tiles that are left when `steps` have been played from `m`.
pub open spec fn outcome(m: Multiset<u32>, steps: Seq<BinOp>) -> Multiset<u32>
    decreases steps.len(),
{
    if steps.len() == 0 {
        m
    } else {
        outcome(after(m, steps[0]), steps.drop_first())
    }
}

/// Whether `steps` solve the puzzle: there is at least one step, they can be
/// played in order from `m`, and the last one produces `target`.
pub open spec fn is_solution(m: Multiset<u32>, target: u32, steps: Seq<BinOp>) -> bool {
    &&& steps.len() > 0
    &&& derives(m, steps)
    &&& steps.last().result() == Some(target)
}

/// Whether no step before the last one produces `target`.
pub open spec fn is_direct(target: u32, steps: Seq<BinOp>) -> bool {
    forall|k: int| 0 <= k < steps.len() - 1 ==> (#[trigger] steps[k]).result() != Some(target)
}

/// Whether the puzzle has a solution at all.
pub open spec fn solvable(m: Multiset<u32>, target: u32) -> bool {
    exists|steps: Seq<BinOp>| is_solution(m, target, steps)
}

/// Whether `steps` is a solution, and no solution is shorter.
pub open spec fn shortest(m: Multiset<u32>, target: u32, steps: Seq<BinOp>) -> bool {
    &&& is_solution(m, target, steps)
    &&& forall|other: Seq<BinOp>| #[trigger]
        is_solution(m, target, other) ==> steps.len() <= other.len()
}

/// What the shortest-first search owes: a shortest solution where the puzzle
/// has one, and no step otherwise.
pub open spec fn solved_by(m: Multiset<u32>, target: u32, steps: Seq<BinOp>) -> bool {
    if solvable(m, target) {
        shortest(m, target, steps)
    } else {
        steps.len() == 0
    }
}

/// Whether two steps are the same but for the order of the operands of a sum
/// or a product.
pub open spec fn alike(a: BinOp, b: BinOp) -> bool {
    &&& a.op == b.op
    &&& (a.l == b.l && a.r == b.r) || ((a.op == Op::Add || a.op == Op::Mul) && a.l == b.r && a.r
        == b.l)
}

/// Steps that are alike give the same result, can be played on the same
/// tiles, and leave the same tiles.
pub proof fn lemma_alike(m: Multiset<u32>, a: BinOp, b: BinOp)
    requires
        alike(a, b),
    ensures
        a.result() == b.result(),
        usable(m, a) == usable(m, b),
        after(m, a) == after(m, b),
{
    broadcast use vstd::multiset::group_multiset_axioms;

    assert(a.l as int * a.r as int == a.r as int * a.l as int) by (nonlinear_arith);
    assert(m.remove(a.l).remove(a.r) =~= m.remove(a.r).remove(a.l));
}

/// The tiles on the table hold the operands of a step at two positions
/// exactly when the multiset of the tiles holds them.
pub proof fn lemma_holds_on_table(s: Seq<u32>, step: BinOp)
    ensures
        holds(s, step) <==> (s.to_multiset().count(step.l) >= 1 && s.to_multiset().remove(
            step.l,
        ).count(step.r) >= 1),
{
    broadcast use vstd::seq_lib::group_to_multiset_ensures;

    let m = s.to_multiset();
    if holds(s, step) {
        let (i, j) = choose|i: int, j: int|
            0 <= i < s.len() && 0 <= j < s.len() && i != j && s[i] == step.l && s[j] == step.r;
        assert(s.contains(step.l));
        let rest = s.remove(i);
        assert(rest.to_multiset() == m.remove(step.l));
        let jj = if j < i {
            j
        } else {
            j - 1
        };
        assert(rest[jj] == step.r);
        assert(rest.contains(step.r));
    }
    if m.count(step.l) >= 1 && m.remove(step.l).count(step.r) >= 1 {
        assert(s.contains(step.l));
        let i = choose|i: int| 0 <= i < s.len() && s[i] == step.l;
        let rest = s.remove(i);
        assert(rest.to_multiset() == m.remove(step.l));
        assert(rest.contains(step.r));
        let jj = choose|jj: int| 0 <= jj < rest.len() && rest[jj] == step.r;
        let j = if jj < i {
            jj
        } else {
            jj + 1
        };
        assert(s[j] == step.r && j != i);
    }
}

/// A step shortens the table by one tile, and the tiles that
/// [`replaced`] leaves are those that [`after`] describes.
pub proof fn lemma_replaced_tiles(s: Seq<u32>, step: BinOp)
    requires
        holds(s, step),
        step.result() is Some,
    ensures
        replaced(s, step, step.result().unwrap()).len() + 1 == s.len(),
        replaced(s, step, step.result().unwrap()).to_multiset() == after(s.to_multiset(), step),
{
    broadcast use vstd::seq_lib::group_to_multiset_ensures;
    broadcast use vstd::multiset::group_multiset_axioms;

    lemma_positions_found(s, step);
    lemma_holds_on_table(s, step);
    let res = step.result().unwrap();
    let i = position(s, step.l, -1);
    let j = position(s, step.r, i);
    let m = s.to_multiset();
    let put = s.update(i, res);
    vstd::seq_lib::to_multiset_update(s, i, res);
    vstd::seq_lib::to_multiset_remove(put, j);
    assert(put[j] == step.r);
    assert(put.remove(j).to_multiset() == m.insert(res).remove(step.l).remove(step.r));
    assert(m.insert(res).remove(step.l).remove(step.r) =~= m.remove(step.l).remove(step.r).insert(
        res,
    ));
}

/// Every step that can be played on the table is listed for it, at least
/// with the operands of a sum or a product in the other order.
pub proof fn lemma_step_listed(s: Seq<u32>, step: BinOp) -> (k: int)
    requires
        holds(s, step),
        step.result() is Some,
    ensures
        0 <= k < legal_steps_of(s).len(),
        alike(legal_steps_of(s)[k], step),
{
    let (i, j) = choose|i: int, j: int|
        0 <= i < s.len() && 0 <= j < s.len() && i != j && s[i] == step.l && s[j] == step.r;
    let lo = if i < j {
        i
    } else {
        j
    };
    let hi = if i < j {
        j
    } else {
        i
    };
    let pair = lemma_pair_listed(s, 0, lo, hi);
    let c: int = match step.op {
        Op::Add => 0,
        Op::Mul => 1,
        Op::Sub => if i < j {
            2
        } else {
            3
        },
        Op::Div => if i < j {
            4
        } else {
            5
        },
    };
    let x = 6 * pair + c;
    assert(x / 6 == pair && x % 6 == c);
    let listed = slots(s)[x];
    assert(listed == candidates(s[lo], s[hi])[c]);
    assert(alike(listed, step));
    lemma_alike(s.to_multiset(), listed, step);
    assert(playable()(listed));
    slots(s).lemma_filter_contains(playable(), x);
    choose|k: int| 0 <= k < legal_steps_of(s).len() && legal_steps_of(s)[k] == listed
}

} // verus!
