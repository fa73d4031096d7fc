//! When no step is lost to the width of a tile.
//!
//! A sum or a product that does not fit in 32 bits has no result, and the
//! search does not try it. This module states when that cannot happen: where
//! the tiles, each increased by one, multiply to no more than 2^32, every
//! step that the rules allow has a result, and the tiles that it leaves are
//! again of that kind. The tiles of the game as it is played, such as 100,
//! 75, 50, 25, 10 and 10, are of that kind.

use crate::step::{BinOp, Op};
use crate::tiles::{holds, position, replaced};
use crate::tiles::lemma_positions_found;
use vstd::prelude::*;

verus! {

/// The product of the tiles, each increased by one.
pub open spec fn room(s: Seq<u32>) -> nat
    decreases s.len(),
{
    if s.len() == 0 {
        1
    } else {
        room(s.drop_last()) * (s.last() as nat + 1)
    }
}

/// The most that [`room`] may be for every legal step to have a result.
pub open spec fn room_limit() -> nat {
    0x1_0000_0000
}

pub proof fn lemma_room_positive(s: Seq<u32>)
    ensures
        room(s) >= 1,
    decreases s.len(),
{
    if s.len() > 0 {
        lemma_room_positive(s.drop_last());
        assert(room(s.drop_last()) * (s.last() as nat + 1) >= 1) by (nonlinear_arith)
            requires
                room(s.drop_last()) >= 1,
        ;
    }
}

/// The room of a table is the room of the table without one tile, times
/// that tile increased by one.
pub proof fn lemma_room_without(s: Seq<u32>, i: int)
    requires
        0 <= i < s.len(),
    ensures
        room(s) == room(s.remove(i)) * (s[i] as nat + 1),
    decreases s.len(),
{
    if i == s.len() - 1 {
        assert(s.remove(i) =~= s.drop_last());
    } else {
        let shorter = s.drop_last();
        lemma_room_without(shorter, i);
        assert(s.remove(i).drop_last() =~= shorter.remove(i));
        assert(s.remove(i).last() == s.last());
        let a = room(shorter.remove(i));
        let b = s[i] as nat + 1;
        let c = s.last() as nat + 1;
        assert((a * b) * c == (a * c) * b) by (nonlinear_arith);
    }
}

/// The value of a legal step, increased by one, is no more than the product
/// of its operands, each increased by one.
pub proof fn lemma_value_bound(step: BinOp)
    requires
        step.legal(),
    ensures
        0 <= step.value(),
        step.value() + 1 <= (step.l as nat + 1) * (step.r as nat + 1),
{
    let l = step.l as int;
    let r = step.r as int;
    assert((l + 1) * (r + 1) == l * r + l + r + 1) by (nonlinear_arith);
    assert(l * r >= 0) by (nonlinear_arith)
        requires
            l >= 0,
            r >= 0,
    ;
    match step.op {
        Op::Add => {},
        Op::Mul => {},
        Op::Sub => {},
        Op::Div => {
            assert(0 <= l / r <= l) by (nonlinear_arith)
                requires
                    l >= 0,
                    r >= 1,
            ;
        },
    }
}

/// On a table with room within the limit, every step that the rules allow
/// has a result, and the table that it leaves has no more room than the
/// table before.
pub proof fn lemma_legal_step_fits(s: Seq<u32>, step: BinOp)
    requires
        holds(s, step),
        step.legal(),
        room(s) <= room_limit(),
    ensures
        step.result() is Some,
        step.result().unwrap() == step.value(),
        room(replaced(s, step, step.result().unwrap())) <= room(s),
{
    lemma_positions_found(s, step);
    lemma_value_bound(step);
    let i = position(s, step.l, -1);
    let j = position(s, step.r, i);
    // the table without the right operand, and without both
    let less = s.remove(j);
    let ii = if i < j {
        i
    } else {
        i - 1
    };
    let least = less.remove(ii);
    lemma_room_without(s, j);
    assert(less[ii] == step.l);
    lemma_room_without(less, ii);
    lemma_room_positive(least);
    let p = room(least);
    let a = step.l as nat + 1;
    let b = step.r as nat + 1;
    let v = step.value();
    assert(room(s) == p * a * b);
    assert(v + 1 <= p * a * b) by (nonlinear_arith)
        requires
            v + 1 <= a * b,
            p >= 1,
    ;
    assert(v <= u32::MAX);
    let res = step.result().unwrap();
    let after = replaced(s, step, res);
    assert(after == s.update(i, res).remove(j));
    assert(after =~= less.update(ii, res));
    lemma_room_without(less.update(ii, res), ii);
    assert(less.update(ii, res).remove(ii) =~= least);
    assert(room(after) == p * (res as nat + 1));
    assert(p * (v + 1) <= p * a * b) by (nonlinear_arith)
        requires
            v + 1 <= a * b,
            0 <= v,
            p >= 1,
    ;
}

/// Tells whether the table has room within the limit.
pub fn has_room(values: &Vec<u32>) -> (yes: bool)
    ensures
        yes == (room(values@) <= room_limit()),
{
    let mut product: u128 = 1;
    let mut k: usize = 0;
    assert(values@.take(0) =~= Seq::<u32>::empty());
    while k < values.len()
        invariant
            k <= values@.len(),
            product == room(values@.take(k as int)),
            1 <= product <= 0x1_0000_0000,
        decreases values.len() - k,
    {
        let ghost seen = values@.take(k + 1);
        assert(seen.drop_last() =~= values@.take(k as int));
        assert(seen.last() == values@[k as int]);
        let factor: u128 = values[k] as u128 + 1;
        assert(product * factor <= 0x1_0000_0000 * 0x1_0000_0000) by (nonlinear_arith)
            requires
                product <= 0x1_0000_0000,
                factor <= 0x1_0000_0000,
        ;
        let wider: u128 = product * factor;
        if wider > 0x1_0000_0000 {
            proof {
                lemma_room_grows(values@, k + 1);
            }
            return false;
        }
        assert(wider >= 1) by (nonlinear_arith)
            requires
                wider == product * factor,
                product >= 1,
                factor >= 1,
        ;
        product = wider;
        k += 1;
    }
    assert(values@.take(values@.len() as int) =~= values@);
    true
}

/// More tiles make no less room.
pub proof fn lemma_room_grows(s: Seq<u32>, k: int)
    requires
        0 <= k <= s.len(),
    ensures
        room(s.take(k)) <= room(s),
    decreases s.len() - k,
{
    if k < s.len() {
        assert(s.drop_last().take(k) =~= s.take(k));
        lemma_room_grows(s.drop_last(), k);
        lemma_room_positive(s.drop_last());
        assert(room(s.drop_last()) <= room(s.drop_last()) * (s.last() as nat + 1))
            by (nonlinear_arith);
    } else {
        assert(s.take(k) =~= s);
    }
}

} // verus!
