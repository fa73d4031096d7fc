//! The tiles on the table: which pairs can be combined, which steps those
//! pairs allow, and what the table holds after a step.

use crate::step::{candidates, BinOp};
use vstd::prelude::*;

verus! {

/// The pairs `(s[i], s[j])` with `from <= i < j`, ordered by `i`, then by `j`.
pub open spec fn pairs_from(s: Seq<u32>, from: int) -> Seq<(u32, u32)>
    decreases s.len() - from,
{
    if from < 0 || from >= s.len() {
        Seq::empty()
    } else {
        Seq::new((s.len() - 1 - from) as nat, |k: int| (s[from], s[from + 1 + k])) + pairs_from(
            s,
            from + 1,
        )
    }
}

/// Every pair of two positions of `s`, each once, as the values they hold.
pub open spec fn pairs_of(s: Seq<u32>) -> Seq<(u32, u32)> {
    pairs_from(s, 0)
}

/// Lists the pairs of tiles by position: equal values at two positions make a
/// pair like any other.
pub fn all_pairs_in(values: &Vec<u32>) -> (pairs: Vec<(u32, u32)>)
    ensures
        pairs@ == pairs_of(values@),
{
    let n: usize = values.len();
    let mut pairs: Vec<(u32, u32)> = Vec::new();
    let mut i: usize = 0;
    while i < n
        invariant
            n == values.len(),
            i <= n,
            pairs@ + pairs_from(values@, i as int) == pairs_of(values@),
        decreases n - i,
    {
        let ghost before = pairs@;
        let ghost row = Seq::new(
            (n - 1 - i) as nat,
            |k: int| (values@[i as int], values@[i + 1 + k]),
        );
        let mut j: usize = i + 1;
        while j < n
            invariant
                n == values.len(),
                i < j <= n,
                row.len() == n - 1 - i,
                forall|k: int| 0 <= k < row.len() ==> row[k] == (values@[i as int], values@[i + 1 + k]),
                pairs@ == before + row.take(j - i - 1),
            decreases n - j,
        {
            pairs.push((values[i], values[j]));
            assert(pairs@ =~= before + row.take(j + 1 - i - 1));
            j += 1;
        }
        assert(row.take(n - i - 1) =~= row);
        assert(pairs@ + pairs_from(values@, i + 1) =~= before + (row + pairs_from(
            values@,
            i + 1,
        )));
        i += 1;
    }
    assert(pairs_from(values@, n as int) =~= Seq::empty());
    assert(pairs@ + Seq::<(u32, u32)>::empty() =~= pairs@);
    pairs
}

/// The first position at or after `from`, other than `skip`, at which `s`
/// holds `v`; the length of `s` where there is none.
pub open spec fn position_from(s: Seq<u32>, v: u32, skip: int, from: int) -> int
    decreases s.len() - from,
{
    if from < 0 || from >= s.len() {
        s.len() as int
    } else if from != skip && s[from] == v {
        from
    } else {
        position_from(s, v, skip, from + 1)
    }
}

/// The first position other than `skip` at which `s` holds `v`.
pub open spec fn position(s: Seq<u32>, v: u32, skip: int) -> int {
    position_from(s, v, skip, 0)
}

/// Whether both operands of `step` lie on the table, at two different
/// positions.
pub open spec fn holds(s: Seq<u32>, step: BinOp) -> bool {
    exists|i: int, j: int|
        0 <= i < s.len() && 0 <= j < s.len() && i != j && s[i] == step.l && s[j] == step.r
}

/// The table after `step`: its result takes the place of the left operand,
/// and the right operand, found at another position, is taken away.
pub open spec fn replaced(s: Seq<u32>, step: BinOp, res: u32) -> Seq<u32> {
    let i = position(s, step.l, -1);
    let j = position(s, step.r, i);
    s.update(i, res).remove(j)
}

pub proof fn lemma_position_from(s: Seq<u32>, v: u32, skip: int, from: int)
    requires
        0 <= from <= s.len(),
    ensures
        from <= position_from(s, v, skip, from) <= s.len(),
        position_from(s, v, skip, from) < s.len() ==> {
            &&& s[position_from(s, v, skip, from)] == v
            &&& position_from(s, v, skip, from) != skip
        },
        forall|k: int|
            from <= k < position_from(s, v, skip, from) ==> k == skip || #[trigger] s[k] != v,
    decreases s.len() - from,
{
    if from < s.len() && !(from != skip && s[from] == v) {
        lemma_position_from(s, v, skip, from + 1);
    }
}

/// Where the table holds both operands, they are found at two different
/// positions.
pub proof fn lemma_positions_found(s: Seq<u32>, step: BinOp)
    requires
        holds(s, step),
    ensures
        0 <= position(s, step.l, -1) < s.len(),
        0 <= position(s, step.r, position(s, step.l, -1)) < s.len(),
        position(s, step.l, -1) != position(s, step.r, position(s, step.l, -1)),
        s[position(s, step.l, -1)] == step.l,
        s[position(s, step.r, position(s, step.l, -1))] == step.r,
{
    let (i, j) = choose|i: int, j: int|
        0 <= i < s.len() && 0 <= j < s.len() && i != j && s[i] == step.l && s[j] == step.r;
    let p = position(s, step.l, -1);
    lemma_position_from(s, step.l, -1, 0);
    assert(p < s.len()) by {
        if p >= s.len() {
            assert(s[i] != step.l);
        }
    }
    let q = position(s, step.r, p);
    lemma_position_from(s, step.r, p, 0);
    assert(q < s.len()) by {
        if q >= s.len() {
            if j != p {
                assert(s[j] != step.r);
            } else {
                // then the left operand equals the right one and `i` holds it too
                assert(s[i] != step.r);
            }
        }
    }
}

fn find_from(values: &Vec<u32>, v: u32, skip: Option<usize>) -> (at: usize)
    ensures
        at == position(
            values@,
            v,
            match skip {
                Some(k) => k as int,
                None => -1,
            },
        ),
{
    let ghost sk: int = match skip {
        Some(k) => k as int,
        None => -1,
    };
    let n: usize = values.len();
    let mut k: usize = 0;
    while k < n
        invariant
            n == values.len(),
            k <= n,
            sk == match skip {
                Some(k) => k as int,
                None => -1,
            },
            position(values@, v, sk) == position_from(values@, v, sk, k as int),
        decreases n - k,
    {
        let skipped: bool = match skip {
            Some(x) => x == k,
            None => false,
        };
        if !skipped && values[k] == v {
            return k;
        }
        k += 1;
    }
    n
}

/// Tells whether the table holds both operands of `op`, at two different
/// positions.
pub fn can_replace(values: &Vec<u32>, op: &BinOp) -> (yes: bool)
    ensures
        yes == holds(values@, *op),
{
    let i: usize = find_from(values, op.l, None);
    if i >= values.len() {
        proof {
            lemma_position_from(values@, op.l, -1, 0);
            if holds(values@, *op) {
                lemma_positions_found(values@, *op);
            }
        }
        return false;
    }
    let j: usize = find_from(values, op.r, Some(i));
    proof {
        lemma_position_from(values@, op.l, -1, 0);
        lemma_position_from(values@, op.r, i as int, 0);
        if holds(values@, *op) {
            lemma_positions_found(values@, *op);
        }
        if j < values@.len() {
            assert(values@[i as int] == op.l && values@[j as int] == op.r && i != j);
        }
    }
    j < values.len()
}

/// Takes the two operands of `op` from the table and puts `res` there: `res`
/// takes the place of the first tile that holds the left operand, and the
/// first other tile that holds the right operand leaves.
pub fn replace_op_in(values: &Vec<u32>, op: &BinOp, res: u32) -> (next: Vec<u32>)
    requires
        holds(values@, *op),
    ensures
        next@ == replaced(values@, *op, res),
{
    proof {
        lemma_positions_found(values@, *op);
    }
    let i: usize = find_from(values, op.l, None);
    let j: usize = find_from(values, op.r, Some(i));
    let mut next: Vec<u32> = Vec::new();
    let n: usize = values.len();
    let mut k: usize = 0;
    while k < n
        invariant
            n == values.len(),
            k <= n,
            i < n,
            j < n,
            i != j,
            k > j ==> next@ == values@.update(i as int, res).take(k as int).remove(j as int),
            k <= j ==> next@ == values@.update(i as int, res).take(k as int),
        decreases n - k,
    {
        let ghost full = values@.update(i as int, res);
        if k != j {
            let v: u32 = if k == i {
                res
            } else {
                values[k]
            };
            next.push(v);
        }
        proof {
            if k < j {
                assert(next@ =~= full.take(k + 1));
            } else {
                assert(next@ =~= full.take(k + 1).remove(j as int));
            }
        }
        k += 1;
    }
    assert(values@.update(i as int, res).take(n as int) =~= values@.update(i as int, res));
    next
}

/// The steps that the tiles allow, legal or not: for each pair in turn its
/// six candidates.
pub open spec fn slots(s: Seq<u32>) -> Seq<BinOp> {
    Seq::new(
        6 * pairs_of(s).len(),
        |x: int| candidates(pairs_of(s)[x / 6].0, pairs_of(s)[x / 6].1)[x % 6],
    )
}

/// The test that a step has a result.
pub open spec fn playable() -> spec_fn(BinOp) -> bool {
    |step: BinOp| step.result() is Some
}

/// The steps that can be played from the table `s`, in the order in which the
/// search tries them.
pub open spec fn legal_steps_of(s: Seq<u32>) -> Seq<BinOp> {
    slots(s).filter(playable())
}

/// Lists every step that can be played from the table: for each pair of
/// tiles, by position, those of its six candidates that have a result.
pub fn legal_steps(values: &Vec<u32>) -> (steps: Vec<BinOp>)
    ensures
        steps@ == legal_steps_of(values@),
{
    let pairs: Vec<(u32, u32)> = all_pairs_in(values);
    let mut steps: Vec<BinOp> = Vec::new();
    let mut p: usize = 0;
    assert(slots(values@).take(0) =~= Seq::<BinOp>::empty());
    proof {
        reveal(Seq::filter);
    }
    while p < pairs.len()
        invariant
            pairs@ == pairs_of(values@),
            p <= pairs.len(),
            steps@ == slots(values@).take(6 * p).filter(playable()),
        decreases pairs.len() - p,
    {
        let a: u32 = pairs[p].0;
        let b: u32 = pairs[p].1;
        let six: Vec<BinOp> = BinOp::all_for(a, b);
        let mut c: usize = 0;
        while c < 6
            invariant
                pairs@ == pairs_of(values@),
                p < pairs.len(),
                c <= 6,
                six@ == candidates(a, b),
                a == pairs@[p as int].0,
                b == pairs@[p as int].1,
                steps@ == slots(values@).take(6 * p + c).filter(playable()),
            decreases 6 - c,
        {
            let step: BinOp = six[c];
            let ghost x: int = 6 * p + c;
            let ghost before = slots(values@).take(x);
            proof {
                assert(x / 6 == p && x % 6 == c);
                assert(slots(values@)[x] == step);
                assert(slots(values@).take(x + 1) =~= before.push(step));
                before.lemma_filter_push(step, playable());
            }
            if step.apply().is_some() {
                steps.push(step);
            }
            c += 1;
        }
        p += 1;
    }
    assert(slots(values@).take(6 * p) =~= slots(values@));
    steps
}

/// Every two positions of the table make one of its pairs.
pub proof fn lemma_pair_listed(s: Seq<u32>, from: int, i: int, j: int) -> (x: int)
    requires
        0 <= from <= i < j < s.len(),
    ensures
        0 <= x < pairs_from(s, from).len(),
        pairs_from(s, from)[x] == (s[i], s[j]),
    decreases i - from,
{
    if i == from {
        j - i - 1
    } else {
        let deeper = lemma_pair_listed(s, from + 1, i, j);
        s.len() - 1 - from + deeper
    }
}

/// Every pair of the table is made of two of its positions.
pub proof fn lemma_pair_origin(s: Seq<u32>, from: int, x: int) -> (at: (int, int))
    requires
        0 <= from,
        0 <= x < pairs_from(s, from).len(),
    ensures
        from <= at.0 < at.1 < s.len(),
        pairs_from(s, from)[x] == (s[at.0], s[at.1]),
    decreases s.len() - from,
{
    if x < s.len() - 1 - from {
        (from, from + 1 + x)
    } else {
        lemma_pair_origin(s, from + 1, x - (s.len() - 1 - from))
    }
}

/// A table of `n` tiles has `n * (n - 1) / 2` pairs.
pub proof fn lemma_pair_count(s: Seq<u32>, from: int)
    requires
        0 <= from <= s.len(),
    ensures
        2 * pairs_from(s, from).len() == (s.len() - from) * (s.len() - from - 1),
    decreases s.len() - from,
{
    let n = s.len() - from;
    if from < s.len() {
        lemma_pair_count(s, from + 1);
        let later = pairs_from(s, from + 1).len() as int;
        assert(pairs_from(s, from).len() == (n - 1) + later);
        assert(2 * later == (n - 1) * (n - 2)) by (nonlinear_arith)
            requires
                2 * later == (s.len() - (from + 1)) * (s.len() - (from + 1) - 1),
                n == s.len() - from,
        ;
        assert(2 * ((n - 1) + later) == n * (n - 1)) by (nonlinear_arith)
            requires
                2 * later == (n - 1) * (n - 2),
        ;
    } else {
        assert(n * (n - 1) == 0) by (nonlinear_arith)
            requires
                n == 0,
        ;
    }
}

/// The table holds the operands of every step that is listed for it, and the
/// step has a result.
pub proof fn lemma_legal_step_held(s: Seq<u32>, k: int)
    requires
        0 <= k < legal_steps_of(s).len(),
    ensures
        legal_steps_of(s)[k].result() is Some,
        holds(s, legal_steps_of(s)[k]),
{
    let step = legal_steps_of(s)[k];
    slots(s).lemma_filter_pred(playable(), k);
    assert(legal_steps_of(s).contains(step));
    slots(s).lemma_filter_contains_rev(playable(), step);
    let x = choose|x: int| 0 <= x < slots(s).len() && slots(s)[x] == step;
    let at = lemma_pair_origin(s, 0, x / 6);
    assert(s[at.0] == pairs_of(s)[x / 6].0 && s[at.1] == pairs_of(s)[x / 6].1);
    if step.l == s[at.0] {
        assert(s[at.0] == step.l && s[at.1] == step.r);
    } else {
        assert(s[at.1] == step.l && s[at.0] == step.r);
    }
}

} // verus!
