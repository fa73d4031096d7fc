//! Steps as text.

use crate::step::{BinOp, Op};
use vstd::prelude::*;
use vstd::string::*;

verus! {

/// The character of the digit `d`.
pub open spec fn digit_char(d: int) -> char {
    if d == 0 {
        '0'
    } else if d == 1 {
        '1'
    } else if d == 2 {
        '2'
    } else if d == 3 {
        '3'
    } else if d == 4 {
        '4'
    } else if d == 5 {
        '5'
    } else if d == 6 {
        '6'
    } else if d == 7 {
        '7'
    } else if d == 8 {
        '8'
    } else {
        '9'
    }
}

/// The decimal digits of `n`, without leading zeros.
pub open spec fn decimal(n: nat) -> Seq<char>
    decreases n,
{
    if n < 10 {
        seq![digit_char(n as int)]
    } else {
        decimal(n / 10).push(digit_char((n % 10) as int))
    }
}

/// The text of a step: the left operand, the operator between two blanks,
/// and the right operand.
pub open spec fn step_text(step: BinOp) -> Seq<char> {
    decimal(step.l as nat) + seq![' ', step.op.spec_symbol(), ' '] + decimal(step.r as nat)
}

/// The text of a step with its result after ` = `, where it has one.
pub open spec fn equation_text(step: BinOp) -> Seq<char> {
    match step.result() {
        Some(v) => step_text(step) + seq![' ', '=', ' '] + decimal(v as nat),
        None => step_text(step),
    }
}

fn digit_str(d: u32) -> (s: &'static str)
    requires
        d < 10,
    ensures
        s@ == seq![digit_char(d as int)],
{
    proof {
        reveal_strlit("0");
        reveal_strlit("1");
        reveal_strlit("2");
        reveal_strlit("3");
        reveal_strlit("4");
        reveal_strlit("5");
        reveal_strlit("6");
        reveal_strlit("7");
        reveal_strlit("8");
        reveal_strlit("9");
    }
    let s: &'static str = if d == 0 {
        "0"
    } else if d == 1 {
        "1"
    } else if d == 2 {
        "2"
    } else if d == 3 {
        "3"
    } else if d == 4 {
        "4"
    } else if d == 5 {
        "5"
    } else if d == 6 {
        "6"
    } else if d == 7 {
        "7"
    } else if d == 8 {
        "8"
    } else {
        "9"
    };
    assert(s@ =~= seq![digit_char(d as int)]);
    s
}

fn symbol_str(op: Op) -> (s: &'static str)
    ensures
        s@ == seq![' ', op.spec_symbol(), ' '],
{
    proof {
        reveal_strlit(" + ");
        reveal_strlit(" - ");
        reveal_strlit(" * ");
        reveal_strlit(" / ");
    }
    let s: &'static str = match op {
        Op::Add => " + ",
        Op::Sub => " - ",
        Op::Mul => " * ",
        Op::Div => " / ",
    };
    assert(s@ =~= seq![' ', op.spec_symbol(), ' ']);
    s
}

/// Writes the decimal digits of `n` at the end of `out`.
pub fn push_decimal(out: &mut String, n: u32)
    ensures
        final(out)@ == old(out)@ + decimal(n as nat),
{
    let mut lows: Vec<u32> = Vec::new();
    let mut m: u32 = n;
    let ghost mut tail: Seq<char> = Seq::empty();
    assert(decimal(m as nat) + tail =~= decimal(n as nat));
    while m >= 10
        invariant
            decimal(n as nat) == decimal(m as nat) + tail,
            tail.len() == lows@.len(),
            forall|k: int|
                0 <= k < lows@.len() ==> lows@[k] < 10 && tail[tail.len() - 1 - k] == digit_char(
                    #[trigger] lows@[k] as int,
                ),
        decreases m,
    {
        let d: u32 = m % 10;
        proof {
            let shorter = decimal((m / 10) as nat);
            assert(decimal(m as nat) == shorter.push(digit_char(d as int)));
            assert(shorter.push(digit_char(d as int)) + tail =~= shorter + (seq![
                digit_char(d as int),
            ] + tail));
            tail = seq![digit_char(d as int)] + tail;
        }
        lows.push(d);
        m = m / 10;
    }
    let ghost start = out@;
    out.append(digit_str(m));
    let mut k: usize = lows.len();
    assert(tail.take(0) =~= Seq::<char>::empty());
    while k > 0
        invariant
            k <= lows@.len(),
            tail.len() == lows@.len(),
            forall|x: int|
                0 <= x < lows@.len() ==> lows@[x] < 10 && tail[tail.len() - 1 - x] == digit_char(
                    #[trigger] lows@[x] as int,
                ),
            out@ == start + decimal(m as nat) + tail.take(lows@.len() - k),
        decreases k,
    {
        k -= 1;
        let ghost done = tail.take(lows@.len() - (k + 1));
        out.append(digit_str(lows[k]));
        assert(tail.take(lows@.len() - k) =~= done.push(digit_char(lows@[k as int] as int)));
        assert(out@ =~= start + decimal(m as nat) + tail.take(lows@.len() - k));
    }
    assert(tail.take(lows@.len() as int) =~= tail);
    assert(out@ =~= start + (decimal(m as nat) + tail));
}

impl BinOp {
    /// The step as text, such as `24 - 3`.
    pub fn to_text(&self) -> (text: String)
        ensures
            text@ == step_text(*self),
    {
        let mut text: String = String::new();
        push_decimal(&mut text, self.l);
        text.append(symbol_str(self.op));
        push_decimal(&mut text, self.r);
        assert(text@ =~= step_text(*self));
        text
    }

    /// The step as text with its result, such as `24 - 3 = 21`. A step
    /// without a result is shown without one.
    pub fn to_equation(&self) -> (text: String)
        ensures
            text@ == equation_text(*self),
    {
        let mut text: String = self.to_text();
        match self.apply() {
            Some(v) => {
                proof {
                    reveal_strlit(" = ");
                }
                assert(" = "@ =~= seq![' ', '=', ' ']);
                text.append(" = ");
                push_decimal(&mut text, v);
            },
            None => {},
        }
        text
    }
}

} // verus!
