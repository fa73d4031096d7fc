//! Operators and single steps.
//!
//! A step applies one operator to two operand values. Subtraction may not go
//! below zero and division must be exact; a step that breaks one of these
//! rules has no result. Tiles are `u32`, so a sum or product that does not fit
//! in 32 bits has no result either.

use vstd::prelude::*;

verus! {

/// The four operators of the game.
#[derive(Clone, Copy, Debug, PartialEq, Eq, Structural)]
pub enum Op {
    Add,
    Sub,
    Mul,
    Div,
}

/// One operator applied to a left and a right operand.
#[derive(Clone, Copy, Debug, PartialEq, Eq, Structural)]
pub struct BinOp {
    pub op: Op,
    pub l: u32,
    pub r: u32,
}

impl Op {
    /// The character that stands for the operator when a step is shown.
    pub open spec fn spec_symbol(self) -> char {
        match self {
            Op::Add => '+',
            Op::Sub => '-',
            Op::Mul => '*',
            Op::Div => '/',
        }
    }

    #[verifier::when_used_as_spec(spec_symbol)]
    pub fn symbol(self) -> (c: char)
        ensures
            c == self.spec_symbol(),
    {
        match self {
            Op::Add => '+',
            Op::Sub => '-',
            Op::Mul => '*',
            Op::Div => '/',
        }
    }
}

/// The six steps that can be made of two operands, in the order in which the
/// search tries them: the sum and the product once, the difference and the
/// quotient in both orders.
pub open spec fn candidates(a: u32, b: u32) -> Seq<BinOp> {
    seq![
        BinOp { op: Op::Add, l: a, r: b },
        BinOp { op: Op::Mul, l: a, r: b },
        BinOp { op: Op::Sub, l: a, r: b },
        BinOp { op: Op::Sub, l: b, r: a },
        BinOp { op: Op::Div, l: a, r: b },
        BinOp { op: Op::Div, l: b, r: a },
    ]
}

impl BinOp {
    /// Whether the game's rules allow the step: a difference may not be
    /// negative, a quotient must be exact and its divisor non-zero.
    pub open spec fn legal(self) -> bool {
        match self.op {
            Op::Add => true,
            Op::Mul => true,
            Op::Sub => self.l >= self.r,
            Op::Div => self.r != 0 && self.l as int % self.r as int == 0,
        }
    }

    /// The value of the step over the integers. Meaningful where the step is
    /// legal.
    pub open spec fn value(self) -> int {
        match self.op {
            Op::Add => self.l as int + self.r as int,
            Op::Mul => self.l as int * self.r as int,
            Op::Sub => self.l as int - self.r as int,
            Op::Div => self.l as int / self.r as int,
        }
    }

    /// The result of the step as a tile: its value, where the step is legal
    /// and the value fits in 32 bits.
    pub open spec fn result(self) -> Option<u32> {
        if self.legal() && self.value() <= u32::MAX {
            Some(self.value() as u32)
        } else {
            None
        }
    }

    pub fn new(op: Op, l: u32, r: u32) -> (step: BinOp)
        ensures
            step == (BinOp { op, l, r }),
    {
        BinOp { op, l, r }
    }

    /// All six steps on the operands `a` and `b`, legal or not.
    pub fn all_for(a: u32, b: u32) -> (steps: Vec<BinOp>)
        ensures
            steps@ == candidates(a, b),
    {
        let mut steps: Vec<BinOp> = Vec::new();
        steps.push(BinOp::new(Op::Add, a, b));
        steps.push(BinOp::new(Op::Mul, a, b));
        steps.push(BinOp::new(Op::Sub, a, b));
        steps.push(BinOp::new(Op::Sub, b, a));
        steps.push(BinOp::new(Op::Div, a, b));
        steps.push(BinOp::new(Op::Div, b, a));
        assert(steps@ =~= candidates(a, b));
        steps
    }

    /// Computes the step.
    ///
    /// A difference is defined exactly where the left operand is no smaller
    /// than the right one, a quotient exactly where the divisor is not zero
    /// and divides without remainder; a sum and a product exactly where
    /// they fit in 32 bits.
    pub fn apply(&self) -> (out: Option<u32>)
        ensures
            out == self.result(),
            self.op == Op::Sub ==> (out is Some <==> self.l >= self.r),
            self.op == Op::Sub && out is Some ==> out.unwrap() == self.l - self.r,
            self.op == Op::Div ==> (out is Some <==> self.r != 0 && self.l % self.r == 0),
            self.op == Op::Div && out is Some ==> out.unwrap() == self.l / self.r,
            self.op == Op::Add ==> (out is Some <==> self.l + self.r <= u32::MAX),
            self.op == Op::Add && out is Some ==> out.unwrap() == self.l + self.r,
            self.op == Op::Mul ==> (out is Some <==> self.l * self.r <= u32::MAX),
            self.op == Op::Mul && out is Some ==> out.unwrap() == self.l * self.r,
    {
        let l: u32 = self.l;
        let r: u32 = self.r;
        match self.op {
            Op::Add => l.checked_add(r),
            Op::Sub => {
                if l >= r {
                    Some(l - r)
                } else {
                    None
                }
            },
            Op::Mul => l.checked_mul(r),
            Op::Div => {
                if r != 0 && l % r == 0 {
                    Some(l / r)
                } else {
                    None
                }
            },
        }
    }
}

} // verus!
