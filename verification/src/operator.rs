//! The closed set of binary operators, with precedence ranks and a partial
//! apply function.

use vstd::prelude::*;
use crate::rat::{Rat, spec_add, spec_sub, spec_mul, spec_div};

verus! {

/// A binary operator of the puzzle.
#[derive(Copy, Clone, PartialEq, Eq, Structural, Debug)]
pub enum Op {
    Plus,
    Minus,
    Multiply,
    Divide,
}

impl Op {
    /// Precedence rank: additive operators rank 0, multiplicative rank 1.
    pub open spec fn spec_precedence(self) -> int {
        match self {
            Op::Plus => 0,
            Op::Minus => 0,
            Op::Multiply => 1,
            Op::Divide => 1,
        }
    }

    /// Precedence rank, used only for relative comparison while evaluating.
    pub fn presidense(self) -> (r: u8)
        ensures
            r == self.spec_precedence(),
    {
        match self {
            Op::Plus => 0,
            Op::Minus => 0,
            Op::Multiply => 1,
            Op::Divide => 1,
        }
    }

    /// What applying the operator yields: the exact sum, difference, product
    /// or quotient, `None` when a division by zero occurs or the exact
    /// result is not representable.
    pub open spec fn spec_calc(self, f: Rat, s: Rat) -> Option<Rat> {
        match self {
            Op::Plus => spec_add(f, s),
            Op::Minus => spec_sub(f, s),
            Op::Multiply => spec_mul(f, s),
            Op::Divide => spec_div(f, s),
        }
    }

    /// Apply the operator to two values.
    pub fn calc(self, f: Rat, s: Rat) -> (r: Option<Rat>)
        requires
            f.wf(),
            s.wf(),
        ensures
            r == self.spec_calc(f, s),
            r is Some ==> r->Some_0.wf(),
    {
        match self {
            Op::Plus => f.add(s),
            Op::Minus => f.sub(s),
            Op::Multiply => f.mul(s),
            Op::Divide => f.div(s),
        }
    }

    /// A fixed rank giving the operators a total order, used only by the
    /// result canonicalizer to group duplicates.
    pub open spec fn spec_rank(self) -> int {
        match self {
            Op::Plus => 0,
            Op::Minus => 1,
            Op::Multiply => 2,
            Op::Divide => 3,
        }
    }

    /// The canonicalizer's rank of this operator.
    pub fn rank(self) -> (r: u8)
        ensures
            r == self.spec_rank(),
    {
        match self {
            Op::Plus => 0,
            Op::Minus => 1,
            Op::Multiply => 2,
            Op::Divide => 3,
        }
    }
}

/// Division by exactly zero is undefined: applying `Divide` to any value and
/// a zero divisor yields no result.
pub proof fn lemma_divide_by_zero_undefined(f: Rat, s: Rat)
    requires
        s.num == 0,
    ensures
        Op::Divide.spec_calc(f, s) is None,
{
}

} // verus!
