//! The precedence-aware expression evaluator.
//!
//! An expression is an operand sequence, an operator sequence one shorter,
//! and an inclusive span `[lpar, rpar]` of operand positions that is forced
//! to evaluate first as one atomic unit. Evaluation is left-associative with
//! standard precedence: within an unparenthesized run the expression splits
//! at its last additive operator (or, with none, at its last operator), each
//! side evaluates recursively, and the split operator combines the two.

use vstd::prelude::*;
use vstd::slice::{slice_subrange, slice_to_vec};
use crate::operator::Op;
use crate::rat::Rat;

verus! {

/// Index of the last additive (rank-0) operator, or `-1` when every
/// operator is multiplicative.
pub open spec fn last_low(ops: Seq<Op>) -> int
    decreases ops.len(),
{
    if ops.len() == 0 {
        -1
    } else if ops.last().spec_precedence() == 0 {
        ops.len() - 1
    } else {
        last_low(ops.drop_last())
    }
}

/// Where the top-level split of an unparenthesized run falls: at the last
/// additive operator when one exists, else at the last operator.
pub open spec fn split_index(ops: Seq<Op>) -> int {
    if last_low(ops) >= 0 {
        last_low(ops)
    } else {
        ops.len() - 1
    }
}

pub proof fn lemma_last_low(ops: Seq<Op>)
    ensures
        -1 <= last_low(ops) < ops.len(),
        last_low(ops) >= 0 ==> ops[last_low(ops)].spec_precedence() == 0,
        forall|i: int| last_low(ops) < i < ops.len() ==> ops[i].spec_precedence() != 0,
    decreases ops.len(),
{
    if ops.len() > 0 && ops.last().spec_precedence() != 0 {
        lemma_last_low(ops.drop_last());
        assert forall|i: int| last_low(ops) < i < ops.len() implies ops[i].spec_precedence()
            != 0 by {
            if i < ops.len() - 1 {
                assert(ops[i] == ops.drop_last()[i]);
            }
        };
    }
}

pub proof fn lemma_split_index(ops: Seq<Op>)
    requires
        ops.len() >= 1,
    ensures
        0 <= split_index(ops) < ops.len(),
        forall|i: int| split_index(ops) < i < ops.len() ==> ops[i].spec_precedence() != 0,
{
    lemma_last_low(ops);
}

/// Left-associative precedence evaluation of an unparenthesized run.
/// Undefined when the operand and operator counts do not line up, or when
/// any applied operation is undefined.
pub open spec fn eval_flat(nums: Seq<Rat>, ops: Seq<Op>) -> Option<Rat>
    decreases ops.len(),
        via eval_flat_decreases
{
    if nums.len() != ops.len() + 1 {
        None
    } else if ops.len() == 0 {
        Some(nums[0])
    } else {
        let k = split_index(ops);
        let left = eval_flat(nums.take(k + 1), ops.take(k));
        let right = eval_flat(nums.skip(k + 1), ops.skip(k + 1));
        match (left, right) {
            (Some(l), Some(r)) => ops[k].spec_calc(l, r),
            _ => None,
        }
    }
}

#[via_fn]
proof fn eval_flat_decreases(nums: Seq<Rat>, ops: Seq<Op>) {
    if nums.len() == ops.len() + 1 && ops.len() > 0 {
        lemma_split_index(ops);
    }
}

/// Full evaluation with a forced span `[lpar, rpar]`. A span covering the
/// whole expression is the plain unparenthesized run; otherwise the span
/// evaluates first as one atomic operand and the remainders on both sides,
/// with their operators carried over verbatim, evaluate around it.
pub open spec fn spec_eval(nums: Seq<Rat>, ops: Seq<Op>, lpar: int, rpar: int) -> Option<Rat> {
    if nums.len() == 0 {
        None
    } else if lpar == 0 && rpar == nums.len() - 1 {
        eval_flat(nums, ops)
    } else if !(0 <= lpar <= rpar < nums.len()) || nums.len() != ops.len() + 1 {
        None
    } else {
        match eval_flat(nums.subrange(lpar, rpar + 1), ops.subrange(lpar, rpar)) {
            None => None,
            Some(v) => eval_flat(
                nums.take(lpar) + seq![v] + nums.skip(rpar + 1),
                ops.take(lpar) + ops.skip(rpar),
            ),
        }
    }
}

/// All operands of a sequence are well-formed rationals.
pub open spec fn all_wf(nums: Seq<Rat>) -> bool {
    forall|i: int| 0 <= i < nums.len() ==> nums[i].wf()
}

/// Find the top-level split point of an unparenthesized run.
fn find_split(ops: &[Op]) -> (k: usize)
    requires
        ops@.len() >= 1,
    ensures
        k == split_index(ops@),
{
    let mut j: usize = ops.len();
    while j > 0
        invariant
            j <= ops@.len(),
            forall|i: int| j <= i < ops@.len() ==> ops@[i].spec_precedence() != 0,
        decreases j,
    {
        if ops[j - 1].presidense() == 0 {
            proof {
                lemma_last_low(ops@);
                assert(last_low(ops@) >= j - 1);
                assert(last_low(ops@) <= j - 1);
            }
            return j - 1;
        }
        j = j - 1;
    }
    proof {
        lemma_last_low(ops@);
        assert(last_low(ops@) == -1);
    }
    ops.len() - 1
}

/// Evaluate an unparenthesized run, left-associatively with precedence.
pub fn eval_run(nums: &[Rat], ops: &[Op]) -> (r: Option<Rat>)
    requires
        nums@.len() == ops@.len() + 1,
        all_wf(nums@),
    ensures
        r == eval_flat(nums@, ops@),
        r is Some ==> r->Some_0.wf(),
    decreases ops@.len(),
{
    if ops.len() == 0 {
        return Some(nums[0]);
    }
    let k = find_split(ops);
    proof {
        lemma_split_index(ops@);
    }
    let left_n = slice_subrange(nums, 0, k + 1);
    let left_o = slice_subrange(ops, 0, k);
    let right_n = slice_subrange(nums, k + 1, nums.len());
    let right_o = slice_subrange(ops, k + 1, ops.len());
    proof {
        assert(left_n@ == nums@.take(k + 1));
        assert(left_o@ == ops@.take(k as int));
        assert(right_n@ == nums@.skip(k + 1));
        assert(right_o@ == ops@.skip(k + 1));
    }
    let left = eval_run(left_n, left_o);
    match left {
        None => None,
        Some(l) => {
            let right = eval_run(right_n, right_o);
            match right {
                None => None,
                Some(rv) => ops[k].calc(l, rv),
            }
        },
    }
}

/// Evaluate a candidate: operands, operators, and the forced span
/// `[lpar, rpar]`. Returns `None` exactly when the forced evaluation order
/// divides by zero or an exact intermediate value is unrepresentable.
pub fn eval(nums: &[Rat], ops: &[Op], lpar: usize, rpar: usize) -> (r: Option<Rat>)
    requires
        nums@.len() == 0 || (nums@.len() == ops@.len() + 1 && lpar <= rpar < nums@.len()),
        all_wf(nums@),
    ensures
        r == spec_eval(nums@, ops@, lpar as int, rpar as int),
        r is Some ==> r->Some_0.wf(),
{
    if nums.len() == 0 {
        return None;
    }
    if lpar == 0 && rpar == nums.len() - 1 {
        return eval_run(nums, ops);
    }
    let inner_n = slice_subrange(nums, lpar, rpar + 1);
    let inner_o = slice_subrange(ops, lpar, rpar);
    let atom = eval_run(inner_n, inner_o);
    match atom {
        None => None,
        Some(v) => {
            let mut new_nums: Vec<Rat> = slice_to_vec(slice_subrange(nums, 0, lpar));
            new_nums.push(v);
            let mut right_nums: Vec<Rat> = slice_to_vec(slice_subrange(nums, rpar + 1, nums.len()));
            new_nums.append(&mut right_nums);
            let mut new_ops: Vec<Op> = slice_to_vec(slice_subrange(ops, 0, lpar));
            let mut right_ops: Vec<Op> = slice_to_vec(slice_subrange(ops, rpar, ops.len()));
            new_ops.append(&mut right_ops);
            proof {
                assert(new_nums@ =~= nums@.take(lpar as int) + seq![v] + nums@.skip(rpar + 1));
                assert(new_ops@ =~= ops@.take(lpar as int) + ops@.skip(rpar as int));
            }
            eval_run(new_nums.as_slice(), new_ops.as_slice())
        },
    }
}

} // verus!
