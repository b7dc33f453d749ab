//! The three-level backtracking search: permute the numbers, assign
//! operators, place the parentheses, and collect every candidate that
//! evaluates exactly to the target.
//!
//! In "first solution" mode each level stops exploring further siblings as
//! soon as any solution has been found beneath it, so the result is the
//! first match under the fixed enumeration order; in "all solutions" mode
//! every combination is evaluated.

use vstd::prelude::*;
use vstd::slice::slice_to_vec;
use crate::operator::Op;
use crate::rat::Rat;
use crate::eval::{all_wf, eval, spec_eval};

verus! {

/// The mathematical model of a solution: arranged operands, operators, and
/// the parenthesized span.
#[verifier::ext_equal]
pub struct SolModel {
    pub nums: Seq<Rat>,
    pub ops: Seq<Op>,
    pub lpar: int,
    pub rpar: int,
}

/// A found solution: the arranged operand sequence, the operator sequence
/// one shorter, and the inclusive parenthesized span `[lpar, rpar]`.
pub struct Solution(pub Vec<Rat>, pub Vec<Op>, pub usize, pub usize);

impl View for Solution {
    type V = SolModel;

    open spec fn view(&self) -> SolModel {
        SolModel { nums: self.0@, ops: self.1@, lpar: self.2 as int, rpar: self.3 as int }
    }
}

/// The models of a sequence of solutions.
pub open spec fn views_of(s: Seq<Solution>) -> Seq<SolModel> {
    s.map_values(|x: Solution| x@)
}

pub proof fn lemma_views_of_concat(a: Seq<Solution>, b: Seq<Solution>)
    ensures
        views_of(a + b) == views_of(a) + views_of(b),
{
    assert(views_of(a + b) =~= views_of(a) + views_of(b));
}

/// The candidate is well-shaped and evaluates exactly to the target.
pub open spec fn is_match(m: SolModel, target: Rat) -> bool {
    &&& m.nums.len() >= 1
    &&& m.ops.len() + 1 == m.nums.len()
    &&& 0 <= m.lpar <= m.rpar < m.nums.len()
    &&& match spec_eval(m.nums, m.ops, m.lpar, m.rpar) {
        Some(v) => v.eqv(target),
        None => false,
    }
}

/// Parenthesis placement, inner level: spans `[i, j]`, `[i, j+1]`, ... in
/// order, for a fixed left boundary `i`.
pub open spec fn par_inner(
    nums: Seq<Rat>,
    ops: Seq<Op>,
    target: Rat,
    all: bool,
    i: int,
    j: int,
) -> Seq<SolModel>
    decreases nums.len() - j,
{
    if j >= nums.len() {
        Seq::empty()
    } else {
        let matched = match spec_eval(nums, ops, i, j) {
            Some(v) => v.eqv(target),
            None => false,
        };
        if matched {
            let m = SolModel { nums, ops, lpar: i, rpar: j };
            if all {
                seq![m] + par_inner(nums, ops, target, all, i, j + 1)
            } else {
                seq![m]
            }
        } else {
            par_inner(nums, ops, target, all, i, j + 1)
        }
    }
}

/// Parenthesis placement, outer level: left boundaries `i`, `i+1`, ... in
/// order; in single mode a non-empty row ends the search.
pub open spec fn par_outer(
    nums: Seq<Rat>,
    ops: Seq<Op>,
    target: Rat,
    all: bool,
    i: int,
) -> Seq<SolModel>
    decreases nums.len() - i,
{
    if i + 1 >= nums.len() {
        Seq::empty()
    } else {
        let row = par_inner(nums, ops, target, all, i, i + 1);
        if !all && row.len() > 0 {
            row
        } else {
            row + par_outer(nums, ops, target, all, i + 1)
        }
    }
}

/// Every contiguous span of at least two operands, in order of increasing
/// left boundary, then increasing right boundary.
pub open spec fn search_par(nums: Seq<Rat>, ops: Seq<Op>, target: Rat, all: bool) -> Seq<
    SolModel,
> {
    par_outer(nums, ops, target, all, 0)
}

/// Operator assignment: once the operator sequence is full, place
/// parentheses; otherwise try each allowed operator in order.
pub open spec fn search_ops(
    nums: Seq<Rat>,
    ops: Seq<Op>,
    allowed: Seq<Op>,
    target: Rat,
    all: bool,
) -> Seq<SolModel>
    decreases nums.len() - ops.len(), allowed.len() + 1,
{
    if ops.len() + 1 >= nums.len() {
        search_par(nums, ops, target, all)
    } else {
        ops_loop(nums, ops, allowed, target, all, 0)
    }
}

/// The remaining allowed operators, from position `idx` on.
pub open spec fn ops_loop(
    nums: Seq<Rat>,
    ops: Seq<Op>,
    allowed: Seq<Op>,
    target: Rat,
    all: bool,
    idx: int,
) -> Seq<SolModel>
    decreases nums.len() - ops.len(), allowed.len() - idx,
{
    if !(0 <= idx < allowed.len()) || ops.len() + 1 >= nums.len() {
        Seq::empty()
    } else {
        let child = search_ops(nums, ops.push(allowed[idx]), allowed, target, all);
        if !all && child.len() > 0 {
            child
        } else {
            child + ops_loop(nums, ops, allowed, target, all, idx + 1)
        }
    }
}

/// Number permutation: once no numbers remain, assign operators; otherwise
/// choose each not-yet-placed number in ascending index order.
pub open spec fn search_nums(
    built: Seq<Rat>,
    remaining: Seq<Rat>,
    allowed: Seq<Op>,
    target: Rat,
    all: bool,
) -> Seq<SolModel>
    decreases remaining.len(), remaining.len() + 1,
{
    if remaining.len() == 0 {
        search_ops(built, Seq::empty(), allowed, target, all)
    } else {
        nums_loop(built, remaining, allowed, target, all, 0)
    }
}

/// The remaining choices of the next number, from position `i` on.
pub open spec fn nums_loop(
    built: Seq<Rat>,
    remaining: Seq<Rat>,
    allowed: Seq<Op>,
    target: Rat,
    all: bool,
    i: int,
) -> Seq<SolModel>
    decreases remaining.len(), remaining.len() - i,
{
    if !(0 <= i < remaining.len()) {
        Seq::empty()
    } else {
        let child = search_nums(
            built.push(remaining[i]),
            remaining.remove(i),
            allowed,
            target,
            all,
        );
        if !all && child.len() > 0 {
            child
        } else {
            child + nums_loop(built, remaining, allowed, target, all, i + 1)
        }
    }
}

/// The whole search over every permutation of the input numbers.
pub open spec fn spec_brute(nums: Seq<Rat>, allowed: Seq<Op>, target: Rat, all: bool) -> Seq<
    SolModel,
> {
    search_nums(Seq::empty(), nums, allowed, target, all)
}

/// Innermost search level: place the single pair of parentheses around
/// every contiguous span of at least two operands and record the matches.
pub fn permute_parantheses(nums: &[Rat], ops: &[Op], target: Rat, all_solutions: bool) -> (r:
    Vec<Solution>)
    requires
        nums@.len() >= 1,
        nums@.len() == ops@.len() + 1,
        all_wf(nums@),
    ensures
        views_of(r@) == search_par(nums@, ops@, target, all_solutions),
{
    let mut answers: Vec<Solution> = Vec::new();
    let mut i: usize = 0;
    while i < nums.len() - 1
        invariant
            nums@.len() >= 1,
            nums@.len() == ops@.len() + 1,
            all_wf(nums@),
            i <= nums@.len() - 1,
            search_par(nums@, ops@, target, all_solutions) == views_of(answers@) + par_outer(
                nums@,
                ops@,
                target,
                all_solutions,
                i as int,
            ),
            !all_solutions ==> answers@.len() == 0,
        decreases nums@.len() - i,
    {
        let mut j: usize = i + 1;
        while j < nums.len()
            invariant
                nums@.len() >= 1,
                nums@.len() == ops@.len() + 1,
                all_wf(nums@),
                i < j <= nums@.len(),
                i < nums@.len() - 1,
                all_solutions ==> search_par(nums@, ops@, target, true) == views_of(answers@)
                    + par_inner(nums@, ops@, target, true, i as int, j as int) + par_outer(
                    nums@,
                    ops@,
                    target,
                    true,
                    i + 1,
                ),
                !all_solutions ==> answers@.len() == 0 && search_par(nums@, ops@, target, false)
                    == (if par_inner(nums@, ops@, target, false, i as int, j as int).len() > 0 {
                    par_inner(nums@, ops@, target, false, i as int, j as int)
                } else {
                    par_outer(nums@, ops@, target, false, i + 1)
                }),
            decreases nums@.len() - j,
        {
            let returned = eval(nums, ops, i, j);
            let mut matched = false;
            if let Some(v) = returned {
                matched = v.eq_val(target);
            }
            if matched {
                let sol = Solution(slice_to_vec(nums), slice_to_vec(ops), i, j);
                proof {
                    let m = SolModel { nums: nums@, ops: ops@, lpar: i as int, rpar: j as int };
                    assert(sol@ =~= m);
                }
                if all_solutions {
                    proof {
                        assert(views_of(answers@.push(sol)) =~= views_of(answers@) + seq![sol@]);
                    }
                    answers.push(sol);
                } else {
                    let mut single: Vec<Solution> = Vec::new();
                    single.push(sol);
                    proof {
                        assert(views_of(single@) =~= seq![sol@]);
                    }
                    return single;
                }
            }
            j = j + 1;
        }
        i = i + 1;
    }
    answers
}

/// Middle search level: build every operator assignment over the allowed
/// set, trying allowed operators in the order supplied.
pub fn permute_ops(
    nums: &[Rat],
    ops: &mut Vec<Op>,
    allowed_ops: &[Op],
    target: Rat,
    all_solutions: bool,
) -> (r: Vec<Solution>)
    requires
        nums@.len() >= 1,
        old(ops)@.len() < nums@.len(),
        all_wf(nums@),
    ensures
        views_of(r@) == search_ops(nums@, old(ops)@, allowed_ops@, target, all_solutions),
        all_solutions || r@.len() == 0 ==> final(ops)@ == old(ops)@,
    decreases nums@.len() - old(ops)@.len(),
{
    if ops.len() == nums.len() - 1 {
        return permute_parantheses(nums, ops.as_slice(), target, all_solutions);
    }
    let mut answers: Vec<Solution> = Vec::new();
    let mut idx: usize = 0;
    while idx < allowed_ops.len()
        invariant
            nums@.len() >= 1,
            all_wf(nums@),
            ops@ == old(ops)@,
            ops@.len() + 1 < nums@.len(),
            idx <= allowed_ops@.len(),
            search_ops(nums@, old(ops)@, allowed_ops@, target, all_solutions) == views_of(
                answers@,
            ) + ops_loop(nums@, old(ops)@, allowed_ops@, target, all_solutions, idx as int),
            !all_solutions ==> answers@.len() == 0,
        decreases allowed_ops@.len() - idx,
    {
        ops.push(allowed_ops[idx]);
        let mut returned = permute_ops(nums, ops, allowed_ops, target, all_solutions);
        proof {
            lemma_views_of_concat(answers@, returned@);
        }
        let found = returned.len() > 0;
        answers.append(&mut returned);
        if !all_solutions && found {
            return answers;
        }
        ops.pop();
        proof {
            assert(ops@ =~= old(ops)@);
        }
        idx = idx + 1;
    }
    answers
}

/// Outermost search level: build every ordering of the input numbers by
/// choosing, at each step, one not-yet-placed number and recursing on the
/// rest.
pub fn permute_numbers(
    built: &mut Vec<Rat>,
    remaining: &[Rat],
    ops: &[Op],
    target: Rat,
    all_solutions: bool,
) -> (r: Vec<Solution>)
    requires
        old(built)@.len() + remaining@.len() >= 1,
        all_wf(old(built)@),
        all_wf(remaining@),
    ensures
        views_of(r@) == search_nums(old(built)@, remaining@, ops@, target, all_solutions),
        all_solutions || r@.len() == 0 ==> final(built)@ == old(built)@,
    decreases remaining@.len(),
{
    if remaining.len() == 0 {
        let mut used_ops: Vec<Op> = Vec::new();
        let answers = permute_ops(built.as_slice(), &mut used_ops, ops, target, all_solutions);
        return answers;
    }
    let mut answers: Vec<Solution> = Vec::new();
    let mut i: usize = 0;
    while i < remaining.len()
        invariant
            all_wf(old(built)@),
            all_wf(remaining@),
            built@ == old(built)@,
            remaining@.len() >= 1,
            i <= remaining@.len(),
            search_nums(old(built)@, remaining@, ops@, target, all_solutions) == views_of(
                answers@,
            ) + nums_loop(old(built)@, remaining@, ops@, target, all_solutions, i as int),
            !all_solutions ==> answers@.len() == 0,
        decreases remaining@.len() - i,
    {
        let mut new_rem: Vec<Rat> = slice_to_vec(remaining);
        let x = new_rem.remove(i);
        proof {
            assert(all_wf(built@.push(x)));
            assert(all_wf(new_rem@)) by {
                assert(forall|k: int| 0 <= k < new_rem@.len() ==> new_rem@[k]
                    == (if k < i { remaining@[k] } else { remaining@[k + 1] }));
            }
        }
        built.push(x);
        let mut returned = permute_numbers(built, new_rem.as_slice(), ops, target, all_solutions);
        proof {
            lemma_views_of_concat(answers@, returned@);
        }
        let found = returned.len() > 0;
        answers.append(&mut returned);
        if !all_solutions && found {
            return answers;
        }
        built.pop();
        proof {
            assert(built@ =~= old(built)@);
        }
        i = i + 1;
    }
    answers
}

/// Search for arrangements of `nums` that evaluate exactly to `target`,
/// using only operators from `ops`; in single mode the first match under
/// the enumeration order, in all mode every match.
pub fn brute_force_find(nums: Vec<Rat>, ops: Vec<Op>, target: Rat, all_solutions: bool) -> (r:
    Vec<Solution>)
    requires
        nums@.len() >= 1,
        all_wf(nums@),
    ensures
        views_of(r@) == spec_brute(nums@, ops@, target, all_solutions),
{
    let mut v: Vec<Rat> = Vec::new();
    permute_numbers(&mut v, nums.as_slice(), ops.as_slice(), target, all_solutions)
}

} // verus!
