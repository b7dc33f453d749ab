//! Library-wide laws of the search and the canonicalizer, proved over the
//! specification functions that the executable contracts are stated in.

use vstd::prelude::*;
use crate::operator::Op;
use crate::rat::Rat;
use crate::search::{
    SolModel, is_match, nums_loop, ops_loop, par_inner, par_outer, search_nums, search_ops,
    search_par, spec_brute,
};
use crate::canon::{lemma_canonical_elems, spec_canon};

verus! {

proof fn lemma_par_inner_sound(nums: Seq<Rat>, ops: Seq<Op>, target: Rat, all: bool, i: int, j: int)
    requires
        nums.len() >= 1,
        ops.len() + 1 == nums.len(),
        0 <= i < j,
    ensures
        forall|k: int| 0 <= k < par_inner(nums, ops, target, all, i, j).len() ==> is_match(
            #[trigger] par_inner(nums, ops, target, all, i, j)[k],
            target,
        ),
    decreases nums.len() - j,
{
    let r = par_inner(nums, ops, target, all, i, j);
    if j < nums.len() {
        lemma_par_inner_sound(nums, ops, target, all, i, j + 1);
        let rest = par_inner(nums, ops, target, all, i, j + 1);
        let matched = match crate::eval::spec_eval(nums, ops, i, j) {
            Some(v) => v.eqv(target),
            None => false,
        };
        if matched {
            let m = SolModel { nums, ops, lpar: i, rpar: j };
            assert(is_match(m, target));
            if all {
                assert forall|k: int| 0 <= k < r.len() implies is_match(
                    #[trigger] r[k],
                    target,
                ) by {
                    if k >= 1 {
                        assert(r[k] == rest[k - 1]);
                    }
                };
            }
        }
    }
}

proof fn lemma_par_outer_sound(nums: Seq<Rat>, ops: Seq<Op>, target: Rat, all: bool, i: int)
    requires
        nums.len() >= 1,
        ops.len() + 1 == nums.len(),
        0 <= i,
    ensures
        forall|k: int| 0 <= k < par_outer(nums, ops, target, all, i).len() ==> is_match(
            #[trigger] par_outer(nums, ops, target, all, i)[k],
            target,
        ),
    decreases nums.len() - i,
{
    let r = par_outer(nums, ops, target, all, i);
    if i + 1 < nums.len() {
        lemma_par_inner_sound(nums, ops, target, all, i, i + 1);
        lemma_par_outer_sound(nums, ops, target, all, i + 1);
        let row = par_inner(nums, ops, target, all, i, i + 1);
        let rest = par_outer(nums, ops, target, all, i + 1);
        if !(!all && row.len() > 0) {
            assert forall|k: int| 0 <= k < r.len() implies is_match(#[trigger] r[k], target) by {
                if k >= row.len() {
                    assert(r[k] == rest[k - row.len()]);
                } else {
                    assert(r[k] == row[k]);
                }
            };
        }
    }
}

proof fn lemma_search_ops_sound(nums: Seq<Rat>, ops: Seq<Op>, allowed: Seq<Op>, target: Rat, all: bool)
    requires
        nums.len() >= 1,
        ops.len() < nums.len(),
    ensures
        forall|k: int| 0 <= k < search_ops(nums, ops, allowed, target, all).len() ==> is_match(
            #[trigger] search_ops(nums, ops, allowed, target, all)[k],
            target,
        ),
    decreases nums.len() - ops.len(), allowed.len() + 1,
{
    let r = search_ops(nums, ops, allowed, target, all);
    if ops.len() + 1 >= nums.len() {
        lemma_par_outer_sound(nums, ops, target, all, 0);
        assert forall|k: int| 0 <= k < r.len() implies is_match(#[trigger] r[k], target) by {
            assert(r[k] == par_outer(nums, ops, target, all, 0)[k]);
        };
    } else {
        lemma_ops_loop_sound(nums, ops, allowed, target, all, 0);
        assert forall|k: int| 0 <= k < r.len() implies is_match(#[trigger] r[k], target) by {
            assert(r[k] == ops_loop(nums, ops, allowed, target, all, 0)[k]);
        };
    }
}

proof fn lemma_ops_loop_sound(
    nums: Seq<Rat>,
    ops: Seq<Op>,
    allowed: Seq<Op>,
    target: Rat,
    all: bool,
    idx: int,
)
    requires
        nums.len() >= 1,
        ops.len() < nums.len(),
    ensures
        forall|k: int| 0 <= k < ops_loop(nums, ops, allowed, target, all, idx).len() ==> is_match(
            #[trigger] ops_loop(nums, ops, allowed, target, all, idx)[k],
            target,
        ),
    decreases nums.len() - ops.len(), allowed.len() - idx,
{
    let r = ops_loop(nums, ops, allowed, target, all, idx);
    if 0 <= idx < allowed.len() && ops.len() + 1 < nums.len() {
        lemma_search_ops_sound(nums, ops.push(allowed[idx]), allowed, target, all);
        lemma_ops_loop_sound(nums, ops, allowed, target, all, idx + 1);
        let child = search_ops(nums, ops.push(allowed[idx]), allowed, target, all);
        let rest = ops_loop(nums, ops, allowed, target, all, idx + 1);
        if !(!all && child.len() > 0) {
            assert forall|k: int| 0 <= k < r.len() implies is_match(#[trigger] r[k], target) by {
                if k >= child.len() {
                    assert(r[k] == rest[k - child.len()]);
                } else {
                    assert(r[k] == child[k]);
                }
            };
        }
    }
}

proof fn lemma_search_nums_sound(
    built: Seq<Rat>,
    remaining: Seq<Rat>,
    allowed: Seq<Op>,
    target: Rat,
    all: bool,
)
    requires
        built.len() + remaining.len() >= 1,
    ensures
        forall|k: int| 0 <= k < search_nums(built, remaining, allowed, target, all).len()
            ==> is_match(#[trigger] search_nums(built, remaining, allowed, target, all)[k], target),
    decreases remaining.len(), remaining.len() + 1,
{
    let r = search_nums(built, remaining, allowed, target, all);
    if remaining.len() == 0 {
        lemma_search_ops_sound(built, Seq::empty(), allowed, target, all);
        assert forall|k: int| 0 <= k < r.len() implies is_match(#[trigger] r[k], target) by {
            assert(r[k] == search_ops(built, Seq::empty(), allowed, target, all)[k]);
        };
    } else {
        lemma_nums_loop_sound(built, remaining, allowed, target, all, 0);
        assert forall|k: int| 0 <= k < r.len() implies is_match(#[trigger] r[k], target) by {
            assert(r[k] == nums_loop(built, remaining, allowed, target, all, 0)[k]);
        };
    }
}

proof fn lemma_nums_loop_sound(
    built: Seq<Rat>,
    remaining: Seq<Rat>,
    allowed: Seq<Op>,
    target: Rat,
    all: bool,
    i: int,
)
    requires
        built.len() + remaining.len() >= 1,
    ensures
        forall|k: int| 0 <= k < nums_loop(built, remaining, allowed, target, all, i).len()
            ==> is_match(#[trigger] nums_loop(built, remaining, allowed, target, all, i)[k], target),
    decreases remaining.len(), remaining.len() - i,
{
    let r = nums_loop(built, remaining, allowed, target, all, i);
    if 0 <= i < remaining.len() {
        lemma_search_nums_sound(built.push(remaining[i]), remaining.remove(i), allowed, target, all);
        lemma_nums_loop_sound(built, remaining, allowed, target, all, i + 1);
        let child = search_nums(built.push(remaining[i]), remaining.remove(i), allowed, target, all);
        let rest = nums_loop(built, remaining, allowed, target, all, i + 1);
        if !(!all && child.len() > 0) {
            assert forall|k: int| 0 <= k < r.len() implies is_match(#[trigger] r[k], target) by {
                if k >= child.len() {
                    assert(r[k] == rest[k - child.len()]);
                } else {
                    assert(r[k] == child[k]);
                }
            };
        }
    }
}

/// Every solution the search returns is well-shaped and evaluates, via the
/// expression evaluator, exactly to the requested target.
pub proof fn lemma_search_sound(nums: Seq<Rat>, allowed: Seq<Op>, target: Rat, all: bool)
    requires
        nums.len() >= 1,
    ensures
        forall|k: int| 0 <= k < spec_brute(nums, allowed, target, all).len() ==> is_match(
            #[trigger] spec_brute(nums, allowed, target, all)[k],
            target,
        ),
{
    lemma_search_nums_sound(Seq::empty(), nums, allowed, target, all);
}

/// Soundness survives canonicalization: every solution in the canonical
/// result set evaluates exactly to the target.
pub proof fn lemma_pipeline_sound(nums: Seq<Rat>, allowed: Seq<Op>, target: Rat, all: bool)
    requires
        nums.len() >= 1,
    ensures
        forall|k: int| 0 <= k < spec_canon(spec_brute(nums, allowed, target, all)).len()
            ==> is_match(
            #[trigger] spec_canon(spec_brute(nums, allowed, target, all))[k],
            target,
        ),
{
    let found = spec_brute(nums, allowed, target, all);
    lemma_search_sound(nums, allowed, target, all);
    lemma_canonical_elems(found);
    let r = spec_canon(found);
    assert forall|k: int| 0 <= k < r.len() implies is_match(#[trigger] r[k], target) by {
        assert(found.contains(r[k]));
        let m = choose|m: int| 0 <= m < found.len() && found[m] == r[k];
        assert(is_match(found[m], target));
    };
}

/// One sequence is an initial segment of another.
pub open spec fn is_prefix(a: Seq<SolModel>, b: Seq<SolModel>) -> bool {
    a.len() <= b.len() && a == b.take(a.len() as int)
}

proof fn lemma_prefix_concat(a: Seq<SolModel>, b: Seq<SolModel>, c: Seq<SolModel>)
    requires
        is_prefix(a, b),
    ensures
        is_prefix(a, b + c),
{
    assert((b + c).take(a.len() as int) =~= b.take(a.len() as int));
}

proof fn lemma_prefix_refl(a: Seq<SolModel>)
    ensures
        is_prefix(a, a),
{
    assert(a.take(a.len() as int) =~= a);
}

proof fn lemma_par_inner_prefix(nums: Seq<Rat>, ops: Seq<Op>, target: Rat, i: int, j: int)
    ensures
        is_prefix(
            par_inner(nums, ops, target, false, i, j),
            par_inner(nums, ops, target, true, i, j),
        ),
        par_inner(nums, ops, target, false, i, j).len() == 0 <==> par_inner(
            nums,
            ops,
            target,
            true,
            i,
            j,
        ).len() == 0,
    decreases nums.len() - j,
{
    let s = par_inner(nums, ops, target, false, i, j);
    let a = par_inner(nums, ops, target, true, i, j);
    if j >= nums.len() {
        lemma_prefix_refl(s);
    } else {
        lemma_par_inner_prefix(nums, ops, target, i, j + 1);
        let matched = match crate::eval::spec_eval(nums, ops, i, j) {
            Some(v) => v.eqv(target),
            None => false,
        };
        if matched {
            let m = SolModel { nums, ops, lpar: i, rpar: j };
            lemma_prefix_refl(seq![m]);
            lemma_prefix_concat(seq![m], seq![m], par_inner(nums, ops, target, true, i, j + 1));
        }
    }
}

proof fn lemma_par_outer_prefix(nums: Seq<Rat>, ops: Seq<Op>, target: Rat, i: int)
    ensures
        is_prefix(par_outer(nums, ops, target, false, i), par_outer(nums, ops, target, true, i)),
        par_outer(nums, ops, target, false, i).len() == 0 <==> par_outer(
            nums,
            ops,
            target,
            true,
            i,
        ).len() == 0,
    decreases nums.len() - i,
{
    let s = par_outer(nums, ops, target, false, i);
    let a = par_outer(nums, ops, target, true, i);
    if i + 1 >= nums.len() {
        lemma_prefix_refl(s);
    } else {
        lemma_par_inner_prefix(nums, ops, target, i, i + 1);
        lemma_par_outer_prefix(nums, ops, target, i + 1);
        let row_s = par_inner(nums, ops, target, false, i, i + 1);
        let row_a = par_inner(nums, ops, target, true, i, i + 1);
        let rest_s = par_outer(nums, ops, target, false, i + 1);
        let rest_a = par_outer(nums, ops, target, true, i + 1);
        if row_s.len() > 0 {
            lemma_prefix_concat(row_s, row_a, rest_a);
        } else {
            assert(row_s + rest_s =~= rest_s);
            assert(row_a + rest_a =~= rest_a);
        }
    }
}

proof fn lemma_search_ops_prefix(nums: Seq<Rat>, ops: Seq<Op>, allowed: Seq<Op>, target: Rat)
    ensures
        is_prefix(
            search_ops(nums, ops, allowed, target, false),
            search_ops(nums, ops, allowed, target, true),
        ),
        search_ops(nums, ops, allowed, target, false).len() == 0 <==> search_ops(
            nums,
            ops,
            allowed,
            target,
            true,
        ).len() == 0,
    decreases nums.len() - ops.len(), allowed.len() + 1,
{
    if ops.len() + 1 >= nums.len() {
        lemma_par_outer_prefix(nums, ops, target, 0);
    } else {
        lemma_ops_loop_prefix(nums, ops, allowed, target, 0);
    }
}

proof fn lemma_ops_loop_prefix(nums: Seq<Rat>, ops: Seq<Op>, allowed: Seq<Op>, target: Rat, idx: int)
    ensures
        is_prefix(
            ops_loop(nums, ops, allowed, target, false, idx),
            ops_loop(nums, ops, allowed, target, true, idx),
        ),
        ops_loop(nums, ops, allowed, target, false, idx).len() == 0 <==> ops_loop(
            nums,
            ops,
            allowed,
            target,
            true,
            idx,
        ).len() == 0,
    decreases nums.len() - ops.len(), allowed.len() - idx,
{
    let s = ops_loop(nums, ops, allowed, target, false, idx);
    if !(0 <= idx < allowed.len()) || ops.len() + 1 >= nums.len() {
        lemma_prefix_refl(s);
    } else {
        lemma_search_ops_prefix(nums, ops.push(allowed[idx]), allowed, target);
        lemma_ops_loop_prefix(nums, ops, allowed, target, idx + 1);
        let child_s = search_ops(nums, ops.push(allowed[idx]), allowed, target, false);
        let child_a = search_ops(nums, ops.push(allowed[idx]), allowed, target, true);
        let rest_s = ops_loop(nums, ops, allowed, target, false, idx + 1);
        let rest_a = ops_loop(nums, ops, allowed, target, true, idx + 1);
        if child_s.len() > 0 {
            lemma_prefix_concat(child_s, child_a, rest_a);
        } else {
            assert(child_s + rest_s =~= rest_s);
            assert(child_a + rest_a =~= rest_a);
        }
    }
}

proof fn lemma_search_nums_prefix(built: Seq<Rat>, remaining: Seq<Rat>, allowed: Seq<Op>, target: Rat)
    ensures
        is_prefix(
            search_nums(built, remaining, allowed, target, false),
            search_nums(built, remaining, allowed, target, true),
        ),
        search_nums(built, remaining, allowed, target, false).len() == 0 <==> search_nums(
            built,
            remaining,
            allowed,
            target,
            true,
        ).len() == 0,
    decreases remaining.len(), remaining.len() + 1,
{
    if remaining.len() == 0 {
        lemma_search_ops_prefix(built, Seq::empty(), allowed, target);
    } else {
        lemma_nums_loop_prefix(built, remaining, allowed, target, 0);
    }
}

proof fn lemma_nums_loop_prefix(
    built: Seq<Rat>,
    remaining: Seq<Rat>,
    allowed: Seq<Op>,
    target: Rat,
    i: int,
)
    ensures
        is_prefix(
            nums_loop(built, remaining, allowed, target, false, i),
            nums_loop(built, remaining, allowed, target, true, i),
        ),
        nums_loop(built, remaining, allowed, target, false, i).len() == 0 <==> nums_loop(
            built,
            remaining,
            allowed,
            target,
            true,
            i,
        ).len() == 0,
    decreases remaining.len(), remaining.len() - i,
{
    let s = nums_loop(built, remaining, allowed, target, false, i);
    if !(0 <= i < remaining.len()) {
        lemma_prefix_refl(s);
    } else {
        lemma_search_nums_prefix(built.push(remaining[i]), remaining.remove(i), allowed, target);
        lemma_nums_loop_prefix(built, remaining, allowed, target, i + 1);
        let child_s = search_nums(built.push(remaining[i]), remaining.remove(i), allowed, target, false);
        let child_a = search_nums(built.push(remaining[i]), remaining.remove(i), allowed, target, true);
        let rest_s = nums_loop(built, remaining, allowed, target, false, i + 1);
        let rest_a = nums_loop(built, remaining, allowed, target, true, i + 1);
        if child_s.len() > 0 {
            lemma_prefix_concat(child_s, child_a, rest_a);
        } else {
            assert(child_s + rest_s =~= rest_s);
            assert(child_a + rest_a =~= rest_a);
        }
    }
}

/// The single-solution search result is an initial segment of the
/// all-solutions result for the same input, so the single solution, when
/// one exists, is an element of the all-solutions result set.
pub proof fn lemma_single_in_all(nums: Seq<Rat>, allowed: Seq<Op>, target: Rat)
    ensures
        is_prefix(
            spec_brute(nums, allowed, target, false),
            spec_brute(nums, allowed, target, true),
        ),
        forall|k: int| 0 <= k < spec_brute(nums, allowed, target, false).len() ==> spec_brute(
            nums,
            allowed,
            target,
            true,
        ).contains(#[trigger] spec_brute(nums, allowed, target, false)[k]),
{
    lemma_search_nums_prefix(Seq::empty(), nums, allowed, target);
    let s = spec_brute(nums, allowed, target, false);
    let a = spec_brute(nums, allowed, target, true);
    assert forall|k: int| 0 <= k < s.len() implies a.contains(#[trigger] s[k]) by {
        assert(s[k] == a.take(s.len() as int)[k]);
        assert(a[k] == s[k]);
    };
}

} // verus!
