//! The result canonicalizer: a total order over solutions used to group
//! exact duplicates, a sort by that order, and removal of consecutive
//! duplicates.
//!
//! The order compares paren-left descending, then paren-right descending,
//! then the operator sequence, then the operand sequence; it carries no
//! ranking of solution quality. Two solutions are exact duplicates when
//! operands, operators and the paren span are all identical.

use std::cmp::Ordering;
use vstd::prelude::*;
use crate::operator::Op;
use crate::rat::Rat;
use crate::search::{SolModel, Solution, views_of};

verus! {

/// Reverse an ordering outcome.
pub open spec fn flip(o: Ordering) -> Ordering {
    match o {
        Ordering::Less => Ordering::Greater,
        Ordering::Equal => Ordering::Equal,
        Ordering::Greater => Ordering::Less,
    }
}

/// Ascending comparison of two mathematical integers.
pub open spec fn cmp_int(a: int, b: int) -> Ordering {
    if a < b {
        Ordering::Less
    } else if a > b {
        Ordering::Greater
    } else {
        Ordering::Equal
    }
}

/// Operators compare by their fixed rank.
pub open spec fn cmp_op(a: Op, b: Op) -> Ordering {
    cmp_int(a.spec_rank(), b.spec_rank())
}

/// Operands compare by their representation: numerator, then denominator.
pub open spec fn cmp_rat(a: Rat, b: Rat) -> Ordering {
    if a.num != b.num {
        cmp_int(a.num as int, b.num as int)
    } else {
        cmp_int(a.den as int, b.den as int)
    }
}

/// Lexicographic comparison of operator sequences; a strict prefix is less.
pub open spec fn cmp_ops(a: Seq<Op>, b: Seq<Op>) -> Ordering
    decreases a.len(),
{
    if a.len() == 0 && b.len() == 0 {
        Ordering::Equal
    } else if a.len() == 0 {
        Ordering::Less
    } else if b.len() == 0 {
        Ordering::Greater
    } else {
        match cmp_op(a[0], b[0]) {
            Ordering::Equal => cmp_ops(a.drop_first(), b.drop_first()),
            c => c,
        }
    }
}

/// Lexicographic comparison of operand sequences; a strict prefix is less.
pub open spec fn cmp_rats(a: Seq<Rat>, b: Seq<Rat>) -> Ordering
    decreases a.len(),
{
    if a.len() == 0 && b.len() == 0 {
        Ordering::Equal
    } else if a.len() == 0 {
        Ordering::Less
    } else if b.len() == 0 {
        Ordering::Greater
    } else {
        match cmp_rat(a[0], b[0]) {
            Ordering::Equal => cmp_rats(a.drop_first(), b.drop_first()),
            c => c,
        }
    }
}

/// Ascending lexicographic comparison of whole solutions: paren-left, then
/// paren-right, then operators, then operands.
pub open spec fn cmp_sol(a: SolModel, b: SolModel) -> Ordering {
    match cmp_int(a.lpar, b.lpar) {
        Ordering::Equal => match cmp_int(a.rpar, b.rpar) {
            Ordering::Equal => match cmp_ops(a.ops, b.ops) {
                Ordering::Equal => cmp_rats(a.nums, b.nums),
                c => c,
            },
            c => c,
        },
        c => c,
    }
}

/// The canonicalizer's total order: every component descending, as the
/// grouping order requires nothing more than consistency.
pub open spec fn spec_before(a: SolModel, b: SolModel) -> Ordering {
    flip(cmp_sol(a, b))
}

/// Non-strict order used for sortedness.
pub open spec fn sol_le(a: SolModel, b: SolModel) -> bool {
    spec_before(a, b) != Ordering::Greater
}

/// All pairs in order.
pub open spec fn sorted(s: Seq<SolModel>) -> bool {
    forall|i: int, j: int| 0 <= i < j < s.len() ==> sol_le(s[i], s[j])
}

/// No two entries are exact duplicates.
pub open spec fn distinct(s: Seq<SolModel>) -> bool {
    forall|i: int, j: int| 0 <= i < j < s.len() ==> s[i] != s[j]
}

/// Insert a solution into a sorted sequence, before the first entry it does
/// not come strictly after.
pub open spec fn spec_insert(x: SolModel, s: Seq<SolModel>) -> Seq<SolModel>
    decreases s.len(),
{
    if s.len() == 0 {
        seq![x]
    } else if spec_before(x, s[0]) != Ordering::Greater {
        seq![x] + s
    } else {
        seq![s[0]] + spec_insert(x, s.drop_first())
    }
}

/// Insertion sort by the canonical order.
pub open spec fn spec_sort(s: Seq<SolModel>) -> Seq<SolModel>
    decreases s.len(),
{
    if s.len() == 0 {
        s
    } else {
        spec_insert(s.last(), spec_sort(s.drop_last()))
    }
}

/// Collapse consecutive exact duplicates, keeping the first of each run.
pub open spec fn spec_dedup(s: Seq<SolModel>) -> Seq<SolModel>
    decreases s.len(),
{
    if s.len() <= 1 {
        s
    } else {
        let front = spec_dedup(s.drop_last());
        if s[s.len() - 1] == s[s.len() - 2] {
            front
        } else {
            front.push(s.last())
        }
    }
}

/// The canonical form of a result set: sorted, consecutive duplicates
/// collapsed.
pub open spec fn spec_canon(s: Seq<SolModel>) -> Seq<SolModel> {
    spec_dedup(spec_sort(s))
}

fn cmp_usize_exec(a: usize, b: usize) -> (r: Ordering)
    ensures
        r == cmp_int(a as int, b as int),
{
    if a < b {
        Ordering::Less
    } else if a > b {
        Ordering::Greater
    } else {
        Ordering::Equal
    }
}

fn cmp_ops_exec(a: &Vec<Op>, b: &Vec<Op>) -> (r: Ordering)
    ensures
        r == cmp_ops(a@, b@),
{
    let mut k: usize = 0;
    proof {
        assert(a@.skip(0) =~= a@);
        assert(b@.skip(0) =~= b@);
    }
    loop
        invariant
            k <= a@.len(),
            k <= b@.len(),
            cmp_ops(a@, b@) == cmp_ops(a@.skip(k as int), b@.skip(k as int)),
        decreases a@.len() - k,
    {
        if k == a.len() && k == b.len() {
            return Ordering::Equal;
        }
        if k == a.len() {
            return Ordering::Less;
        }
        if k == b.len() {
            return Ordering::Greater;
        }
        let ra = a[k].rank();
        let rb = b[k].rank();
        if ra < rb {
            return Ordering::Less;
        }
        if ra > rb {
            return Ordering::Greater;
        }
        proof {
            assert(a@.skip(k as int).drop_first() =~= a@.skip(k + 1));
            assert(b@.skip(k as int).drop_first() =~= b@.skip(k + 1));
        }
        k = k + 1;
    }
}

fn cmp_rat_exec(a: &Rat, b: &Rat) -> (r: Ordering)
    ensures
        r == cmp_rat(*a, *b),
{
    if a.num != b.num {
        if a.num < b.num {
            Ordering::Less
        } else {
            Ordering::Greater
        }
    } else {
        if a.den < b.den {
            Ordering::Less
        } else if a.den > b.den {
            Ordering::Greater
        } else {
            Ordering::Equal
        }
    }
}

fn cmp_rats_exec(a: &Vec<Rat>, b: &Vec<Rat>) -> (r: Ordering)
    ensures
        r == cmp_rats(a@, b@),
{
    let mut k: usize = 0;
    proof {
        assert(a@.skip(0) =~= a@);
        assert(b@.skip(0) =~= b@);
    }
    loop
        invariant
            k <= a@.len(),
            k <= b@.len(),
            cmp_rats(a@, b@) == cmp_rats(a@.skip(k as int), b@.skip(k as int)),
        decreases a@.len() - k,
    {
        if k == a.len() && k == b.len() {
            return Ordering::Equal;
        }
        if k == a.len() {
            return Ordering::Less;
        }
        if k == b.len() {
            return Ordering::Greater;
        }
        let c = cmp_rat_exec(&a[k], &b[k]);
        match c {
            Ordering::Equal => {
                proof {
                    assert(a@.skip(k as int).drop_first() =~= a@.skip(k + 1));
                    assert(b@.skip(k as int).drop_first() =~= b@.skip(k + 1));
                }
                k = k + 1;
            },
            _ => {
                return c;
            },
        }
    }
}

impl Solution {
    /// The canonicalizer's comparison of two solutions.
    pub fn before(&self, other: &Solution) -> (r: Ordering)
        ensures
            r == spec_before(self@, other@),
    {
        let c = cmp_usize_exec(self.2, other.2);
        match c {
            Ordering::Equal => {
                let c2 = cmp_usize_exec(self.3, other.3);
                match c2 {
                    Ordering::Equal => {
                        let c3 = cmp_ops_exec(&self.1, &other.1);
                        match c3 {
                            Ordering::Equal => {
                                let c4 = cmp_rats_exec(&self.0, &other.0);
                                flip_exec(c4)
                            },
                            _ => flip_exec(c3),
                        }
                    },
                    _ => flip_exec(c2),
                }
            },
            _ => flip_exec(c),
        }
    }
}

fn flip_exec(o: Ordering) -> (r: Ordering)
    ensures
        r == flip(o),
{
    match o {
        Ordering::Less => Ordering::Greater,
        Ordering::Equal => Ordering::Equal,
        Ordering::Greater => Ordering::Less,
    }
}

/// Insert a solution into an already sorted vector, keeping the order.
fn insert_sorted(x: Solution, mut v: Vec<Solution>) -> (r: Vec<Solution>)
    ensures
        views_of(r@) == spec_insert(x@, views_of(v@)),
    decreases v@.len(),
{
    let ghost vv = v@;
    if v.len() == 0 {
        let mut r: Vec<Solution> = Vec::new();
        r.push(x);
        proof {
            assert(views_of(r@) =~= seq![x@]);
        }
        r
    } else {
        let c = x.before(&v[0]);
        if !matches!(c, Ordering::Greater) {
            let mut r: Vec<Solution> = Vec::new();
            r.push(x);
            r.append(&mut v);
            proof {
                assert(views_of(r@) =~= seq![x@] + views_of(vv));
            }
            r
        } else {
            let h = v.remove(0);
            let rest = insert_sorted(x, v);
            let mut r: Vec<Solution> = Vec::new();
            r.push(h);
            let mut rest2 = rest;
            r.append(&mut rest2);
            proof {
                assert(views_of(vv.remove(0)) =~= views_of(vv).drop_first());
                assert(views_of(r@) =~= seq![h@] + spec_insert(x@, views_of(vv).drop_first()));
                assert(seq![h@] == seq![views_of(vv)[0]]);
            }
            r
        }
    }
}

/// Sort a result set by the canonical order.
pub fn sort_solutions(mut v: Vec<Solution>) -> (r: Vec<Solution>)
    ensures
        views_of(r@) == spec_sort(views_of(v@)),
    decreases v@.len(),
{
    let ghost vv = v@;
    if v.len() == 0 {
        proof {
            assert(views_of(v@) =~= Seq::<SolModel>::empty());
        }
        v
    } else {
        let x = v.pop().unwrap();
        proof {
            assert(views_of(v@) =~= views_of(vv).drop_last());
            assert(x@ == views_of(vv).last());
        }
        let s = sort_solutions(v);
        insert_sorted(x, s)
    }
}

/// Remove consecutive exact duplicates from a sorted result set, keeping
/// the first of each run.
pub fn dedup_solutions(mut v: Vec<Solution>) -> (r: Vec<Solution>)
    ensures
        views_of(r@) == spec_dedup(views_of(v@)),
{
    let ghost svs = views_of(v@);
    let mut out: Vec<Solution> = Vec::new();
    proof {
        assert(svs.skip(0) =~= svs);
        assert(svs.take(0) =~= Seq::<SolModel>::empty());
        assert(views_of(out@) =~= Seq::<SolModel>::empty());
    }
    while v.len() > 0
        invariant
            v@.len() <= svs.len(),
            views_of(v@) == svs.skip(svs.len() - v@.len()),
            views_of(out@) == spec_dedup(svs.take(svs.len() - v@.len())),
            svs.len() > v@.len() ==> out@.len() >= 1 && views_of(out@).last() == svs[svs.len()
                - v@.len() - 1],
        decreases v@.len(),
    {
        let ghost i_g: int = svs.len() - v@.len();
        proof {
            assert(views_of(v@)[0] == v@[0]@);
            assert(svs.skip(i_g)[0] == svs[i_g]);
        }
        let mut keep = true;
        if out.len() > 0 {
            let c = out[out.len() - 1].before(&v[0]);
            keep = !matches!(c, Ordering::Equal);
            proof {
                assert(views_of(out@)[out@.len() - 1] == out@[out@.len() - 1]@);
                lemma_before_eq(views_of(out@).last(), svs[i_g]);
            }
        }
        proof {
            assert(keep == (i_g == 0 || svs[i_g] != svs[i_g - 1]));
            assert(svs.take(i_g + 1).drop_last() =~= svs.take(i_g));
            assert(svs.take(i_g + 1).last() == svs[i_g]);
            if i_g >= 1 {
                assert(svs.take(i_g + 1)[i_g - 1] == svs[i_g - 1]);
            } else {
                assert(svs.take(1) =~= seq![svs[0]]);
            }
        }
        let ghost pv = v@;
        let x = v.remove(0);
        proof {
            assert(views_of(pv.remove(0)) =~= views_of(pv).drop_first());
            assert(views_of(pv).drop_first() =~= svs.skip(i_g + 1));
        }
        if keep {
            proof {
                assert(views_of(out@.push(x)) =~= views_of(out@).push(x@));
                if i_g == 0 {
                    assert(views_of(out@).push(x@) =~= svs.take(1));
                }
            }
            out.push(x);
        }
    }
    proof {
        assert(svs.take(svs.len() - v@.len()) =~= svs);
    }
    out
}

/// Canonicalize a result set: sort it by the canonical order and collapse
/// exact duplicates.
pub fn canonicalize(results: Vec<Solution>) -> (r: Vec<Solution>)
    ensures
        views_of(r@) == spec_canon(views_of(results@)),
{
    let s = sort_solutions(results);
    dedup_solutions(s)
}

/// Comparing equal means being the same solution.
pub proof fn lemma_before_eq(a: SolModel, b: SolModel)
    ensures
        (spec_before(a, b) == Ordering::Equal) <==> a == b,
{
    lemma_cmp_ops_eq(a.ops, b.ops);
    lemma_cmp_rats_eq(a.nums, b.nums);
    if cmp_sol(a, b) == Ordering::Equal {
        assert(a =~= b);
    }
}

proof fn lemma_cmp_ops_eq(a: Seq<Op>, b: Seq<Op>)
    ensures
        (cmp_ops(a, b) == Ordering::Equal) <==> a == b,
    decreases a.len(),
{
    if a.len() > 0 && b.len() > 0 {
        lemma_cmp_ops_eq(a.drop_first(), b.drop_first());
        if cmp_ops(a, b) == Ordering::Equal {
            assert(cmp_op(a[0], b[0]) == Ordering::Equal);
            lemma_rank_injective(a[0], b[0]);
            assert(a.drop_first() == b.drop_first());
            assert forall|i: int| 0 <= i < a.len() implies a[i] == b[i] by {
                if i >= 1 {
                    assert(a[i] == a.drop_first()[i - 1]);
                    assert(b[i] == b.drop_first()[i - 1]);
                }
            };
            assert(a =~= b);
        }
        if a == b {
            assert(a.drop_first() =~= b.drop_first());
            assert(a[0] == b[0]);
        }
    } else {
        if a.len() == 0 && b.len() == 0 {
            assert(a =~= b);
        }
    }
}

proof fn lemma_rank_injective(x: Op, y: Op)
    requires
        x.spec_rank() == y.spec_rank(),
    ensures
        x == y,
{
    match x {
        Op::Plus => {
            assert(y.spec_rank() == 0);
        },
        Op::Minus => {
            assert(y.spec_rank() == 1);
        },
        Op::Multiply => {
            assert(y.spec_rank() == 2);
        },
        Op::Divide => {
            assert(y.spec_rank() == 3);
        },
    }
}

proof fn lemma_cmp_ops_flip(a: Seq<Op>, b: Seq<Op>)
    ensures
        cmp_ops(b, a) == flip(cmp_ops(a, b)),
    decreases a.len(),
{
    if a.len() > 0 && b.len() > 0 {
        lemma_cmp_ops_flip(a.drop_first(), b.drop_first());
    }
}

proof fn lemma_cmp_rats_flip(a: Seq<Rat>, b: Seq<Rat>)
    ensures
        cmp_rats(b, a) == flip(cmp_rats(a, b)),
    decreases a.len(),
{
    if a.len() > 0 && b.len() > 0 {
        lemma_cmp_rats_flip(a.drop_first(), b.drop_first());
    }
}

/// The order is antisymmetric: comparing in the other direction reverses
/// the outcome.
pub proof fn lemma_before_flip(a: SolModel, b: SolModel)
    ensures
        spec_before(b, a) == flip(spec_before(a, b)),
{
    lemma_cmp_ops_flip(a.ops, b.ops);
    lemma_cmp_rats_flip(a.nums, b.nums);
}

proof fn lemma_cmp_ops_trans(a: Seq<Op>, b: Seq<Op>, c: Seq<Op>)
    requires
        cmp_ops(a, b) != Ordering::Less,
        cmp_ops(b, c) != Ordering::Less,
    ensures
        cmp_ops(a, c) != Ordering::Less,
        cmp_ops(a, b) == Ordering::Greater || cmp_ops(b, c) == Ordering::Greater ==> cmp_ops(
            a,
            c,
        ) == Ordering::Greater,
    decreases a.len(),
{
    if a.len() == 0 {
        assert(b.len() == 0);
        assert(c.len() == 0);
    } else if b.len() == 0 {
        assert(c.len() == 0);
    } else if c.len() == 0 {
    } else {
        let x = cmp_op(a[0], b[0]);
        let y = cmp_op(b[0], c[0]);
        assert(x != Ordering::Less);
        assert(y != Ordering::Less);
        if x == Ordering::Equal && y == Ordering::Equal {
            lemma_cmp_ops_trans(a.drop_first(), b.drop_first(), c.drop_first());
        } else {
            assert(a[0].spec_rank() > c[0].spec_rank());
            assert(cmp_op(a[0], c[0]) == Ordering::Greater);
        }
    }
}

proof fn lemma_cmp_rats_trans(a: Seq<Rat>, b: Seq<Rat>, c: Seq<Rat>)
    requires
        cmp_rats(a, b) != Ordering::Less,
        cmp_rats(b, c) != Ordering::Less,
    ensures
        cmp_rats(a, c) != Ordering::Less,
        cmp_rats(a, b) == Ordering::Greater || cmp_rats(b, c) == Ordering::Greater ==> cmp_rats(
            a,
            c,
        ) == Ordering::Greater,
    decreases a.len(),
{
    if a.len() == 0 {
        assert(b.len() == 0);
        assert(c.len() == 0);
    } else if b.len() == 0 {
        assert(c.len() == 0);
    } else if c.len() == 0 {
    } else {
        let x = cmp_rat(a[0], b[0]);
        let y = cmp_rat(b[0], c[0]);
        assert(x != Ordering::Less);
        assert(y != Ordering::Less);
        if x == Ordering::Equal && y == Ordering::Equal {
            assert(a[0] == b[0] && b[0] == c[0]);
            lemma_cmp_rats_trans(a.drop_first(), b.drop_first(), c.drop_first());
        } else {
            assert(cmp_rat(a[0], c[0]) == Ordering::Greater);
        }
    }
}

/// The order is total.
pub proof fn lemma_le_total(a: SolModel, b: SolModel)
    ensures
        sol_le(a, b) || sol_le(b, a),
{
    lemma_before_flip(a, b);
}

/// Mutually ordered solutions are the same solution.
pub proof fn lemma_le_antisym(a: SolModel, b: SolModel)
    requires
        sol_le(a, b),
        sol_le(b, a),
    ensures
        a == b,
{
    lemma_before_flip(a, b);
    lemma_before_eq(a, b);
}

pub proof fn lemma_le_refl(a: SolModel)
    ensures
        sol_le(a, a),
{
    lemma_before_eq(a, a);
}

/// The order is transitive.
pub proof fn lemma_le_trans(a: SolModel, b: SolModel, c: SolModel)
    requires
        sol_le(a, b),
        sol_le(b, c),
    ensures
        sol_le(a, c),
{
    assert(cmp_sol(a, b) != Ordering::Less);
    assert(cmp_sol(b, c) != Ordering::Less);
    if a.lpar == b.lpar && b.lpar == c.lpar {
        if a.rpar == b.rpar && b.rpar == c.rpar {
            let x = cmp_ops(a.ops, b.ops);
            let y = cmp_ops(b.ops, c.ops);
            assert(x != Ordering::Less);
            assert(y != Ordering::Less);
            lemma_cmp_ops_trans(a.ops, b.ops, c.ops);
            if x == Ordering::Equal && y == Ordering::Equal {
                lemma_cmp_ops_eq(a.ops, b.ops);
                lemma_cmp_ops_eq(b.ops, c.ops);
                lemma_cmp_ops_eq(a.ops, c.ops);
                lemma_cmp_rats_trans(a.nums, b.nums, c.nums);
            }
        }
    }
}

proof fn lemma_cmp_rats_eq(a: Seq<Rat>, b: Seq<Rat>)
    ensures
        (cmp_rats(a, b) == Ordering::Equal) <==> a == b,
    decreases a.len(),
{
    if a.len() > 0 && b.len() > 0 {
        lemma_cmp_rats_eq(a.drop_first(), b.drop_first());
        if cmp_rats(a, b) == Ordering::Equal {
            assert(a[0].num == b[0].num && a[0].den == b[0].den);
            assert(a[0] == b[0]);
            assert(a.drop_first() == b.drop_first());
            assert forall|i: int| 0 <= i < a.len() implies a[i] == b[i] by {
                if i >= 1 {
                    assert(a[i] == a.drop_first()[i - 1]);
                    assert(b[i] == b.drop_first()[i - 1]);
                }
            };
            assert(a =~= b);
        }
        if a == b {
            assert(a.drop_first() =~= b.drop_first());
            assert(a[0] == b[0]);
        }
    } else {
        if a.len() == 0 && b.len() == 0 {
            assert(a =~= b);
        }
    }
}

proof fn lemma_sorted_drop_last(s: Seq<SolModel>)
    requires
        sorted(s),
        s.len() >= 1,
    ensures
        sorted(s.drop_last()),
{
    assert forall|i: int, j: int| 0 <= i < j < s.drop_last().len() implies sol_le(
        s.drop_last()[i],
        s.drop_last()[j],
    ) by {
        assert(s.drop_last()[i] == s[i]);
        assert(s.drop_last()[j] == s[j]);
    };
}

proof fn lemma_sorted_drop_first(s: Seq<SolModel>)
    requires
        sorted(s),
        s.len() >= 1,
    ensures
        sorted(s.drop_first()),
{
    assert forall|i: int, j: int| 0 <= i < j < s.drop_first().len() implies sol_le(
        s.drop_first()[i],
        s.drop_first()[j],
    ) by {
        assert(s.drop_first()[i] == s[i + 1]);
        assert(s.drop_first()[j] == s[j + 1]);
    };
}

proof fn lemma_insert_sorted_props(x: SolModel, s: Seq<SolModel>)
    requires
        sorted(s),
    ensures
        sorted(spec_insert(x, s)),
        spec_insert(x, s).len() == s.len() + 1,
        s.len() == 0 ==> spec_insert(x, s)[0] == x,
        s.len() > 0 ==> spec_insert(x, s)[0] == x || spec_insert(x, s)[0] == s[0],
    decreases s.len(),
{
    if s.len() == 0 {
    } else if spec_before(x, s[0]) != Ordering::Greater {
        let r = seq![x] + s;
        assert forall|i: int, j: int| 0 <= i < j < r.len() implies sol_le(r[i], r[j]) by {
            if i == 0 {
                assert(r[j] == s[j - 1]);
                if j > 1 {
                    lemma_le_trans(x, s[0], s[j - 1]);
                }
            } else {
                assert(r[i] == s[i - 1]);
                assert(r[j] == s[j - 1]);
            }
        };
    } else {
        lemma_sorted_drop_first(s);
        lemma_insert_sorted_props(x, s.drop_first());
        let t = spec_insert(x, s.drop_first());
        let r = seq![s[0]] + t;
        lemma_before_flip(x, s[0]);
        assert(sol_le(s[0], x));
        if s.len() > 1 {
            assert(s.drop_first()[0] == s[1]);
            assert(sol_le(s[0], s[1]));
        }
        assert(sol_le(s[0], t[0]));
        assert forall|i: int, j: int| 0 <= i < j < r.len() implies sol_le(r[i], r[j]) by {
            if i == 0 {
                assert(r[j] == t[j - 1]);
                if j > 1 {
                    assert(sol_le(t[0], t[j - 1]));
                    lemma_le_trans(s[0], t[0], t[j - 1]);
                }
            } else {
                assert(r[i] == t[i - 1]);
                assert(r[j] == t[j - 1]);
            }
        };
    }
}

proof fn lemma_sort_sorted(s: Seq<SolModel>)
    ensures
        sorted(spec_sort(s)),
        spec_sort(s).len() == s.len(),
    decreases s.len(),
{
    if s.len() > 0 {
        lemma_sort_sorted(s.drop_last());
        lemma_insert_sorted_props(s.last(), spec_sort(s.drop_last()));
    }
}

proof fn lemma_dedup_props(s: Seq<SolModel>)
    requires
        sorted(s),
    ensures
        sorted(spec_dedup(s)),
        distinct(spec_dedup(s)),
        spec_dedup(s).len() <= s.len(),
        s.len() >= 1 ==> spec_dedup(s).len() >= 1 && spec_dedup(s).last() == s.last(),
    decreases s.len(),
{
    if s.len() <= 1 {
    } else {
        lemma_sorted_drop_last(s);
        lemma_dedup_props(s.drop_last());
        let front = spec_dedup(s.drop_last());
        assert(front.last() == s[s.len() - 2]);
        if s[s.len() - 1] == s[s.len() - 2] {
        } else {
            let d = front.push(s.last());
            assert(sol_le(s[s.len() - 2], s.last()));
            assert forall|i: int, j: int| 0 <= i < j < d.len() implies sol_le(d[i], d[j]) by {
                if j == d.len() - 1 {
                    assert(d[i] == front[i]);
                    if i < front.len() - 1 {
                        assert(sol_le(front[i], front.last()));
                    } else {
                        lemma_le_refl(front[i]);
                    }
                    lemma_le_trans(front[i], s[s.len() - 2], s.last());
                } else {
                    assert(d[i] == front[i]);
                    assert(d[j] == front[j]);
                }
            };
            assert forall|i: int, j: int| 0 <= i < j < d.len() implies d[i] != d[j] by {
                if j == d.len() - 1 {
                    assert(d[i] == front[i]);
                    if d[i] == d[j] {
                        if i < front.len() - 1 {
                            assert(sol_le(front[i], front.last()));
                        } else {
                            lemma_le_refl(front[i]);
                        }
                        assert(sol_le(s.last(), s[s.len() - 2]));
                        lemma_le_antisym(s[s.len() - 2], s.last());
                        assert(false);
                    }
                } else {
                    assert(d[i] == front[i]);
                    assert(d[j] == front[j]);
                }
            };
        }
    }
}

/// After canonicalization the result set is sorted by the canonical order
/// and contains no two solutions identical across operand sequence,
/// operator sequence and paren span.
pub proof fn lemma_canonical_distinct(s: Seq<SolModel>)
    ensures
        sorted(spec_canon(s)),
        distinct(spec_canon(s)),
{
    lemma_sort_sorted(s);
    lemma_dedup_props(spec_sort(s));
}

proof fn lemma_insert_of_upper(x: SolModel, s: Seq<SolModel>)
    requires
        forall|k: int| 0 <= k < s.len() ==> sol_le(#[trigger] s[k], x) && s[k] != x,
    ensures
        spec_insert(x, s) == s.push(x),
    decreases s.len(),
{
    if s.len() == 0 {
        assert(spec_insert(x, s) =~= s.push(x));
    } else {
        if spec_before(x, s[0]) != Ordering::Greater {
            lemma_le_antisym(s[0], x);
            assert(false);
        }
        assert forall|k: int| 0 <= k < s.drop_first().len() implies sol_le(
            #[trigger] s.drop_first()[k],
            x,
        ) && s.drop_first()[k] != x by {
            assert(s.drop_first()[k] == s[k + 1]);
        };
        lemma_insert_of_upper(x, s.drop_first());
        assert(spec_insert(x, s) =~= s.push(x));
    }
}

proof fn lemma_sort_of_canonical(t: Seq<SolModel>)
    requires
        sorted(t),
        distinct(t),
    ensures
        spec_sort(t) == t,
    decreases t.len(),
{
    if t.len() > 0 {
        lemma_sorted_drop_last(t);
        assert forall|i: int, j: int| 0 <= i < j < t.drop_last().len() implies t.drop_last()[i]
            != t.drop_last()[j] by {
            assert(t.drop_last()[i] == t[i]);
            assert(t.drop_last()[j] == t[j]);
        };
        lemma_sort_of_canonical(t.drop_last());
        assert forall|k: int| 0 <= k < t.drop_last().len() implies sol_le(
            #[trigger] t.drop_last()[k],
            t.last(),
        ) && t.drop_last()[k] != t.last() by {
            assert(t.drop_last()[k] == t[k]);
        };
        lemma_insert_of_upper(t.last(), t.drop_last());
        assert(t.drop_last().push(t.last()) =~= t);
    }
}

proof fn lemma_dedup_of_distinct(t: Seq<SolModel>)
    requires
        distinct(t),
    ensures
        spec_dedup(t) == t,
    decreases t.len(),
{
    if t.len() > 1 {
        assert forall|i: int, j: int| 0 <= i < j < t.drop_last().len() implies t.drop_last()[i]
            != t.drop_last()[j] by {
            assert(t.drop_last()[i] == t[i]);
            assert(t.drop_last()[j] == t[j]);
        };
        lemma_dedup_of_distinct(t.drop_last());
        assert(t[t.len() - 1] != t[t.len() - 2]);
        assert(t.drop_last().push(t.last()) =~= t);
    }
}

/// Canonicalizing twice yields the same result set as canonicalizing once.
pub proof fn lemma_canonicalize_idempotent(s: Seq<SolModel>)
    ensures
        spec_canon(spec_canon(s)) == spec_canon(s),
{
    lemma_canonical_distinct(s);
    let t = spec_canon(s);
    lemma_sort_of_canonical(t);
    lemma_dedup_of_distinct(t);
}

proof fn lemma_insert_elems(x: SolModel, s: Seq<SolModel>)
    ensures
        forall|k: int| 0 <= k < spec_insert(x, s).len() ==> (#[trigger] spec_insert(x, s)[k] == x
            || s.contains(spec_insert(x, s)[k])),
    decreases s.len(),
{
    let r = spec_insert(x, s);
    if s.len() == 0 {
    } else if spec_before(x, s[0]) != Ordering::Greater {
        assert forall|k: int| 0 <= k < r.len() implies (#[trigger] r[k] == x || s.contains(
            r[k],
        )) by {
            if k >= 1 {
                assert(s[k - 1] == r[k]);
            }
        };
    } else {
        lemma_insert_elems(x, s.drop_first());
        let t = spec_insert(x, s.drop_first());
        assert forall|k: int| 0 <= k < r.len() implies (#[trigger] r[k] == x || s.contains(
            r[k],
        )) by {
            if k == 0 {
                assert(r[0] == s[0]);
                assert(s.contains(s[0]));
            } else {
                assert(r[k] == t[k - 1]);
                if t[k - 1] != x {
                    assert(s.drop_first().contains(t[k - 1]));
                    let m = choose|m: int|
                        0 <= m < s.drop_first().len() && s.drop_first()[m] == t[k - 1];
                    assert(s[m + 1] == t[k - 1]);
                }
            }
        };
    }
}

proof fn lemma_sort_elems(s: Seq<SolModel>)
    ensures
        forall|k: int| 0 <= k < spec_sort(s).len() ==> s.contains(#[trigger] spec_sort(s)[k]),
    decreases s.len(),
{
    if s.len() > 0 {
        lemma_sort_elems(s.drop_last());
        lemma_insert_elems(s.last(), spec_sort(s.drop_last()));
        let r = spec_sort(s);
        assert forall|k: int| 0 <= k < r.len() implies s.contains(#[trigger] r[k]) by {
            if r[k] == s.last() {
                assert(s[s.len() - 1] == r[k]);
            } else {
                assert(spec_sort(s.drop_last()).contains(r[k]));
                let m = choose|m: int|
                    0 <= m < spec_sort(s.drop_last()).len() && spec_sort(s.drop_last())[m] == r[k];
                assert(s.drop_last().contains(spec_sort(s.drop_last())[m]));
                let n = choose|n: int|
                    0 <= n < s.drop_last().len() && s.drop_last()[n] == r[k];
                assert(s[n] == r[k]);
            }
        };
    }
}

proof fn lemma_dedup_elems(s: Seq<SolModel>)
    ensures
        forall|k: int| 0 <= k < spec_dedup(s).len() ==> s.contains(#[trigger] spec_dedup(s)[k]),
    decreases s.len(),
{
    if s.len() > 1 {
        lemma_dedup_elems(s.drop_last());
        let r = spec_dedup(s);
        assert forall|k: int| 0 <= k < r.len() implies s.contains(#[trigger] r[k]) by {
            if k < spec_dedup(s.drop_last()).len() && r[k] == spec_dedup(s.drop_last())[k] {
                assert(s.drop_last().contains(spec_dedup(s.drop_last())[k]));
                let n = choose|n: int|
                    0 <= n < s.drop_last().len() && s.drop_last()[n] == r[k];
                assert(s[n] == r[k]);
            } else {
                assert(r[k] == s.last());
                assert(s[s.len() - 1] == r[k]);
            }
        };
    }
}

/// Canonicalization only reorders and collapses: every solution it returns
/// was in the result set it was given.
pub proof fn lemma_canonical_elems(s: Seq<SolModel>)
    ensures
        forall|k: int| 0 <= k < spec_canon(s).len() ==> s.contains(#[trigger] spec_canon(s)[k]),
{
    lemma_sort_elems(s);
    lemma_dedup_elems(spec_sort(s));
    let r = spec_canon(s);
    assert forall|k: int| 0 <= k < r.len() implies s.contains(#[trigger] r[k]) by {
        assert(spec_sort(s).contains(r[k]));
        let m = choose|m: int| 0 <= m < spec_sort(s).len() && spec_sort(s)[m] == r[k];
        assert(s.contains(spec_sort(s)[m]));
    };
}

} // verus!
