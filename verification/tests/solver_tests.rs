use std::cmp::Ordering;

use solver::canon::canonicalize;
use solver::eval::eval;
use solver::operator::Op;
use solver::rat::Rat;
use solver::search::{brute_force_find, Solution};

fn r(n: i64) -> Rat {
    Rat::from_int(n)
}

fn rats(ns: &[i64]) -> Vec<Rat> {
    ns.iter().map(|&n| r(n)).collect()
}

fn eval_solution(s: &Solution) -> Option<Rat> {
    eval(&s.0, &s.1, s.2, s.3)
}

fn same_solution(a: &Solution, b: &Solution) -> bool {
    matches!(a.before(b), Ordering::Equal)
}

#[test]
fn precedence_ranks() {
    assert_eq!(Op::Plus.presidense(), 0);
    assert_eq!(Op::Minus.presidense(), 0);
    assert_eq!(Op::Multiply.presidense(), 1);
    assert_eq!(Op::Divide.presidense(), 1);
}

#[test]
fn calc_add_sub_mul() {
    assert_eq!(Op::Plus.calc(r(2), r(3)), Some(Rat { num: 5, den: 1 }));
    assert_eq!(Op::Minus.calc(r(2), r(3)), Some(Rat { num: -1, den: 1 }));
    assert_eq!(Op::Multiply.calc(r(2), r(3)), Some(Rat { num: 6, den: 1 }));
}

#[test]
fn calc_division_exact_fraction() {
    let q = Op::Divide.calc(r(1), r(2)).unwrap();
    assert!(q.eq_val(Rat::new(1, 2).unwrap()));
    let q2 = Op::Divide.calc(r(6), r(3)).unwrap();
    assert!(q2.eq_val(r(2)));
}

#[test]
fn calc_division_by_zero_is_undefined() {
    assert_eq!(Op::Divide.calc(r(5), r(0)), None);
    assert_eq!(Op::Divide.calc(r(0), r(0)), None);
}

#[test]
fn calc_unrepresentable_is_undefined() {
    let big = Rat { num: i64::MAX, den: 1 };
    assert_eq!(Op::Plus.calc(big, big), None);
    assert_eq!(Op::Multiply.calc(big, big), None);
}

#[test]
fn eval_standard_precedence() {
    // 1 + 2 * 3 with the span covering the whole expression: 7
    let nums = rats(&[1, 2, 3]);
    let ops = vec![Op::Plus, Op::Multiply];
    let v = eval(&nums, &ops, 0, 2).unwrap();
    assert!(v.eq_val(r(7)));
}

#[test]
fn eval_parenthesized_prefix() {
    // (1 + 2) * 3 = 9
    let nums = rats(&[1, 2, 3]);
    let ops = vec![Op::Plus, Op::Multiply];
    let v = eval(&nums, &ops, 0, 1).unwrap();
    assert!(v.eq_val(r(9)));
}

#[test]
fn eval_parenthesized_middle() {
    // 2 * (3 + 4) * 5 = 70
    let nums = rats(&[2, 3, 4, 5]);
    let ops = vec![Op::Multiply, Op::Plus, Op::Multiply];
    let v = eval(&nums, &ops, 1, 2).unwrap();
    assert!(v.eq_val(r(70)));
}

#[test]
fn eval_parenthesized_suffix() {
    // 10 - (2 + 3) = 5
    let nums = rats(&[10, 2, 3]);
    let ops = vec![Op::Minus, Op::Plus];
    let v = eval(&nums, &ops, 1, 2).unwrap();
    assert!(v.eq_val(r(5)));
}

#[test]
fn eval_left_associative() {
    // 8 / 4 / 2 = 1, not 4
    let nums = rats(&[8, 4, 2]);
    let ops = vec![Op::Divide, Op::Divide];
    let v = eval(&nums, &ops, 0, 2).unwrap();
    assert!(v.eq_val(r(1)));
    // 10 - 2 - 3 = 5
    let nums2 = rats(&[10, 2, 3]);
    let ops2 = vec![Op::Minus, Op::Minus];
    let v2 = eval(&nums2, &ops2, 0, 2).unwrap();
    assert!(v2.eq_val(r(5)));
}

#[test]
fn eval_mixed_precedence() {
    // 10 - 2 * 3 = 4
    let nums = rats(&[10, 2, 3]);
    let ops = vec![Op::Minus, Op::Multiply];
    let v = eval(&nums, &ops, 0, 2).unwrap();
    assert!(v.eq_val(r(4)));
}

#[test]
fn eval_empty_is_undefined() {
    let nums: Vec<Rat> = vec![];
    let ops: Vec<Op> = vec![];
    assert_eq!(eval(&nums, &ops, 0, 0), None);
}

#[test]
fn eval_division_by_zero_is_undefined() {
    let nums = rats(&[1, 0]);
    let ops = vec![Op::Divide];
    assert_eq!(eval(&nums, &ops, 0, 1), None);
    // zero divisor appearing only inside the forced span: 1 / (2 - 2)
    let nums2 = rats(&[1, 2, 2]);
    let ops2 = vec![Op::Divide, Op::Minus];
    assert_eq!(eval(&nums2, &ops2, 1, 2), None);
}

#[test]
fn eval_single_operand() {
    let nums = rats(&[42]);
    let ops: Vec<Op> = vec![];
    let v = eval(&nums, &ops, 0, 0).unwrap();
    assert!(v.eq_val(r(42)));
}

#[test]
fn scenario_first_mode_four_numbers() {
    // numbers [1, 2, 3, 5], target 10, all four operators, "first" mode
    let result = brute_force_find(
        rats(&[1, 2, 3, 5]),
        vec![Op::Plus, Op::Minus, Op::Multiply, Op::Divide],
        r(10),
        false,
    );
    assert_eq!(result.len(), 1);
    let v = eval_solution(&result[0]).unwrap();
    assert!(v.eq_val(r(10)));
}

#[test]
fn scenario_one_plus_one() {
    // numbers [1, 1], target 2, operators {+}
    let result = brute_force_find(rats(&[1, 1]), vec![Op::Plus], r(2), false);
    assert_eq!(result.len(), 1);
    let s = &result[0];
    assert_eq!(s.0, rats(&[1, 1]));
    assert_eq!(s.1, vec![Op::Plus]);
    assert_eq!(s.2, 0);
    assert_eq!(s.3, 1);
    let v = eval_solution(s).unwrap();
    assert!(v.eq_val(r(2)));
}

#[test]
fn scenario_zero_division_sibling_permutation() {
    // numbers [5, 0], target 0, operators {/}, "all" mode: 5/0 is undefined,
    // but the sibling permutation 0/5 = 0 still matches.
    let found = brute_force_find(rats(&[5, 0]), vec![Op::Divide], r(0), true);
    let result = canonicalize(found);
    assert_eq!(result.len(), 1);
    let s = &result[0];
    assert_eq!(s.0, rats(&[0, 5]));
    assert_eq!(s.1, vec![Op::Divide]);
    let v = eval_solution(s).unwrap();
    assert!(v.eq_val(r(0)));
}

#[test]
fn scenario_two_cubed() {
    // numbers [2, 2, 2], target 8, operators {*}
    let result = brute_force_find(rats(&[2, 2, 2]), vec![Op::Multiply], r(8), false);
    assert_eq!(result.len(), 1);
    let s = &result[0];
    assert_eq!(s.0, rats(&[2, 2, 2]));
    assert_eq!(s.1, vec![Op::Multiply, Op::Multiply]);
    let v = eval_solution(s).unwrap();
    assert!(v.eq_val(r(8)));
}

#[test]
fn scenario_two_cubed_all_solutions() {
    // every permutation is [2, 2, 2]; after dedup only the three spans stay,
    // ordered by paren-left descending, then paren-right descending
    let found = brute_force_find(rats(&[2, 2, 2]), vec![Op::Multiply], r(8), true);
    assert_eq!(found.len(), 18);
    let result = canonicalize(found);
    assert_eq!(result.len(), 3);
    assert_eq!((result[0].2, result[0].3), (1, 2));
    assert_eq!((result[1].2, result[1].3), (0, 2));
    assert_eq!((result[2].2, result[2].3), (0, 1));
    for s in &result {
        let v = eval_solution(s).unwrap();
        assert!(v.eq_val(r(8)));
    }
}

#[test]
fn single_number_finds_nothing() {
    // the placement enumerator only considers spans of at least two operands
    let result = brute_force_find(rats(&[10]), vec![Op::Plus], r(10), true);
    assert_eq!(result.len(), 0);
}

#[test]
fn no_match_returns_empty() {
    let result = brute_force_find(rats(&[1, 1]), vec![Op::Plus], r(3), true);
    assert_eq!(canonicalize(result).len(), 0);
}

#[test]
fn single_solution_is_in_all_solutions() {
    let nums = rats(&[1, 2, 3, 5]);
    let allowed = vec![Op::Plus, Op::Minus, Op::Multiply, Op::Divide];
    let single = brute_force_find(nums.clone(), allowed.clone(), r(10), false);
    let all = brute_force_find(nums, allowed, r(10), true);
    assert_eq!(single.len(), 1);
    assert!(all.iter().any(|s| same_solution(s, &single[0])));
}

#[test]
fn all_solutions_match_target() {
    let found = brute_force_find(
        rats(&[1, 2, 3, 5]),
        vec![Op::Plus, Op::Minus, Op::Multiply, Op::Divide],
        r(10),
        true,
    );
    assert!(found.len() > 0);
    for s in &found {
        let v = eval_solution(s).unwrap();
        assert!(v.eq_val(r(10)));
    }
}

#[test]
fn canonicalize_removes_exact_duplicates() {
    let mk = || Solution(rats(&[1, 1]), vec![Op::Plus], 0, 1);
    let result = canonicalize(vec![mk(), mk(), mk()]);
    assert_eq!(result.len(), 1);
    assert!(same_solution(&result[0], &mk()));
}

#[test]
fn canonicalize_is_idempotent() {
    let found = brute_force_find(rats(&[2, 2, 2]), vec![Op::Multiply], r(8), true);
    let once = canonicalize(found);
    let copy: Vec<Solution> = once
        .iter()
        .map(|s| Solution(s.0.clone(), s.1.clone(), s.2, s.3))
        .collect();
    let twice = canonicalize(copy);
    assert_eq!(once.len(), twice.len());
    for k in 0..once.len() {
        assert!(same_solution(&once[k], &twice[k]));
    }
}

#[test]
fn canonical_result_has_no_duplicate_pairs() {
    let found = brute_force_find(
        rats(&[1, 2, 3, 5]),
        vec![Op::Plus, Op::Minus, Op::Multiply, Op::Divide],
        r(10),
        true,
    );
    let result = canonicalize(found);
    for i in 0..result.len() {
        for j in (i + 1)..result.len() {
            assert!(!same_solution(&result[i], &result[j]));
        }
    }
}

#[test]
fn before_orders_paren_left_descending() {
    let a = Solution(rats(&[1, 2]), vec![Op::Plus], 0, 1);
    let b = Solution(rats(&[1, 2, 3]), vec![Op::Plus, Op::Plus], 1, 2);
    // smaller paren-left sorts later
    assert_eq!(a.before(&b), Ordering::Greater);
    assert_eq!(b.before(&a), Ordering::Less);
    assert_eq!(a.before(&a), Ordering::Equal);
}

#[test]
fn rat_constructors() {
    assert_eq!(Rat::new(3, 4), Some(Rat { num: 3, den: 4 }));
    assert_eq!(Rat::new(3, 0), None);
    assert_eq!(Rat::new(3, -1), None);
    assert_eq!(r(7), Rat { num: 7, den: 1 });
}

#[test]
fn rat_value_equality() {
    assert!(Rat::new(1, 2).unwrap().eq_val(Rat::new(2, 4).unwrap()));
    assert!(!Rat::new(1, 2).unwrap().eq_val(Rat::new(2, 3).unwrap()));
}
