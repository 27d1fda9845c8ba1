use std::cell::RefCell;

use rand::SeedableRng;
use rand_pcg::Pcg64;
use ruler::egraph::{Limits, Scheduler};
use ruler::fuzz::{apply_op, eval_pattern, validate, validate_with};
use ruler::minimize::ValidationResult;
use ruler::pred::Constant;
use ruler::rule::Rule;
use ruler::ruleset::Ruleset;
use ruler::sexp::Sexp;
use ruler::text::parse_sexp;

fn p(s: &str) -> Sexp {
    parse_sexp(s).expect("a term")
}

fn ints(v: &[usize]) -> Vec<Option<Constant>> {
    v.iter().map(|n| Some(Constant::Int(*n))).collect()
}

#[test]
fn operators_of_the_predicate_language() {
    let i = |n| Constant::Int(n);
    let b = |x| Constant::Bool(x);
    assert_eq!(apply_op("<", &vec![i(1), i(2)]), Some(b(true)));
    assert_eq!(apply_op(">=", &vec![i(1), i(2)]), Some(b(false)));
    assert_eq!(apply_op("!=", &vec![i(3), i(3)]), Some(b(false)));
    assert_eq!(apply_op("^", &vec![b(true), b(false)]), Some(b(true)));
    assert_eq!(apply_op("~", &vec![b(true)]), Some(b(false)));
    assert_eq!(apply_op("&", &vec![i(1), i(2)]), None);
    assert_eq!(apply_op("+", &vec![i(1), i(2)]), None);
}

#[test]
fn eval_pattern_pointwise() {
    let env = vec![("?a".to_string(), ints(&[1, 5, 3])), ("?b".to_string(), ints(&[2, 5, 1]))];
    let got = eval_pattern(&p("(< ?a ?b)"), &env, 3);
    let t = Some(Constant::Bool(true));
    let f = Some(Constant::Bool(false));
    assert_eq!(got, vec![t, f, f]);
    let got = eval_pattern(&p("(~ (== ?a ?b))"), &env, 3);
    assert_eq!(got, vec![t, f, t]);
    assert_eq!(eval_pattern(&p("7"), &env, 2), ints(&[7, 7]));
    assert_eq!(eval_pattern(&p("(& ?a ?b)"), &env, 3), vec![None, None, None]);
}

#[test]
fn validate_with_compares_samples() {
    let env = vec![("?a".to_string(), ints(&[1, 5, 3])), ("?b".to_string(), ints(&[2, 5, 1]))];
    assert_eq!(validate_with(&p("(< ?a ?b)"), &p("(> ?b ?a)"), &env, 3), ValidationResult::Valid);
    assert_eq!(validate_with(&p("(< ?a ?b)"), &p("(< ?b ?a)"), &env, 3), ValidationResult::Invalid);
}

#[test]
fn fuzz_validation_of_predicate_rules() {
    let mut rng = Pcg64::seed_from_u64(5);
    assert_eq!(validate(&p("(< ?a ?b)"), &p("(> ?b ?a)"), &mut rng, 100), ValidationResult::Valid);
    assert_eq!(
        validate(&p("(<= ?a ?b)"), &p("(~ (> ?a ?b))"), &mut rng, 100),
        ValidationResult::Valid
    );
    assert_eq!(validate(&p("(< ?a ?b)"), &p("(<= ?a ?b)"), &mut rng, 100), ValidationResult::Invalid);
}

#[test]
fn integer_predicate_rules() {
    let rng = RefCell::new(Pcg64::seed_from_u64(5));
    let fuzz = |r: &Rule| validate(&r.lhs, &r.rhs, &mut rng.borrow_mut(), 100);
    let lines: Vec<String> = [
        "(< ?a ?b) <=> (> ?b ?a)",
        "(<= ?a ?b) <=> (~ (> ?a ?b))",
        "(== ?a ?b) <=> (== ?b ?a)",
        "(< ?a ?b) => (<= ?a ?b)",
    ]
    .iter()
    .map(|s| s.to_string())
    .collect();
    let mut pool = Ruleset::new(&lines);
    let limits = Limits { iter: 3, node: 10_000 };
    let (accepted, invalid) = pool.minimize(Ruleset::default(), Scheduler::Compress(limits), &fuzz);
    let names = accepted.to_str_vec();
    for name in [
        "(< ?a ?b) => (> ?b ?a)",
        "(> ?b ?a) => (< ?a ?b)",
        "(<= ?a ?b) => (~ (> ?a ?b))",
        "(~ (> ?a ?b)) => (<= ?a ?b)",
        "(== ?a ?b) => (== ?b ?a)",
        "(== ?b ?a) => (== ?a ?b)",
    ] {
        assert!(names.contains(&name.to_string()), "missing {name}");
    }
    assert_eq!(invalid.to_str_vec(), vec!["(< ?a ?b) => (<= ?a ?b)"]);
}

fn run_once(seed: u64) -> (Vec<String>, Vec<String>) {
    let rng = RefCell::new(Pcg64::seed_from_u64(seed));
    let fuzz = |r: &Rule| validate(&r.lhs, &r.rhs, &mut rng.borrow_mut(), 50);
    let lines: Vec<String> = [
        "(< ?a ?b) <=> (> ?b ?a)",
        "(!= ?a ?b) <=> (~ (== ?a ?b))",
        "(< ?a ?b) => (== ?a ?b)",
        "(== ?a ?a) => true",
    ]
    .iter()
    .map(|s| s.to_string())
    .collect();
    let mut pool = Ruleset::new(&lines);
    let limits = Limits { iter: 3, node: 10_000 };
    let (accepted, invalid) = pool.minimize(Ruleset::default(), Scheduler::Compress(limits), &fuzz);
    (accepted.to_str_vec(), invalid.to_str_vec())
}

#[test]
fn same_configuration_same_rules() {
    let first = run_once(11);
    let second = run_once(11);
    assert_eq!(first, second);
    assert!(first.0.contains(&"(== ?a ?a) => true".to_string()));
    assert_eq!(first.1, vec!["(< ?a ?b) => (== ?a ?b)"]);
}

#[test]
fn equal_sides_are_valid() {
    let mut rng = Pcg64::seed_from_u64(3);
    assert_eq!(validate(&p("(< ?a 5)"), &p("(< ?a 5)"), &mut rng, 20), ValidationResult::Valid);
}
