use ruler::cvec::ClassInfo;
use ruler::egraph::{DeriveType, Limits, Scheduler};
use ruler::equality::Equality;
use ruler::minimize::ValidationResult;
use ruler::pattern::{generalize, pattern_var_text};
use ruler::rule::Rule;
use ruler::ruleset::Ruleset;
use ruler::sexp::Sexp;
use ruler::text::parse_sexp;

fn p(s: &str) -> Sexp {
    parse_sexp(s).expect("a term")
}

fn rule(l: &str, r: &str) -> Rule {
    Rule::new(&p(l), &p(r)).expect("a rule")
}

fn lines(v: &[&str]) -> Vec<String> {
    v.iter().map(|s| s.to_string()).collect()
}

fn limits() -> Limits {
    Limits { iter: 3, node: 100_000 }
}

fn always_valid(_: &Rule) -> ValidationResult {
    ValidationResult::Valid
}

#[test]
fn rule_names_follow_sides() {
    let r = rule("(+ ?a ?b)", "(+ ?b ?a)");
    assert_eq!(r.name, "(+ ?a ?b) => (+ ?b ?a)");
    let back = r.reverse().expect("reverse");
    assert_eq!(back.name, "(+ ?b ?a) => (+ ?a ?b)");
}

#[test]
fn rule_rejects_unbound_right_variable() {
    assert!(Rule::new(&p("(* ?a 0)"), &p("?b")).is_none());
    assert!(Rule::new(&p("(* ?a 0)"), &p("0")).is_some());
}

#[test]
fn rule_from_string_reads_both_forms() {
    let (f, b) = Rule::from_string("(+ ?a ?b) => (+ ?b ?a)").expect("forward");
    assert_eq!(f.name, "(+ ?a ?b) => (+ ?b ?a)");
    assert!(b.is_none());
    let (f, b) = Rule::from_string("(* ?a 1) <=> ?a").expect("both");
    assert_eq!(f.name, "(* ?a 1) => ?a");
    assert_eq!(b.expect("backward").name, "?a => (* ?a 1)");
    assert!(Rule::from_string("(* ?a 0) <=> 0").is_none());
    assert!(Rule::from_string("(+ ?a ?b) -> (+ ?b ?a)").is_none());
    assert!(Rule::from_string("(+ ?a ?b) => (+ ?b ?a").is_none());
}

#[test]
fn parse_and_text_agree() {
    let t = p("(+ a (* b c))");
    assert_eq!(t.to_text(), "(+ a (* b c))");
    assert!(parse_sexp("( a)").is_none());
    assert!(parse_sexp("(a  b)").is_none());
    assert!(parse_sexp("").is_none());
    assert_eq!(p("()").to_text(), "()");
}

#[test]
fn ruleset_new_skips_bad_lines() {
    let rs = Ruleset::new(&lines(&["(+ ?a ?b) <=> (+ ?b ?a)", "nonsense =>", "(* ?a 0) => 0"]));
    assert_eq!(
        rs.to_str_vec(),
        vec!["(+ ?a ?b) => (+ ?b ?a)", "(+ ?b ?a) => (+ ?a ?b)", "(* ?a 0) => 0"]
    );
    assert_eq!(rs.len(), 3);
    assert!(!rs.is_empty());
}

#[test]
fn bidir_count_law() {
    let rs = Ruleset::new(&lines(&["(+ ?a ?b) <=> (+ ?b ?a)", "(* ?a 0) => 0", "(* ?a 1) <=> ?a"]));
    assert_eq!(rs.len(), 5);
    // two reversible pairs and one one-way rule
    assert_eq!(rs.bidir_len(), 3);
}

#[test]
fn rule_file_round_trip() {
    let rs = Ruleset::new(&lines(&["(+ ?a ?b) <=> (+ ?b ?a)", "(* ?a 0) => 0", "(- ?a ?a) => 0"]));
    let first = rs.to_str_vec();
    let again = Ruleset::new(&first);
    assert_eq!(again.to_str_vec(), first);
    assert!(again == rs);
}

#[test]
fn add_keeps_place_of_existing_name() {
    let mut rs = Ruleset::default();
    rs.add(rule("(+ ?a ?b)", "(+ ?b ?a)"));
    rs.add(rule("(* ?a 0)", "0"));
    rs.add(rule("(+ ?a ?b)", "(+ ?b ?a)"));
    assert_eq!(rs.to_str_vec(), vec!["(+ ?a ?b) => (+ ?b ?a)", "(* ?a 0) => 0"]);
    assert!(rs.contains(&rule("(* ?a 0)", "0")));
    assert!(!rs.contains(&rule("(* ?a 1)", "?a")));
}

#[test]
fn union_extend_remove_all() {
    let a = Ruleset::new(&lines(&["(* ?a 0) => 0", "(* ?a 1) => ?a"]));
    let b = Ruleset::new(&lines(&["(* ?a 1) => ?a", "(+ ?a 0) => ?a"]));
    let u = a.union(&b);
    assert_eq!(u.to_str_vec(), vec!["(* ?a 0) => 0", "(* ?a 1) => ?a", "(+ ?a 0) => ?a"]);
    let mut e = a.copy();
    e.extend(b.copy());
    assert!(e == u);
    e.remove_all(b);
    assert_eq!(e.to_str_vec(), vec!["(* ?a 0) => 0"]);
    let mut f = Ruleset::default();
    let r1 = rule("(* ?a 0)", "0");
    let r2 = rule("(+ ?a 0)", "?a");
    f.add_all(vec![&r1, &r2]);
    assert_eq!(f.len(), 2);
}

#[test]
fn partition_keeps_order() {
    let rs = Ruleset::new(&lines(&["(* ?a 0) => 0", "(* ?a 1) => ?a", "(+ ?a 0) => ?a"]));
    let (yes, no) = rs.partition(|r: &Rule| r.name.starts_with("(*"));
    assert_eq!(yes.to_str_vec(), vec!["(* ?a 0) => 0", "(* ?a 1) => ?a"]);
    assert_eq!(no.to_str_vec(), vec!["(+ ?a 0) => ?a"]);
}

#[test]
fn generalization_shares_one_map() {
    let vars = lines(&["x", "y"]);
    let (l, r) = generalize(&p("(+ x y)"), &p("(+ y x)"), &vars);
    assert_eq!(l.to_text(), "(+ ?a ?b)");
    assert_eq!(r.to_text(), "(+ ?b ?a)");
    let mut rs = Ruleset::default();
    rs.add_from_recexprs(&p("(+ x y)"), &p("(+ y x)"), &vars);
    assert_eq!(rs.to_str_vec(), vec!["(+ ?a ?b) => (+ ?b ?a)", "(+ ?b ?a) => (+ ?a ?b)"]);
    let mut one_way = Ruleset::default();
    one_way.add_from_recexprs(&p("(* x 0)"), &p("0"), &vars);
    assert_eq!(one_way.to_str_vec(), vec!["(* ?a 0) => 0"]);
}

#[test]
fn pattern_variable_names() {
    assert_eq!(pattern_var_text(0), "?a");
    assert_eq!(pattern_var_text(25), "?z");
    assert_eq!(pattern_var_text(26), "?aa");
    assert_eq!(pattern_var_text(27), "?bb");
}

#[test]
fn rule_score_counts() {
    let r = rule("(+ (+ ?a ?b) ?c)", "(+ ?a ?c)");
    assert_eq!(r.score(), (3, -8, -2));
    assert_eq!(r.counts(), (3, 8, 2));
    assert!(r.score() > rule("(+ ?a ?b)", "(+ ?b ?a)").score());
}

#[test]
fn equality_names_both_ways() {
    let vars = lines(&["x", "y"]);
    let eq = Equality::new(&p("(+ x y)"), &p("(+ y x)"), &vars).expect("equation");
    // both orders read "(+ x y)" first; the order whose name is larger leads
    assert_eq!(eq.name, "(+ ?b ?a) <=> (+ ?a ?b)");
    assert_eq!(eq.rewrites.len(), 2);
    let eq = Equality::new(&p("(* x 0)"), &p("0"), &vars).expect("equation");
    assert_eq!(eq.name, "(* ?a 0) => 0");
    assert_eq!(eq.rewrites.len(), 1);
    assert_eq!(eq.score(), (1, -4, -2));
    assert!(Equality::new(&p("x"), &p("y"), &vars).is_none());
}

#[test]
fn cvec_match_pairs_matching_classes() {
    let vars = lines(&["x", "y"]);
    let classes = vec![
        ClassInfo { term: p("x"), cvec: vec![Some(1), None], constant_subterm: false },
        ClassInfo { term: p("(+ x 0)"), cvec: vec![Some(1), Some(5)], constant_subterm: false },
        ClassInfo { term: p("y"), cvec: vec![Some(2), Some(5)], constant_subterm: false },
        ClassInfo { term: p("(/ x 0)"), cvec: vec![None, None], constant_subterm: false },
    ];
    let found = Ruleset::cvec_match(&classes, &vars);
    assert_eq!(found.to_str_vec(), vec!["?a => (+ ?a 0)", "(+ ?a 0) => ?a"]);
    let fast = Ruleset::fast_cvec_match(&classes, &vars);
    assert!(fast.is_empty());
    let same = vec![
        ClassInfo { term: p("(* x 1)"), cvec: vec![Some(3), Some(4)], constant_subterm: false },
        ClassInfo { term: p("x"), cvec: vec![Some(3), Some(4)], constant_subterm: false },
    ];
    let fast = Ruleset::fast_cvec_match(&same, &vars);
    assert_eq!(fast.to_str_vec(), vec!["(* ?a 1) => ?a", "?a => (* ?a 1)"]);
    let hidden = vec![
        ClassInfo { term: p("(* x (- 2 1))"), cvec: vec![Some(3), Some(4)], constant_subterm: true },
        ClassInfo { term: p("x"), cvec: vec![Some(3), Some(4)], constant_subterm: false },
    ];
    assert!(Ruleset::fast_cvec_match(&hidden, &vars).is_empty());
    assert_eq!(Ruleset::cvec_match(&hidden, &vars).len(), 2);
}

#[test]
fn bidirectionality_selection() {
    let mut pool = Ruleset::new(&lines(&["(+ ?a ?b) <=> (+ ?b ?a)"]));
    let (accepted, invalid) =
        pool.minimize(Ruleset::default(), Scheduler::Compress(limits()), &always_valid);
    assert_eq!(accepted.len(), 2);
    assert_eq!(accepted.bidir_len(), 1);
    assert!(invalid.is_empty());
    assert!(pool.is_empty());
}

#[test]
fn invalid_candidates_are_kept_apart() {
    let mut pool = Ruleset::new(&lines(&["(/ ?a ?a) => 1", "(* ?a 1) => ?a"]));
    let reject_div = |r: &Rule| {
        if r.name.starts_with("(/") {
            ValidationResult::Invalid
        } else {
            ValidationResult::Valid
        }
    };
    let (accepted, invalid) =
        pool.minimize(Ruleset::default(), Scheduler::Compress(limits()), &reject_div);
    assert_eq!(accepted.to_str_vec(), vec!["(* ?a 1) => ?a"]);
    assert_eq!(invalid.to_str_vec(), vec!["(/ ?a ?a) => 1"]);
}

#[test]
fn minimize_of_minimized_adds_nothing() {
    let prior = Ruleset::new(&lines(&["(+ ?a ?b) <=> (+ ?b ?a)", "(* ?a 1) => ?a"]));
    let mut pool = prior.copy();
    let (new_rules, _) = pool.minimize(prior, Scheduler::Compress(limits()), &always_valid);
    assert!(new_rules.is_empty());
}

#[test]
fn derivation_partition() {
    let r = Ruleset::new(&lines(&["(+ ?a ?b) => (+ ?b ?a)"]));
    let q = Ruleset::new(&lines(&["(+ 1 ?x) => (+ ?x 1)"]));
    let (can, cannot) = r.derive(DeriveType::LhsAndRhs, &q, limits());
    assert!(can == q);
    assert!(cannot.is_empty());
    let (can, cannot) = Ruleset::default().derive(DeriveType::LhsAndRhs, &q, limits());
    assert!(can.is_empty());
    assert_eq!(cannot.len(), 1);
}

#[test]
fn minimization_subsumption() {
    let chosen = Ruleset::new(&lines(&[
        "(+ (+ ?a ?b) ?c) <=> (+ ?a (+ ?b ?c))",
        "(+ ?a ?b) <=> (+ ?b ?a)",
    ]));
    let mut candidates = Ruleset::new(&lines(&["(+ (+ ?a ?b) ?c) <=> (+ ?c (+ ?b ?a))"]));
    candidates.shrink(&chosen, Scheduler::Compress(limits()));
    assert!(candidates.is_empty());
    let mut unrelated = Ruleset::new(&lines(&["(* ?a 0) => 0"]));
    unrelated.shrink(&chosen, Scheduler::Compress(limits()));
    assert_eq!(unrelated.len(), 1);
}

#[test]
fn minimize_drops_derivable_candidates() {
    let mut pool = Ruleset::new(&lines(&[
        "(+ ?a ?b) <=> (+ ?b ?a)",
        "(+ (+ ?a ?b) ?c) <=> (+ ?a (+ ?b ?c))",
        "(+ (+ ?a ?b) ?c) <=> (+ ?c (+ ?b ?a))",
    ]));
    let prior = Ruleset::new(&lines(&["(+ ?a ?b) <=> (+ ?b ?a)"]));
    let (accepted, _) = pool.minimize(prior, Scheduler::Compress(limits()), &always_valid);
    assert_eq!(
        accepted.to_str_vec(),
        vec!["(+ (+ ?a ?b) ?c) => (+ ?a (+ ?b ?c))", "(+ ?a (+ ?b ?c)) => (+ (+ ?a ?b) ?c)"]
    );
}

#[test]
fn pretty_lines_pair_reverses() {
    let rs = Ruleset::new(&lines(&["(+ ?a ?b) <=> (+ ?b ?a)", "(* ?a 0) => 0", "(* ?a 1) <=> ?a"]));
    assert_eq!(
        rs.pretty_lines(),
        vec!["(+ ?a ?b) <=> (+ ?b ?a)", "(* ?a 0) => 0", "(* ?a 1) <=> ?a"]
    );
    let again = Ruleset::new(&rs.pretty_lines());
    assert!(again == rs);
}

#[test]
fn extract_candidates_from_merged_classes() {
    let vars = lines(&["x"]);
    let classes = vec![(p("(* x 1)"), 7), (p("x"), 7), (p("(+ x x)"), 9)];
    let found = Ruleset::extract_candidates(&classes, &vars);
    assert_eq!(found.to_str_vec(), vec!["(* ?a 1) => ?a", "?a => (* ?a 1)"]);
    let none = Ruleset::extract_candidates(&vec![(p("x"), 1), (p("x"), 1)], &vars);
    assert!(none.is_empty());
}

#[test]
fn iter_lists_rules_in_order() {
    let rs = Ruleset::new(&lines(&["(* ?a 0) => 0", "(* ?a 1) => ?a"]));
    let names: Vec<String> = rs.iter().iter().map(|r| r.name.clone()).collect();
    assert_eq!(names, rs.to_str_vec());
    assert_eq!(rs.rule_at(1).name, "(* ?a 1) => ?a");
}

#[test]
fn equality_from_sides() {
    let eq = Equality::from_sides(&p("(+ ?a ?b)"), &p("(+ ?b ?a)"), true).expect("both ways");
    assert_eq!(eq.name, "(+ ?a ?b) <=> (+ ?b ?a)");
    assert_eq!(eq.rewrites.len(), 2);
    assert!(Equality::from_sides(&p("(* ?a 0)"), &p("0"), true).is_none());
    let one = Equality::from_sides(&p("(* ?a 0)"), &p("0"), false).expect("one way");
    assert_eq!(one.name, "(* ?a 0) => 0");
    assert!(one == Equality::from_sides(&p("(* ?a 0)"), &p("0"), false).unwrap());
}

#[test]
fn select_takes_best_candidate_first() {
    let mut pool = Ruleset::new(&lines(&["(* ?a 1) => ?a", "(+ (* ?a ?b) ?c) => (+ ?c (* ?a ?b))"]));
    let mut invalid = Ruleset::default();
    let chosen = pool.select(1, &mut invalid, &always_valid);
    assert_eq!(chosen.to_str_vec(), vec!["(+ (* ?a ?b) ?c) => (+ ?c (* ?a ?b))"]);
    assert_eq!(pool.to_str_vec(), vec!["(* ?a 1) => ?a"]);
    assert!(invalid.is_empty());
}

#[test]
fn can_derive_needs_the_rules() {
    let comm = Ruleset::new(&lines(&["(+ ?a ?b) => (+ ?b ?a)"]));
    let target = rule("(+ ?x 1)", "(+ 1 ?x)");
    assert!(comm.can_derive(DeriveType::LhsAndRhs, &target, limits()));
    assert!(comm.can_derive(DeriveType::Lhs, &target, limits()));
    let other = rule("(* ?x 1)", "?x");
    assert!(!comm.can_derive(DeriveType::LhsAndRhs, &other, limits()));
}

#[test]
fn generalization_reads_smaller_text_first() {
    let vars = lines(&["x", "y"]);
    // "(* x y)" comes before "(+ y x)", so it is read first
    let (l, r) = generalize(&p("(+ y x)"), &p("(* x y)"), &vars);
    assert_eq!(l.to_text(), "(+ ?b ?a)");
    assert_eq!(r.to_text(), "(* ?a ?b)");
}

#[test]
fn shrink_drops_candidate_with_equal_sides() {
    let mut candidates = Ruleset::new(&lines(&["(+ ?a ?b) => (+ ?a ?b)", "(* ?a 0) => 0"]));
    candidates.shrink(&Ruleset::default(), Scheduler::Compress(limits()));
    assert_eq!(candidates.to_str_vec(), vec!["(* ?a 0) => 0"]);
}

#[test]
fn can_derive_own_rule_and_refused_text() {
    let comm = Ruleset::new(&lines(&["(+ ?a ?b) => (+ ?b ?a)"]));
    let own = rule("(+ ?a ?b)", "(+ ?b ?a)");
    assert!(comm.can_derive(DeriveType::LhsAndRhs, &own, limits()));
    let same = rule("(f ?a)", "(f ?a)");
    assert!(Ruleset::default().can_derive(DeriveType::LhsAndRhs, &same, limits()));
    let odd = rule("(() ?a)", "?a");
    assert!(!comm.can_derive(DeriveType::LhsAndRhs, &odd, limits()));
}

#[test]
fn select_records_rejected_best() {
    let mut pool = Ruleset::new(&lines(&["(* ?a 1) => ?a", "(+ (* ?a ?b) ?c) => (+ ?c (* ?a ?b))"]));
    let mut invalid = Ruleset::new(&lines(&["(- ?a ?a) => 1"]));
    let never = |_: &Rule| ValidationResult::Unknown;
    let chosen = pool.select(1, &mut invalid, &never);
    assert!(chosen.is_empty());
    // one step takes one candidate, the best
    assert_eq!(
        invalid.to_str_vec(),
        vec!["(- ?a ?a) => 1", "(+ (* ?a ?b) ?c) => (+ ?c (* ?a ?b))"]
    );
    assert_eq!(pool.to_str_vec(), vec!["(* ?a 1) => ?a"]);
}
