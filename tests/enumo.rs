use ruler::enumo::{Filter, Workload};
use ruler::sexp::{Metric, Sexp};

fn a(s: &str) -> Sexp {
    Sexp::Atom(s.to_string())
}

fn l(items: &[&str]) -> Sexp {
    Sexp::List(items.iter().map(|s| a(s)).collect())
}

#[test]
fn simple_plug() {
    let x = a("x");
    let expected = vec![x.clone()];
    let actual = x.plug("a", &[a("1"), a("2")]);
    assert_eq!(actual, expected);
}

#[test]
fn simple_plug2() {
    let x = a("x");
    let pegs = vec![a("1"), a("2")];
    let expected = pegs.clone();
    let actual = x.plug("x", &pegs);
    assert_eq!(actual, expected);
}

#[test]
fn plug_cross_product() {
    let term = l(&["x", "x"]);
    let pegs = vec![a("1"), a("2"), a("3")];
    let expected = vec![
        l(&["1", "1"]),
        l(&["1", "2"]),
        l(&["1", "3"]),
        l(&["2", "1"]),
        l(&["2", "2"]),
        l(&["2", "3"]),
        l(&["3", "1"]),
        l(&["3", "2"]),
        l(&["3", "3"]),
    ];
    let actual = term.plug("x", &pegs);
    assert_eq!(actual, expected);
}

#[test]
fn multi_plug() {
    let wkld = Workload::Given(vec![l(&["a", "b"]), a("a"), a("b")]);
    let a_s = Workload::Given(vec![a("1"), a("2"), a("3")]);
    let b_s = Workload::Given(vec![a("x"), a("y")]);
    let actual = wkld.plug("a", a_s).plug("b", b_s).force();
    let expected = vec![
        l(&["1", "x"]),
        l(&["1", "y"]),
        l(&["2", "x"]),
        l(&["2", "y"]),
        l(&["3", "x"]),
        l(&["3", "y"]),
        a("1"),
        a("2"),
        a("3"),
        a("x"),
        a("y"),
    ];
    assert_eq!(actual, expected)
}

#[test]
fn push_filter_through_plug() {
    let wkld = Workload::Given(vec![l(&["x", "x", "x"]), l(&["x", "x"]), a("x")]);
    let pegs = Workload::Given(vec![a("1"), a("2"), a("3")]);
    let actual = wkld
        .plug("x", pegs)
        .filter(Filter::MetricLt(Metric::Atoms, 3))
        .force();
    let expected = vec![
        l(&["1", "1"]),
        l(&["1", "2"]),
        l(&["1", "3"]),
        l(&["2", "1"]),
        l(&["2", "2"]),
        l(&["2", "3"]),
        l(&["3", "1"]),
        l(&["3", "2"]),
        l(&["3", "3"]),
        a("1"),
        a("2"),
        a("3"),
    ];
    assert_eq!(actual, expected);
}

#[test]
fn plug_into_empty_list_gives_nothing() {
    let term = Sexp::List(vec![]);
    assert_eq!(term.plug("x", &[a("1")]), Vec::<Sexp>::new());
}

#[test]
fn measures_of_nested_list() {
    let t = Sexp::List(vec![a("+"), l(&["*", "x", "y"]), a("z")]);
    assert_eq!(t.measure(Metric::Atoms), 3);
    assert_eq!(t.measure(Metric::List), 2);
    assert_eq!(t.measure(Metric::Depth), 3);
    assert_eq!(a("x").measure(Metric::List), 0);
    assert_eq!(a("x").measure(Metric::Depth), 1);
}

#[test]
fn filter_and_combines_bounds() {
    let f = Filter::And(
        Box::new(Filter::MetricLt(Metric::Atoms, 3)),
        Box::new(Filter::MetricLt(Metric::Depth, 3)),
    );
    assert!(f.test(&l(&["a", "b"])));
    assert!(!f.test(&l(&["a", "b", "c"])));
    assert!(!f.test(&Sexp::List(vec![Sexp::List(vec![l(&["a"])])])));
    assert!(f.is_monotonic());
}

#[test]
fn iter_grows_by_one_layer() {
    let base = Workload::Given(vec![a("v"), l(&["~", "e"])]);
    let terms = base.iter("e", 2).force();
    assert_eq!(terms, vec![a("v"), l(&["~", "v"])]);
    let base = Workload::Given(vec![a("v"), l(&["~", "e"])]);
    let terms = base.iter("e", 3).force();
    assert_eq!(
        terms,
        vec![a("v"), l(&["~", "v"]), Sexp::List(vec![a("~"), l(&["~", "v"])])]
    );
}

#[test]
fn append_concatenates() {
    let w = Workload::Append(vec![
        Workload::Given(vec![a("1")]),
        Workload::Given(vec![a("2"), a("3")]),
    ]);
    assert_eq!(w.force(), vec![a("1"), a("2"), a("3")]);
}

#[test]
fn sexp_text() {
    let t = Sexp::List(vec![a("+"), l(&["*", "x", "y"]), a("z")]);
    assert_eq!(t.to_text(), "(+ (* x y) z)");
}
