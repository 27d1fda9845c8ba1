use crate::sexp::{lemma_views, render, views, Sexp, Term};
use egg::{EGraph, Pattern, RecExpr, Rewrite, Runner, StopReason, SymbolLang};
use vstd::prelude::*;

verus! {

#[verifier::external_type_specification]
#[verifier::external_body]
pub struct ExSymbolLang(SymbolLang);

#[verifier::external_type_specification]
#[verifier::external_body]
#[verifier::reject_recursive_types(L)]
pub struct ExPattern<L>(Pattern<L>);

#[verifier::external_type_specification]
#[verifier::external_body]
#[verifier::reject_recursive_types(L)]
#[verifier::reject_recursive_types(N)]
pub struct ExRewrite<L, N>(Rewrite<L, N>);

/// An e-graph over s-expression terms, egg's `EGraph` of `SymbolLang`
/// terms, held whole and seen only through its operations.
#[verifier::external_body]
pub struct TermGraph {
    graph: EGraph<SymbolLang, ()>,
}

/// Bounds on one run of rewriting.
#[derive(Clone, Copy, Debug, PartialEq, Eq, Structural)]
pub struct Limits {
    /// The largest number of rewriting iterations.
    pub iter: usize,
    /// The number of e-nodes past which rewriting stops.
    pub node: usize,
}

/// How rules run on an e-graph.
#[derive(Clone, Copy, Debug, PartialEq, Eq, Structural)]
pub enum Scheduler {
    /// One pass of equality saturation within the limits.
    Compress(Limits),
    /// Passes until nothing changes or the limits are reached.
    Saturating(Limits),
}

/// How the e-graph that tests a derivation starts.
#[derive(Clone, Copy, Debug, PartialEq, Eq, Structural)]
pub enum DeriveType {
    /// With the rule's left side only.
    Lhs,
    /// With both sides of the rule.
    LhsAndRhs,
}

/// A pattern with each pattern variable `?x` turned into the plain atom `x`.
pub open spec fn instantiated(t: Term) -> Term
    decreases t,
{
    match t {
        Term::Atom(a) => if a.len() > 0 && a[0] == '?' {
            Term::Atom(a.subrange(1, a.len() as int))
        } else {
            t
        },
        Term::List(ts) => Term::List(instantiated_all(ts)),
    }
}

pub open spec fn instantiated_all(ts: Seq<Term>) -> Seq<Term>
    decreases ts,
{
    if ts.len() == 0 {
        Seq::empty()
    } else {
        instantiated_all(ts.subrange(0, ts.len() - 1)).push(instantiated(ts[ts.len() - 1]))
    }
}

impl Sexp {
    /// The ground term that stands for the pattern: each pattern variable
    /// `?x` becomes the atom `x`.
    pub fn instantiate(&self) -> (r: Sexp)
        ensures
            r@ == instantiated(self@),
        decreases self,
    {
        match self {
            Sexp::Atom(s) => {
                let n = s.unicode_len();
                if n > 0 && s.get_char(0) == '?' {
                    Sexp::Atom(String::from_str(s.as_str().substring_char(1, n)))
                } else {
                    Sexp::Atom(s.clone())
                }
            },
            Sexp::List(l) => {
                proof {
                    lemma_views(l@);
                }
                let mut out: Vec<Sexp> = Vec::new();
                let mut i: usize = 0;
                while i < l.len()
                    invariant
                        *self == Sexp::List(*l),
                        i <= l.len(),
                        views(l@).len() == l.len(),
                        forall|j: int| 0 <= j < l.len() ==> #[trigger] views(l@)[j] == l@[j]@,
                        views(out@) == instantiated_all(views(l@).subrange(0, i as int)),
                    decreases l.len() - i,
                {
                    proof {
                        assert(decreases_to!(*self => (*self)->List_0));
                        assert(decreases_to!(*l => l[i as int]));
                    }
                    let c = l[i].instantiate();
                    proof {
                        crate::sexp::lemma_views_push(out@, c);
                        let next = views(l@).subrange(0, i + 1);
                        assert(next.subrange(0, i as int) =~= views(l@).subrange(0, i as int));
                        assert(next[i as int] == l@[i as int]@);
                    }
                    out.push(c);
                    i += 1;
                }
                assert(views(l@).subrange(0, l.len() as int) =~= views(l@));
                Sexp::List(out)
            },
        }
    }
}

/// One step in the life of an e-graph: a term added (by its text), or a run
/// of rules (each by name, left side and right side) within an iteration
/// and a node limit.
pub enum GraphStep {
    Add(Seq<char>),
    Run(Seq<(Seq<char>, Seq<char>, Seq<char>)>, nat, nat),
}

/// Whether egg reads the text as a term (a `RecExpr` of `SymbolLang`). It
/// depends on the text alone.
pub uninterp spec fn egg_reads(s: Seq<char>) -> bool;

/// Whether egg makes a rewrite of the rule: both sides read as patterns and
/// the right side binds no variable that the left side lacks.
pub uninterp spec fn egg_accepts(rule: (Seq<char>, Seq<char>, Seq<char>)) -> bool;

/// The steps that built the e-graph, from an empty one.
pub uninterp spec fn history(g: TermGraph) -> Seq<GraphStep>;

/// The texts of the terms that the e-graph those steps build holds: egg
/// reads them, and a lookup finds them.
pub uninterp spec fn held_in(h: Seq<GraphStep>) -> Set<Seq<char>>;

/// The e-class that a lookup of the text gives in the e-graph those steps
/// build.
pub uninterp spec fn class_in(h: Seq<GraphStep>, s: Seq<char>) -> Option<usize>;

/// Whether the last run of those steps stopped because nothing changed.
pub uninterp spec fn saturates(h: Seq<GraphStep>) -> bool;

/// The rules of a rule book, in order.
pub uninterp spec fn book_rules(b: RuleBook) -> Seq<(Seq<char>, Seq<char>, Seq<char>)>;

/// The rewrites that a run of rules applies, held as egg's `Rewrite`s.
#[verifier::external_body]
pub struct RuleBook {
    rules: Vec<Rewrite<SymbolLang, ()>>,
}

impl RuleBook {
    /// An empty rule book.
    #[verifier::external_body]
    pub(crate) fn new() -> (r: RuleBook)
        ensures
            book_rules(r) == Seq::<(Seq<char>, Seq<char>, Seq<char>)>::empty(),
    {
        RuleBook { rules: Vec::new() }
    }

    /// Relies on egg's `Pattern` parser and `Rewrite::new`: the rule joins
    /// the book where egg makes a rewrite of it.
    #[verifier::external_body]
    pub(crate) fn push(&mut self, name: &str, lhs: &str, rhs: &str) -> (r: bool)
        ensures
            r == egg_accepts((name@, lhs@, rhs@)),
            book_rules(*final(self)) == if r {
                book_rules(*old(self)).push((name@, lhs@, rhs@))
            } else {
                book_rules(*old(self))
            },
    {
        match (lhs.parse::<Pattern<SymbolLang>>(), rhs.parse::<Pattern<SymbolLang>>()) {
            (Ok(l), Ok(r)) => match Rewrite::new(name, l, r) {
                Ok(rw) => {
                    self.rules.push(rw);
                    true
                },
                Err(_) => false,
            },
            _ => false,
        }
    }
}

impl TermGraph {
    /// Relies on egg's `EGraph::default`: an empty e-graph holds no term.
    #[verifier::external_body]
    pub(crate) fn new() -> (r: TermGraph)
        ensures
            history(r) == Seq::<GraphStep>::empty(),
            held_in(history(r)) == Set::<Seq<char>>::empty(),
    {
        TermGraph { graph: EGraph::default() }
    }

    /// Relies on egg's `RecExpr` parser and `EGraph::add_expr`: where egg
    /// reads the text, the term joins the e-graph; nothing held leaves.
    #[verifier::external_body]
    pub(crate) fn add(&mut self, text: &str) -> (r: bool)
        ensures
            r == egg_reads(text@),
            history(*final(self)) == if r {
                history(*old(self)).push(GraphStep::Add(text@))
            } else {
                history(*old(self))
            },
            held_in(history(*old(self))).subset_of(held_in(history(*final(self)))),
            r ==> held_in(history(*final(self))).contains(text@),
    {
        match text.parse::<RecExpr<SymbolLang>>() {
            Ok(term) => {
                self.graph.add_expr(&term);
                true
            },
            Err(_) => false,
        }
    }

    /// Relies on egg's `RecExpr` parser and `EGraph::lookup_expr`: the e-class
    /// of the term, found exactly where the e-graph holds it.
    #[verifier::external_body]
    pub(crate) fn lookup(&self, text: &str) -> (r: Option<usize>)
        ensures
            r == class_in(history(*self), text@),
            r is Some <==> held_in(history(*self)).contains(text@),
            r is Some ==> egg_reads(text@),
    {
        match text.parse::<RecExpr<SymbolLang>>() {
            Ok(term) => self.graph.lookup_expr(&term).map(usize::from),
            Err(_) => None,
        }
    }

    /// Relies on egg's `Runner`: rewriting with the book's rules within the
    /// iteration and node limits, with no limit on time, the rebuilt e-graph
    /// coming back. An e-graph only grows: every term held stays held. The
    /// flag says whether the runner stopped because nothing changed.
    #[verifier::external_body]
    pub(crate) fn rewrite(self, book: &RuleBook, limits: Limits) -> (r: (TermGraph, bool))
        ensures
            history(r.0) == history(self).push(
                GraphStep::Run(book_rules(*book), limits.iter as nat, limits.node as nat),
            ),
            r.1 == saturates(history(r.0)),
            held_in(history(self)).subset_of(held_in(history(r.0))),
    {
        let runner = Runner::default().with_egraph(self.graph).with_time_limit(std::time::Duration::MAX);
        let runner = runner.with_iter_limit(limits.iter).with_node_limit(limits.node).run(&book.rules);
        let saturated = matches!(runner.stop_reason, Some(StopReason::Saturated));
        (TermGraph { graph: runner.egraph }, saturated)
    }
}

/// The steps after runs of the rules, at most `k` of them, stopping after a
/// run in which nothing changed.
pub open spec fn run_steps(
    h: Seq<GraphStep>,
    rules: Seq<(Seq<char>, Seq<char>, Seq<char>)>,
    limits: Limits,
    k: nat,
) -> Seq<GraphStep>
    decreases k,
{
    if k == 0 {
        h
    } else {
        let next = h.push(GraphStep::Run(rules, limits.iter as nat, limits.node as nat));
        if saturates(next) {
            next
        } else {
            run_steps(next, rules, limits, (k - 1) as nat)
        }
    }
}

/// The steps after the scheduler runs the rules: one run for `Compress`;
/// for `Saturating`, runs until one changes nothing, at most `iter` of them.
pub open spec fn scheduled(
    h: Seq<GraphStep>,
    rules: Seq<(Seq<char>, Seq<char>, Seq<char>)>,
    s: Scheduler,
) -> Seq<GraphStep> {
    match s {
        Scheduler::Compress(l) => h.push(GraphStep::Run(rules, l.iter as nat, l.node as nat)),
        Scheduler::Saturating(l) => run_steps(h, rules, l, l.iter as nat),
    }
}

/// Whether the two texts are found in one e-class of the e-graph the steps
/// build.
pub open spec fn merged_in(h: Seq<GraphStep>, a: Seq<char>, b: Seq<char>) -> bool {
    class_in(h, a) is Some && class_in(h, a) == class_in(h, b)
}

/// The text of the ground term that stands for a pattern.
pub open spec fn inst_text(t: Term) -> Seq<char> {
    render(instantiated(t))
}

/// Whether two lookups found one e-class.
pub fn same_class(a: Option<usize>, b: Option<usize>) -> (r: bool)
    ensures
        r == (a is Some && a == b),
{
    match (a, b) {
        (Some(x), Some(y)) => x == y,
        _ => false,
    }
}

/// The text of the ground term that stands for the pattern.
pub fn instance_text(p: &Sexp) -> (r: String)
    ensures
        r@ == inst_text(p@),
{
    p.instantiate().to_text()
}

impl Scheduler {
    /// Runs the book's rules on the e-graph as the scheduler says, as
    /// `scheduled` gives the steps. Every term held stays held.
    pub(crate) fn run(&self, egraph: TermGraph, book: &RuleBook) -> (r: TermGraph)
        ensures
            history(r) == scheduled(history(egraph), book_rules(*book), *self),
            held_in(history(egraph)).subset_of(held_in(history(r))),
    {
        match self {
            Scheduler::Compress(limits) => egraph.rewrite(book, *limits).0,
            Scheduler::Saturating(limits) => {
                let ghost h0 = history(egraph);
                let ghost rules = book_rules(*book);
                let mut eg = egraph;
                let ghost start = held_in(history(eg));
                let mut i: usize = 0;
                let mut done = false;
                while i < limits.iter && !done
                    invariant
                        i <= limits.iter,
                        rules == book_rules(*book),
                        start.subset_of(held_in(history(eg))),
                        !done ==> run_steps(h0, rules, *limits, limits.iter as nat) == run_steps(
                            history(eg),
                            rules,
                            *limits,
                            (limits.iter - i) as nat,
                        ),
                        done ==> history(eg) == run_steps(h0, rules, *limits, limits.iter as nat),
                    decreases limits.iter - i,
                {
                    let ghost before = history(eg);
                    let (next, saturated) = eg.rewrite(book, *limits);
                    proof {
                        let k = (limits.iter - i) as nat;
                        assert(run_steps(before, rules, *limits, k) == if saturates(history(next)) {
                            history(next)
                        } else {
                            run_steps(history(next), rules, *limits, (k - 1) as nat)
                        });
                    }
                    eg = next;
                    done = saturated;
                    i += 1;
                }
                eg
            },
        }
    }
}

} // verus!
