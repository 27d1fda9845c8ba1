use crate::sexp::{
    copy_all, lemma_views, lemma_views_concat, lemma_views_push, measure_of, text_eq, views, Metric, Sexp, Term,
};
use itertools::Itertools;
use vstd::prelude::*;

verus! {

/// Each of `ps` with `a` put in front, for each `a` of `xs` in turn.
pub open spec fn prepend_each(xs: Seq<Term>, ps: Seq<Seq<Term>>) -> Seq<Seq<Term>>
    decreases xs.len(),
{
    if xs.len() == 0 {
        Seq::empty()
    } else {
        prepend_each(xs.drop_last(), ps) + ps.map_values(|p: Seq<Term>| seq![xs.last()] + p)
    }
}

/// Every way of choosing one term from each sequence, the choice in the last
/// sequence changing fastest.
pub open spec fn product(sets: Seq<Seq<Term>>) -> Seq<Seq<Term>>
    decreases sets.len(),
{
    if sets.len() == 0 {
        seq![Seq::empty()]
    } else {
        prepend_each(sets[0], product(sets.drop_first()))
    }
}

/// The cartesian product of the sequences; nothing at all when there are no
/// sequences.
pub open spec fn cartesian(sets: Seq<Seq<Term>>) -> Seq<Seq<Term>> {
    if sets.len() == 0 {
        Seq::empty()
    } else {
        product(sets)
    }
}

pub open spec fn vec_views(v: Seq<Vec<Sexp>>) -> Seq<Seq<Term>> {
    v.map_values(|x: Vec<Sexp>| views(x@))
}

/// Relies on itertools' `multi_cartesian_product`: one vector per choice of an
/// element from each input, in odometer order (the last input varies
/// fastest), and no vector at all when there are no inputs.
#[verifier::external_body]
fn multi_product(sets: Vec<Vec<Sexp>>) -> (r: Vec<Vec<Sexp>>)
    ensures
        vec_views(r@) == cartesian(vec_views(sets@)),
{
    sets.into_iter().multi_cartesian_product().collect()
}

/// The terms obtained by replacing each atom `name` of `t` by each of `pegs`,
/// every combination once.
pub open spec fn plug_term(t: Term, name: Seq<char>, pegs: Seq<Term>) -> Seq<Term>
    decreases t,
{
    match t {
        Term::Atom(a) => if a == name {
            pegs
        } else {
            seq![t]
        },
        Term::List(ts) => cartesian(plug_each(ts, name, pegs)).map_values(
            |p: Seq<Term>| Term::List(p),
        ),
    }
}

/// What plugging gives for each of the terms.
pub open spec fn plug_each(ts: Seq<Term>, name: Seq<char>, pegs: Seq<Term>) -> Seq<Seq<Term>>
    decreases ts,
{
    if ts.len() == 0 {
        Seq::empty()
    } else {
        plug_each(ts.subrange(0, ts.len() - 1), name, pegs).push(
            plug_term(ts[ts.len() - 1], name, pegs),
        )
    }
}

/// What plugging gives for each of the terms, joined in order.
pub open spec fn plug_over(ts: Seq<Term>, name: Seq<char>, pegs: Seq<Term>) -> Seq<Term>
    decreases ts.len(),
{
    if ts.len() == 0 {
        Seq::empty()
    } else {
        plug_over(ts.drop_last(), name, pegs) + plug_term(ts.last(), name, pegs)
    }
}

proof fn lemma_vec_views_push(v: Seq<Vec<Sexp>>, x: Vec<Sexp>)
    ensures
        vec_views(v.push(x)) == vec_views(v).push(views(x@)),
{
    assert(vec_views(v.push(x)) =~= vec_views(v).push(views(x@)));
}

impl Sexp {
    /// Every s-expression obtained by replacing each atom `name` by one of
    /// `pegs`, each combination once, in odometer order.
    pub fn plug(&self, name: &str, pegs: &[Sexp]) -> (r: Vec<Sexp>)
        ensures
            views(r@) == plug_term(self@, name@, views(pegs@)),
        decreases self,
    {
        match self {
            Sexp::Atom(s) => {
                if text_eq(s.as_str(), name) {
                    copy_all(pegs)
                } else {
                    let c = self.copy();
                    let r = vec![c];
                    proof {
                        lemma_views_push(Seq::empty(), c);
                        assert(r@ =~= Seq::<Sexp>::empty().push(c));
                        assert(views(Seq::<Sexp>::empty()) =~= Seq::<Term>::empty());
                    }
                    r
                }
            },
            Sexp::List(l) => {
                proof {
                    lemma_views(l@);
                }
                let mut parts: Vec<Vec<Sexp>> = Vec::new();
                let mut i: usize = 0;
                while i < l.len()
                    invariant
                        *self == Sexp::List(*l),
                        i <= l.len(),
                        views(l@).len() == l.len(),
                        forall|j: int| 0 <= j < l.len() ==> #[trigger] views(l@)[j] == l@[j]@,
                        vec_views(parts@) == plug_each(
                            views(l@).subrange(0, i as int),
                            name@,
                            views(pegs@),
                        ),
                    decreases l.len() - i,
                {
                    proof {
                        assert(decreases_to!(*self => (*self)->List_0));
                        assert(decreases_to!(*l => l[i as int]));
                    }
                    let p = l[i].plug(name, pegs);
                    proof {
                        lemma_vec_views_push(parts@, p);
                        let next = views(l@).subrange(0, i + 1);
                        assert(next.subrange(0, i as int) =~= views(l@).subrange(0, i as int));
                        assert(next[i as int] == l@[i as int]@);
                    }
                    parts.push(p);
                    i += 1;
                }
                assert(views(l@).subrange(0, l.len() as int) =~= views(l@));
                let prods = multi_product(parts);
                let ghost target = cartesian(plug_each(views(l@), name@, views(pegs@)));
                let mut out: Vec<Sexp> = Vec::new();
                let mut j: usize = 0;
                while j < prods.len()
                    invariant
                        j <= prods.len(),
                        vec_views(prods@) == target,
                        views(out@) == target.subrange(0, j as int).map_values(
                            |p: Seq<Term>| Term::List(p),
                        ),
                    decreases prods.len() - j,
                {
                    let item = Sexp::List(copy_all(prods[j].as_slice()));
                    proof {
                        lemma_views_push(out@, item);
                        assert(vec_views(prods@)[j as int] == views(prods@[j as int]@));
                        assert(target.subrange(0, j + 1).map_values(|p: Seq<Term>| Term::List(p))
                            =~= target.subrange(0, j as int).map_values(
                            |p: Seq<Term>| Term::List(p),
                        ).push(item@));
                    }
                    out.push(item);
                    j += 1;
                }
                assert(target.subrange(0, prods@.len() as int) =~= target);
                out
            },
        }
    }
}

/// A pattern over s-expressions: anything, a named hole, a literal atom, or a
/// list of patterns.
#[derive(Debug)]
pub enum EnumoPattern {
    Wild,
    Var(String),
    Lit(String),
    List(Vec<EnumoPattern>),
}

impl EnumoPattern {
    fn copy(&self) -> (r: EnumoPattern)
        decreases self,
    {
        match self {
            EnumoPattern::Wild => EnumoPattern::Wild,
            EnumoPattern::Var(v) => EnumoPattern::Var(v.clone()),
            EnumoPattern::Lit(v) => EnumoPattern::Lit(v.clone()),
            EnumoPattern::List(l) => {
                let mut out: Vec<EnumoPattern> = Vec::new();
                let mut i: usize = 0;
                while i < l.len()
                    invariant
                        *self == EnumoPattern::List(*l),
                        i <= l.len(),
                    decreases l.len() - i,
                {
                    proof {
                        assert(decreases_to!(*self => (*self)->List_0));
                        assert(decreases_to!(*l => l[i as int]));
                    }
                    out.push(l[i].copy());
                    i += 1;
                }
                EnumoPattern::List(out)
            },
        }
    }
}

/// A test on terms that a workload keeps.
#[derive(Debug)]
pub enum Filter {
    /// The term's measure is below the bound.
    MetricLt(Metric, usize),
    Contains(EnumoPattern),
    Canon(Vec<String>),
    /// Both filters keep the term.
    And(Box<Filter>, Box<Filter>),
}

impl Filter {
    /// Whether the filter is one that can be run: a bound on a measure, or a
    /// conjunction of such filters.
    pub open spec fn runnable(&self) -> bool
        decreases self,
    {
        match self {
            Filter::MetricLt(_, _) => true,
            Filter::And(a, b) => a.runnable() && b.runnable(),
            _ => false,
        }
    }

    /// Whether the filter keeps the term.
    pub open spec fn keeps(&self, t: Term) -> bool
        decreases self,
    {
        match self {
            Filter::MetricLt(m, n) => measure_of(t, *m) < *n as nat,
            Filter::And(a, b) => a.keeps(t) && b.keeps(t),
            _ => false,
        }
    }

    /// Whether plugging terms into a term the filter drops always gives terms
    /// that it drops too, so that it may run before plugging.
    pub open spec fn monotonic(&self) -> bool
        decreases self,
    {
        match self {
            Filter::MetricLt(_, _) => true,
            Filter::And(a, b) => a.monotonic() && b.monotonic(),
            _ => false,
        }
    }

    pub fn test(&self, sexp: &Sexp) -> (r: bool)
        requires
            self.runnable(),
        ensures
            r == self.keeps(sexp@),
        decreases self,
    {
        match self {
            Filter::MetricLt(metric, n) => sexp.measure(*metric) < *n,
            Filter::And(a, b) => a.test(sexp) && b.test(sexp),
            _ => false,
        }
    }

    pub fn is_monotonic(&self) -> (r: bool)
        requires
            self.runnable(),
        ensures
            r == self.monotonic(),
        decreases self,
    {
        match self {
            Filter::MetricLt(_, _) => true,
            Filter::And(a, b) => a.is_monotonic() && b.is_monotonic(),
            _ => false,
        }
    }

    pub fn copy(&self) -> (r: Filter)
        ensures
            self.runnable() ==> r == *self,
        decreases self,
    {
        match self {
            Filter::MetricLt(m, n) => Filter::MetricLt(*m, *n),
            Filter::Contains(p) => Filter::Contains(p.copy()),
            Filter::Canon(v) => Filter::Canon(v.clone()),
            Filter::And(a, b) => Filter::And(Box::new(a.copy()), Box::new(b.copy())),
        }
    }
}

/// The terms that the filter keeps, in order.
pub open spec fn kept(ts: Seq<Term>, f: Filter) -> Seq<Term>
    decreases ts.len(),
{
    if ts.len() == 0 {
        Seq::empty()
    } else if f.keeps(ts.last()) {
        kept(ts.drop_last(), f).push(ts.last())
    } else {
        kept(ts.drop_last(), f)
    }
}

/// A description of a finite sequence of terms.
#[derive(Debug)]
pub enum Workload {
    /// These terms.
    Given(Vec<Sexp>),
    /// The terms of the first workload with each atom of the given name
    /// replaced by each term of the second, every combination once.
    Plug(Box<Workload>, String, Box<Workload>),
    /// The terms of the workload that the filter keeps.
    Filter(Filter, Box<Workload>),
    /// The terms of each workload in turn.
    Append(Vec<Workload>),
}

impl Workload {
    /// Whether every filter in the workload can be run.
    pub open spec fn runnable(&self) -> bool
        decreases self,
    {
        match self {
            Workload::Given(_) => true,
            Workload::Plug(t, _, p) => t.runnable() && p.runnable(),
            Workload::Filter(f, w) => f.runnable() && w.runnable(),
            Workload::Append(ws) => all_runnable(ws@),
        }
    }

    /// The terms that the workload describes, in order.
    pub open spec fn terms(&self) -> Seq<Term>
        decreases self,
    {
        match self {
            Workload::Given(v) => views(v@),
            Workload::Plug(t, n, p) => plug_over(t.terms(), n@, p.terms()),
            Workload::Filter(f, w) => kept(w.terms(), *f),
            Workload::Append(ws) => terms_all(ws@),
        }
    }
}

pub open spec fn all_runnable(ws: Seq<Workload>) -> bool
    decreases ws,
{
    if ws.len() == 0 {
        true
    } else {
        all_runnable(ws.subrange(0, ws.len() - 1)) && ws[ws.len() - 1].runnable()
    }
}

pub open spec fn terms_all(ws: Seq<Workload>) -> Seq<Term>
    decreases ws,
{
    if ws.len() == 0 {
        Seq::empty()
    } else {
        terms_all(ws.subrange(0, ws.len() - 1)) + ws[ws.len() - 1].terms()
    }
}

proof fn lemma_all_runnable(ws: Seq<Workload>)
    ensures
        all_runnable(ws) <==> forall|i: int| 0 <= i < ws.len() ==> #[trigger] ws[i].runnable(),
    decreases ws.len(),
{
    if ws.len() > 0 {
        let w0 = ws.subrange(0, ws.len() - 1);
        lemma_all_runnable(w0);
        assert forall|i: int| 0 <= i < w0.len() implies #[trigger] w0[i] == ws[i] by {}
        if all_runnable(ws) {
            assert forall|i: int| 0 <= i < ws.len() implies #[trigger] ws[i].runnable() by {
                if i < ws.len() - 1 {
                    assert(w0[i] == ws[i]);
                    assert(w0[i].runnable());
                }
            }
        }
        if forall|i: int| 0 <= i < ws.len() ==> #[trigger] ws[i].runnable() {
            assert forall|i: int| 0 <= i < w0.len() implies #[trigger] w0[i].runnable() by {
                assert(w0[i] == ws[i]);
                assert(ws[i].runnable());
            }
            assert(all_runnable(w0));
            assert(ws[ws.len() - 1].runnable());
            assert(all_runnable(ws));
        }
    }
}

/// What the filter gives when it runs as early as it may: a monotonic filter
/// runs on the target of a plug, before the plugging; any other filter runs
/// on the finished terms.
pub open spec fn filtered(w: Workload, f: Filter) -> Seq<Term>
    decreases w,
{
    match w {
        Workload::Plug(t, n, p) => if f.monotonic() {
            plug_over(filtered(*t, f), n@, p.terms())
        } else {
            kept(w.terms(), f)
        },
        _ => kept(w.terms(), f),
    }
}

/// The terms of `iter` applied `n` times: nothing for zero, else the terms
/// with `atom` replaced by those of one fewer round.
pub open spec fn iterated(ts: Seq<Term>, atom: Seq<char>, n: nat) -> Seq<Term>
    decreases n,
{
    if n == 0 {
        Seq::empty()
    } else {
        plug_over(ts, atom, iterated(ts, atom, (n - 1) as nat))
    }
}

impl Workload {
    /// The terms of the workload, in order.
    pub fn force(&self) -> (r: Vec<Sexp>)
        requires
            self.runnable(),
        ensures
            views(r@) == self.terms(),
        decreases self,
    {
        match self {
            Workload::Given(set) => copy_all(set.as_slice()),
            Workload::Plug(tgt, name, pegs) => {
                let pegs_v = pegs.force();
                let tgts = tgt.force();
                proof {
                    lemma_views(tgts@);
                }
                let mut res: Vec<Sexp> = Vec::new();
                let mut i: usize = 0;
                while i < tgts.len()
                    invariant
                        i <= tgts.len(),
                        views(tgts@).len() == tgts.len(),
                        forall|j: int|
                            0 <= j < tgts.len() ==> #[trigger] views(tgts@)[j] == tgts@[j]@,
                        views(res@) == plug_over(
                            views(tgts@).subrange(0, i as int),
                            name@,
                            views(pegs_v@),
                        ),
                    decreases tgts.len() - i,
                {
                    let mut ps = tgts[i].plug(name.as_str(), pegs_v.as_slice());
                    proof {
                        lemma_views_concat(res@, ps@);
                        let next = views(tgts@).subrange(0, i + 1);
                        assert(next.drop_last() =~= views(tgts@).subrange(0, i as int));
                        assert(next.last() == tgts@[i as int]@);
                    }
                    res.append(&mut ps);
                    i += 1;
                }
                assert(views(tgts@).subrange(0, tgts.len() as int) =~= views(tgts@));
                res
            },
            Workload::Filter(f, w) => {
                let set = w.force();
                proof {
                    lemma_views(set@);
                }
                let mut res: Vec<Sexp> = Vec::new();
                let mut i: usize = 0;
                while i < set.len()
                    invariant
                        f.runnable(),
                        i <= set.len(),
                        views(set@).len() == set.len(),
                        forall|j: int|
                            0 <= j < set.len() ==> #[trigger] views(set@)[j] == set@[j]@,
                        views(res@) == kept(views(set@).subrange(0, i as int), *f),
                    decreases set.len() - i,
                {
                    let ghost next = views(set@).subrange(0, i + 1);
                    assert(next.drop_last() =~= views(set@).subrange(0, i as int));
                    assert(next.last() == set@[i as int]@);
                    if f.test(&set[i]) {
                        let c = set[i].copy();
                        proof {
                            lemma_views_push(res@, c);
                        }
                        res.push(c);
                    }
                    i += 1;
                }
                assert(views(set@).subrange(0, set.len() as int) =~= views(set@));
                res
            },
            Workload::Append(ws) => {
                proof {
                    lemma_all_runnable(ws@);
                }
                let mut res: Vec<Sexp> = Vec::new();
                let mut i: usize = 0;
                while i < ws.len()
                    invariant
                        *self == Workload::Append(*ws),
                        i <= ws.len(),
                        forall|j: int| 0 <= j < ws.len() ==> #[trigger] ws@[j].runnable(),
                        views(res@) == terms_all(ws@.subrange(0, i as int)),
                    decreases ws.len() - i,
                {
                    proof {
                        assert(decreases_to!(*self => (*self)->Append_0));
                        assert(decreases_to!(*ws => ws[i as int]));
                    }
                    let mut part = ws[i].force();
                    proof {
                        lemma_views_concat(res@, part@);
                        let next = ws@.subrange(0, i + 1);
                        assert(next.subrange(0, i as int) =~= ws@.subrange(0, i as int));
                        assert(next[i as int] == ws@[i as int]);
                    }
                    res.append(&mut part);
                    i += 1;
                }
                assert(ws@.subrange(0, ws.len() as int) =~= ws@);
                res
            },
        }
    }

    /// The workload that plugs the terms of `workload` into those of this one
    /// at each atom `name`.
    pub fn plug(self, name: &str, workload: Workload) -> (r: Workload)
        ensures
            r.runnable() == (self.runnable() && workload.runnable()),
            r.terms() == plug_over(self.terms(), name@, workload.terms()),
    {
        Workload::Plug(Box::new(self), String::from_str(name), Box::new(workload))
    }

    /// The workload that keeps the terms the filter keeps, the filter running
    /// before any plugging where it is monotonic.
    pub fn filter(self, filter: Filter) -> (r: Workload)
        requires
            filter.runnable(),
        ensures
            r.runnable() == self.runnable(),
            r.terms() == filtered(self, filter),
        decreases self,
    {
        if filter.is_monotonic() {
            match self {
                Workload::Plug(wkld, name, pegs) => {
                    let inner = (*wkld).filter(filter);
                    Workload::Plug(Box::new(inner), name, pegs)
                },
                other => Workload::Filter(filter, Box::new(other)),
            }
        } else {
            Workload::Filter(filter, Box::new(self))
        }
    }

    /// A copy of the workload.
    pub fn copy(&self) -> (r: Workload)
        ensures
            self.runnable() ==> r.runnable() && r.terms() == self.terms(),
        decreases self,
    {
        match self {
            Workload::Given(v) => Workload::Given(copy_all(v.as_slice())),
            Workload::Plug(t, n, p) => Workload::Plug(
                Box::new(t.copy()),
                n.clone(),
                Box::new(p.copy()),
            ),
            Workload::Filter(f, w) => Workload::Filter(f.copy(), Box::new(w.copy())),
            Workload::Append(ws) => {
                let mut out: Vec<Workload> = Vec::new();
                let mut i: usize = 0;
                proof {
                    lemma_all_runnable(ws@);
                }
                while i < ws.len()
                    invariant
                        *self == Workload::Append(*ws),
                        i <= ws.len(),
                        out@.len() == i,
                        self.runnable() ==> forall|j: int|
                            0 <= j < ws.len() ==> #[trigger] ws@[j].runnable(),
                        self.runnable() ==> forall|j: int|
                            0 <= j < i ==> #[trigger] out@[j].runnable(),
                        self.runnable() ==> terms_all(out@) == terms_all(
                            ws@.subrange(0, i as int),
                        ),
                    decreases ws.len() - i,
                {
                    proof {
                        assert(decreases_to!(*self => (*self)->Append_0));
                        assert(decreases_to!(*ws => ws[i as int]));
                    }
                    let c = ws[i].copy();
                    proof {
                        let next = ws@.subrange(0, i + 1);
                        assert(next.subrange(0, i as int) =~= ws@.subrange(0, i as int));
                        assert(out@.push(c).subrange(0, i as int) =~= out@);
                    }
                    out.push(c);
                    i += 1;
                }
                assert(ws@.subrange(0, ws.len() as int) =~= ws@);
                proof {
                    lemma_all_runnable(out@);
                }
                Workload::Append(out)
            },
        }
    }

    /// The workload plugged into itself `n` times at each atom `atom`,
    /// starting from nothing.
    pub fn iter(self, atom: &str, n: usize) -> (r: Workload)
        ensures
            self.runnable() ==> r.runnable() && r.terms() == iterated(self.terms(), atom@, n as nat),
        decreases n,
    {
        if n == 0 {
            let r = Workload::Given(Vec::new());
            assert(views(Seq::<Sexp>::empty()) =~= Seq::<Term>::empty());
            r
        } else {
            let rec = self.copy().iter(atom, n - 1);
            self.plug(atom, rec)
        }
    }
}

} // verus!
