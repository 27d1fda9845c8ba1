use vstd::prelude::*;

verus! {

/// The mathematical value of an s-expression: an atom's characters, or the
/// values of a list's elements.
pub enum Term {
    Atom(Seq<char>),
    List(Seq<Term>),
}

/// An s-expression: the ground terms and patterns of a term language.
#[derive(Debug)]
pub enum Sexp {
    Atom(String),
    List(Vec<Sexp>),
}

impl Sexp {
    pub open spec fn view(&self) -> Term
        decreases self,
    {
        match self {
            Sexp::Atom(s) => Term::Atom(s@),
            Sexp::List(l) => Term::List(views(l@)),
        }
    }
}

/// The values of a sequence of s-expressions, element by element.
pub open spec fn views(s: Seq<Sexp>) -> Seq<Term>
    decreases s,
{
    if s.len() == 0 {
        Seq::empty()
    } else {
        views(s.subrange(0, s.len() - 1)).push(s[s.len() - 1].view())
    }
}

pub proof fn lemma_views(s: Seq<Sexp>)
    ensures
        views(s).len() == s.len(),
        forall|i: int| 0 <= i < s.len() ==> #[trigger] views(s)[i] == s[i]@,
    decreases s.len(),
{
    if s.len() > 0 {
        lemma_views(s.subrange(0, s.len() - 1));
    }
}

pub proof fn lemma_views_push(s: Seq<Sexp>, x: Sexp)
    ensures
        views(s.push(x)) == views(s).push(x@),
{
    assert(s.push(x).subrange(0, s.len() as int) == s);
}

pub proof fn lemma_views_concat(a: Seq<Sexp>, b: Seq<Sexp>)
    ensures
        views(a + b) == views(a) + views(b),
    decreases b.len(),
{
    if b.len() == 0 {
        assert(a + b =~= a);
        assert(views(a) + views(b) =~= views(a));
    } else {
        let b0 = b.subrange(0, b.len() - 1);
        lemma_views_concat(a, b0);
        assert((a + b).subrange(0, (a + b).len() - 1) =~= a + b0);
        assert((a + b)[(a + b).len() - 1] == b[b.len() - 1]);
        assert(views(a + b) =~= views(a) + views(b));
    }
}

/// The text of a term: an atom's characters, or a list's elements between
/// parentheses, separated by single spaces.
pub open spec fn render(t: Term) -> Seq<char>
    decreases t,
{
    match t {
        Term::Atom(a) => a,
        Term::List(ts) => seq!['('] + render_seq(ts) + seq![')'],
    }
}

/// The texts of the terms, separated by single spaces.
pub open spec fn render_seq(ts: Seq<Term>) -> Seq<char>
    decreases ts,
{
    if ts.len() == 0 {
        Seq::empty()
    } else if ts.len() == 1 {
        render(ts[0])
    } else {
        render_seq(ts.subrange(0, ts.len() - 1)) + seq![' '] + render(ts[ts.len() - 1])
    }
}

/// What a term measures.
#[derive(Clone, Copy, Debug, PartialEq, Eq, Structural)]
pub enum Metric {
    /// An atom counts one; a list counts its elements.
    Atoms,
    /// The number of list nodes.
    List,
    /// The height of the tree, an atom being of height one.
    Depth,
}

pub open spec fn measure_of(t: Term, m: Metric) -> nat
    decreases t,
{
    match t {
        Term::Atom(_) => match m {
            Metric::List => 0,
            _ => 1,
        },
        Term::List(ts) => match m {
            Metric::Atoms => ts.len(),
            Metric::List => sum_measure(ts, m) + 1,
            Metric::Depth => max_measure(ts, m) + 1,
        },
    }
}

pub open spec fn sum_measure(ts: Seq<Term>, m: Metric) -> nat
    decreases ts,
{
    if ts.len() == 0 {
        0
    } else {
        sum_measure(ts.subrange(0, ts.len() - 1), m) + measure_of(ts[ts.len() - 1], m)
    }
}

/// The largest measure among the terms; zero where there are none.
pub open spec fn max_measure(ts: Seq<Term>, m: Metric) -> nat
    decreases ts,
{
    if ts.len() == 0 {
        0
    } else {
        let a = max_measure(ts.subrange(0, ts.len() - 1), m);
        let b = measure_of(ts[ts.len() - 1], m);
        if a >= b {
            a
        } else {
            b
        }
    }
}

pub open spec fn saturate(n: nat) -> nat {
    if n > usize::MAX {
        usize::MAX as nat
    } else {
        n
    }
}

impl PartialEq for Sexp {
    fn eq(&self, other: &Sexp) -> (r: bool)
        decreases self,
    {
        match (self, other) {
            (Sexp::Atom(a), Sexp::Atom(b)) => a.eq(b),
            (Sexp::List(a), Sexp::List(b)) => {
                proof {
                    lemma_views(a@);
                    lemma_views(b@);
                }
                if a.len() != b.len() {
                    return false;
                }
                let mut i: usize = 0;
                while i < a.len()
                    invariant
                        *self == Sexp::List(*a),
                        *other == Sexp::List(*b),
                        a.len() == b.len(),
                        i <= a.len(),
                        forall|j: int| 0 <= j < i ==> a@[j]@ == b@[j]@,
                        views(a@).len() == a.len(),
                        views(b@).len() == b.len(),
                        forall|j: int| 0 <= j < a.len() ==> #[trigger] views(a@)[j] == a@[j]@,
                        forall|j: int| 0 <= j < b.len() ==> #[trigger] views(b@)[j] == b@[j]@,
                    decreases a.len() - i,
                {
                    proof {
                        assert(decreases_to!(*self => (*self)->List_0));
                        assert(decreases_to!(*a => a[i as int]));
                    }
                    if !a[i].eq(&b[i]) {
                        assert(views(a@)[i as int] != views(b@)[i as int]);
                        return false;
                    }
                    i += 1;
                }
                assert(views(a@) =~= views(b@));
                true
            },
            _ => false,
        }
    }
}

impl vstd::std_specs::cmp::PartialEqSpecImpl for Sexp {
    open spec fn obeys_eq_spec() -> bool {
        true
    }

    open spec fn eq_spec(&self, other: &Sexp) -> bool {
        self@ == other@
    }
}

impl Eq for Sexp {
}

impl Clone for Sexp {
    fn clone(&self) -> (r: Sexp)
        ensures
            r@ == self@,
    {
        self.copy()
    }
}

impl Sexp {
    /// A copy of the s-expression.
    pub fn copy(&self) -> (r: Sexp)
        ensures
            r@ == self@,
        decreases self,
    {
        match self {
            Sexp::Atom(s) => Sexp::Atom(s.clone()),
            Sexp::List(l) => {
                let mut out: Vec<Sexp> = Vec::new();
                let mut i: usize = 0;
                while i < l.len()
                    invariant
                        *self == Sexp::List(*l),
                        i <= l.len(),
                        views(out@) == views(l@.subrange(0, i as int)),
                    decreases l.len() - i,
                {
                    proof {
                        assert(decreases_to!(*self => (*self)->List_0));
                        assert(decreases_to!(*l => l[i as int]));
                    }
                    let c = l[i].copy();
                    proof {
                        lemma_views_push(out@, c);
                        lemma_views_push(l@.subrange(0, i as int), l@[i as int]);
                        assert(l@.subrange(0, i as int).push(l@[i as int]) =~= l@.subrange(
                            0,
                            i + 1,
                        ));
                    }
                    out.push(c);
                    i += 1;
                }
                assert(l@.subrange(0, l.len() as int) =~= l@);
                Sexp::List(out)
            },
        }
    }

    /// The text of the s-expression, as `render` gives it.
    pub fn to_text(&self) -> (r: String)
        ensures
            r@ == render(self@),
        decreases self,
    {
        match self {
            Sexp::Atom(s) => s.clone(),
            Sexp::List(l) => {
                proof {
                    lemma_views(l@);
                }
                let mut out = String::new();
                out.append("(");
                proof {
                    reveal_strlit("(");
                    reveal_strlit(" ");
                    reveal_strlit(")");
                }
                let mut i: usize = 0;
                while i < l.len()
                    invariant
                        *self == Sexp::List(*l),
                        i <= l.len(),
                        views(l@).len() == l.len(),
                        forall|j: int| 0 <= j < l.len() ==> #[trigger] views(l@)[j] == l@[j]@,
                        out@ == seq!['('] + render_seq(views(l@).subrange(0, i as int)),
                    decreases l.len() - i,
                {
                    proof {
                        assert(decreases_to!(*self => (*self)->List_0));
                        assert(decreases_to!(*l => l[i as int]));
                    }
                    let t = l[i].to_text();
                    let ghost prev = views(l@).subrange(0, i as int);
                    let ghost next = views(l@).subrange(0, i + 1);
                    assert(next.subrange(0, i as int) =~= prev);
                    assert(next[i as int] == l@[i as int]@);
                    proof {
                        reveal_strlit(" ");
                    }
                    if i > 0 {
                        out.append(" ");
                    }
                    out.append(t.as_str());
                    proof {
                        if i == 0 {
                            assert(prev =~= Seq::<Term>::empty());
                            assert(render_seq(next) == render(next[0]));
                        } else {
                            assert(render_seq(next) == render_seq(prev) + seq![' '] + render(
                                next[i as int],
                            ));
                        }
                        assert(out@ =~= seq!['('] + render_seq(next));
                    }
                    i += 1;
                }
                assert(views(l@).subrange(0, l.len() as int) =~= views(l@));
                out.append(")");
                out
            },
        }
    }
}

impl Sexp {
    /// The measure of the s-expression, saturated at `usize::MAX`.
    pub fn measure(&self, metric: Metric) -> (r: usize)
        ensures
            r == saturate(measure_of(self@, metric)),
        decreases self,
    {
        match self {
            Sexp::Atom(_) => match metric {
                Metric::List => 0,
                _ => 1,
            },
            Sexp::List(l) => {
                proof {
                    lemma_views(l@);
                }
                match metric {
                    Metric::Atoms => l.len(),
                    _ => {
                        let mut acc: usize = 0;
                        let mut i: usize = 0;
                        while i < l.len()
                            invariant
                                *self == Sexp::List(*l),
                                metric != Metric::Atoms,
                                i <= l.len(),
                                views(l@).len() == l.len(),
                                forall|j: int|
                                    0 <= j < l.len() ==> #[trigger] views(l@)[j] == l@[j]@,
                                metric == Metric::List ==> acc == saturate(
                                    sum_measure(views(l@).subrange(0, i as int), metric),
                                ),
                                metric == Metric::Depth ==> acc == saturate(
                                    max_measure(views(l@).subrange(0, i as int), metric),
                                ),
                            decreases l.len() - i,
                        {
                            proof {
                                assert(decreases_to!(*self => (*self)->List_0));
                                assert(decreases_to!(*l => l[i as int]));
                            }
                            let m = l[i].measure(metric);
                            let ghost prev = views(l@).subrange(0, i as int);
                            let ghost next = views(l@).subrange(0, i + 1);
                            assert(next.subrange(0, i as int) =~= prev);
                            assert(next[i as int] == l@[i as int]@);
                            acc =
                            match metric {
                                Metric::List => acc.saturating_add(m),
                                _ => if m > acc {
                                    m
                                } else {
                                    acc
                                },
                            };
                            i += 1;
                        }
                        assert(views(l@).subrange(0, l.len() as int) =~= views(l@));
                        acc.saturating_add(1)
                    },
                }
            },
        }
    }
}

/// Whether two texts hold the same characters.
pub fn text_eq(a: &str, b: &str) -> (r: bool)
    ensures
        r == (a@ == b@),
{
    let n = a.unicode_len();
    if n != b.unicode_len() {
        return false;
    }
    let mut i: usize = 0;
    while i < n
        invariant
            n == a@.len(),
            n == b@.len(),
            i <= n,
            forall|j: int| 0 <= j < i ==> a@[j] == b@[j],
        decreases n - i,
    {
        if a.get_char(i) != b.get_char(i) {
            return false;
        }
        i += 1;
    }
    assert(a@ =~= b@);
    true
}

/// A copy of each s-expression, in order.
pub fn copy_all(v: &[Sexp]) -> (r: Vec<Sexp>)
    ensures
        views(r@) == views(v@),
{
    let mut out: Vec<Sexp> = Vec::new();
    let mut i: usize = 0;
    while i < v.len()
        invariant
            i <= v@.len(),
            views(out@) == views(v@.subrange(0, i as int)),
        decreases v@.len() - i,
    {
        let c = v[i].copy();
        proof {
            lemma_views_push(out@, c);
            lemma_views_push(v@.subrange(0, i as int), v@[i as int]);
            assert(v@.subrange(0, i as int).push(v@[i as int]) =~= v@.subrange(0, i + 1));
        }
        out.push(c);
        i += 1;
    }
    assert(v@.subrange(0, v@.len() as int) =~= v@);
    out
}

} // verus!
