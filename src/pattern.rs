use crate::rule::{holds_text, leaves, pattern_vars, rule_name, strs_view, Rule, RuleView};
use crate::ruleset::{added, Ruleset};
use crate::minimize::{name_less, text_less};
use crate::sexp::{lemma_views, lemma_views_push, render, views, Sexp, Term};
use vstd::prelude::*;

verus! {

/// The distinct elements of `s`, in order of first appearance.
pub open spec fn first_seen(s: Seq<Seq<char>>) -> Seq<Seq<char>>
    decreases s.len(),
{
    if s.len() == 0 {
        s
    } else {
        let d = first_seen(s.drop_last());
        if d.contains(s.last()) {
            d
        } else {
            d.push(s.last())
        }
    }
}

/// The elements of `s` that are among `vars`, in order.
pub open spec fn keep_vars(s: Seq<Seq<char>>, vars: Seq<Seq<char>>) -> Seq<Seq<char>>
    decreases s.len(),
{
    if s.len() == 0 {
        s
    } else if vars.contains(s.last()) {
        keep_vars(s.drop_last(), vars).push(s.last())
    } else {
        keep_vars(s.drop_last(), vars)
    }
}

/// The variables of the pair of terms, in order of first appearance, the
/// term whose text comes first in dictionary order read first.
pub open spec fn var_order(e1: Term, e2: Term, vars: Seq<Seq<char>>) -> Seq<Seq<char>> {
    if name_less(render(e2), render(e1)) {
        first_seen(keep_vars(leaves(e2) + leaves(e1), vars))
    } else {
        first_seen(keep_vars(leaves(e1) + leaves(e2), vars))
    }
}

/// The place of the first `x` in `s`, or -1 where there is none.
pub open spec fn place_of(s: Seq<Seq<char>>, x: Seq<char>) -> int
    decreases s.len(),
{
    if s.len() == 0 {
        -1
    } else {
        let p = place_of(s.drop_last(), x);
        if p >= 0 {
            p
        } else if s.last() == x {
            s.len() - 1
        } else {
            -1
        }
    }
}

pub open spec fn alphabet() -> Seq<char> {
    seq![
        'a',
        'b',
        'c',
        'd',
        'e',
        'f',
        'g',
        'h',
        'i',
        'j',
        'k',
        'l',
        'm',
        'n',
        'o',
        'p',
        'q',
        'r',
        's',
        't',
        'u',
        'v',
        'w',
        'x',
        'y',
        'z',
    ]
}

/// The name of the `k`-th pattern variable: `?a` to `?z`, then `?aa` to
/// `?zz`, and so on.
pub open spec fn pattern_var_name(k: nat) -> Seq<char> {
    seq!['?'] + Seq::new(k / 26 + 1, |i: int| alphabet()[(k % 26) as int])
}

/// The term with each variable of `order` replaced by its pattern variable.
pub open spec fn abstracted(t: Term, order: Seq<Seq<char>>) -> Term
    decreases t,
{
    match t {
        Term::Atom(a) => if place_of(order, a) >= 0 {
            Term::Atom(pattern_var_name(place_of(order, a) as nat))
        } else {
            t
        },
        Term::List(ts) => Term::List(abstracted_all(ts, order)),
    }
}

pub open spec fn abstracted_all(ts: Seq<Term>, order: Seq<Seq<char>>) -> Seq<Term>
    decreases ts,
{
    if ts.len() == 0 {
        Seq::empty()
    } else {
        abstracted_all(ts.subrange(0, ts.len() - 1), order).push(
            abstracted(ts[ts.len() - 1], order),
        )
    }
}

/// The place of `x` in `v`, as `place_of` gives it.
fn find_text(v: &Vec<String>, x: &str) -> (r: Option<usize>)
    ensures
        r matches Some(k) ==> place_of(strs_view(v@), x@) == k as int,
        r is None ==> place_of(strs_view(v@), x@) == -1,
{
    let mut i: usize = 0;
    while i < v.len()
        invariant
            i <= v.len(),
            place_of(strs_view(v@).subrange(0, i as int), x@) == -1,
        decreases v.len() - i,
    {
        let ghost pre = strs_view(v@).subrange(0, i as int);
        let ghost next = strs_view(v@).subrange(0, i + 1);
        assert(next.drop_last() =~= pre);
        assert(next.last() == v@[i as int]@);
        if crate::sexp::text_eq(v[i].as_str(), x) {
            proof {
                lemma_place_prefix(strs_view(v@), i as int + 1, x@);
            }
            return Some(i);
        }
        i += 1;
    }
    assert(strs_view(v@).subrange(0, v.len() as int) =~= strs_view(v@));
    None
}

/// A place found in a prefix stays the place in the whole.
proof fn lemma_place_prefix(s: Seq<Seq<char>>, n: int, x: Seq<char>)
    requires
        0 <= n <= s.len(),
        place_of(s.subrange(0, n), x) >= 0,
    ensures
        place_of(s, x) == place_of(s.subrange(0, n), x),
    decreases s.len() - n,
{
    if n < s.len() {
        let longer = s.subrange(0, n + 1);
        assert(longer.drop_last() =~= s.subrange(0, n));
        assert(s.subrange(0, n + 1).subrange(0, n) =~= s.subrange(0, n));
        lemma_place_prefix(s, n + 1, x);
    } else {
        assert(s.subrange(0, n) =~= s);
    }
}

/// The text of the `k`-th pattern variable.
pub fn pattern_var_text(k: usize) -> (r: String)
    ensures
        r@ == pattern_var_name(k as nat),
{
    let letters = "abcdefghijklmnopqrstuvwxyz";
    proof {
        reveal_strlit("abcdefghijklmnopqrstuvwxyz");
        reveal_strlit("?");
        assert(letters@ =~= alphabet());
    }
    let idx = k % 26;
    let letter = letters.substring_char(idx, idx + 1);
    let count = k / 26 + 1;
    let mut out = String::from_str("?");
    let mut i: usize = 0;
    while i < count
        invariant
            count == k / 26 + 1,
            i <= count,
            letter@ == seq![alphabet()[(k % 26) as int]],
            out@ == seq!['?'] + Seq::new(i as nat, |j: int| alphabet()[(k % 26) as int]),
        decreases count - i,
    {
        out.append(letter);
        i += 1;
        assert(out@ =~= seq!['?'] + Seq::new(i as nat, |j: int| alphabet()[(k % 26) as int]));
    }
    out
}

impl Sexp {
    /// The s-expression with each variable of `order` replaced by its pattern
    /// variable.
    pub fn abstract_with(&self, order: &Vec<String>) -> (r: Sexp)
        ensures
            r@ == abstracted(self@, strs_view(order@)),
        decreases self,
    {
        match self {
            Sexp::Atom(s) => match find_text(order, s.as_str()) {
                Some(k) => Sexp::Atom(pattern_var_text(k)),
                None => Sexp::Atom(s.clone()),
            },
            Sexp::List(l) => {
                proof {
                    lemma_views(l@);
                }
                let mut out: Vec<Sexp> = Vec::new();
                let mut i: usize = 0;
                while i < l.len()
                    invariant
                        *self == Sexp::List(*l),
                        i <= l.len(),
                        views(l@).len() == l.len(),
                        forall|j: int| 0 <= j < l.len() ==> #[trigger] views(l@)[j] == l@[j]@,
                        views(out@) == abstracted_all(
                            views(l@).subrange(0, i as int),
                            strs_view(order@),
                        ),
                    decreases l.len() - i,
                {
                    proof {
                        assert(decreases_to!(*self => (*self)->List_0));
                        assert(decreases_to!(*l => l[i as int]));
                    }
                    let c = l[i].abstract_with(order);
                    proof {
                        lemma_views_push(out@, c);
                        let next = views(l@).subrange(0, i + 1);
                        assert(next.subrange(0, i as int) =~= views(l@).subrange(0, i as int));
                        assert(next[i as int] == l@[i as int]@);
                    }
                    out.push(c);
                    i += 1;
                }
                assert(views(l@).subrange(0, l.len() as int) =~= views(l@));
                Sexp::List(out)
            },
        }
    }
}

/// The pair of terms with their variables (the atoms among `vars`) replaced
/// by pattern variables, named `?a`, `?b`, ... in order of first appearance,
/// reading first the term whose text comes first; one map serves both terms.
pub fn generalize(e1: &Sexp, e2: &Sexp, vars: &Vec<String>) -> (r: (Sexp, Sexp))
    ensures
        r.0@ == abstracted(e1@, var_order(e1@, e2@, strs_view(vars@))),
        r.1@ == abstracted(e2@, var_order(e1@, e2@, strs_view(vars@))),
{
    let mut all: Vec<String> = Vec::new();
    assert(strs_view(all@) =~= Seq::<Seq<char>>::empty());
    let t1 = e1.to_text();
    let t2 = e2.to_text();
    let second_first = text_less(t2.as_str(), t1.as_str());
    if second_first {
        e2.collect_leaves(&mut all);
        e1.collect_leaves(&mut all);
    } else {
        e1.collect_leaves(&mut all);
        e2.collect_leaves(&mut all);
    }
    let ghost whole = if second_first {
        leaves(e2@) + leaves(e1@)
    } else {
        leaves(e1@) + leaves(e2@)
    };
    assert(strs_view(all@) =~= whole);
    let mut order: Vec<String> = Vec::new();
    let mut i: usize = 0;
    assert(strs_view(order@) =~= Seq::<Seq<char>>::empty());
    while i < all.len()
        invariant
            i <= all.len(),
            strs_view(all@) == whole,
            strs_view(order@) == first_seen(
                keep_vars(whole.subrange(0, i as int), strs_view(vars@)),
            ),
        decreases all.len() - i,
    {
        let ghost pre = whole.subrange(0, i as int);
        let ghost next = whole.subrange(0, i + 1);
        let ghost vv = strs_view(vars@);
        assert(next.drop_last() =~= pre);
        assert(next.last() == all@[i as int]@);
        assert(strs_view(all@)[i as int] == all@[i as int]@);
        let ghost item = all@[i as int]@;
        let ghost kp = keep_vars(pre, vv);
        assert(kp.push(item).drop_last() =~= kp);
        assert(kp.push(item).last() == item);
        let is_var = holds_text(vars, all[i].as_str());
        let known = holds_text(&order, all[i].as_str());
        if is_var && !known {
            let c = all[i].clone();
            order.push(c);
            assert(strs_view(order@) =~= first_seen(keep_vars(pre, vv)).push(c@));
        }
        proof {
            if is_var {
                assert(keep_vars(next, vv) == kp.push(item));
            } else {
                assert(keep_vars(next, vv) == kp);
            }
        }
        i += 1;
    }
    assert(whole.subrange(0, all.len() as int) =~= whole);
    (e1.abstract_with(&order), e2.abstract_with(&order))
}

/// The rule from `l` to `r`, where its right side uses only pattern
/// variables of its left side.
pub open spec fn direction(l: Term, r: Term) -> Option<RuleView> {
    if pattern_vars(r).subset_of(pattern_vars(l)) {
        Some((rule_name(l, r), l, r))
    } else {
        None
    }
}

/// The rules after adding the rule, if there is one.
pub open spec fn added_opt(vs: Seq<RuleView>, v: Option<RuleView>) -> Seq<RuleView> {
    match v {
        Some(x) => added(vs, x),
        None => vs,
    }
}

impl Ruleset {
    /// Adds the candidate rules in both directions between the two terms. The
    /// two directions come from one generalization, so they name the terms'
    /// variables alike: the backward rule is the forward rule turned around.
    pub fn add_from_recexprs(&mut self, e1: &Sexp, e2: &Sexp, vars: &Vec<String>)
        ensures
            ({
                let order = var_order(e1@, e2@, strs_view(vars@));
                let l = abstracted(e1@, order);
                let r = abstracted(e2@, order);
                final(self)@ == added_opt(added_opt(old(self)@, direction(l, r)), direction(r, l))
            }),
    {
        let (l, r) = generalize(e1, e2, vars);
        let forward = Rule::new(&l, &r);
        let backward = Rule::new(&r, &l);
        match forward {
            Some(f) => self.add(f),
            None => {},
        }
        match backward {
            Some(b) => self.add(b),
            None => {},
        }
    }
}

} // verus!
