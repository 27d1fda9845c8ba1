use crate::minimize::{name_less, text_less};
use crate::pattern::{abstracted, generalize, var_order};
use crate::rule::{pattern_vars, rule_name, score_of, strs_view, Rule};
use crate::sexp::{render, Sexp, Term};
use vstd::prelude::*;

verus! {

/// The pair of terms generalized with one map, in this order.
pub open spec fn generalized(e1: Term, e2: Term, vars: Seq<Seq<char>>) -> (Term, Term) {
    let order = var_order(e1, e2, vars);
    (abstracted(e1, order), abstracted(e2, order))
}

/// Whether the right side uses only pattern variables of the left side.
pub open spec fn one_way(p: (Term, Term)) -> bool {
    pattern_vars(p.1).subset_of(pattern_vars(p.0))
}

/// The two generalized orders of the terms, the one with the larger name
/// first.
pub open spec fn ordered_pairs(e1: Term, e2: Term, vars: Seq<Seq<char>>) -> ((Term, Term), (Term, Term)) {
    let f = generalized(e1, e2, vars);
    let b = generalized(e2, e1, vars);
    if name_less(rule_name(f.0, f.1), rule_name(b.0, b.1)) {
        (b, f)
    } else {
        (f, b)
    }
}

/// An equation between two patterns, with the rules that realize it: one
/// rule, or two where it holds both ways.
#[derive(Debug)]
pub struct Equality {
    pub name: String,
    pub lhs: Sexp,
    pub rhs: Sexp,
    pub rewrites: Vec<Rule>,
}

/// The text of `l`, then `sep`, then the text of `r`.
fn joined(l: &Sexp, sep: &str, r: &Sexp) -> (s: String)
    ensures
        s@ == render(l@) + sep@ + render(r@),
{
    let mut out = l.to_text();
    out.append(sep);
    let rt = r.to_text();
    out.append(rt.as_str());
    out
}

impl Equality {
    /// The equation between the two terms. Each order of the terms is
    /// generalized on its own; the order whose rule name is larger leads.
    /// Where both orders make rules the equation holds both ways and is named
    /// `lhs <=> rhs`; where one does, it is that rule; where none does, there
    /// is no equation.
    pub fn new(e1: &Sexp, e2: &Sexp, vars: &Vec<String>) -> (r: Option<Equality>)
        ensures
            ({
                let (a, c) = ordered_pairs(e1@, e2@, strs_view(vars@));
                &&& r is None <==> !one_way(a) && !one_way(c)
                &&& r matches Some(eq) ==> {
                    &&& one_way(a) ==> eq.lhs@ == a.0 && eq.rhs@ == a.1
                    &&& !one_way(a) ==> eq.lhs@ == c.0 && eq.rhs@ == c.1
                    &&& one_way(a) && one_way(c) ==> eq.name@ == render(a.0) + " <=> "@
                        + render(a.1)
                    &&& !(one_way(a) && one_way(c)) ==> eq.name@ == rule_name(eq.lhs@, eq.rhs@)
                    &&& eq.rewrites@.len() == if one_way(a) && one_way(c) && rule_name(a.0, a.1)
                        != rule_name(c.0, c.1) {
                        2int
                    } else {
                        1int
                    }
                    &&& forall|i: int| 0 <= i < eq.rewrites@.len() ==> (#[trigger] eq.rewrites@[i]).wf()
                }
            }),
    {
        let (fl, fr) = generalize(e1, e2, vars);
        let (bl, br) = generalize(e2, e1, vars);
        let fname = joined(&fl, " => ", &fr);
        let bname = joined(&bl, " => ", &br);
        let swap = text_less(fname.as_str(), bname.as_str());
        let (al, ar, cl, cr) = if swap {
            (bl, br, fl, fr)
        } else {
            (fl, fr, bl, br)
        };
        let a_rule = Rule::new(&al, &ar);
        let c_rule = Rule::new(&cl, &cr);
        match (a_rule, c_rule) {
            (None, None) => None,
            (Some(a), None) => {
                let name = a.name.clone();
                Some(Equality { name, lhs: al, rhs: ar, rewrites: vec![a] })
            },
            (None, Some(c)) => {
                let name = c.name.clone();
                Some(Equality { name, lhs: cl, rhs: cr, rewrites: vec![c] })
            },
            (Some(a), Some(c)) => {
                let name = joined(&al, " <=> ", &ar);
                let same = a.name.eq(&c.name);
                let rewrites = if same {
                    vec![a]
                } else {
                    vec![a, c]
                };
                Some(Equality { name, lhs: al, rhs: ar, rewrites })
            },
        }
    }

    /// The score of the equation's two sides, higher being better: more
    /// distinct pattern variables, then fewer nodes, then a smaller
    /// difference of node counts.
    pub fn score(&self) -> (r: (i128, i128, i128))
        ensures
            r.0 == score_of((self.name@, self.lhs@, self.rhs@)).0,
            r.1 == -(score_of((self.name@, self.lhs@, self.rhs@)).1 as int),
            r.2 == -(score_of((self.name@, self.lhs@, self.rhs@)).2 as int),
    {
        let rule = Rule { name: self.name.clone(), lhs: self.lhs.copy(), rhs: self.rhs.copy() };
        rule.score()
    }
}

impl Equality {
    /// The equation with these sides, holding both ways where `bidirectional`
    /// is set. `None` where a direction it should hold in is no rule.
    pub fn from_sides(lhs: &Sexp, rhs: &Sexp, bidirectional: bool) -> (r: Option<Equality>)
        ensures
            r is Some <==> (pattern_vars(rhs@).subset_of(pattern_vars(lhs@)) && (bidirectional
                ==> pattern_vars(lhs@).subset_of(pattern_vars(rhs@)))),
            r matches Some(eq) ==> {
                &&& eq.lhs@ == lhs@
                &&& eq.rhs@ == rhs@
                &&& bidirectional ==> eq.name@ == render(lhs@) + " <=> "@ + render(rhs@)
                &&& !bidirectional ==> eq.name@ == rule_name(lhs@, rhs@)
                &&& eq.rewrites@.len() == if bidirectional {
                    2int
                } else {
                    1int
                }
                &&& forall|i: int| 0 <= i < eq.rewrites@.len() ==> (#[trigger] eq.rewrites@[i]).wf()
            },
    {
        let forward = match Rule::new(lhs, rhs) {
            Some(f) => f,
            None => {
                return None;
            },
        };
        if bidirectional {
            match Rule::new(rhs, lhs) {
                Some(b) => {
                    let name = joined(lhs, " <=> ", rhs);
                    Some(Equality { name, lhs: lhs.copy(), rhs: rhs.copy(), rewrites: vec![forward, b] })
                },
                None => None,
            }
        } else {
            let name = forward.name.clone();
            Some(Equality { name, lhs: lhs.copy(), rhs: rhs.copy(), rewrites: vec![forward] })
        }
    }
}

impl PartialEq for Equality {
    /// Equations are equal when their names are.
    fn eq(&self, other: &Equality) -> (r: bool) {
        self.name.eq(&other.name)
    }
}

impl vstd::std_specs::cmp::PartialEqSpecImpl for Equality {
    open spec fn obeys_eq_spec() -> bool {
        true
    }

    open spec fn eq_spec(&self, other: &Equality) -> bool {
        self.name@ == other.name@
    }
}

} // verus!
