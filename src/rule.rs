use crate::sexp::{lemma_views, render, text_eq, views, Sexp, Term};
use vstd::prelude::*;

verus! {

/// Every atom of the term, left to right.
pub open spec fn leaves(t: Term) -> Seq<Seq<char>>
    decreases t,
{
    match t {
        Term::Atom(a) => seq![a],
        Term::List(ts) => leaves_all(ts),
    }
}

pub open spec fn leaves_all(ts: Seq<Term>) -> Seq<Seq<char>>
    decreases ts,
{
    if ts.len() == 0 {
        Seq::empty()
    } else {
        leaves_all(ts.subrange(0, ts.len() - 1)) + leaves(ts[ts.len() - 1])
    }
}

/// A pattern variable is an atom that starts with `?`.
pub open spec fn is_pattern_var(a: Seq<char>) -> bool {
    a.len() > 0 && a[0] == '?'
}

/// The pattern variables of the term.
pub open spec fn pattern_vars(t: Term) -> Set<Seq<char>> {
    Set::new(|a: Seq<char>| leaves(t).contains(a) && is_pattern_var(a))
}

/// A rule's name: the text of its left side, ` => `, and the text of its
/// right side.
pub open spec fn rule_name(lhs: Term, rhs: Term) -> Seq<char> {
    render(lhs) + " => "@ + render(rhs)
}

pub open spec fn strs_view(v: Seq<String>) -> Seq<Seq<char>> {
    v.map_values(|s: String| s@)
}

/// A rewrite rule from one pattern to another.
#[derive(Debug)]
pub struct Rule {
    pub name: String,
    pub lhs: Sexp,
    pub rhs: Sexp,
}

/// What a rule is: its name and its two sides.
pub type RuleView = (Seq<char>, Term, Term);

impl Rule {
    pub open spec fn view(&self) -> RuleView {
        (self.name@, self.lhs@, self.rhs@)
    }

    /// The rule is named after its sides, and the right side uses no pattern
    /// variable that the left side lacks.
    pub open spec fn wf(&self) -> bool {
        &&& self.name@ == rule_name(self.lhs@, self.rhs@)
        &&& pattern_vars(self.rhs@).subset_of(pattern_vars(self.lhs@))
    }
}

impl Sexp {
    /// Appends the atoms of the s-expression to `out`, left to right.
    pub fn collect_leaves(&self, out: &mut Vec<String>)
        ensures
            strs_view(final(out)@) == strs_view(old(out)@) + leaves(self@),
        decreases self,
    {
        match self {
            Sexp::Atom(s) => {
                let ghost before = strs_view(out@);
                out.push(s.clone());
                assert(strs_view(out@) =~= before + seq![s@]);
            },
            Sexp::List(l) => {
                proof {
                    lemma_views(l@);
                }
                let ghost start = strs_view(out@);
                let mut i: usize = 0;
                while i < l.len()
                    invariant
                        *self == Sexp::List(*l),
                        i <= l.len(),
                        views(l@).len() == l.len(),
                        forall|j: int| 0 <= j < l.len() ==> #[trigger] views(l@)[j] == l@[j]@,
                        strs_view(out@) == start + leaves_all(views(l@).subrange(0, i as int)),
                    decreases l.len() - i,
                {
                    proof {
                        assert(decreases_to!(*self => (*self)->List_0));
                        assert(decreases_to!(*l => l[i as int]));
                    }
                    l[i].collect_leaves(out);
                    proof {
                        let next = views(l@).subrange(0, i + 1);
                        assert(next.subrange(0, i as int) =~= views(l@).subrange(0, i as int));
                        assert(next[i as int] == l@[i as int]@);
                    }
                    i += 1;
                }
                assert(views(l@).subrange(0, l.len() as int) =~= views(l@));
            },
        }
    }
}

/// Whether the atom is a pattern variable.
pub fn is_var_atom(s: &str) -> (r: bool)
    ensures
        r == is_pattern_var(s@),
{
    s.unicode_len() > 0 && s.get_char(0) == '?'
}

/// Whether `v` holds the text `s`.
pub fn holds_text(v: &Vec<String>, s: &str) -> (r: bool)
    ensures
        r == strs_view(v@).contains(s@),
{
    let mut i: usize = 0;
    while i < v.len()
        invariant
            i <= v.len(),
            forall|j: int| 0 <= j < i ==> v@[j]@ != s@,
        decreases v.len() - i,
    {
        if text_eq(v[i].as_str(), s) {
            assert(strs_view(v@)[i as int] == s@);
            return true;
        }
        i += 1;
    }
    assert forall|j: int| 0 <= j < strs_view(v@).len() implies strs_view(v@)[j] != s@ by {
        assert(strs_view(v@)[j] == v@[j]@);
    }
    false
}

impl Rule {
    /// The rule from `lhs` to `rhs`, or `None` where the right side uses a
    /// pattern variable that the left side lacks.
    pub fn new(lhs: &Sexp, rhs: &Sexp) -> (r: Option<Rule>)
        ensures
            r is Some <==> pattern_vars(rhs@).subset_of(pattern_vars(lhs@)),
            r matches Some(rule) ==> rule.wf() && rule.lhs@ == lhs@ && rule.rhs@ == rhs@,
    {
        let mut lv: Vec<String> = Vec::new();
        lhs.collect_leaves(&mut lv);
        let mut rv: Vec<String> = Vec::new();
        rhs.collect_leaves(&mut rv);
        assert(strs_view(Seq::<String>::empty()) =~= Seq::<Seq<char>>::empty());
        assert(strs_view(lv@) =~= leaves(lhs@));
        assert(strs_view(rv@) =~= leaves(rhs@));
        let mut i: usize = 0;
        while i < rv.len()
            invariant
                i <= rv.len(),
                strs_view(lv@) == leaves(lhs@),
                strs_view(rv@) == leaves(rhs@),
                forall|j: int|
                    0 <= j < i && is_pattern_var(#[trigger] rv@[j]@) ==> leaves(lhs@).contains(
                        rv@[j]@,
                    ),
            decreases rv.len() - i,
        {
            if is_var_atom(rv[i].as_str()) && !holds_text(&lv, rv[i].as_str()) {
                assert(leaves(rhs@)[i as int] == rv@[i as int]@);
                assert(pattern_vars(rhs@).contains(rv@[i as int]@));
                return None;
            }
            i += 1;
        }
        assert forall|a: Seq<char>| pattern_vars(rhs@).contains(a) implies pattern_vars(
            lhs@,
        ).contains(a) by {
            let j = choose|j: int| 0 <= j < leaves(rhs@).len() && leaves(rhs@)[j] == a;
            assert(strs_view(rv@)[j] == rv@[j]@);
        }
        let mut name = lhs.to_text();
        name.append(" => ");
        let rt = rhs.to_text();
        name.append(rt.as_str());
        Some(Rule { name, lhs: lhs.copy(), rhs: rhs.copy() })
    }

    /// The rule from this rule's right side to its left side, where that is a
    /// rule.
    pub fn reverse(&self) -> (r: Option<Rule>)
        ensures
            r is Some <==> pattern_vars(self.lhs@).subset_of(pattern_vars(self.rhs@)),
            r matches Some(rule) ==> rule.wf() && rule.lhs@ == self.rhs@ && rule.rhs@
                == self.lhs@,
    {
        Rule::new(&self.rhs, &self.lhs)
    }

    /// A copy of the rule.
    pub fn copy(&self) -> (r: Rule)
        ensures
            r.name@ == self.name@,
            r.lhs@ == self.lhs@,
            r.rhs@ == self.rhs@,
    {
        Rule { name: self.name.clone(), lhs: self.lhs.copy(), rhs: self.rhs.copy() }
    }
}

/// The node count of a term: the number of its atoms.
pub open spec fn term_size(t: Term) -> nat {
    leaves(t).len()
}

/// The pattern variables of either side of a rule.
pub open spec fn rule_vars(v: RuleView) -> Set<Seq<char>> {
    pattern_vars(v.1).union(pattern_vars(v.2))
}

/// A rule's score: its number of distinct pattern variables, the node count
/// of its two sides together, and the difference of their node counts.
pub open spec fn score_of(v: RuleView) -> (nat, nat, nat) {
    let a = term_size(v.1);
    let b = term_size(v.2);
    (
        rule_vars(v).len(),
        a + b,
        if a >= b {
            (a - b) as nat
        } else {
            (b - a) as nat
        },
    )
}

proof fn lemma_concat_contains(a: Seq<Seq<char>>, b: Seq<Seq<char>>, x: Seq<char>)
    ensures
        (a + b).contains(x) <==> (a.contains(x) || b.contains(x)),
{
    if (a + b).contains(x) {
        let k = choose|k: int| 0 <= k < (a + b).len() && (a + b)[k] == x;
        if k < a.len() {
            assert(a[k] == x);
        } else {
            assert(b[k - a.len()] == x);
        }
    }
    if a.contains(x) {
        let k = choose|k: int| 0 <= k < a.len() && a[k] == x;
        assert((a + b)[k] == x);
    }
    if b.contains(x) {
        let k = choose|k: int| 0 <= k < b.len() && b[k] == x;
        assert((a + b)[k + a.len()] == x);
    }
}

impl Rule {
    /// The rule's counts, as `score_of` gives them: distinct pattern
    /// variables, node count, node-count difference.
    pub fn counts(&self) -> (r: (usize, usize, usize))
        ensures
            r.0 as nat == score_of(self@).0,
            r.1 as nat == score_of(self@).1,
            r.2 as nat == score_of(self@).2,
    {
        let mut all: Vec<String> = Vec::new();
        assert(strs_view(all@) =~= Seq::<Seq<char>>::empty());
        self.lhs.collect_leaves(&mut all);
        let a = all.len();
        assert(strs_view(all@).len() == a);
        self.rhs.collect_leaves(&mut all);
        let total = all.len();
        assert(strs_view(all@).len() == total);
        assert(total == a + leaves(self.rhs@).len());
        let b = total - a;
        let ghost whole = leaves(self.lhs@) + leaves(self.rhs@);
        assert(strs_view(all@) =~= whole);
        let mut seen: Vec<String> = Vec::new();
        let mut i: usize = 0;
        assert(strs_view(seen@) =~= Seq::<Seq<char>>::empty());
        while i < total
            invariant
                total == all.len(),
                i <= total,
                strs_view(all@) == whole,
                strs_view(seen@).no_duplicates(),
                forall|x: Seq<char>|
                    #[trigger] strs_view(seen@).contains(x) <==> (whole.subrange(
                        0,
                        i as int,
                    ).contains(x) && is_pattern_var(x)),
            decreases total - i,
        {
            let ghost before = strs_view(seen@);
            let ghost item = whole[i as int];
            assert(strs_view(all@)[i as int] == all@[i as int]@);
            assert forall|x: Seq<char>| #[trigger] whole.subrange(0, i + 1).contains(x) <==> (
            whole.subrange(0, i as int).contains(x) || x == item) by {
                let head_part = whole.subrange(0, i as int);
                let longer = whole.subrange(0, i + 1);
                if longer.contains(x) {
                    let k = choose|k: int| 0 <= k < longer.len() && longer[k] == x;
                    if k < i {
                        assert(head_part[k] == x);
                    }
                }
                if head_part.contains(x) {
                    let k = choose|k: int| 0 <= k < head_part.len() && head_part[k] == x;
                    assert(longer[k] == x);
                }
                if x == item {
                    assert(longer[i as int] == x);
                }
            }
            if is_var_atom(all[i].as_str()) && !holds_text(&seen, all[i].as_str()) {
                let c = all[i].clone();
                seen.push(c);
                proof {
                    assert(strs_view(seen@) =~= before.push(item));
                    assert forall|x: Seq<char>| #[trigger] strs_view(seen@).contains(x) <==> (
                    before.contains(x) || x == item) by {
                        let s2 = strs_view(seen@);
                        if s2.contains(x) {
                            let k = choose|k: int| 0 <= k < s2.len() && s2[k] == x;
                            if k < before.len() {
                                assert(before[k] == x);
                            }
                        }
                        if before.contains(x) {
                            let k = choose|k: int| 0 <= k < before.len() && before[k] == x;
                            assert(s2[k] == x);
                        }
                        if x == item {
                            assert(s2[before.len() as int] == x);
                        }
                    }
                }
            }
            i += 1;
        }
        proof {
            let sv = strs_view(seen@);
            sv.unique_seq_to_set();
            assert(whole.subrange(0, total as int) =~= whole);
            assert forall|x: Seq<char>| #[trigger] sv.to_set().contains(x) <==> rule_vars(
                self@,
            ).contains(x) by {
                lemma_concat_contains(leaves(self.lhs@), leaves(self.rhs@), x);
            }
            assert(sv.to_set() =~= rule_vars(self@));
        }
        (seen.len(), total, if a >= b {
            a - b
        } else {
            b - a
        })
    }
}

impl Rule {
    /// The rule's score, higher being better: more distinct pattern
    /// variables, then fewer nodes, then a smaller difference of node counts.
    pub fn score(&self) -> (r: (i128, i128, i128))
        ensures
            r.0 == score_of(self@).0,
            r.1 == -(score_of(self@).1 as int),
            r.2 == -(score_of(self@).2 as int),
    {
        let c = self.counts();
        (c.0 as i128, -(c.1 as i128), -(c.2 as i128))
    }
}

} // verus!
