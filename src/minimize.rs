use crate::egraph::{
    class_in, egg_accepts, egg_reads, held_in, history, inst_text, instance_text, merged_in,
    same_class, scheduled, book_rules, DeriveType, GraphStep, Limits, RuleBook, Scheduler, TermGraph,
};
use crate::sexp::render;
use crate::rule::{pattern_vars, score_of, Rule, RuleView};
use crate::text::reversed;
use crate::ruleset::{
    added, lemma_picked_within, lemma_removed_within, names_of, picked, removed, Ruleset,
};
use vstd::prelude::*;

verus! {

/// What a validator says of a candidate rule. Only `Valid` lets a candidate
/// be accepted.
#[derive(Clone, Copy, Debug, PartialEq, Eq, Structural)]
pub enum ValidationResult {
    Valid,
    Invalid,
    Unknown,
}

/// Whether `a` comes before `b` in dictionary order, comparing from place `i`
/// on.
pub open spec fn less_from(a: Seq<char>, b: Seq<char>, i: int) -> bool
    decreases a.len() - i,
{
    if i < 0 || i >= a.len() {
        0 <= i < b.len()
    } else if i >= b.len() {
        false
    } else if a[i] != b[i] {
        (a[i] as u32) < (b[i] as u32)
    } else {
        less_from(a, b, i + 1)
    }
}

/// Dictionary order on names.
pub open spec fn name_less(a: Seq<char>, b: Seq<char>) -> bool {
    less_from(a, b, 0)
}

/// Whether rule `a` is a better pick than rule `b`: more distinct pattern
/// variables; then fewer nodes; then a smaller difference of node counts;
/// then the name that comes first.
pub open spec fn ranks_above(a: RuleView, b: RuleView) -> bool {
    let sa = score_of(a);
    let sb = score_of(b);
    sa.0 > sb.0 || (sa.0 == sb.0 && (sa.1 < sb.1 || (sa.1 == sb.1 && (sa.2 < sb.2 || (sa.2
        == sb.2 && name_less(a.0, b.0))))))
}

/// The place of the best rule: the first of those that no later rule ranks
/// above.
pub open spec fn best_index(vs: Seq<RuleView>) -> int
    decreases vs.len(),
{
    if vs.len() <= 1 {
        0
    } else {
        let p = best_index(vs.drop_last());
        if ranks_above(vs.last(), vs[p]) {
            vs.len() - 1
        } else {
            p
        }
    }
}

proof fn lemma_best_index(vs: Seq<RuleView>)
    requires
        vs.len() > 0,
    ensures
        0 <= best_index(vs) < vs.len(),
    decreases vs.len(),
{
    if vs.len() > 1 {
        lemma_best_index(vs.drop_last());
    }
}

/// Whether the validator accepted a rule of this form.
pub open spec fn approved<F: Fn(&Rule) -> ValidationResult>(f: F, v: RuleView) -> bool {
    exists|x: Rule| x@ == v && #[trigger] f.ensures((&x,), ValidationResult::Valid)
}

/// Whether the validator gave a rule of this form a verdict other than
/// `Valid`.
pub open spec fn rejected<F: Fn(&Rule) -> ValidationResult>(f: F, v: RuleView) -> bool {
    exists|x: Rule, w: ValidationResult|
        x@ == v && w != ValidationResult::Valid && #[trigger] f.ensures((&x,), w)
}

/// Every answer the validator can give on a rule of this form is `Valid`.
pub open spec fn only_valid<F: Fn(&Rule) -> ValidationResult>(f: F, v: RuleView) -> bool {
    forall|w: ValidationResult| #[trigger] answered(f, v, w) ==> w == ValidationResult::Valid
}

/// Whether the validator can give the answer `w` on a rule of this form.
pub open spec fn answered<F: Fn(&Rule) -> ValidationResult>(f: F, v: RuleView, w: ValidationResult) -> bool {
    exists|x: Rule| x@ == v && #[trigger] f.ensures((&x,), w)
}

/// What one step of selection does, by the validator's answers: the best
/// candidate `b` leaves the candidates. Where it is valid it is chosen, with
/// its reverse where that is a candidate and valid too (the reverse then
/// leaves the candidates as well). Where it is not valid it goes to the
/// invalid set, with its reverse where that is a candidate (the reverse
/// stays a candidate), and nothing is chosen.
pub open spec fn pop_outcome<F: Fn(&Rule) -> ValidationResult>(
    f: F,
    old: Seq<RuleView>,
    inv: Seq<RuleView>,
    fin: Seq<RuleView>,
    finv: Seq<RuleView>,
    res: Seq<RuleView>,
) -> bool {
    let b = old[best_index(old)];
    let rb = reversed(b);
    let mid = removed(old, seq![b.0]);
    let rev_in = pattern_vars(b.1).subset_of(pattern_vars(b.2)) && names_of(mid).contains(rb.0);
    exists|v1: ValidationResult|
        {
            &&& #[trigger] answered(f, b, v1)
            &&& v1 == ValidationResult::Valid ==> finv == inv && chosen_step(f, b, rb, mid, rev_in, fin, res)
            &&& v1 != ValidationResult::Valid ==> {
                &&& res == Seq::<RuleView>::empty()
                &&& fin == mid
                &&& finv == if rev_in {
                    added(added(inv, b), rb)
                } else {
                    added(inv, b)
                }
            }
        }
}

/// The valid best candidate `b` is chosen, with its reverse `rb` where that
/// is a candidate and valid too.
pub open spec fn chosen_step<F: Fn(&Rule) -> ValidationResult>(
    f: F,
    b: RuleView,
    rb: RuleView,
    mid: Seq<RuleView>,
    rev_in: bool,
    fin: Seq<RuleView>,
    res: Seq<RuleView>,
) -> bool {
    if rev_in {
        exists|v2: ValidationResult|
            {
                &&& #[trigger] answered(f, rb, v2)
                &&& v2 == ValidationResult::Valid ==> res == added(added(Seq::empty(), b), rb) && fin
                    == removed(mid, seq![rb.0])
                &&& v2 != ValidationResult::Valid ==> res == added(Seq::empty(), b) && fin == mid
            }
    } else {
        res == added(Seq::empty(), b) && fin == mid
    }
}

/// Every name of `a` is a name of `b`.
pub open spec fn names_within(a: Seq<Seq<char>>, b: Seq<Seq<char>>) -> bool {
    forall|n: Seq<char>| #[trigger] a.contains(n) ==> b.contains(n)
}


/// Each rule as egg reads it: its name and the texts of its sides.
pub open spec fn rule_texts(vs: Seq<RuleView>) -> Seq<(Seq<char>, Seq<char>, Seq<char>)> {
    vs.map_values(|v: RuleView| (v.0, render(v.1), render(v.2)))
}

/// The rules that egg makes rewrites of, in order.
pub open spec fn accepted(rs: Seq<(Seq<char>, Seq<char>, Seq<char>)>) -> Seq<(Seq<char>, Seq<char>, Seq<char>)>
    decreases rs.len(),
{
    if rs.len() == 0 {
        rs
    } else if egg_accepts(rs.last()) {
        accepted(rs.drop_last()).push(rs.last())
    } else {
        accepted(rs.drop_last())
    }
}

/// The steps that add, in order, each of the texts that egg reads.
pub open spec fn seed_steps(texts: Seq<Seq<char>>) -> Seq<GraphStep>
    decreases texts.len(),
{
    if texts.len() == 0 {
        Seq::empty()
    } else if egg_reads(texts.last()) {
        seed_steps(texts.drop_last()).push(GraphStep::Add(texts.last()))
    } else {
        seed_steps(texts.drop_last())
    }
}

/// The ground sides of the candidates: left then right, candidate by
/// candidate.
pub open spec fn side_texts(vs: Seq<RuleView>) -> Seq<Seq<char>>
    decreases vs.len(),
{
    if vs.len() == 0 {
        Seq::empty()
    } else {
        side_texts(vs.drop_last()).push(inst_text(vs.last().1)).push(inst_text(vs.last().2))
    }
}

/// The e-graph that `shrink` builds: the candidates' sides added, then the
/// scheduler's runs of the chosen rules.
pub open spec fn shrink_graph(cands: Seq<RuleView>, chosen: Seq<RuleView>, s: Scheduler) -> Seq<GraphStep> {
    scheduled(seed_steps(side_texts(cands)), accepted(rule_texts(chosen)), s)
}

/// For each candidate, whether its two sides are found in one e-class of
/// the e-graph the steps build.
pub open spec fn merge_flags(h: Seq<GraphStep>, vs: Seq<RuleView>) -> Seq<bool> {
    Seq::new(vs.len(), |i: int| merged_in(h, inst_text(vs[i].1), inst_text(vs[i].2)))
}

/// For each rule of `against`, whether the rules derive it.
pub open spec fn derive_flags(rules: Seq<RuleView>, against: Seq<RuleView>, d: DeriveType, limits: Limits) -> Seq<bool> {
    Seq::new(against.len(), |i: int| derives(rules, against[i], d, limits))
}

/// Whether the rules derive the rule within the limits: egg reads both
/// ground sides, and after the left side (and, for `LhsAndRhs`, the right
/// side) is added and the rules run to saturation, both are found in one
/// e-class.
pub open spec fn derives(rules: Seq<RuleView>, v: RuleView, d: DeriveType, limits: Limits) -> bool {
    let lt = inst_text(v.1);
    let rt = inst_text(v.2);
    let seeds = if d == DeriveType::LhsAndRhs {
        seq![lt, rt]
    } else {
        seq![lt]
    };
    &&& egg_reads(lt)
    &&& egg_reads(rt)
    &&& merged_in(
        scheduled(seed_steps(seeds), accepted(rule_texts(rules)), Scheduler::Saturating(limits)),
        lt,
        rt,
    )
}

proof fn lemma_picked_false(vs: Seq<RuleView>, keep: Seq<bool>)
    requires
        keep.len() == vs.len(),
    ensures
        forall|x: RuleView|
            #[trigger] picked(vs, keep, false).contains(x) ==> exists|k: int|
                0 <= k < vs.len() && vs[k] == x && !keep[k],
    decreases vs.len(),
{
    if vs.len() > 0 {
        let d = vs.drop_last();
        lemma_picked_false_prefix(d, keep);
        let r0 = picked(d, keep, false);
        assert forall|x: RuleView| #[trigger] picked(vs, keep, false).contains(x) implies exists|k: int|
            0 <= k < vs.len() && vs[k] == x && !keep[k] by {
            let rv = picked(vs, keep, false);
            let k = choose|k: int| 0 <= k < rv.len() && rv[k] == x;
            if k < r0.len() {
                assert(r0[k] == x);
                assert(r0.contains(x));
                let q = choose|q: int| 0 <= q < d.len() && d[q] == x && !keep[q];
                assert(vs[q] == x);
            } else {
                assert(vs[vs.len() - 1] == x);
            }
        }
    }
}

proof fn lemma_picked_false_prefix(vs: Seq<RuleView>, keep: Seq<bool>)
    requires
        keep.len() >= vs.len(),
    ensures
        forall|x: RuleView|
            #[trigger] picked(vs, keep, false).contains(x) ==> exists|k: int|
                0 <= k < vs.len() && vs[k] == x && !keep[k],
    decreases vs.len(),
{
    if vs.len() > 0 {
        let d = vs.drop_last();
        lemma_picked_false_prefix(d, keep);
        let r0 = picked(d, keep, false);
        assert forall|x: RuleView| #[trigger] picked(vs, keep, false).contains(x) implies exists|k: int|
            0 <= k < vs.len() && vs[k] == x && !keep[k] by {
            let rv = picked(vs, keep, false);
            let k = choose|k: int| 0 <= k < rv.len() && rv[k] == x;
            if k < r0.len() {
                assert(r0[k] == x);
                assert(r0.contains(x));
                let q = choose|q: int| 0 <= q < d.len() && d[q] == x && !keep[q];
                assert(vs[q] == x);
            } else {
                assert(vs[vs.len() - 1] == x);
            }
        }
    }
}

/// Whether the text `a` comes before `b` in dictionary order.
pub fn text_less(a: &str, b: &str) -> (r: bool)
    ensures
        r == name_less(a@, b@),
{
    let na = a.unicode_len();
    let nb = b.unicode_len();
    let mut i: usize = 0;
    while i < na && i < nb
        invariant
            na == a@.len(),
            nb == b@.len(),
            i <= na,
            i <= nb,
            less_from(a@, b@, 0) == less_from(a@, b@, i as int),
        decreases na - i,
    {
        let ca = a.get_char(i);
        let cb = b.get_char(i);
        if ca != cb {
            return (ca as u32) < (cb as u32);
        }
        i += 1;
    }
    i < nb
}

proof fn lemma_names_of_contains(vs: Seq<RuleView>, x: RuleView)
    requires
        vs.contains(x),
    ensures
        names_of(vs).contains(x.0),
{
    let k = choose|k: int| 0 <= k < vs.len() && vs[k] == x;
    assert(names_of(vs)[k] == x.0);
}

proof fn lemma_added_names(vs: Seq<RuleView>, v: RuleView)
    ensures
        forall|n: Seq<char>| #[trigger]
            names_of(added(vs, v)).contains(n) ==> names_of(vs).contains(n) || n == v.0,
        names_of(added(vs, v)).contains(v.0),
{
    crate::ruleset::lemma_name_position(vs, v.0);
    let a = added(vs, v);
    assert forall|n: Seq<char>| #[trigger] names_of(a).contains(n) implies names_of(vs).contains(n)
        || n == v.0 by {
        let k = choose|k: int| 0 <= k < names_of(a).len() && names_of(a)[k] == n;
        if k < vs.len() && a[k] == vs[k] {
            assert(names_of(vs)[k] == n);
        }
    }
    let p = crate::ruleset::name_position(vs, v.0);
    if p >= 0 {
        assert(names_of(a)[p] == v.0);
    } else {
        assert(names_of(a)[vs.len() as int] == v.0);
    }
}

proof fn lemma_added_keeps(vs: Seq<RuleView>, v: RuleView)
    ensures
        names_within(names_of(vs), names_of(added(vs, v))),
        names_of(added(vs, v)).contains(v.0),
{
    crate::ruleset::lemma_name_position(vs, v.0);
    let a = added(vs, v);
    let p = crate::ruleset::name_position(vs, v.0);
    assert forall|n: Seq<char>| #[trigger] names_of(vs).contains(n) implies names_of(a).contains(n) by {
        let k = choose|k: int| 0 <= k < names_of(vs).len() && names_of(vs)[k] == n;
        if p >= 0 && k == p {
            assert(names_of(a)[k] == v.0);
            assert(vs[p].0 == v.0);
        } else {
            assert(names_of(a)[k] == n);
        }
    }
    if p >= 0 {
        assert(names_of(a)[p] == v.0);
    } else {
        assert(names_of(a)[vs.len() as int] == v.0);
    }
}

proof fn lemma_added_all_keeps(vs: Seq<RuleView>, ws: Seq<RuleView>)
    ensures
        names_within(names_of(vs), names_of(crate::ruleset::added_all(vs, ws))),
        names_within(names_of(ws), names_of(crate::ruleset::added_all(vs, ws))),
    decreases ws.len(),
{
    if ws.len() > 0 {
        let d = ws.drop_last();
        lemma_added_all_keeps(vs, d);
        let a0 = crate::ruleset::added_all(vs, d);
        lemma_added_keeps(a0, ws.last());
        assert forall|n: Seq<char>| #[trigger] names_of(ws).contains(n) implies names_of(
            crate::ruleset::added_all(vs, ws),
        ).contains(n) by {
            let k = choose|k: int| 0 <= k < names_of(ws).len() && names_of(ws)[k] == n;
            assert(crate::ruleset::added_all(vs, ws) == added(a0, ws.last()));
            if k < d.len() {
                assert(names_of(d)[k] == n);
                assert(names_of(d).contains(n));
                assert(names_of(a0).contains(n));
            } else {
                assert(ws.last().0 == n);
            }
        }
        assert forall|n: Seq<char>| #[trigger] names_of(vs).contains(n) implies names_of(
            crate::ruleset::added_all(vs, ws),
        ).contains(n) by {
            assert(names_of(a0).contains(n));
        }
    }
}

proof fn lemma_removed_keeps(vs: Seq<RuleView>, ns: Seq<Seq<char>>, n: Seq<char>)
    requires
        names_of(vs).contains(n),
        !ns.contains(n),
    ensures
        names_of(removed(vs, ns)).contains(n),
    decreases vs.len(),
{
    let d = vs.drop_last();
    let k = choose|k: int| 0 <= k < names_of(vs).len() && names_of(vs)[k] == n;
    let r0 = removed(d, ns);
    if k < d.len() {
        assert(names_of(d)[k] == n);
        lemma_removed_keeps(d, ns, n);
        let q = choose|q: int| 0 <= q < names_of(r0).len() && names_of(r0)[q] == n;
        if !ns.contains(vs.last().0) {
            assert(names_of(r0.push(vs.last()))[q] == n);
        }
    } else {
        assert(vs.last().0 == n);
        assert(names_of(r0.push(vs.last()))[r0.len() as int] == n);
    }
}

proof fn lemma_removed_none(vs: Seq<RuleView>)
    ensures
        removed(vs, Seq::<Seq<char>>::empty()) == vs,
    decreases vs.len(),
{
    if vs.len() > 0 {
        lemma_removed_none(vs.drop_last());
        assert(vs.drop_last().push(vs.last()) =~= vs);
    }
}

proof fn lemma_removed_twice(vs: Seq<RuleView>, a: Seq<Seq<char>>, b: Seq<Seq<char>>)
    ensures
        removed(removed(vs, a), b) == removed(vs, a + b),
    decreases vs.len(),
{
    if vs.len() > 0 {
        let d = vs.drop_last();
        lemma_removed_twice(d, a, b);
        let x = vs.last();
        assert((a + b).contains(x.0) <==> (a.contains(x.0) || b.contains(x.0))) by {
            if (a + b).contains(x.0) {
                let k = choose|k: int| 0 <= k < (a + b).len() && (a + b)[k] == x.0;
                if k < a.len() {
                    assert(a[k] == x.0);
                } else {
                    assert(b[k - a.len()] == x.0);
                }
            }
            if a.contains(x.0) {
                let k = choose|k: int| 0 <= k < a.len() && a[k] == x.0;
                assert((a + b)[k] == x.0);
            }
            if b.contains(x.0) {
                let k = choose|k: int| 0 <= k < b.len() && b[k] == x.0;
                assert((a + b)[k + a.len()] == x.0);
            }
        }
        let ra = removed(d, a);
        if !a.contains(x.0) {
            assert(ra.push(x).drop_last() =~= ra);
        }
    } else {
        assert(removed(vs, a) == vs);
    }
}

proof fn lemma_added_views(vs: Seq<RuleView>, v: RuleView)
    ensures
        forall|x: RuleView| #[trigger] added(vs, v).contains(x) ==> vs.contains(x) || x == v,
{
    crate::ruleset::lemma_name_position(vs, v.0);
    let a = added(vs, v);
    assert forall|x: RuleView| #[trigger] a.contains(x) implies vs.contains(x) || x == v by {
        let k = choose|k: int| 0 <= k < a.len() && a[k] == x;
        if k < vs.len() && a[k] == vs[k] {
            assert(vs[k] == x);
        }
    }
}

proof fn lemma_removed_names(vs: Seq<RuleView>, ns: Seq<Seq<char>>)
    ensures
        names_within(names_of(removed(vs, ns)), names_of(vs)),
        forall|n: Seq<char>| #[trigger] names_of(removed(vs, ns)).contains(n) ==> !ns.contains(n),
        removed(vs, ns).len() <= vs.len(),
    decreases vs.len(),
{
    if vs.len() > 0 {
        let d = vs.drop_last();
        lemma_removed_names(d, ns);
        let r0 = removed(d, ns);
        let r = removed(vs, ns);
        assert forall|n: Seq<char>| #[trigger] names_of(r).contains(n) implies names_of(vs).contains(
            n,
        ) && !ns.contains(n) by {
            let k = choose|k: int| 0 <= k < names_of(r).len() && names_of(r)[k] == n;
            if k < r0.len() {
                assert(r[k] == r0[k]);
                assert(names_of(r0)[k] == n);
                assert(names_of(r0).contains(n));
                let q = choose|q: int| 0 <= q < names_of(d).len() && names_of(d)[q] == n;
                assert(names_of(vs)[q] == n);
            } else {
                assert(!ns.contains(vs.last().0));
                assert(r == r0.push(vs.last()));
                assert(names_of(vs)[vs.len() - 1] == n);
            }
        }
    }
}

proof fn lemma_removed_drops(vs: Seq<RuleView>, n: Seq<char>)
    requires
        names_of(vs).contains(n),
    ensures
        removed(vs, seq![n]).len() < vs.len(),
    decreases vs.len(),
{
    let d = vs.drop_last();
    lemma_removed_names(d, seq![n]);
    if vs.last().0 == n {
        assert(seq![n][0] == n);
    } else {
        let k = choose|k: int| 0 <= k < names_of(vs).len() && names_of(vs)[k] == n;
        assert(k < d.len());
        assert(names_of(d)[k] == n);
        lemma_removed_drops(d, n);
    }
}

proof fn lemma_picked_len(vs: Seq<RuleView>, keep: Seq<bool>, b: bool)
    ensures
        picked(vs, keep, b).len() <= vs.len(),
    decreases vs.len(),
{
    if vs.len() > 0 && keep.len() > 0 {
        lemma_picked_len(vs.drop_last(), keep, b);
    }
}

impl Ruleset {
    /// The place of the best rule, as `best_index` gives it.
    pub fn best_place(&self) -> (r: usize)
        requires
            self@.len() > 0,
        ensures
            r == best_index(self@),
    {
        let n = self.len();
        let mut best: usize = 0;
        let first = self.rule_at(0);
        let mut best_score = first.counts();
        let mut i: usize = 1;
        while i < n
            invariant
                n == self@.len(),
                1 <= i <= n,
                best < i,
                best == best_index(self@.subrange(0, i as int)),
                best_score.0 as nat == score_of(self@[best as int]).0,
                best_score.1 as nat == score_of(self@[best as int]).1,
                best_score.2 as nat == score_of(self@[best as int]).2,
            decreases n - i,
        {
            let rule = self.rule_at(i);
            let s = rule.counts();
            let b = self.rule_at(best);
            let above = s.0 > best_score.0 || (s.0 == best_score.0 && (s.1 < best_score.1 || (s.1
                == best_score.1 && (s.2 < best_score.2 || (s.2 == best_score.2 && text_less(
                rule.name.as_str(),
                b.name.as_str(),
            ))))));
            proof {
                let next = self@.subrange(0, i + 1);
                assert(next.drop_last() =~= self@.subrange(0, i as int));
                assert(next.last() == self@[i as int]);
                assert(next[best as int] == self@[best as int]);
            }
            if above {
                best = i;
                best_score = s;
            }
            i += 1;
        }
        assert(self@.subrange(0, n as int) =~= self@);
        best
    }

    /// Removes the rule of the rule's name, if there is one.
    pub fn remove_rule(&mut self, rule: &Rule)
        ensures
            final(self)@ == removed(old(self)@, seq![rule.name@]),
    {
        let mut one = Ruleset::empty();
        one.add(rule.copy());
        assert(one.names() =~= seq![rule.name@]);
        self.remove_all(one);
    }

    /// A book of the rewrites that egg makes of the rules, in order.
    pub(crate) fn rule_book(&self) -> (b: RuleBook)
        ensures
            book_rules(b) == accepted(rule_texts(self@)),
    {
        let mut book = RuleBook::new();
        let n = self.len();
        let mut i: usize = 0;
        while i < n
            invariant
                n == self@.len(),
                i <= n,
                book_rules(book) == accepted(rule_texts(self@.subrange(0, i as int))),
            decreases n - i,
        {
            let rule = self.rule_at(i);
            let lt = rule.lhs.to_text();
            let rt = rule.rhs.to_text();
            book.push(rule.name.as_str(), lt.as_str(), rt.as_str());
            proof {
                let next = rule_texts(self@.subrange(0, i + 1));
                assert(next.drop_last() =~= rule_texts(self@.subrange(0, i as int)));
                assert(next.last() == (self@[i as int].0, render(self@[i as int].1), render(self@[i as int].2)));
            }
            i += 1;
        }
        assert(self@.subrange(0, n as int) =~= self@);
        book
    }

    /// Takes `step_size` candidates from the set, best first, or as many as
    /// there are. A candidate that the validator accepts is chosen, with its
    /// reverse where that is a candidate that the validator accepts too; one
    /// it does not accept goes to `invalid`, with its reverse where that is a
    /// candidate. For one step the outcome is exactly `pop_outcome`.
    pub fn select<F: Fn(&Rule) -> ValidationResult>(
        &mut self,
        step_size: usize,
        invalid: &mut Ruleset,
        validate: &F,
    ) -> (r: Ruleset)
        requires
            forall|x: &Rule| #[trigger] validate.requires((x,)),
        ensures
            names_within(final(self).names(), old(self).names()),
            old(self)@.len() > 0 && step_size > 0 ==> final(self)@.len() < old(self)@.len()
                && !final(self).names().contains(old(self)@[best_index(old(self)@)].0),
            final(self)@.len() <= old(self)@.len(),
            forall|i: int| 0 <= i < r@.len() ==> approved(*validate, #[trigger] r@[i]),
            names_within(r.names(), old(self).names()),
            forall|n: Seq<char>| #[trigger]
                final(invalid).names().contains(n) ==> old(invalid).names().contains(n) || old(
                    self,
                ).names().contains(n),
            names_within(old(invalid).names(), final(invalid).names()),
            old(self)@.len() > 0 && step_size > 0 ==> r.names().contains(
                old(self)@[best_index(old(self)@)].0,
            ) || final(invalid).names().contains(old(self)@[best_index(old(self)@)].0),
            old(self)@.len() > 0 && step_size > 0 ==> r.names().contains(
                old(self)@[best_index(old(self)@)].0,
            ) || rejected(*validate, old(self)@[best_index(old(self)@)]),
            exists|gone: Seq<Seq<char>>|
                {
                    &&& final(self)@ == removed(old(self)@, gone)
                    &&& forall|n: Seq<char>| #[trigger]
                        gone.contains(n) ==> r.names().contains(n) || final(invalid).names().contains(n)
                },
            step_size == 1 && old(self)@.len() > 0 ==> pop_outcome(
                *validate,
                old(self)@,
                old(invalid)@,
                final(self)@,
                final(invalid)@,
                r@,
            ),
            step_size == 0 || old(self)@.len() == 0 ==> final(self)@ == old(self)@ && final(invalid)@
                == old(invalid)@ && r@.len() == 0,
    {
        let ghost start = self@;
        let ghost start_inv = invalid@;
        let mut pops: usize = 0;
        let ghost start_invalid = invalid.names();
        let mut selected = Ruleset::empty();
        let ghost mut progressed = false;
        let ghost mut gone: Seq<Seq<char>> = Seq::empty();
        proof {
            assert(removed(start, gone) == start) by {
                lemma_removed_none(start);
            }
        }
        while pops < step_size && !self.is_empty()
            invariant
                pops <= step_size,
                progressed <==> pops > 0,
                !progressed ==> invalid@ == start_inv,
                pops == 1 && step_size == 1 ==> pop_outcome(
                    *validate,
                    start,
                    start_inv,
                    self@,
                    invalid@,
                    selected@,
                ),
                self@ == removed(start, gone),
                forall|n: Seq<char>| #[trigger]
                    gone.contains(n) ==> names_of(selected@).contains(n) || invalid.names().contains(n),
                names_within(start_invalid, invalid.names()),
                progressed ==> start.len() > 0 && gone.contains(start[best_index(start)].0),
                progressed ==> names_of(selected@).contains(start[best_index(start)].0) || rejected(
                    *validate,
                    start[best_index(start)],
                ),
                progressed ==> !self.names().contains(start[best_index(start)].0),
                forall|x: &Rule| #[trigger] validate.requires((x,)),
                names_within(self.names(), names_of(start)),
                self@.len() <= start.len(),
                !progressed ==> self@ == start,
                !progressed ==> selected@.len() == 0,
                progressed ==> self@.len() < start.len() && !self.names().contains(
                    start[best_index(start)].0,
                ),
                forall|i: int| 0 <= i < selected@.len() ==> approved(*validate, #[trigger] selected@[i]),
                names_within(names_of(selected@), names_of(start)),
                forall|n: Seq<char>| #[trigger]
                    invalid.names().contains(n) ==> start_invalid.contains(n) || names_of(
                        start,
                    ).contains(n),
            decreases self@.len(),
        {
            let ghost before = self@;
            let ghost sel0 = names_of(selected@);
            let ghost sel_view0 = selected@;
            let ghost inv0n = invalid.names();
            let ghost gone0 = gone;
            let p = self.best_place();
            proof {
                lemma_best_index(self@);
                lemma_names_of_contains(self@, self@[p as int]);
            }
            let rule = self.rule_at(p).copy();
            proof {
                assert(self.names().contains(rule.name@));
                assert(names_of(start).contains(rule.name@));
                if !progressed {
                    assert(rule.name@ == start[best_index(start)].0);
                }
            }
            let ghost first = !progressed;
            self.remove_rule(&rule);
            proof {
                lemma_removed_drops(before, rule.name@);
                lemma_removed_names(before, seq![rule.name@]);
                assert(seq![rule.name@][0] == rule.name@);
                lemma_removed_twice(start, gone, seq![rule.name@]);
                gone = gone + seq![rule.name@];
                assert(gone.contains(rule.name@)) by {
                    assert(gone[gone.len() - 1] == rule.name@);
                }
                progressed = true;
            }
            let ghost gone1 = gone;
            let reverse = rule.reverse();
            let verdict = validate(&rule);
            proof {
                if first && verdict != ValidationResult::Valid {
                    assert(rule@ == start[best_index(start)]);
                    assert(validate.ensures((&rule,), verdict));
                    assert(rejected(*validate, start[best_index(start)]));
                }
            }
            let ghost sel_before = names_of(selected@);
            let ghost mut v2 = ValidationResult::Invalid;
            let ghost mid = self@;
            let ghost inv_before = invalid@;
            let rev_in_exec = match &reverse {
                Some(rev) => self.contains(rev),
                None => false,
            };
            proof {
                if first {
                    assert(rule@ == start[best_index(start)]);
                    assert(mid == removed(start, seq![rule.name@])) by {
                        lemma_removed_none(start);
                    }
                    assert(answered(*validate, rule@, verdict));
                }
            }
            if verdict == ValidationResult::Valid {
                let ghost old_sel = selected@;
                proof {
                    assert(validate.ensures((&rule,), ValidationResult::Valid));
                    assert(approved(*validate, rule@));
                    lemma_added_views(selected@, rule@);
                    lemma_added_names(selected@, rule@);
                    lemma_added_keeps(selected@, rule@);
                }
                selected.add(rule);
                proof {
                    assert forall|i: int| 0 <= i < selected@.len() implies approved(
                        *validate,
                        #[trigger] selected@[i],
                    ) by {
                        let x = selected@[i];
                        assert(selected@.contains(x));
                        if old_sel.contains(x) {
                            let k = choose|k: int| 0 <= k < old_sel.len() && old_sel[k] == x;
                            assert(approved(*validate, old_sel[k]));
                        }
                    }
                }
                match reverse {
                    Some(rev) => {
                        if self.contains(&rev) {
                            let verdict2 = validate(&rev);
                            proof {
                                v2 = verdict2;
                                assert(answered(*validate, rev@, verdict2));
                            }
                            if verdict2 == ValidationResult::Valid {
                                let ghost mid = self@;
                                let ghost old_sel = selected@;
                                let ghost sel1 = names_of(selected@);
                                self.remove_rule(&rev);
                                proof {
                                    lemma_removed_twice(start, gone, seq![rev.name@]);
                                    gone = gone + seq![rev.name@];
                                    lemma_added_keeps(selected@, rev@);
                                    assert(validate.ensures((&rev,), ValidationResult::Valid));
                                    assert(approved(*validate, rev@));
                                    lemma_removed_names(mid, seq![rev.name@]);
                                    lemma_added_views(selected@, rev@);
                                    lemma_added_names(selected@, rev@);
                                }
                                selected.add(rev);
                                proof {
                                    assert forall|i: int| 0 <= i < selected@.len() implies approved(
                                        *validate,
                                        #[trigger] selected@[i],
                                    ) by {
                                        let x = selected@[i];
                                        assert(selected@.contains(x));
                                        if old_sel.contains(x) {
                                            let k = choose|k: int|
                                                0 <= k < old_sel.len() && old_sel[k] == x;
                                            assert(approved(*validate, old_sel[k]));
                                        }
                                    }
                                }
                            }
                        }
                    },
                    None => {},
                }
            } else {
                let ghost inv0 = invalid@;
                let ghost invn0 = invalid.names();
                let ghost rname = rule.name@;
                proof {
                    lemma_added_names(invalid@, rule@);
                    lemma_added_keeps(invalid@, rule@);
                }
                invalid.add(rule);
                proof {
                    assert forall|n: Seq<char>| #[trigger] invalid.names().contains(
                        n,
                    ) implies start_invalid.contains(n) || names_of(start).contains(n) by {
                        if n != rname {
                            assert(names_of(inv0).contains(n));
                            assert(invn0.contains(n));
                        } else {
                            assert(names_of(start).contains(n));
                        }
                    }
                }
                match reverse {
                    Some(rev) => {
                        if self.contains(&rev) {
                            let ghost inv1 = invalid@;
                            let ghost invn1 = invalid.names();
                            proof {
                                assert(names_of(start).contains(rev.name@));
                                lemma_added_names(invalid@, rev@);
                                lemma_added_keeps(invalid@, rev@);
                            }
                            invalid.add(rev);
                            proof {
                                assert forall|n: Seq<char>| #[trigger] invalid.names().contains(
                                    n,
                                ) implies start_invalid.contains(n) || names_of(start).contains(
                                    n,
                                ) by {
                                    if n != rev.name@ {
                                        assert(names_of(inv1).contains(n));
                                        assert(invn1.contains(n));
                                    }
                                }
                            }
                        }
                    },
                    None => {},
                }
            }
            proof {
                if first && step_size == 1 {
                    let b = start[best_index(start)];
                    let rb = reversed(b);
                    assert(rule@ == b);
                    assert(reverse is Some <==> pattern_vars(b.1).subset_of(pattern_vars(b.2)));
                    if reverse is Some {
                        assert(reverse->Some_0@ == rb);
                    }
                    assert(rev_in_exec == (pattern_vars(b.1).subset_of(pattern_vars(b.2)) && names_of(
                        mid,
                    ).contains(rb.0)));
                    assert(sel_view0 =~= Seq::<RuleView>::empty());
                    assert(inv_before == start_inv);
                    assert(answered(*validate, b, verdict));
                    let rev_in = pattern_vars(b.1).subset_of(pattern_vars(b.2)) && names_of(mid).contains(
                        rb.0,
                    );
                    if verdict == ValidationResult::Valid {
                        assert(rev_in_exec ==> answered(*validate, rb, v2));
                        assert(invalid@ == start_inv);
                        if rev_in_exec && v2 == ValidationResult::Valid {
                            assert(selected@ == added(added(Seq::empty(), b), rb));
                            assert(self@ == removed(mid, seq![rb.0]));
                        } else {
                            assert(selected@ == added(Seq::empty(), b));
                            assert(self@ == mid);
                        }
                        assert(chosen_step(*validate, b, rb, mid, rev_in, self@, selected@));
                    } else {
                        assert(selected@ == Seq::<RuleView>::empty());
                        assert(self@ == mid);
                        assert(invalid@ == if rev_in {
                            added(added(start_inv, b), rb)
                        } else {
                            added(start_inv, b)
                        });
                    }
                    assert(mid == removed(start, seq![b.0]));
                    assert(pop_outcome(*validate, start, start_inv, self@, invalid@, selected@));
                }
            }
            pops += 1;
            proof {
                assert forall|n: Seq<char>| #[trigger] gone.contains(n) implies names_of(
                    selected@,
                ).contains(n) || invalid.names().contains(n) by {
                    if gone0.contains(n) {
                        if sel0.contains(n) {
                            assert(names_of(selected@).contains(n));
                        } else {
                            assert(inv0n.contains(n));
                        }
                    } else {
                        let k = choose|k: int| 0 <= k < gone.len() && gone[k] == n;
                        if k >= gone0.len() {
                        }
                    }
                }
                if !first {
                    if sel0.contains(start[best_index(start)].0) {
                        assert(names_of(selected@).contains(start[best_index(start)].0));
                    }
                } else if verdict == ValidationResult::Valid {
                    assert(names_of(selected@).contains(rule.name@));
                }
                if first {
                    assert(gone.contains(start[best_index(start)].0)) by {
                        assert(gone[gone0.len() as int] == start[best_index(start)].0);
                    }
                } else {
                    assert(gone0.contains(start[best_index(start)].0));
                    let k = choose|k: int| 0 <= k < gone0.len() && gone0[k] == start[best_index(start)].0;
                    assert(gone[k] == gone0[k]);
                }
            }
        }
        selected
    }

    /// Drops the candidates that the chosen rules already derive: both sides
    /// of each candidate, as ground terms, go into one e-graph, the scheduler
    /// runs the chosen rules on it, and a candidate whose sides end in one
    /// e-class leaves. The others stay, in order. A candidate whose two sides
    /// are the same term that egg reads always leaves.
    pub fn shrink(&mut self, chosen: &Ruleset, scheduler: Scheduler)
        ensures
            final(self)@ == picked(
                old(self)@,
                merge_flags(shrink_graph(old(self)@, chosen@, scheduler), old(self)@),
                false,
            ),
            forall|x: RuleView|
                #[trigger] final(self)@.contains(x) ==> old(self)@.contains(x) && !(inst_text(x.1)
                    == inst_text(x.2) && egg_reads(inst_text(x.1))),
    {
        let mut egraph = TermGraph::new();
        let n = self.len();
        let mut texts: Vec<(String, String)> = Vec::new();
        let mut i: usize = 0;
        while i < n
            invariant
                n == self@.len(),
                i <= n,
                texts@.len() == i,
                history(egraph) == seed_steps(side_texts(self@.subrange(0, i as int))),
                forall|j: int|
                    0 <= j < i ==> (#[trigger] texts@[j]).0@ == inst_text(self@[j].1) && texts@[j].1@
                        == inst_text(self@[j].2),
                forall|j: int|
                    0 <= j < i && egg_reads(inst_text(self@[j].1)) ==> held_in(history(egraph)).contains(
                        #[trigger] inst_text(self@[j].1),
                    ),
            decreases n - i,
        {
            let rule = self.rule_at(i);
            let lt = instance_text(&rule.lhs);
            let rt = instance_text(&rule.rhs);
            let ghost h0 = history(egraph);
            let al = egraph.add(lt.as_str());
            let ghost h1 = history(egraph);
            let ar = egraph.add(rt.as_str());
            proof {
                let pre = self@.subrange(0, i as int);
                let next = self@.subrange(0, i + 1);
                assert(next.drop_last() =~= pre);
                let st = side_texts(next);
                assert(st == side_texts(pre).push(lt@).push(rt@));
                assert(st.drop_last() =~= side_texts(pre).push(lt@));
                assert(st.last() == rt@);
                assert(side_texts(pre).push(lt@).drop_last() =~= side_texts(pre));
                assert(side_texts(pre).push(lt@).last() == lt@);
                assert(h0 == seed_steps(side_texts(pre)));
                assert(seed_steps(side_texts(pre).push(lt@)) == h1);
                assert(seed_steps(st) == history(egraph));
            }
            texts.push((lt, rt));
            i += 1;
        }
        assert(self@.subrange(0, n as int) =~= self@);
        let book = chosen.rule_book();
        let egraph = scheduler.run(egraph, &book);
        let ghost g = shrink_graph(self@, chosen@, scheduler);
        assert(history(egraph) == g);
        let mut merged: Vec<bool> = Vec::new();
        let mut j: usize = 0;
        while j < n
            invariant
                n == self@.len(),
                n == texts@.len(),
                merged@.len() == j,
                j <= n,
                history(egraph) == g,
                forall|k: int|
                    0 <= k < n ==> (#[trigger] texts@[k]).0@ == inst_text(self@[k].1) && texts@[k].1@
                        == inst_text(self@[k].2),
                forall|k: int| 0 <= k < j ==> merged@[k] == #[trigger] merge_flags(g, self@)[k],
                forall|k: int|
                    0 <= k < n && egg_reads(inst_text(self@[k].1)) ==> held_in(g).contains(
                        #[trigger] inst_text(self@[k].1),
                    ),
                forall|k: int|
                    0 <= k < j && #[trigger] held_in(g).contains(inst_text(self@[k].1)) ==> class_in(
                        g,
                        inst_text(self@[k].1),
                    ) is Some,
            decreases n - j,
        {
            let m = same_class(egraph.lookup(texts[j].0.as_str()), egraph.lookup(texts[j].1.as_str()));
            merged.push(m);
            j += 1;
        }
        assert(merged@ =~= merge_flags(g, self@));
        proof {
            let old_v = self@;
            lemma_picked_false(old_v, merged@);
            assert forall|x: RuleView|
                #[trigger] picked(old_v, merged@, false).contains(x) implies old_v.contains(x) && !(
            inst_text(x.1) == inst_text(x.2) && egg_reads(inst_text(x.1))) by {
                let k = choose|k: int| 0 <= k < old_v.len() && old_v[k] == x && !merged@[k];
                if inst_text(x.1) == inst_text(x.2) && egg_reads(inst_text(x.1)) {
                    assert(held_in(g).contains(inst_text(old_v[k].1)));
                    assert(class_in(g, inst_text(old_v[k].1)) is Some);
                    assert(merge_flags(g, old_v)[k]);
                }
            }
        }
        let (_, kept) = self.split_by(&merged);
        *self = kept;
    }

    /// Chooses rules from the candidates in this set, one step at a time,
    /// until none is left; after each step the candidates that the rules
    /// chosen so far, with `prior`, derive are dropped. Returns the chosen
    /// rules that `prior` lacks, and the candidates found invalid.
    pub fn minimize<F: Fn(&Rule) -> ValidationResult>(
        &mut self,
        prior: Ruleset,
        scheduler: Scheduler,
        validate: &F,
    ) -> (r: (Ruleset, Ruleset))
        requires
            forall|x: &Rule| #[trigger] validate.requires((x,)),
        ensures
            final(self)@.len() == 0,
            forall|i: int| 0 <= i < r.0@.len() ==> approved(*validate, #[trigger] r.0@[i]),
            forall|n: Seq<char>| #[trigger]
                r.0.names().contains(n) ==> !prior.names().contains(n) && old(
                    self,
                ).names().contains(n),
            names_within(r.1.names(), old(self).names()),
            names_within(old(self).names(), prior.names()) ==> r.0@.len() == 0,
            old(self)@.len() > 0 ==> ({
                let b = old(self)@[best_index(old(self)@)].0;
                r.0.names().contains(b) || r.1.names().contains(b) || prior.names().contains(b)
            }),
            old(self)@.len() > 0 ==> ({
                let b = old(self)@[best_index(old(self)@)];
                r.0.names().contains(b.0) || prior.names().contains(b.0) || rejected(*validate, b)
            }),
            old(self)@.len() > 0 ==> ({
                let b = old(self)@[best_index(old(self)@)];
                let rb = reversed(b);
                only_valid(*validate, b) && pattern_vars(b.1).subset_of(pattern_vars(b.2)) && names_of(
                    removed(old(self)@, seq![b.0]),
                ).contains(rb.0) && only_valid(*validate, rb) ==> (r.0.names().contains(b.0)
                    || prior.names().contains(b.0)) && (r.0.names().contains(rb.0)
                    || prior.names().contains(rb.0))
            }),
    {
        let ghost pool = self.names();
        let ghost start = self@;
        let ghost b0 = if start.len() > 0 {
            start[best_index(start)].0
        } else {
            Seq::<char>::empty()
        };
        let ghost rb0 = reversed(start[best_index(start)]);
        let ghost pair_case = start.len() > 0 && only_valid(*validate, start[best_index(start)])
            && pattern_vars(start[best_index(start)].1).subset_of(
            pattern_vars(start[best_index(start)].2),
        ) && names_of(removed(start, seq![start[best_index(start)].0])).contains(rb0.0)
            && only_valid(*validate, rb0);
        let ghost mut first_done = false;
        let mut invalid = Ruleset::empty();
        let mut chosen = prior.copy();
        let step_size: usize = 1;
        while !self.is_empty()
            invariant
                step_size == 1,
                !first_done ==> self@ == start,
                start.len() > 0 ==> b0 == start[best_index(start)].0,
                pool == names_of(start),
                first_done ==> chosen.names().contains(b0) || invalid.names().contains(b0),
                first_done ==> chosen.names().contains(b0) || rejected(*validate, start[best_index(start)]),
                first_done && pair_case ==> chosen.names().contains(b0) && chosen.names().contains(rb0.0),
                rb0 == reversed(start[best_index(start)]),
                pair_case == (start.len() > 0 && only_valid(*validate, start[best_index(start)])
                    && pattern_vars(start[best_index(start)].1).subset_of(
                    pattern_vars(start[best_index(start)].2),
                ) && names_of(removed(start, seq![start[best_index(start)].0])).contains(rb0.0)
                    && only_valid(*validate, rb0)),
                forall|x: &Rule| #[trigger] validate.requires((x,)),
                names_within(self.names(), pool),
                names_within(invalid.names(), pool),
                forall|x: RuleView| #[trigger]
                    chosen@.contains(x) ==> prior@.contains(x) || (approved(*validate, x)
                        && pool.contains(x.0)),
            decreases self@.len(),
        {
            let ghost before_invalid = invalid.names();
            let ghost was_first = !first_done;
            let ghost chosen_names0 = chosen.names();
            let ghost invalid_view0 = invalid@;
            let selected = self.select(step_size, &mut invalid, validate);
            let any = !selected.is_empty();
            proof {
                if was_first && pair_case {
                    let b = start[best_index(start)];
                    let mid0 = removed(start, seq![b.0]);
                    assert(pop_outcome(*validate, start, invalid_view0, self@, invalid@, selected@));
                    let v1 = choose|v1: ValidationResult|
                        {
                            &&& #[trigger] answered(*validate, b, v1)
                            &&& v1 == ValidationResult::Valid ==> invalid@ == invalid_view0
                                && chosen_step(*validate, b, rb0, mid0, true, self@, selected@)
                            &&& v1 != ValidationResult::Valid ==> {
                                &&& selected@ == Seq::<RuleView>::empty()
                                &&& self@ == mid0
                                &&& invalid@ == added(added(invalid_view0, b), rb0)
                            }
                        };
                    assert(v1 == ValidationResult::Valid);
                    let v2 = choose|v2: ValidationResult|
                        {
                            &&& #[trigger] answered(*validate, rb0, v2)
                            &&& v2 == ValidationResult::Valid ==> selected@ == added(
                                added(Seq::empty(), b),
                                rb0,
                            ) && self@ == removed(mid0, seq![rb0.0])
                            &&& v2 != ValidationResult::Valid ==> selected@ == added(Seq::empty(), b)
                                && self@ == mid0
                        };
                    assert(v2 == ValidationResult::Valid);
                    lemma_added_keeps(Seq::empty(), b);
                    lemma_added_keeps(added(Seq::empty(), b), rb0);
                    assert(names_of(selected@).contains(b.0));
                    assert(names_of(selected@).contains(rb0.0));
                }
            }
            proof {
                assert forall|x: RuleView| #[trigger] selected@.contains(x) implies approved(
                    *validate,
                    x,
                ) && pool.contains(x.0) by {
                    let k = choose|k: int| 0 <= k < selected@.len() && selected@[k] == x;
                    assert(approved(*validate, selected@[k]));
                    lemma_names_of_contains(selected@, x);
                }
            }
            let ghost before = chosen@;
            chosen.extend(selected);
            proof {
                lemma_added_all_within(before, selected@);
                lemma_added_all_keeps(before, selected@);
                assert(chosen@ == crate::ruleset::added_all(before, selected@));
                if !was_first {
                    if chosen_names0.contains(b0) {
                        assert(names_of(before).contains(b0));
                        assert(chosen.names().contains(b0));
                        assert(chosen.names().contains(b0) || rejected(*validate, start[best_index(start)]));
                    } else {
                        assert(before_invalid.contains(b0));
                        assert(invalid.names().contains(b0));
                    }
                } else {
                    assert(start.len() > 0);
                    assert(b0 == start[best_index(start)].0);
                    if selected.names().contains(b0) {
                        assert(names_of(selected@).contains(b0));
                        assert(chosen.names().contains(b0));
                    } else {
                        assert(invalid.names().contains(b0));
                        assert(rejected(*validate, start[best_index(start)]));
                    }
                }
                if was_first && pair_case {
                    assert(names_of(selected@).contains(b0));
                    assert(names_of(selected@).contains(rb0.0));
                } else if pair_case {
                    assert(names_of(before).contains(b0));
                    assert(names_of(before).contains(rb0.0));
                }
                first_done = true;
            }
            if any {
                let ghost mid = self@;
                self.shrink(&chosen, scheduler);
                proof {
                    let merged = choose|merged: Seq<bool>| self@ == picked(mid, merged, false);
                    lemma_picked_len(mid, merged, false);
                    lemma_picked_within(mid, merged, false);
                    assert forall|n: Seq<char>| #[trigger] self.names().contains(n) implies pool.contains(
                        n,
                    ) by {
                        let k = choose|k: int| 0 <= k < self.names().len() && self.names()[k] == n;
                        assert(picked(mid, merged, false).contains(self@[k]));
                        lemma_names_of_contains(mid, self@[k]);
                    }
                }
            }
        }
        let ghost all = chosen@;
        let ghost all_names = chosen.names();
        chosen.remove_all(prior.copy());
        proof {
            if start.len() > 0 {
                assert(first_done);
                if all_names.contains(b0) && !prior.names().contains(b0) {
                    lemma_removed_keeps(all, prior.names(), b0);
                }
                if pair_case && !prior.names().contains(rb0.0) {
                    lemma_removed_keeps(all, prior.names(), rb0.0);
                }
            }
            lemma_removed_within(all, prior.names());
            lemma_removed_names(all, prior.names());
            assert forall|i: int| 0 <= i < chosen@.len() implies approved(
                *validate,
                #[trigger] chosen@[i],
            ) by {
                let x = chosen@[i];
                assert(removed(all, prior.names()).contains(x));
                lemma_names_of_contains(chosen@, x);
                if prior@.contains(x) {
                    lemma_names_of_contains(prior@, x);
                }
            }
            assert forall|n: Seq<char>| #[trigger] chosen.names().contains(n) implies !prior.names().contains(
                n,
            ) && pool.contains(n) by {
                let k = choose|k: int| 0 <= k < chosen.names().len() && chosen.names()[k] == n;
                let x = chosen@[k];
                assert(removed(all, prior.names()).contains(x));
                if prior@.contains(x) {
                    lemma_names_of_contains(prior@, x);
                }
            }
        }
        proof {
            if names_within(pool, prior.names()) && chosen@.len() > 0 {
                assert(chosen.names()[0] == chosen@[0].0);
                assert(chosen.names().contains(chosen@[0].0));
            }
        }
        (chosen, invalid)
    }

    /// Whether the rules derive `rule` within the limits, as `derives` says:
    /// an e-graph starts with the rule's left side (and its right side, for
    /// `LhsAndRhs`) as ground terms, the rules run to saturation, and the
    /// answer is whether both sides are found in one e-class. It is `false`
    /// where egg does not read a side, and `true` for `LhsAndRhs` where the
    /// two sides are the same term that egg reads.
    pub fn can_derive(&self, derive_type: DeriveType, rule: &Rule, limits: Limits) -> (r: bool)
        ensures
            r == derives(self@, rule@, derive_type, limits),
            derive_type == DeriveType::LhsAndRhs && inst_text(rule@.1) == inst_text(rule@.2)
                && egg_reads(inst_text(rule@.1)) ==> r,
    {
        let scheduler = Scheduler::Saturating(limits);
        let mut egraph = TermGraph::new();
        let lt = instance_text(&rule.lhs);
        let rt = instance_text(&rule.rhs);
        let ghost seeds = if derive_type == DeriveType::LhsAndRhs {
            seq![lt@, rt@]
        } else {
            seq![lt@]
        };
        if !egraph.add(lt.as_str()) {
            return false;
        }
        proof {
            assert(seq![lt@].drop_last() =~= Seq::<Seq<char>>::empty());
            assert(seq![lt@].last() == lt@);
            assert(seed_steps(Seq::<Seq<char>>::empty()) == Seq::<GraphStep>::empty());
            assert(seed_steps(seq![lt@]) == Seq::<GraphStep>::empty().push(GraphStep::Add(lt@)));
            assert(history(egraph) =~= seed_steps(seq![lt@]));
        }
        match derive_type {
            DeriveType::Lhs => {},
            DeriveType::LhsAndRhs => {
                let ghost h1 = history(egraph);
                let added_rt = egraph.add(rt.as_str());
                proof {
                    assert(seq![lt@, rt@].drop_last() =~= seq![lt@]);
                    assert(seq![lt@, rt@].last() == rt@);
                    if added_rt {
                        assert(seed_steps(seq![lt@, rt@]) == h1.push(GraphStep::Add(rt@)));
                    } else {
                        assert(seed_steps(seq![lt@, rt@]) == h1);
                    }
                }
            },
        }
        proof {
            assert(seq![lt@].drop_last() =~= Seq::<Seq<char>>::empty());
            assert(seq![lt@].last() == lt@);
            assert(seq![lt@, rt@].drop_last() =~= seq![lt@]);
            assert(seq![lt@, rt@].last() == rt@);
            assert(seed_steps(Seq::<Seq<char>>::empty()) == Seq::<GraphStep>::empty());
            assert(history(egraph) == seed_steps(seeds));
        }
        let book = self.rule_book();
        let out = scheduler.run(egraph, &book);
        let a = out.lookup(lt.as_str());
        let b = out.lookup(rt.as_str());
        let r = same_class(a, b);
        r
    }

    /// The rules of `against` that these rules derive, and those they do not,
    /// each in order: a rule goes to the first set exactly where `derives`
    /// holds of it, as `can_derive` answers.
    pub fn derive(&self, derive_type: DeriveType, against: &Ruleset, limits: Limits) -> (r: (
        Ruleset,
        Ruleset,
    ))
        ensures
            r.0@ == picked(against@, derive_flags(self@, against@, derive_type, limits), true),
            r.1@ == picked(against@, derive_flags(self@, against@, derive_type, limits), false),
    {
        let n = against.len();
        let mut flags: Vec<bool> = Vec::new();
        let mut i: usize = 0;
        while i < n
            invariant
                n == against@.len(),
                i <= n,
                flags@.len() == i,
                forall|j: int|
                    0 <= j < i ==> #[trigger] flags@[j] == derives(self@, against@[j], derive_type, limits),
            decreases n - i,
        {
            let b = self.can_derive(derive_type, against.rule_at(i), limits);
            flags.push(b);
            i += 1;
        }
        assert(flags@ =~= derive_flags(self@, against@, derive_type, limits));
        against.split_by(&flags)
    }
}

/// Adding rules one by one leaves only the rules that were there and those
/// added.
pub proof fn lemma_added_all_within(vs: Seq<RuleView>, ws: Seq<RuleView>)
    ensures
        forall|x: RuleView| #[trigger]
            crate::ruleset::added_all(vs, ws).contains(x) ==> vs.contains(x) || ws.contains(x),
    decreases ws.len(),
{
    if ws.len() > 0 {
        let d = ws.drop_last();
        lemma_added_all_within(vs, d);
        let a0 = crate::ruleset::added_all(vs, d);
        lemma_added_views(a0, ws.last());
        assert forall|x: RuleView| #[trigger]
            crate::ruleset::added_all(vs, ws).contains(x) implies vs.contains(x) || ws.contains(
            x,
        ) by {
            if a0.contains(x) {
                if d.contains(x) {
                    let k = choose|k: int| 0 <= k < d.len() && d[k] == x;
                    assert(ws[k] == x);
                }
            } else {
                assert(ws[ws.len() - 1] == x);
            }
        }
    }
}

} // verus!
