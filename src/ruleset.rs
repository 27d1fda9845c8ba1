use crate::rule::{pattern_vars, rule_name, strs_view, Rule, RuleView};
use indexmap::IndexMap;
use vstd::prelude::*;

verus! {

#[verifier::external_type_specification]
#[verifier::external_body]
#[verifier::reject_recursive_types(K)]
#[verifier::reject_recursive_types(V)]
#[verifier::reject_recursive_types(S)]
pub struct ExIndexMap<K, V, S>(IndexMap<K, V, S>);

/// The entries of a map from rule names to rules, in the map's order.
pub uninterp spec fn entries(m: IndexMap<String, Rule>) -> Seq<(Seq<char>, Rule)>;

/// The place of the first entry with key `k`, or -1 where there is none.
pub open spec fn key_position(es: Seq<(Seq<char>, Rule)>, k: Seq<char>) -> int
    decreases es.len(),
{
    if es.len() == 0 {
        -1
    } else {
        let p = key_position(es.drop_last(), k);
        if p >= 0 {
            p
        } else if es.last().0 == k {
            es.len() - 1
        } else {
            -1
        }
    }
}

/// The entries after an insertion: an existing key keeps its place and takes
/// the new value; a new key goes last.
pub open spec fn with_entry(es: Seq<(Seq<char>, Rule)>, k: Seq<char>, v: Rule) -> Seq<
    (Seq<char>, Rule),
> {
    let p = key_position(es, k);
    if p >= 0 {
        es.update(p, (k, v))
    } else {
        es.push((k, v))
    }
}

/// Relies on `IndexMap::new`: a new map holds no entry.
#[verifier::external_body]
fn map_new() -> (m: IndexMap<String, Rule>)
    ensures
        entries(m) == Seq::<(Seq<char>, Rule)>::empty(),
{
    IndexMap::new()
}

/// Relies on `IndexMap::insert`: where the key is present it keeps its place
/// and its value is replaced; else the pair goes last. It does not panic:
/// hashing and comparing strings cannot fail, and a failed allocation aborts.
#[verifier::external_body]
fn map_insert(m: &mut IndexMap<String, Rule>, k: String, v: Rule)
    ensures
        entries(*final(m)) == with_entry(entries(*old(m)), k@, v),
    no_unwind
{
    m.insert(k, v);
}

/// Relies on `IndexMap::contains_key`.
#[verifier::external_body]
fn map_contains(m: &IndexMap<String, Rule>, k: &String) -> (r: bool)
    ensures
        r == (key_position(entries(*m), k@) >= 0),
{
    m.contains_key(k)
}

/// Relies on `IndexMap::len`.
#[verifier::external_body]
fn map_len(m: &IndexMap<String, Rule>) -> (r: usize)
    ensures
        r == entries(*m).len(),
{
    m.len()
}

/// Relies on indexing an `IndexMap` by position: the value of the entry at
/// that place.
#[verifier::external_body]
fn map_value(m: &IndexMap<String, Rule>, i: usize) -> (r: &Rule)
    requires
        i < entries(*m).len(),
    ensures
        *r == entries(*m)[i as int].1,
{
    &m[i]
}

/// Each entry's key is the name of its rule.
pub open spec fn keyed_by_name(es: Seq<(Seq<char>, Rule)>) -> bool {
    forall|i: int| 0 <= i < es.len() ==> (#[trigger] es[i]).0 == es[i].1.name@
}

/// No two entries share a key.
pub open spec fn keys_unique(es: Seq<(Seq<char>, Rule)>) -> bool {
    forall|i: int, j: int| 0 <= i < j < es.len() ==> (#[trigger] es[i]).0 != (#[trigger] es[j]).0
}

proof fn lemma_key_position(es: Seq<(Seq<char>, Rule)>, k: Seq<char>)
    ensures
        -1 <= key_position(es, k) < es.len(),
        key_position(es, k) >= 0 ==> es[key_position(es, k)].0 == k,
        key_position(es, k) >= 0 ==> forall|j: int|
            0 <= j < key_position(es, k) ==> (#[trigger] es[j]).0 != k,
        key_position(es, k) < 0 <==> forall|j: int| 0 <= j < es.len() ==> (#[trigger] es[j]).0 != k,
    decreases es.len(),
{
    if es.len() > 0 {
        let d = es.drop_last();
        lemma_key_position(d, k);
        assert forall|j: int| 0 <= j < es.len() - 1 implies #[trigger] d[j] == es[j] by {}
        let p = key_position(d, k);
        if p >= 0 {
            assert(es[p] == d[p]);
            assert forall|j: int| 0 <= j < p implies (#[trigger] es[j]).0 != k by {
                assert(d[j] == es[j]);
            }
        } else {
            assert forall|j: int| 0 <= j < es.len() - 1 implies (#[trigger] es[j]).0 != k by {
                assert(d[j] == es[j]);
            }
        }
    }
}

proof fn lemma_with_entry(es: Seq<(Seq<char>, Rule)>, v: Rule)
    requires
        keyed_by_name(es),
        keys_unique(es),
    ensures
        keyed_by_name(with_entry(es, v.name@, v)),
        keys_unique(with_entry(es, v.name@, v)),
{
    lemma_key_position(es, v.name@);
}

/// What the entries hold, in order.
pub open spec fn view_of(es: Seq<(Seq<char>, Rule)>) -> Seq<RuleView> {
    es.map_values(|e: (Seq<char>, Rule)| e.1@)
}

/// The names of the rules, in order.
pub open spec fn names_of(vs: Seq<RuleView>) -> Seq<Seq<char>> {
    vs.map_values(|v: RuleView| v.0)
}

/// The place of the first rule named `n`, or -1 where there is none.
pub open spec fn name_position(vs: Seq<RuleView>, n: Seq<char>) -> int
    decreases vs.len(),
{
    if vs.len() == 0 {
        -1
    } else {
        let p = name_position(vs.drop_last(), n);
        if p >= 0 {
            p
        } else if vs.last().0 == n {
            vs.len() - 1
        } else {
            -1
        }
    }
}

/// The rules after adding `v`: a rule of the same name is replaced in its
/// place; else `v` goes last.
pub open spec fn added(vs: Seq<RuleView>, v: RuleView) -> Seq<RuleView> {
    let p = name_position(vs, v.0);
    if p >= 0 {
        vs.update(p, v)
    } else {
        vs.push(v)
    }
}

/// The rules after adding each of `ws` in turn.
pub open spec fn added_all(vs: Seq<RuleView>, ws: Seq<RuleView>) -> Seq<RuleView>
    decreases ws.len(),
{
    if ws.len() == 0 {
        vs
    } else {
        added(added_all(vs, ws.drop_last()), ws.last())
    }
}

/// The rules whose names are not among `names`, in order.
pub open spec fn removed(vs: Seq<RuleView>, names: Seq<Seq<char>>) -> Seq<RuleView>
    decreases vs.len(),
{
    if vs.len() == 0 {
        vs
    } else if names.contains(vs.last().0) {
        removed(vs.drop_last(), names)
    } else {
        removed(vs.drop_last(), names).push(vs.last())
    }
}

proof fn lemma_positions(es: Seq<(Seq<char>, Rule)>, k: Seq<char>)
    requires
        keyed_by_name(es),
    ensures
        key_position(es, k) == name_position(view_of(es), k),
    decreases es.len(),
{
    if es.len() > 0 {
        let d = es.drop_last();
        assert forall|i: int| 0 <= i < d.len() implies #[trigger] d[i] == es[i] by {}
        lemma_positions(d, k);
        assert(view_of(d) =~= view_of(es).drop_last());
        assert(es[es.len() - 1] == es.last());
    }
}

proof fn lemma_with_entry_view(es: Seq<(Seq<char>, Rule)>, v: Rule)
    requires
        keyed_by_name(es),
    ensures
        view_of(with_entry(es, v.name@, v)) == added(view_of(es), v@),
{
    lemma_positions(es, v.name@);
    lemma_key_position(es, v.name@);
    assert(view_of(with_entry(es, v.name@, v)) =~= added(view_of(es), v@));
}

pub proof fn lemma_name_position(vs: Seq<RuleView>, n: Seq<char>)
    ensures
        -1 <= name_position(vs, n) < vs.len(),
        name_position(vs, n) >= 0 ==> vs[name_position(vs, n)].0 == n,
        name_position(vs, n) < 0 <==> forall|j: int| 0 <= j < vs.len() ==> (#[trigger] vs[j]).0 != n,
    decreases vs.len(),
{
    if vs.len() > 0 {
        let d = vs.drop_last();
        lemma_name_position(d, n);
        assert forall|j: int| 0 <= j < vs.len() - 1 implies #[trigger] d[j] == vs[j] by {}
        let p = name_position(d, n);
        if p >= 0 {
            assert(vs[p] == d[p]);
        } else {
            assert forall|j: int| 0 <= j < vs.len() - 1 implies (#[trigger] vs[j]).0 != n by {
                assert(d[j] == vs[j]);
            }
        }
    }
}

/// Inserts a rule whose name the map does not hold yet: it goes last.
fn push_rule(m: &mut IndexMap<String, Rule>, rule: Rule)
    requires
        keyed_by_name(entries(*old(m))),
        keys_unique(entries(*old(m))),
        forall|j: int|
            0 <= j < entries(*old(m)).len() ==> (#[trigger] entries(*old(m))[j]).0 != rule.name@,
    ensures
        keyed_by_name(entries(*final(m))),
        keys_unique(entries(*final(m))),
        view_of(entries(*final(m))) == view_of(entries(*old(m))).push(rule@),
{
    proof {
        lemma_with_entry(entries(*m), rule);
        lemma_key_position(entries(*m), rule.name@);
        assert(view_of(entries(*m).push((rule.name@, rule))) =~= view_of(entries(*m)).push(
            rule@,
        ));
    }
    let k = rule.name.clone();
    map_insert(m, k, rule);
}

pub proof fn lemma_removed_within(vs: Seq<RuleView>, names: Seq<Seq<char>>)
    ensures
        forall|x: RuleView| #[trigger] removed(vs, names).contains(x) ==> vs.contains(x),
    decreases vs.len(),
{
    if vs.len() > 0 {
        let d = vs.drop_last();
        lemma_removed_within(d, names);
        let r0 = removed(d, names);
        assert forall|x: RuleView| #[trigger] removed(vs, names).contains(x) implies vs.contains(
            x,
        ) by {
            let rv = removed(vs, names);
            let k = choose|k: int| 0 <= k < rv.len() && rv[k] == x;
            if k < r0.len() {
                assert(r0[k] == x);
                assert(r0.contains(x));
                let q = choose|q: int| 0 <= q < d.len() && d[q] == x;
                assert(vs[q] == x);
            } else {
                assert(vs[vs.len() - 1] == x);
            }
        }
    }
}

/// The rules whose flag in `keep` is `b`, in order.
pub open spec fn picked(vs: Seq<RuleView>, keep: Seq<bool>, b: bool) -> Seq<RuleView>
    decreases vs.len(),
{
    if vs.len() == 0 || keep.len() == 0 {
        Seq::empty()
    } else if keep[vs.len() - 1] == b {
        picked(vs.drop_last(), keep, b).push(vs.last())
    } else {
        picked(vs.drop_last(), keep, b)
    }
}

pub proof fn lemma_picked_within(vs: Seq<RuleView>, keep: Seq<bool>, b: bool)
    ensures
        forall|x: RuleView| #[trigger] picked(vs, keep, b).contains(x) ==> vs.contains(x),
    decreases vs.len(),
{
    if vs.len() > 0 && keep.len() > 0 {
        let d = vs.drop_last();
        lemma_picked_within(d, keep, b);
        let r0 = picked(d, keep, b);
        assert forall|x: RuleView| #[trigger] picked(vs, keep, b).contains(x) implies vs.contains(
            x,
        ) by {
            let rv = picked(vs, keep, b);
            let k = choose|k: int| 0 <= k < rv.len() && rv[k] == x;
            if k < r0.len() {
                assert(r0[k] == x);
                assert(r0.contains(x));
                let q = choose|q: int| 0 <= q < d.len() && d[q] == x;
                assert(vs[q] == x);
            } else {
                assert(vs[vs.len() - 1] == x);
            }
        }
    }
}

/// Whether the rule's reverse is a rule whose name is among `names`.
pub open spec fn reverse_present(names: Seq<Seq<char>>, v: RuleView) -> bool {
    pattern_vars(v.1).subset_of(pattern_vars(v.2)) && names.contains(rule_name(v.2, v.1))
}

/// How many of the rules have their reverse among `names`.
pub open spec fn count_reversible(vs: Seq<RuleView>, names: Seq<Seq<char>>) -> nat
    decreases vs.len(),
{
    if vs.len() == 0 {
        0
    } else {
        count_reversible(vs.drop_last(), names) + if reverse_present(names, vs.last()) {
            1nat
        } else {
            0nat
        }
    }
}

/// A set of rewrite rules, each under its name, in the order of insertion.
#[derive(Debug)]
pub struct Ruleset(IndexMap<String, Rule>);

impl Ruleset {
    #[verifier::type_invariant]
    spec fn inv(self) -> bool {
        keyed_by_name(entries(self.0)) && keys_unique(entries(self.0))
    }

    /// The rules, in order.
    pub closed spec fn rules(self) -> Seq<Rule> {
        entries(self.0).map_values(|e: (Seq<char>, Rule)| e.1)
    }

    /// What the rules are, in order.
    pub closed spec fn view(&self) -> Seq<RuleView> {
        view_of(entries(self.0))
    }

    /// The names of the rules, in order.
    pub open spec fn names(&self) -> Seq<Seq<char>> {
        names_of(self@)
    }

    proof fn lemma_entries(self)
        requires
            keyed_by_name(entries(self.0)),
            keys_unique(entries(self.0)),
        ensures
            self@.len() == entries(self.0).len(),
            self.rules().len() == entries(self.0).len(),
            forall|i: int|
                0 <= i < entries(self.0).len() ==> #[trigger] self@[i] == entries(self.0)[i].1@,
            forall|i: int|
                0 <= i < entries(self.0).len() ==> #[trigger] self.rules()[i] == entries(
                    self.0,
                )[i].1,
            forall|i: int| 0 <= i < entries(self.0).len() ==> #[trigger] self.names()[i] == entries(
                self.0,
            )[i].0,
            self.names().no_duplicates(),
    {
        assert forall|i: int| 0 <= i < entries(self.0).len() implies #[trigger] self.names()[i]
            == entries(self.0)[i].0 by {
            assert(self@[i] == entries(self.0)[i].1@);
        }
        assert forall|i: int, j: int|
            0 <= i < self.names().len() && 0 <= j < self.names().len() && i != j implies #[trigger] self.names()[i]
            != #[trigger] self.names()[j] by {
            assert(self.names()[i] == entries(self.0)[i].0);
            assert(self.names()[j] == entries(self.0)[j].0);
        }
    }

    /// An empty ruleset.
    pub fn empty() -> (r: Ruleset)
        ensures
            r@ == Seq::<RuleView>::empty(),
    {
        let m = map_new();
        let r = Ruleset(m);
        assert(r@ =~= Seq::<RuleView>::empty());
        r
    }

    /// The number of rules.
    pub fn len(&self) -> (r: usize)
        ensures
            r == self@.len(),
    {
        proof {
            use_type_invariant(self);
            self.lemma_entries();
        }
        map_len(&self.0)
    }

    /// The rule at place `i`.
    pub fn rule_at(&self, i: usize) -> (r: &Rule)
        requires
            i < self@.len(),
        ensures
            r@ == self@[i as int],
    {
        proof {
            use_type_invariant(self);
            self.lemma_entries();
        }
        map_value(&self.0, i)
    }

    /// The rules, in order.
    pub fn iter(&self) -> (r: Vec<&Rule>)
        ensures
            r@.len() == self@.len(),
            forall|i: int| 0 <= i < r@.len() ==> (#[trigger] r@[i])@ == self@[i],
    {
        let n = self.len();
        let mut out: Vec<&Rule> = Vec::new();
        let mut i: usize = 0;
        while i < n
            invariant
                n == self@.len(),
                i <= n,
                out@.len() == i,
                forall|j: int| 0 <= j < i ==> (#[trigger] out@[j])@ == self@[j],
            decreases n - i,
        {
            out.push(self.rule_at(i));
            i += 1;
        }
        out
    }

    /// Whether there are no rules.
    pub fn is_empty(&self) -> (r: bool)
        ensures
            r == (self@.len() == 0),
    {
        proof {
            use_type_invariant(self);
            self.lemma_entries();
        }
        map_len(&self.0) == 0
    }

    /// Whether a rule of the same name is in the set.
    pub fn contains(&self, rule: &Rule) -> (r: bool)
        ensures
            r == self.names().contains(rule.name@),
    {
        proof {
            use_type_invariant(self);
            self.lemma_entries();
            lemma_key_position(entries(self.0), rule.name@);
            if self.names().contains(rule.name@) {
                let i = choose|i: int| 0 <= i < self.names().len() && self.names()[i] == rule.name@;
                assert(entries(self.0)[i].0 == rule.name@);
            }
            if key_position(entries(self.0), rule.name@) >= 0 {
                assert(self.names()[key_position(entries(self.0), rule.name@)] == rule.name@);
            }
        }
        map_contains(&self.0, &rule.name)
    }
}

impl Ruleset {
    /// Adds the rule: one of the same name is replaced in its place; else the
    /// rule goes last.
    pub fn add(&mut self, rule: Rule)
        ensures
            final(self)@ == added(old(self)@, rule@),
    {
        proof {
            use_type_invariant(&*self);
            lemma_with_entry(entries(self.0), rule);
            lemma_with_entry_view(entries(self.0), rule);
        }
        let k = rule.name.clone();
        map_insert(&mut self.0, k, rule);
    }

    /// A copy of the ruleset.
    pub fn copy(&self) -> (r: Ruleset)
        ensures
            r@ == self@,
    {
        proof {
            use_type_invariant(self);
            self.lemma_entries();
        }
        let mut m = map_new();
        let n = map_len(&self.0);
        let mut i: usize = 0;
        while i < n
            invariant
                n == entries(self.0).len(),
                i <= n,
                keyed_by_name(entries(self.0)),
                keys_unique(entries(self.0)),
                keyed_by_name(entries(m)),
                keys_unique(entries(m)),
                view_of(entries(m)) == self@.subrange(0, i as int),
                self@.len() == n,
                forall|j: int| 0 <= j < n ==> #[trigger] self@[j] == entries(self.0)[j].1@,
            decreases n - i,
        {
            let c = map_value(&self.0, i).copy();
            proof {
                assert forall|j: int| 0 <= j < entries(m).len() implies (#[trigger] entries(
                    m,
                )[j]).0 != c.name@ by {
                    assert(view_of(entries(m)).len() == i);
                    assert(view_of(entries(m))[j] == entries(m)[j].1@);
                    assert(self@.subrange(0, i as int)[j] == self@[j]);
                    assert(entries(m)[j].0 == entries(m)[j].1.name@);
                    assert(self@[j] == entries(self.0)[j].1@);
                    assert(entries(self.0)[j].0 == entries(self.0)[j].1.name@);
                    assert(entries(self.0)[i as int].0 == entries(self.0)[i as int].1.name@);
                    assert(entries(self.0)[j].0 != entries(self.0)[i as int].0);
                }
                assert(self@.subrange(0, i as int).push(c@) =~= self@.subrange(0, i + 1));
            }
            push_rule(&mut m, c);
            i += 1;
        }
        assert(self@.subrange(0, n as int) =~= self@);
        Ruleset(m)
    }

    /// The rules of this set, then those of `other` added in turn.
    pub fn union(&self, other: &Ruleset) -> (r: Ruleset)
        ensures
            r@ == added_all(self@, other@),
    {
        let mut r = self.copy();
        proof {
            use_type_invariant(other);
            other.lemma_entries();
        }
        let n = map_len(&other.0);
        let mut i: usize = 0;
        while i < n
            invariant
                n == entries(other.0).len(),
                i <= n,
                other@.len() == n,
                forall|j: int| 0 <= j < n ==> #[trigger] other@[j] == entries(other.0)[j].1@,
                r@ == added_all(self@, other@.subrange(0, i as int)),
            decreases n - i,
        {
            let c = map_value(&other.0, i).copy();
            r.add(c);
            proof {
                assert(other@.subrange(0, i + 1).drop_last() =~= other@.subrange(0, i as int));
            }
            i += 1;
        }
        assert(other@.subrange(0, n as int) =~= other@);
        r
    }

    /// Adds the rules of `other` in turn.
    pub fn extend(&mut self, other: Ruleset)
        ensures
            final(self)@ == added_all(old(self)@, other@),
    {
        proof {
            use_type_invariant(&other);
            other.lemma_entries();
        }
        let ghost start = self@;
        let n = map_len(&other.0);
        let mut i: usize = 0;
        while i < n
            invariant
                n == entries(other.0).len(),
                i <= n,
                other@.len() == n,
                forall|j: int| 0 <= j < n ==> #[trigger] other@[j] == entries(other.0)[j].1@,
                self@ == added_all(start, other@.subrange(0, i as int)),
            decreases n - i,
        {
            let c = map_value(&other.0, i).copy();
            self.add(c);
            proof {
                assert(other@.subrange(0, i + 1).drop_last() =~= other@.subrange(0, i as int));
            }
            i += 1;
        }
        assert(other@.subrange(0, n as int) =~= other@);
    }

    /// Adds a copy of each rule in turn.
    pub fn add_all(&mut self, rules: Vec<&Rule>)
        ensures
            final(self)@ == added_all(old(self)@, rules@.map_values(|r: &Rule| r@)),
    {
        let ghost start = self@;
        let ghost vs = rules@.map_values(|r: &Rule| r@);
        let mut i: usize = 0;
        while i < rules.len()
            invariant
                i <= rules.len(),
                vs == rules@.map_values(|r: &Rule| r@),
                self@ == added_all(start, vs.subrange(0, i as int)),
            decreases rules.len() - i,
        {
            let c = rules[i].copy();
            self.add(c);
            proof {
                assert(vs.subrange(0, i + 1).drop_last() =~= vs.subrange(0, i as int));
            }
            i += 1;
        }
        assert(vs.subrange(0, rules.len() as int) =~= vs);
    }

    /// The names of the rules, in order.
    pub fn to_str_vec(&self) -> (r: Vec<String>)
        ensures
            strs_view(r@) == self.names(),
    {
        proof {
            use_type_invariant(self);
            self.lemma_entries();
        }
        let n = map_len(&self.0);
        let mut out: Vec<String> = Vec::new();
        let mut i: usize = 0;
        while i < n
            invariant
                n == entries(self.0).len(),
                i <= n,
                self.names().len() == n,
                forall|j: int| 0 <= j < n ==> #[trigger] self.names()[j] == entries(self.0)[j].0,
                keyed_by_name(entries(self.0)),
                strs_view(out@) == self.names().subrange(0, i as int),
            decreases n - i,
        {
            let name = map_value(&self.0, i).name.clone();
            proof {
                assert(entries(self.0)[i as int].0 == entries(self.0)[i as int].1.name@);
                assert(self.names()[i as int] == name@);
                assert(strs_view(out@.push(name)) =~= strs_view(out@).push(name@));
                assert(self.names().subrange(0, i + 1) =~= self.names().subrange(0, i as int).push(
                    name@,
                ));
            }
            out.push(name);
            i += 1;
        }
        assert(self.names().subrange(0, n as int) =~= self.names());
        out
    }
}

impl Ruleset {
    /// Removes the rules whose names are those of rules of `other`.
    pub fn remove_all(&mut self, other: Ruleset)
        ensures
            final(self)@ == removed(old(self)@, other.names()),
    {
        proof {
            use_type_invariant(&*self);
            self.lemma_entries();
        }
        let mut m = map_new();
        let n = map_len(&self.0);
        let mut i: usize = 0;
        while i < n
            invariant
                n == entries(self.0).len(),
                i <= n,
                self@.len() == n,
                forall|j: int| 0 <= j < n ==> #[trigger] self@[j] == entries(self.0)[j].1@,
                forall|j: int| 0 <= j < n ==> #[trigger] self.names()[j] == entries(self.0)[j].0,
                keyed_by_name(entries(self.0)),
                keys_unique(entries(self.0)),
                keyed_by_name(entries(m)),
                keys_unique(entries(m)),
                view_of(entries(m)) == removed(self@.subrange(0, i as int), other.names()),
            decreases n - i,
        {
            let rule = map_value(&self.0, i);
            let ghost prefix = self@.subrange(0, i as int);
            assert(self@.subrange(0, i + 1).drop_last() =~= prefix);
            assert(self@.subrange(0, i + 1).last() == self@[i as int]);
            if !other.contains(rule) {
                let c = rule.copy();
                proof {
                    lemma_removed_within(prefix, other.names());
                    assert forall|j: int| 0 <= j < entries(m).len() implies (#[trigger] entries(
                        m,
                    )[j]).0 != c.name@ by {
                        let x = view_of(entries(m))[j];
                        assert(removed(prefix, other.names()).contains(x));
                        let k = choose|k: int| 0 <= k < prefix.len() && prefix[k] == x;
                        assert(self@[k] == entries(self.0)[k].1@);
                        assert(entries(self.0)[k].0 == entries(self.0)[k].1.name@);
                        assert(entries(self.0)[i as int].0 == entries(self.0)[i as int].1.name@);
                        assert(entries(m)[j].0 == entries(m)[j].1.name@);
                    }
                }
                push_rule(&mut m, c);
            }
            i += 1;
        }
        assert(self@.subrange(0, n as int) =~= self@);
        *self = Ruleset(m);
    }

    /// The number of rules, a rule and its reverse counting once.
    pub fn bidir_len(&self) -> (r: usize)
        ensures
            r == (self@.len() - count_reversible(self@, self.names())) + count_reversible(
                self@,
                self.names(),
            ) / 2,
    {
        proof {
            use_type_invariant(self);
            self.lemma_entries();
        }
        let mut bidir: usize = 0;
        let mut unidir: usize = 0;
        let n = map_len(&self.0);
        let mut i: usize = 0;
        while i < n
            invariant
                n == entries(self.0).len(),
                i <= n,
                self@.len() == n,
                forall|j: int| 0 <= j < n ==> #[trigger] self@[j] == entries(self.0)[j].1@,
                bidir == count_reversible(self@.subrange(0, i as int), self.names()),
                bidir + unidir == i,
            decreases n - i,
        {
            let rule = map_value(&self.0, i);
            let ghost prefix = self@.subrange(0, i as int);
            assert(self@.subrange(0, i + 1).drop_last() =~= prefix);
            assert(self@.subrange(0, i + 1).last() == self@[i as int]);
            let present = match rule.reverse() {
                Some(rev) => self.contains(&rev),
                None => false,
            };
            if present {
                bidir += 1;
            } else {
                unidir += 1;
            }
            i += 1;
        }
        assert(self@.subrange(0, n as int) =~= self@);
        unidir + bidir / 2
    }

    /// The rules whose flag is `true`, and those whose flag is `false`, each
    /// in order.
    pub fn split_by(&self, flags: &Vec<bool>) -> (r: (Ruleset, Ruleset))
        requires
            flags@.len() == self@.len(),
        ensures
            r.0@ == picked(self@, flags@, true),
            r.1@ == picked(self@, flags@, false),
    {
        proof {
            use_type_invariant(self);
            self.lemma_entries();
        }
        let mut yes = map_new();
        let mut no = map_new();
        let n = map_len(&self.0);
        let mut i: usize = 0;
        while i < n
            invariant
                n == entries(self.0).len(),
                i <= n,
                flags@.len() == n,
                self@.len() == n,
                forall|j: int| 0 <= j < n ==> #[trigger] self@[j] == entries(self.0)[j].1@,
                keyed_by_name(entries(self.0)),
                keys_unique(entries(self.0)),
                keyed_by_name(entries(yes)),
                keys_unique(entries(yes)),
                keyed_by_name(entries(no)),
                keys_unique(entries(no)),
                view_of(entries(yes)) == picked(self@.subrange(0, i as int), flags@, true),
                view_of(entries(no)) == picked(self@.subrange(0, i as int), flags@, false),
            decreases n - i,
        {
            let rule = map_value(&self.0, i);
            let k = flags[i];
            let ghost prefix = self@.subrange(0, i as int);
            proof {
                assert(self@.subrange(0, i + 1).drop_last() =~= prefix);
                assert(self@.subrange(0, i + 1).last() == self@[i as int]);
                lemma_picked_within(prefix, flags@, k);
                assert(entries(self.0)[i as int].0 == entries(self.0)[i as int].1.name@);
            }
            let c = rule.copy();
            proof {
                let mm = if k {
                    yes
                } else {
                    no
                };
                assert forall|j: int| 0 <= j < entries(mm).len() implies (#[trigger] entries(
                    mm,
                )[j]).0 != c.name@ by {
                    let x = view_of(entries(mm))[j];
                    assert(picked(prefix, flags@, k).contains(x));
                    let q = choose|q: int| 0 <= q < prefix.len() && prefix[q] == x;
                    assert(self@[q] == entries(self.0)[q].1@);
                    assert(entries(self.0)[q].0 == entries(self.0)[q].1.name@);
                    assert(entries(mm)[j].0 == entries(mm)[j].1.name@);
                }
            }
            if k {
                push_rule(&mut yes, c);
            } else {
                push_rule(&mut no, c);
            }
            i += 1;
        }
        assert(self@.subrange(0, n as int) =~= self@);
        (Ruleset(yes), Ruleset(no))
    }

    /// The rules that `f` accepts, and those it rejects, each in order.
    pub fn partition<F: Fn(&Rule) -> bool>(&self, f: F) -> (r: (Ruleset, Ruleset))
        requires
            forall|x: &Rule| #[trigger] f.requires((x,)),
        ensures
            self.rules().len() == self@.len(),
            forall|i: int| 0 <= i < self@.len() ==> #[trigger] self.rules()[i]@ == self@[i],
            exists|keep: Seq<bool>|
                {
                    &&& keep.len() == self@.len()
                    &&& forall|i: int|
                        0 <= i < keep.len() ==> f.ensures((&#[trigger] self.rules()[i],), keep[i])
                    &&& r.0@ == picked(self@, keep, true)
                    &&& r.1@ == picked(self@, keep, false)
                },
    {
        proof {
            use_type_invariant(self);
            self.lemma_entries();
        }
        let mut flags: Vec<bool> = Vec::new();
        let n = map_len(&self.0);
        let mut i: usize = 0;
        while i < n
            invariant
                n == entries(self.0).len(),
                i <= n,
                flags@.len() == i,
                self.rules().len() == n,
                forall|x: &Rule| #[trigger] f.requires((x,)),
                forall|j: int| 0 <= j < n ==> #[trigger] self.rules()[j] == entries(self.0)[j].1,
                forall|j: int| 0 <= j < i ==> f.ensures((&#[trigger] self.rules()[j],), flags@[j]),
            decreases n - i,
        {
            let rule = map_value(&self.0, i);
            let k = f(rule);
            flags.push(k);
            i += 1;
        }
        self.split_by(&flags)
    }
}

impl Default for Ruleset {
    fn default() -> (r: Ruleset)
        ensures
            r@ == Seq::<RuleView>::empty(),
    {
        Ruleset::empty()
    }
}

impl PartialEq for Ruleset {
    /// Two rulesets are equal when they hold the same names in the same order.
    fn eq(&self, other: &Ruleset) -> (r: bool) {
        proof {
            use_type_invariant(self);
            self.lemma_entries();
            use_type_invariant(other);
            other.lemma_entries();
        }
        let n = map_len(&self.0);
        if n != map_len(&other.0) {
            return false;
        }
        let mut i: usize = 0;
        while i < n
            invariant
                n == entries(self.0).len(),
                n == entries(other.0).len(),
                i <= n,
                self.names().len() == n,
                other.names().len() == n,
                keyed_by_name(entries(self.0)),
                keyed_by_name(entries(other.0)),
                forall|j: int| 0 <= j < n ==> #[trigger] self.names()[j] == entries(self.0)[j].0,
                forall|j: int| 0 <= j < n ==> #[trigger] other.names()[j] == entries(other.0)[j].0,
                forall|j: int| 0 <= j < i ==> self.names()[j] == other.names()[j],
            decreases n - i,
        {
            let a = map_value(&self.0, i);
            let b = map_value(&other.0, i);
            assert(entries(self.0)[i as int].0 == entries(self.0)[i as int].1.name@);
            assert(entries(other.0)[i as int].0 == entries(other.0)[i as int].1.name@);
            if !a.name.eq(&b.name) {
                assert(self.names()[i as int] != other.names()[i as int]);
                return false;
            }
            i += 1;
        }
        assert(self.names() =~= other.names());
        true
    }
}

impl vstd::std_specs::cmp::PartialEqSpecImpl for Ruleset {
    open spec fn obeys_eq_spec() -> bool {
        true
    }

    open spec fn eq_spec(&self, other: &Ruleset) -> bool {
        self.names() == other.names()
    }
}

} // verus!
