use crate::minimize::ValidationResult;
use crate::pred::{constant_of, sampler, Constant};
use crate::rule::{holds_text, is_pattern_var, is_var_atom, leaves, strs_view};
use crate::sexp::{lemma_views, text_eq, views, Sexp, Term};
use rand_pcg::Pcg64;
use vstd::prelude::*;

verus! {

/// What an operator of the predicate language gives on its arguments:
/// comparisons of two integers, `&`, `|` and `^` of two booleans, `~` of one
/// boolean; nothing on anything else.
pub open spec fn op_value(op: Seq<char>, args: Seq<Constant>) -> Option<Constant> {
    if args.len() == 2 && args[0] is Int && args[1] is Int {
        let a = args[0]->Int_0;
        let b = args[1]->Int_0;
        if op == "<"@ {
            Some(Constant::Bool(a < b))
        } else if op == "<="@ {
            Some(Constant::Bool(a <= b))
        } else if op == ">"@ {
            Some(Constant::Bool(a > b))
        } else if op == ">="@ {
            Some(Constant::Bool(a >= b))
        } else if op == "=="@ {
            Some(Constant::Bool(a == b))
        } else if op == "!="@ {
            Some(Constant::Bool(a != b))
        } else {
            None
        }
    } else if args.len() == 2 && args[0] is Bool && args[1] is Bool {
        let a = args[0]->Bool_0;
        let b = args[1]->Bool_0;
        if op == "&"@ {
            Some(Constant::Bool(a && b))
        } else if op == "|"@ {
            Some(Constant::Bool(a || b))
        } else if op == "^"@ {
            Some(Constant::Bool(a != b))
        } else {
            None
        }
    } else if args.len() == 1 && args[0] is Bool {
        if op == "~"@ {
            Some(Constant::Bool(!args[0]->Bool_0))
        } else {
            None
        }
    } else {
        None
    }
}

pub open spec fn env_view(env: Seq<(String, Vec<Option<Constant>>)>) -> Seq<(Seq<char>, Seq<Option<Constant>>)> {
    env.map_values(|e: (String, Vec<Option<Constant>>)| (e.0@, e.1@))
}

/// The samples of the first variable of that name, if any.
pub open spec fn lookup(env: Seq<(Seq<char>, Seq<Option<Constant>>)>, name: Seq<char>) -> Option<Seq<Option<Constant>>>
    decreases env.len(),
{
    if env.len() == 0 {
        None
    } else {
        let p = lookup(env.drop_last(), name);
        if p is Some {
            p
        } else if env.last().0 == name {
            Some(env.last().1)
        } else {
            None
        }
    }
}

/// `n` copies of the value.
pub open spec fn copies(v: Option<Constant>, n: nat) -> Seq<Option<Constant>> {
    Seq::new(n, |i: int| v)
}

/// The operator's value at position `i`, where every argument is defined
/// there.
pub open spec fn point(op: Seq<char>, cs: Seq<Seq<Option<Constant>>>, i: int) -> Option<Constant> {
    if forall|k: int| 0 <= k < cs.len() ==> i < (#[trigger] cs[k]).len() && cs[k][i] is Some {
        op_value(op, Seq::new(cs.len(), |k: int| cs[k][i]->Some_0))
    } else {
        None
    }
}

/// The operator applied position by position.
pub open spec fn combine(op: Seq<char>, cs: Seq<Seq<Option<Constant>>>, n: nat) -> Seq<Option<Constant>> {
    Seq::new(n, |i: int| point(op, cs, i))
}

/// The samples of a term: a variable's from the environment; a constant's
/// repeated; an operator's applied to its arguments' samples. Anything else
/// is undefined everywhere.
pub open spec fn eval_term(t: Term, env: Seq<(Seq<char>, Seq<Option<Constant>>)>, n: nat) -> Seq<Option<Constant>>
    decreases t,
{
    match t {
        Term::Atom(a) => match lookup(env, a) {
            Some(cv) => cv,
            None => copies(constant_of(a), n),
        },
        Term::List(ts) => if ts.len() >= 1 && ts[0] is Atom {
            combine(ts[0]->Atom_0, eval_all(ts.subrange(1, ts.len() as int), env, n), n)
        } else {
            copies(None, n)
        },
    }
}

pub open spec fn eval_all(ts: Seq<Term>, env: Seq<(Seq<char>, Seq<Option<Constant>>)>, n: nat) -> Seq<Seq<Option<Constant>>>
    decreases ts,
{
    if ts.len() == 0 {
        Seq::empty()
    } else {
        eval_all(ts.subrange(0, ts.len() - 1), env, n).push(eval_term(ts[ts.len() - 1], env, n))
    }
}

/// The operator's value on the arguments, as `op_value` gives it.
pub fn apply_op(op: &str, args: &Vec<Constant>) -> (r: Option<Constant>)
    ensures
        r == op_value(op@, args@),
{
    if args.len() == 2 {
        match (args[0], args[1]) {
            (Constant::Int(a), Constant::Int(b)) => {
                if text_eq(op, "<") {
                    Some(Constant::Bool(a < b))
                } else if text_eq(op, "<=") {
                    Some(Constant::Bool(a <= b))
                } else if text_eq(op, ">") {
                    Some(Constant::Bool(a > b))
                } else if text_eq(op, ">=") {
                    Some(Constant::Bool(a >= b))
                } else if text_eq(op, "==") {
                    Some(Constant::Bool(a == b))
                } else if text_eq(op, "!=") {
                    Some(Constant::Bool(a != b))
                } else {
                    None
                }
            },
            (Constant::Bool(a), Constant::Bool(b)) => {
                if text_eq(op, "&") {
                    Some(Constant::Bool(a && b))
                } else if text_eq(op, "|") {
                    Some(Constant::Bool(a || b))
                } else if text_eq(op, "^") {
                    Some(Constant::Bool(a != b))
                } else {
                    None
                }
            },
            _ => None,
        }
    } else if args.len() == 1 {
        match args[0] {
            Constant::Bool(a) => if text_eq(op, "~") {
                Some(Constant::Bool(!a))
            } else {
                None
            },
            _ => None,
        }
    } else {
        None
    }
}

/// `n` copies of the value.
fn repeat(v: Option<Constant>, n: usize) -> (r: Vec<Option<Constant>>)
    ensures
        r@ == copies(v, n as nat),
{
    let mut out: Vec<Option<Constant>> = Vec::new();
    let mut i: usize = 0;
    while i < n
        invariant
            i <= n,
            out@ == copies(v, i as nat),
        decreases n - i,
    {
        out.push(v);
        i += 1;
        assert(out@ =~= copies(v, i as nat));
    }
    out
}

/// A copy of the samples.
fn copy_samples(v: &Vec<Option<Constant>>) -> (r: Vec<Option<Constant>>)
    ensures
        r@ == v@,
{
    let mut out: Vec<Option<Constant>> = Vec::new();
    let mut i: usize = 0;
    while i < v.len()
        invariant
            i <= v.len(),
            out@ == v@.subrange(0, i as int),
        decreases v.len() - i,
    {
        out.push(v[i]);
        i += 1;
        assert(out@ =~= v@.subrange(0, i as int));
    }
    assert(v@.subrange(0, v.len() as int) =~= v@);
    out
}

/// The samples of the first variable of that name, as `lookup` gives them.
fn find_env(env: &Vec<(String, Vec<Option<Constant>>)>, name: &str) -> (r: Option<usize>)
    ensures
        r matches Some(k) ==> k < env@.len() && lookup(env_view(env@), name@) == Some(
            env@[k as int].1@,
        ),
        r is None ==> lookup(env_view(env@), name@) is None,
{
    let mut i: usize = 0;
    while i < env.len()
        invariant
            i <= env.len(),
            lookup(env_view(env@).subrange(0, i as int), name@) is None,
        decreases env.len() - i,
    {
        let ghost pre = env_view(env@).subrange(0, i as int);
        let ghost next = env_view(env@).subrange(0, i + 1);
        assert(next.drop_last() =~= pre);
        if text_eq(env[i].0.as_str(), name) {
            proof {
                assert(lookup(next, name@) == Some(env@[i as int].1@));
                lemma_lookup_prefix(env_view(env@), i as int + 1, name@);
            }
            return Some(i);
        }
        i += 1;
    }
    assert(env_view(env@).subrange(0, env.len() as int) =~= env_view(env@));
    None
}

proof fn lemma_lookup_prefix(env: Seq<(Seq<char>, Seq<Option<Constant>>)>, n: int, name: Seq<char>)
    requires
        0 <= n <= env.len(),
        lookup(env.subrange(0, n), name) is Some,
    ensures
        lookup(env, name) == lookup(env.subrange(0, n), name),
    decreases env.len() - n,
{
    if n < env.len() {
        let longer = env.subrange(0, n + 1);
        assert(longer.drop_last() =~= env.subrange(0, n));
        lemma_lookup_prefix(env, n + 1, name);
    } else {
        assert(env.subrange(0, n) =~= env);
    }
}

/// The operator applied position by position, as `combine` gives it.
fn combine_exec(op: &str, cs: &Vec<Vec<Option<Constant>>>, n: usize) -> (r: Vec<Option<Constant>>)
    ensures
        r@ == combine(op@, cs@.map_values(|c: Vec<Option<Constant>>| c@), n as nat),
{
    let ghost cv = cs@.map_values(|c: Vec<Option<Constant>>| c@);
    let mut out: Vec<Option<Constant>> = Vec::new();
    let mut i: usize = 0;
    while i < n
        invariant
            i <= n,
            cv == cs@.map_values(|c: Vec<Option<Constant>>| c@),
            out@ == combine(op@, cv, i as nat),
        decreases n - i,
    {
        let mut args: Vec<Constant> = Vec::new();
        let mut all = true;
        let mut k: usize = 0;
        while k < cs.len()
            invariant
                k <= cs.len(),
                cv == cs@.map_values(|c: Vec<Option<Constant>>| c@),
                all <==> forall|j: int| 0 <= j < k ==> i < (#[trigger] cv[j]).len() && cv[j][i as int] is Some,
                all ==> args@ == Seq::new(k as nat, |j: int| cv[j][i as int]->Some_0),
            decreases cs.len() - k,
        {
            assert(cv[k as int] == cs@[k as int]@);
            if i < cs[k].len() {
                match cs[k][i] {
                    Some(c) => {
                        if all {
                            args.push(c);
                            assert(args@ =~= Seq::new((k + 1) as nat, |j: int| cv[j][i as int]->Some_0));
                        }
                    },
                    None => {
                        all = false;
                    },
                }
            } else {
                all = false;
            }
            k += 1;
        }
        let v = if all {
            apply_op(op, &args)
        } else {
            None
        };
        assert(v == point(op@, cv, i as int));
        out.push(v);
        i += 1;
        assert(out@ =~= combine(op@, cv, i as nat));
    }
    out
}

/// The samples of the pattern under the environment, as `eval_term` gives
/// them.
pub fn eval_pattern(p: &Sexp, env: &Vec<(String, Vec<Option<Constant>>)>, n: usize) -> (r: Vec<Option<Constant>>)
    ensures
        r@ == eval_term(p@, env_view(env@), n as nat),
    decreases p,
{
    match p {
        Sexp::Atom(a) => match find_env(env, a.as_str()) {
            Some(k) => copy_samples(&env[k].1),
            None => repeat(Constant::from_text(a.as_str()), n),
        },
        Sexp::List(l) => {
            proof {
                lemma_views(l@);
            }
            if l.len() == 0 {
                return repeat(None, n);
            }
            match &l[0] {
                Sexp::Atom(op) => {
                    let ghost ts = views(l@);
                    let ghost rest = ts.subrange(1, ts.len() as int);
                    let mut children: Vec<Vec<Option<Constant>>> = Vec::new();
                    let mut i: usize = 1;
                    while i < l.len()
                        invariant
                            *p == Sexp::List(*l),
                            1 <= i <= l.len(),
                            ts == views(l@),
                            ts.len() == l.len(),
                            rest == ts.subrange(1, ts.len() as int),
                            forall|j: int| 0 <= j < l.len() ==> #[trigger] ts[j] == l@[j]@,
                            children@.map_values(|c: Vec<Option<Constant>>| c@) == eval_all(
                                rest.subrange(0, i - 1),
                                env_view(env@),
                                n as nat,
                            ),
                        decreases l.len() - i,
                    {
                        proof {
                            assert(decreases_to!(*p => (*p)->List_0));
                            assert(decreases_to!(*l => l[i as int]));
                        }
                        let c = eval_pattern(&l[i], env, n);
                        proof {
                            let next = rest.subrange(0, i as int);
                            assert(next.subrange(0, i - 1) =~= rest.subrange(0, i - 1));
                            assert(next[i - 1] == l@[i as int]@);
                            assert(children@.push(c).map_values(|c: Vec<Option<Constant>>| c@)
                                =~= children@.map_values(|c: Vec<Option<Constant>>| c@).push(c@));
                        }
                        children.push(c);
                        i += 1;
                    }
                    assert(rest.subrange(0, l.len() - 1) =~= rest);
                    assert(ts[0] == l@[0]@);
                    combine_exec(op.as_str(), &children, n)
                },
                Sexp::List(_) => {
                    assert(views(l@)[0] == l@[0]@);
                    repeat(None, n)
                },
            }
        },
    }
}

/// Whether the two patterns agree under the environment: `Valid` where their
/// samples are equal position by position (undefined matching undefined),
/// else `Invalid`.
pub fn validate_with(
    lhs: &Sexp,
    rhs: &Sexp,
    env: &Vec<(String, Vec<Option<Constant>>)>,
    n: usize,
) -> (r: ValidationResult)
    ensures
        r == if eval_term(lhs@, env_view(env@), n as nat) == eval_term(rhs@, env_view(env@), n as nat) {
            ValidationResult::Valid
        } else {
            ValidationResult::Invalid
        },
{
    let lv = eval_pattern(lhs, env, n);
    let rv = eval_pattern(rhs, env, n);
    if lv.len() != rv.len() {
        return ValidationResult::Invalid;
    }
    let mut i: usize = 0;
    while i < lv.len()
        invariant
            lv@ == eval_term(lhs@, env_view(env@), n as nat),
            rv@ == eval_term(rhs@, env_view(env@), n as nat),
            lv@.len() == rv@.len(),
            i <= lv@.len(),
            forall|j: int| 0 <= j < i ==> lv@[j] == rv@[j],
        decreases lv@.len() - i,
    {
        let a = lv[i];
        let b = rv[i];
        let same = match (a, b) {
            (Some(x), Some(y)) => x == y,
            (None, None) => true,
            _ => false,
        };
        if !same {
            assert(lv@[i as int] != rv@[i as int]);
            return ValidationResult::Invalid;
        }
        i += 1;
    }
    assert(lv@ =~= rv@);
    ValidationResult::Valid
}

/// The verdict of comparing the two patterns' samples under `env`.
pub open spec fn verdict(l: Term, r: Term, env: Seq<(Seq<char>, Seq<Option<Constant>>)>, n: nat) -> ValidationResult {
    if eval_term(l, env, n) == eval_term(r, env, n) {
        ValidationResult::Valid
    } else {
        ValidationResult::Invalid
    }
}

/// Each variable of the environment has `n` samples, all defined integers.
pub open spec fn integer_samples(env: Seq<(Seq<char>, Seq<Option<Constant>>)>, n: nat) -> bool {
    forall|k: int|
        0 <= k < env.len() ==> (#[trigger] env[k]).1.len() == n && forall|i: int|
            0 <= i < n ==> env[k].1[i] is Some && env[k].1[i]->Some_0 is Int
}

pub open spec fn env_names(env: Seq<(Seq<char>, Seq<Option<Constant>>)>) -> Seq<Seq<char>> {
    env.map_values(|e: (Seq<char>, Seq<Option<Constant>>)| e.0)
}

proof fn lemma_lookup_found(env: Seq<(Seq<char>, Seq<Option<Constant>>)>, a: Seq<char>)
    requires
        env_names(env).contains(a),
    ensures
        lookup(env, a) is Some,
    decreases env.len(),
{
    let d = env.drop_last();
    if env.last().0 != a {
        let k = choose|k: int| 0 <= k < env_names(env).len() && env_names(env)[k] == a;
        assert(k < d.len());
        assert(env_names(d)[k] == a);
        lemma_lookup_found(d, a);
    }
}

/// Fuzz validation of a rule of the predicate language: each pattern
/// variable of either side gets `n` samples from `sampler`, all defined
/// integers, and the rule is valid exactly where both sides agree on all of
/// them. A rule whose sides are one term is valid.
pub fn validate(lhs: &Sexp, rhs: &Sexp, rng: &mut Pcg64, n: usize) -> (r: ValidationResult)
    ensures
        exists|env: Seq<(Seq<char>, Seq<Option<Constant>>)>|
            {
                &&& integer_samples(env, n as nat)
                &&& forall|a: Seq<char>| #[trigger]
                    crate::rule::pattern_vars(lhs@).union(crate::rule::pattern_vars(rhs@)).contains(a)
                        ==> lookup(env, a) is Some
                &&& r == verdict(lhs@, rhs@, env, n as nat)
            },
        lhs@ == rhs@ ==> r == ValidationResult::Valid,
{
    let mut atoms: Vec<String> = Vec::new();
    assert(strs_view(atoms@) =~= Seq::<Seq<char>>::empty());
    lhs.collect_leaves(&mut atoms);
    rhs.collect_leaves(&mut atoms);
    let ghost whole = leaves(lhs@) + leaves(rhs@);
    assert(strs_view(atoms@) =~= whole);
    let mut names: Vec<String> = Vec::new();
    let mut env: Vec<(String, Vec<Option<Constant>>)> = Vec::new();
    let mut i: usize = 0;
    assert(strs_view(names@) =~= env_names(env_view(env@)));
    while i < atoms.len()
        invariant
            i <= atoms.len(),
            strs_view(atoms@) == whole,
            strs_view(names@) == env_names(env_view(env@)),
            integer_samples(env_view(env@), n as nat),
            forall|j: int|
                0 <= j < i && is_pattern_var(#[trigger] whole[j]) ==> env_names(env_view(env@)).contains(
                    whole[j],
                ),
        decreases atoms.len() - i,
    {
        assert(strs_view(atoms@)[i as int] == atoms@[i as int]@);
        let ghost names0 = env_names(env_view(env@));
        let is_var = is_var_atom(atoms[i].as_str());
        let known = holds_text(&names, atoms[i].as_str());
        if is_var && !known {
            let samples = sampler(rng, n);
            let mut cvec: Vec<Option<Constant>> = Vec::new();
            let mut k: usize = 0;
            while k < samples.len()
                invariant
                    k <= samples@.len(),
                    samples@.len() == n,
                    forall|q: int| 0 <= q < samples@.len() ==> #[trigger] samples@[q] is Int,
                    cvec@.len() == k,
                    forall|q: int| 0 <= q < k ==> #[trigger] cvec@[q] == Some(samples@[q]),
                decreases samples.len() - k,
            {
                cvec.push(Some(samples[k]));
                k += 1;
            }
            let name = atoms[i].clone();
            let ghost ev0 = env_view(env@);
            names.push(atoms[i].clone());
            env.push((name, cvec));
            proof {
                assert(env_view(env@) =~= ev0.push((atoms@[i as int]@, cvec@)));
                assert(env_names(env_view(env@)) =~= names0.push(atoms@[i as int]@));
                assert(strs_view(names@) =~= env_names(env_view(env@)));
                assert forall|j: int| 0 <= j < names0.len() implies #[trigger] env_names(
                    env_view(env@),
                )[j] == names0[j] by {}
            }
        }
        proof {
            assert forall|j: int|
                0 <= j < i + 1 && is_pattern_var(#[trigger] whole[j]) implies env_names(
                env_view(env@),
            ).contains(whole[j]) by {
                if j < i {
                    let q = choose|q: int| 0 <= q < names0.len() && names0[q] == whole[j];
                    assert(env_names(env_view(env@))[q] == whole[j]);
                } else {
                    assert(whole[j] == atoms@[i as int]@);
                    if known {
                        let q = choose|q: int| 0 <= q < names0.len() && names0[q] == whole[j];
                        assert(env_names(env_view(env@))[q] == whole[j]);
                    } else {
                        assert(env_names(env_view(env@))[names0.len() as int] == whole[j]);
                    }
                }
            }
        }
        i += 1;
    }
    proof {
        let ev = env_view(env@);
        assert forall|a: Seq<char>| #[trigger]
            crate::rule::pattern_vars(lhs@).union(crate::rule::pattern_vars(rhs@)).contains(a)
                implies lookup(ev, a) is Some by {
            let k = if leaves(lhs@).contains(a) {
                choose|k: int| 0 <= k < leaves(lhs@).len() && leaves(lhs@)[k] == a
            } else {
                let q = choose|q: int| 0 <= q < leaves(rhs@).len() && leaves(rhs@)[q] == a;
                q + leaves(lhs@).len()
            };
            assert(whole[k] == a);
            lemma_lookup_found(ev, a);
        }
    }
    validate_with(lhs, rhs, &env, n)
}

} // verus!
