use crate::equality::generalized;
use crate::pattern::{added_opt, direction};
use crate::rule::{strs_view, RuleView};
use crate::ruleset::Ruleset;
use crate::sexp::{Sexp, Term};
use vstd::prelude::*;

verus! {

/// An e-class as candidate discovery sees it: its cheapest term; its
/// signature, one value per sampled environment (`None` where the term is
/// undefined there), values being the language's constants as the language
/// numbers them; and whether a proper subterm of that term is a constant
/// that is not written as one.
#[derive(Debug)]
pub struct ClassInfo {
    pub term: Sexp,
    pub cvec: Vec<Option<u64>>,
    pub constant_subterm: bool,
}

/// Whether some position of the signature is defined.
pub open spec fn defined(cv: Seq<Option<u64>>) -> bool {
    exists|i: int| 0 <= i < cv.len() && cv[i] is Some
}

/// Two signatures match when, wherever both are defined, they agree, and
/// they are both defined somewhere.
pub open spec fn cvecs_match(a: Seq<Option<u64>>, b: Seq<Option<u64>>) -> bool {
    &&& forall|i: int|
        0 <= i < a.len() && i < b.len() && a[i] is Some && b[i] is Some ==> #[trigger] a[i] == b[i]
    &&& exists|i: int| 0 <= i < a.len() && i < b.len() && a[i] is Some && b[i] is Some
}

/// The rules after adding, for each pair of terms in turn, the candidates in
/// both directions from one generalization of the pair.
pub open spec fn fold_adds(vs: Seq<RuleView>, ps: Seq<(Term, Term)>, vars: Seq<Seq<char>>) -> Seq<
    RuleView,
>
    decreases ps.len(),
{
    if ps.len() == 0 {
        vs
    } else {
        let prev = fold_adds(vs, ps.drop_last(), vars);
        let g = generalized(ps.last().0, ps.last().1, vars);
        added_opt(added_opt(prev, direction(g.0, g.1)), direction(g.1, g.0))
    }
}

pub open spec fn class_terms(cs: Seq<ClassInfo>, i: int, j: int) -> (Term, Term) {
    (cs[i].term@, cs[j].term@)
}

/// The pairs `(i, j)`, `i < j`, of row `i` up to column `j` whose classes
/// the test relates, in order.
pub open spec fn row_pairs(cs: Seq<ClassInfo>, i: int, j: int, fast: bool) -> Seq<(Term, Term)>
    decreases j - i,
{
    if j <= i + 1 {
        Seq::empty()
    } else {
        let prev = row_pairs(cs, i, j - 1, fast);
        if related(cs[i], cs[j - 1], fast) {
            prev.push(class_terms(cs, i, j - 1))
        } else {
            prev
        }
    }
}

/// The pairs of the first `i` rows, in order.
pub open spec fn rows_pairs(cs: Seq<ClassInfo>, i: int, fast: bool) -> Seq<(Term, Term)>
    decreases i,
{
    if i <= 0 {
        Seq::empty()
    } else {
        rows_pairs(cs, i - 1, fast) + row_pairs(cs, i - 1, cs.len() as int, fast)
    }
}

/// Whether two classes are candidates: their signatures match; or, for the
/// fast test, neither has a hidden constant subterm and their signatures are
/// defined somewhere and equal.
pub open spec fn related(a: ClassInfo, b: ClassInfo, fast: bool) -> bool {
    if fast {
        !a.constant_subterm && !b.constant_subterm && defined(a.cvec@) && a.cvec@ == b.cvec@
    } else {
        cvecs_match(a.cvec@, b.cvec@)
    }
}

/// Whether the signatures match, as `cvecs_match` says.
pub fn compare(a: &Vec<Option<u64>>, b: &Vec<Option<u64>>) -> (r: bool)
    ensures
        r == cvecs_match(a@, b@),
{
    let n = if a.len() < b.len() {
        a.len()
    } else {
        b.len()
    };
    let mut both = false;
    let mut i: usize = 0;
    while i < n
        invariant
            n <= a@.len(),
            n <= b@.len(),
            n == a@.len() || n == b@.len(),
            i <= n,
            forall|k: int|
                0 <= k < i && a@[k] is Some && b@[k] is Some ==> #[trigger] a@[k] == b@[k],
            both <==> exists|k: int| 0 <= k < i && a@[k] is Some && b@[k] is Some,
        decreases n - i,
    {
        match (a[i], b[i]) {
            (Some(x), Some(y)) => {
                if x != y {
                    return false;
                }
                both = true;
            },
            _ => {},
        }
        i += 1;
    }
    both
}

/// Whether the signatures are defined somewhere and equal.
pub fn same_defined(a: &Vec<Option<u64>>, b: &Vec<Option<u64>>) -> (r: bool)
    ensures
        r == (defined(a@) && a@ == b@),
{
    if a.len() != b.len() {
        return false;
    }
    let mut some = false;
    let mut i: usize = 0;
    while i < a.len()
        invariant
            a@.len() == b@.len(),
            i <= a@.len(),
            forall|k: int| 0 <= k < i ==> a@[k] == b@[k],
            some <==> exists|k: int| 0 <= k < i && a@[k] is Some,
        decreases a@.len() - i,
    {
        if a[i] != b[i] {
            return false;
        }
        if a[i].is_some() {
            some = true;
        }
        i += 1;
    }
    assert(a@ =~= b@);
    some
}

fn related_exec(a: &ClassInfo, b: &ClassInfo, fast: bool) -> (r: bool)
    ensures
        r == related(*a, *b, fast),
{
    if fast {
        !a.constant_subterm && !b.constant_subterm && same_defined(&a.cvec, &b.cvec)
    } else {
        compare(&a.cvec, &b.cvec)
    }
}

/// The candidates from every pair of classes, earlier class first, that the
/// test relates, each pair adding its two directions in turn.
fn pair_candidates(classes: &Vec<ClassInfo>, vars: &Vec<String>, fast: bool) -> (r: Ruleset)
    ensures
        r@ == fold_adds(Seq::empty(), rows_pairs(classes@, classes@.len() as int, fast), strs_view(vars@)),
{
    let mut candidates = Ruleset::empty();
    let n = classes.len();
    let ghost cs = classes@;
    let ghost vv = strs_view(vars@);
    let mut i: usize = 0;
    while i < n
        invariant
            n == cs.len(),
            cs == classes@,
            vv == strs_view(vars@),
            i <= n,
            candidates@ == fold_adds(Seq::empty(), rows_pairs(cs, i as int, fast), vv),
        decreases n - i,
    {
        let mut j: usize = i + 1;
        while j < n
            invariant
                n == cs.len(),
                cs == classes@,
                vv == strs_view(vars@),
                i < n,
                i + 1 <= j <= n,
                candidates@ == fold_adds(
                    Seq::empty(),
                    rows_pairs(cs, i as int, fast) + row_pairs(cs, i as int, j as int, fast),
                    vv,
                ),
            decreases n - j,
        {
            let ghost before = rows_pairs(cs, i as int, fast) + row_pairs(cs, i as int, j as int, fast);
            if related_exec(&classes[i], &classes[j], fast) {
                candidates.add_from_recexprs(&classes[i].term, &classes[j].term, vars);
                proof {
                    let after = rows_pairs(cs, i as int, fast) + row_pairs(cs, i as int, j + 1, fast);
                    assert(after =~= before.push(class_terms(cs, i as int, j as int)));
                    assert(after.drop_last() =~= before);
                }
            } else {
                proof {
                    let after = rows_pairs(cs, i as int, fast) + row_pairs(cs, i as int, j + 1, fast);
                    assert(after =~= before);
                }
            }
            j += 1;
        }
        i += 1;
    }
    candidates
}

impl Ruleset {
    /// Candidates by signature matching: every pair of classes whose
    /// signatures match (wherever both are defined they agree, and both are
    /// defined somewhere) gives the two directions of one generalization of
    /// their terms, pairs taken in order of the classes.
    pub fn cvec_match(classes: &Vec<ClassInfo>, vars: &Vec<String>) -> (r: Ruleset)
        ensures
            r@ == fold_adds(Seq::empty(), rows_pairs(classes@, classes@.len() as int, false), strs_view(vars@)),
    {
        pair_candidates(classes, vars, false)
    }

    /// Candidates by equal signatures: only classes defined somewhere, with
    /// no hidden constant subterm, whose signatures are equal pair up. Where
    /// some positions are undefined this finds fewer pairs than `cvec_match`.
    pub fn fast_cvec_match(classes: &Vec<ClassInfo>, vars: &Vec<String>) -> (r: Ruleset)
        ensures
            r@ == fold_adds(Seq::empty(), rows_pairs(classes@, classes@.len() as int, true), strs_view(vars@)),
    {
        pair_candidates(classes, vars, true)
    }
}

/// The pairs `(i, j)` of row `i` up to column `j`, over all columns, whose
/// classes share a representative but whose terms differ, in order.
pub open spec fn diff_row(cs: Seq<(Sexp, usize)>, i: int, j: int) -> Seq<(Term, Term)>
    decreases j,
{
    if j <= 0 {
        Seq::empty()
    } else {
        let prev = diff_row(cs, i, j - 1);
        if cs[i].1 == cs[j - 1].1 && cs[i].0@ != cs[j - 1].0@ {
            prev.push((cs[i].0@, cs[j - 1].0@))
        } else {
            prev
        }
    }
}

/// The pairs of the first `i` rows, in order.
pub open spec fn diff_rows(cs: Seq<(Sexp, usize)>, i: int) -> Seq<(Term, Term)>
    decreases i,
{
    if i <= 0 {
        Seq::empty()
    } else {
        diff_rows(cs, i - 1) + diff_row(cs, i - 1, cs.len() as int)
    }
}

impl Ruleset {
    /// Candidates from two e-graphs, the second the first after rewriting.
    /// Each class of the first comes with its cheapest term and the class
    /// that holds it in the second; any two classes that the rewriting merged
    /// and whose terms differ give the two directions of one generalization,
    /// every ordered pair in turn.
    pub fn extract_candidates(classes: &Vec<(Sexp, usize)>, vars: &Vec<String>) -> (r: Ruleset)
        ensures
            r@ == fold_adds(Seq::empty(), diff_rows(classes@, classes@.len() as int), strs_view(vars@)),
    {
        let mut candidates = Ruleset::empty();
        let n = classes.len();
        let ghost cs = classes@;
        let ghost vv = strs_view(vars@);
        let mut i: usize = 0;
        while i < n
            invariant
                n == cs.len(),
                cs == classes@,
                vv == strs_view(vars@),
                i <= n,
                candidates@ == fold_adds(Seq::empty(), diff_rows(cs, i as int), vv),
            decreases n - i,
        {
            let mut j: usize = 0;
            while j < n
                invariant
                    n == cs.len(),
                    cs == classes@,
                    vv == strs_view(vars@),
                    i < n,
                    j <= n,
                    candidates@ == fold_adds(
                        Seq::empty(),
                        diff_rows(cs, i as int) + diff_row(cs, i as int, j as int),
                        vv,
                    ),
                decreases n - j,
            {
                let ghost before = diff_rows(cs, i as int) + diff_row(cs, i as int, j as int);
                let ghost after = diff_rows(cs, i as int) + diff_row(cs, i as int, j + 1);
                if classes[i].1 == classes[j].1 && !classes[i].0.eq(&classes[j].0) {
                    candidates.add_from_recexprs(&classes[i].0, &classes[j].0, vars);
                    proof {
                        assert(after =~= before.push((cs[i as int].0@, cs[j as int].0@)));
                        assert(after.drop_last() =~= before);
                    }
                } else {
                    proof {
                        assert(after =~= before);
                    }
                }
                j += 1;
            }
            i += 1;
        }
        candidates
    }
}

} // verus!
