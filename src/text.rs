use crate::rule::{pattern_vars, rule_name, strs_view, Rule, RuleView};
use crate::ruleset::{added, added_all, Ruleset};
use crate::sexp::{lemma_views, lemma_views_push, render, render_seq, views, Sexp, Term};
use vstd::prelude::*;

verus! {

/// The characters that end an atom.
pub open spec fn is_delimiter(c: char) -> bool {
    c == ' ' || c == '(' || c == ')'
}

/// A term that has a text of its own: atoms are not empty and hold no
/// delimiter.
pub open spec fn well_formed(t: Term) -> bool
    decreases t,
{
    match t {
        Term::Atom(a) => a.len() > 0 && forall|i: int|
            0 <= i < a.len() ==> !is_delimiter(#[trigger] a[i]),
        Term::List(ts) => forall|i: int| 0 <= i < ts.len() ==> well_formed(#[trigger] ts[i]),
    }
}

/// The characters of the text.
pub fn chars_of(s: &str) -> (r: Vec<char>)
    ensures
        r@ == s@,
{
    let n = s.unicode_len();
    let mut out: Vec<char> = Vec::new();
    let mut i: usize = 0;
    while i < n
        invariant
            n == s@.len(),
            i <= n,
            out@ == s@.subrange(0, i as int),
        decreases n - i,
    {
        out.push(s.get_char(i));
        i += 1;
        assert(out@ =~= s@.subrange(0, i as int));
    }
    out
}

/// The term's text stands in `c` at place `pos`, followed by the end of the
/// text, a space or a closing parenthesis.
pub open spec fn fits(c: Seq<char>, pos: int, t: Term) -> bool {
    let n = render(t).len();
    &&& 0 <= pos
    &&& pos + n <= c.len()
    &&& c.subrange(pos, pos + n) == render(t)
    &&& (pos + n == c.len() || c[pos + n] == ' ' || c[pos + n] == ')')
}

/// Where element `k` of a list's elements starts in their joined text.
pub open spec fn elem_offset(ts: Seq<Term>, k: int) -> int {
    if k == 0 {
        0
    } else {
        render_seq(ts.subrange(0, k)).len() + 1int
    }
}

proof fn lemma_render_first(t: Term)
    requires
        well_formed(t),
    ensures
        render(t).len() > 0,
        t is List <==> render(t)[0] == '(',
        t is Atom ==> !is_delimiter(render(t)[0]),
{
    match t {
        Term::Atom(a) => {
            assert(!is_delimiter(a[0]));
        },
        Term::List(ts) => {},
    }
}

proof fn lemma_render_seq_split(ts: Seq<Term>, k: int)
    requires
        0 < k < ts.len(),
    ensures
        render_seq(ts) == render_seq(ts.subrange(0, k)) + seq![' '] + render_seq(
            ts.subrange(k, ts.len() as int),
        ),
    decreases ts.len(),
{
    let n = ts.len() as int;
    let d = ts.subrange(0, n - 1);
    if k == n - 1 {
        assert(ts.subrange(k, n).len() == 1);
        assert(ts.subrange(k, n)[0] == ts[n - 1]);
    } else {
        lemma_render_seq_split(d, k);
        assert(d.subrange(0, k) =~= ts.subrange(0, k));
        let tail = ts.subrange(k, n);
        assert(tail.subrange(0, tail.len() - 1) =~= d.subrange(k, n - 1));
        assert(tail[tail.len() - 1] == ts[n - 1]);
    }
}

proof fn lemma_render_seq_push(ts: Seq<Term>, t: Term)
    ensures
        render_seq(ts.push(t)) == if ts.len() == 0 {
            render(t)
        } else {
            render_seq(ts) + seq![' '] + render(t)
        },
{
    assert(ts.push(t).subrange(0, ts.len() as int) =~= ts);
}

/// Element `k` of a fitting list fits at its place, followed by a space or,
/// for the last element, the closing parenthesis.
proof fn lemma_elem_fits(c: Seq<char>, pos: int, ts: Seq<Term>, k: int)
    requires
        well_formed(Term::List(ts)),
        fits(c, pos, Term::List(ts)),
        0 <= k < ts.len(),
    ensures
        fits(c, pos + 1 + elem_offset(ts, k), ts[k]),
        pos + 1 + elem_offset(ts, k) + render(ts[k]).len() < c.len(),
        c[pos + 1 + elem_offset(ts, k) + render(ts[k]).len()] == if k < ts.len() - 1 {
            ' '
        } else {
            ')'
        },
        k < ts.len() - 1 ==> elem_offset(ts, k + 1) == elem_offset(ts, k) + render(ts[k]).len()
            + 1,
        k == ts.len() - 1 ==> render(Term::List(ts)).len() == elem_offset(ts, k) + render(
            ts[k],
        ).len() + 2,
{
    let n = ts.len() as int;
    let rs = render_seq(ts);
    let whole = render(Term::List(ts));
    assert(whole == seq!['('] + rs + seq![')']);
    let e = render(ts[k]);
    let pre: Seq<char> = if k == 0 {
        Seq::empty()
    } else {
        render_seq(ts.subrange(0, k)) + seq![' ']
    };
    let rest = ts.subrange(k, n);
    if k > 0 {
        lemma_render_seq_split(ts, k);
    } else {
        assert(ts.subrange(0, n) =~= ts);
    }
    assert(rs == pre + render_seq(rest));
    let post: Seq<char> = if k < n - 1 {
        seq![' '] + render_seq(ts.subrange(k + 1, n))
    } else {
        Seq::empty()
    };
    if k < n - 1 {
        lemma_render_seq_split(rest, 1);
        assert(rest.subrange(0, 1).len() == 1);
        assert(rest.subrange(0, 1)[0] == ts[k]);
        assert(rest.subrange(1, rest.len() as int) =~= ts.subrange(k + 1, n));
    } else {
        assert(rest.len() == 1);
        assert(rest[0] == ts[k]);
    }
    assert(render_seq(rest) == e + post);
    assert(pre.len() == elem_offset(ts, k));
    assert(whole =~= seq!['('] + pre + e + post + seq![')']);
    let start = pos + 1 + pre.len();
    assert(c.subrange(pos, pos + whole.len()) == whole);
    assert forall|i: int| 0 <= i < e.len() implies c[start + i] == e[i] by {
        assert(c.subrange(pos, pos + whole.len())[1 + pre.len() + i] == whole[1 + pre.len() + i]);
    }
    assert(c.subrange(start, start + e.len()) =~= e);
    let after: int = 1 + pre.len() as int + e.len() as int;
    assert(c.subrange(pos, pos + whole.len())[after] == whole[after]);
    if k < n - 1 {
        assert(whole[after] == ' ');
        lemma_render_seq_push(ts.subrange(0, k), ts[k]);
        assert(ts.subrange(0, k).push(ts[k]) =~= ts.subrange(0, k + 1));
    } else {
        assert(whole[after] == ')');
    }
}

/// Reads one term of the text from place `pos`: an atom runs to the next
/// delimiter; a list is `(`, its elements separated by single spaces, and
/// `)`. On success the term's text is exactly what was read; and where a
/// well-formed term's text stands there, followed by the end, a space or a
/// closing parenthesis, that term is read.
pub fn parse_at(s: &str, c: &Vec<char>, pos: usize) -> (r: Option<(Sexp, usize)>)
    requires
        c@ == s@,
        pos <= c@.len(),
    ensures
        r matches Some((t, end)) ==> pos < end <= c@.len() && c@.subrange(pos as int, end as int)
            == render(t@) && well_formed(t@),
        forall|t: Term|
            well_formed(t) && #[trigger] fits(c@, pos as int, t) ==> (r matches Some((u, end)) && u@
                == t && end == pos + render(t).len()),
    decreases c@.len() - pos,
{
    let n = c.len();
    if pos >= n {
        proof {
            assert forall|t: Term| well_formed(t) && #[trigger] fits(c@, pos as int, t) implies false by {
                lemma_render_first(t);
            }
        }
        return None;
    }
    let ch = c[pos];
    if ch == ')' || ch == ' ' {
        proof {
            assert forall|t: Term| well_formed(t) && #[trigger] fits(c@, pos as int, t) implies false by {
                lemma_render_first(t);
                assert(c@.subrange(pos as int, pos + render(t).len())[0] == c@[pos as int]);
            }
        }
        return None;
    }
    if ch == '(' {
        let mut items: Vec<Sexp> = Vec::new();
        let mut at: usize = pos + 1;
        if at < n && c[at] == ')' {
            let t = Sexp::List(items);
            proof {
                assert(views(Seq::<Sexp>::empty()) =~= Seq::<Term>::empty());
                assert(c@.subrange(pos as int, at + 1) =~= seq!['('] + render_seq(
                    Seq::<Term>::empty(),
                ) + seq![')']);
                assert forall|tt: Term| well_formed(tt) && #[trigger] fits(c@, pos as int, tt) implies tt
                    == t@ && render(tt).len() == 2 by {
                    lemma_render_first(tt);
                    assert(c@.subrange(pos as int, pos + render(tt).len())[0] == c@[pos as int]);
                    let ts = tt->List_0;
                    if ts.len() > 0 {
                        lemma_elem_fits(c@, pos as int, ts, 0);
                        lemma_render_first(ts[0]);
                        assert(c@.subrange(pos + 1, pos + 1 + render(ts[0]).len())[0] == c@[pos + 1]);
                        assert(false);
                    }
                    assert(ts =~= Seq::<Term>::empty());
                }
            }
            return Some((t, at + 1));
        }
        proof {
            assert forall|t: Term| well_formed(t) && #[trigger] fits(c@, pos as int, t) implies (t is List
                && t->List_0.len() > 0) by {
                lemma_render_first(t);
                assert(c@.subrange(pos as int, pos + render(t).len())[0] == c@[pos as int]);
                let ts = t->List_0;
                if ts.len() == 0 {
                    assert(render(t) =~= seq!['(', ')']);
                    assert(c@.subrange(pos as int, pos + 2)[1] == c@[pos + 1]);
                }
            }
        }
        loop
            invariant
                c@ == s@,
                n == c@.len(),
                pos < at <= n,
                c@[pos as int] == '(',
                items@.len() == 0 ==> at == pos + 1,
                items@.len() == 0 ==> c@.subrange(pos + 1, at as int) == Seq::<char>::empty(),
                items@.len() > 0 ==> c@.subrange(pos + 1, at as int) == render_seq(views(items@))
                    + seq![' '],
                forall|i: int| 0 <= i < items@.len() ==> well_formed(#[trigger] items@[i]@),
                forall|t: Term|
                    well_formed(t) && #[trigger] fits(c@, pos as int, t) ==> {
                        &&& t is List
                        &&& items@.len() < t->List_0.len()
                        &&& views(items@) == t->List_0.subrange(0, items@.len() as int)
                        &&& at == pos + 1 + elem_offset(t->List_0, items@.len() as int)
                    },
            decreases n - at,
        {
            let ghost k = items@.len() as int;
            proof {
                assert forall|t: Term| well_formed(t) && #[trigger] fits(c@, pos as int, t) implies fits(
                    c@,
                    at as int,
                    t->List_0[k],
                ) && well_formed(t->List_0[k]) by {
                    lemma_elem_fits(c@, pos as int, t->List_0, k);
                }
            }
            match parse_at(s, c, at) {
                None => {
                    proof {
                        assert forall|t: Term| well_formed(t) && #[trigger] fits(c@, pos as int, t) implies false by {
                            assert(fits(c@, at as int, t->List_0[k]));
                        }
                    }
                    return None;
                },
                Some((t, end)) => {
                    proof {
                        lemma_views_push(items@, t);
                        lemma_views(items@);
                        let vs = views(items@);
                        let nv = vs.push(t@);
                        assert(nv.subrange(0, nv.len() - 1) =~= vs);
                        if items@.len() == 0 {
                            assert(c@.subrange(pos + 1, end as int) =~= c@.subrange(
                                at as int,
                                end as int,
                            ));
                            assert(render_seq(nv) == render(t@));
                        } else {
                            assert(c@.subrange(pos + 1, end as int) =~= c@.subrange(
                                pos + 1,
                                at as int,
                            ) + c@.subrange(at as int, end as int));
                            assert(render_seq(nv) == render_seq(vs) + seq![' '] + render(t@));
                        }
                        assert(c@.subrange(pos + 1, end as int) =~= render_seq(nv));
                        assert forall|tt: Term| well_formed(tt) && #[trigger] fits(c@, pos as int, tt) implies {
                            &&& views(items@.push(t)) == tt->List_0.subrange(0, k + 1)
                            &&& end == at + render(tt->List_0[k]).len()
                        } by {
                            assert(fits(c@, at as int, tt->List_0[k]));
                            assert(tt->List_0.subrange(0, k + 1) =~= tt->List_0.subrange(0, k).push(
                                tt->List_0[k],
                            ));
                        }
                    }
                    items.push(t);
                    at = end;
                },
            }
            if at >= n {
                proof {
                    assert forall|t: Term| well_formed(t) && #[trigger] fits(c@, pos as int, t) implies false by {
                        lemma_elem_fits(c@, pos as int, t->List_0, k);
                    }
                }
                return None;
            }
            if c[at] == ')' {
                proof {
                    lemma_views(items@);
                    assert(c@.subrange(pos as int, at + 1) =~= seq!['('] + c@.subrange(
                        pos + 1,
                        at as int,
                    ) + seq![')']);
                    assert forall|i: int| 0 <= i < views(items@).len() implies well_formed(
                        #[trigger] views(items@)[i],
                    ) by {
                        assert(views(items@)[i] == items@[i]@);
                    }
                    assert forall|tt: Term| well_formed(tt) && #[trigger] fits(c@, pos as int, tt) implies {
                        &&& tt == Term::List(views(items@))
                        &&& at + 1 == pos + render(tt).len()
                    } by {
                        let ts = tt->List_0;
                        lemma_elem_fits(c@, pos as int, ts, k);
                        if k < ts.len() - 1 {
                            assert(false);
                        }
                        assert(ts.subrange(0, k + 1) =~= ts);
                    }
                }
                let t = Sexp::List(items);
                return Some((t, at + 1));
            }
            if c[at] != ' ' {
                proof {
                    assert forall|t: Term| well_formed(t) && #[trigger] fits(c@, pos as int, t) implies false by {
                        lemma_elem_fits(c@, pos as int, t->List_0, k);
                    }
                }
                return None;
            }
            proof {
                assert(c@.subrange(pos + 1, at + 1) =~= c@.subrange(pos + 1, at as int) + seq![
                    ' ',
                ]);
                assert forall|tt: Term| well_formed(tt) && #[trigger] fits(c@, pos as int, tt) implies {
                    &&& k + 1 < tt->List_0.len()
                    &&& at + 1 == pos + 1 + elem_offset(tt->List_0, k + 1)
                } by {
                    lemma_elem_fits(c@, pos as int, tt->List_0, k);
                }
            }
            at += 1;
        }
    } else {
        let mut end: usize = pos;
        while end < n && !(c[end] == ' ' || c[end] == '(' || c[end] == ')')
            invariant
                n == c@.len(),
                pos <= end <= n,
                forall|i: int| pos <= i < end ==> !is_delimiter(#[trigger] c@[i]),
            decreases n - end,
        {
            end += 1;
        }
        assert(end > pos) by {
            assert(!is_delimiter(c@[pos as int]));
        }
        let atom = String::from_str(s.substring_char(pos, end));
        let t = Sexp::Atom(atom);
        proof {
            let a = c@.subrange(pos as int, end as int);
            assert forall|i: int| 0 <= i < a.len() implies !is_delimiter(#[trigger] a[i]) by {
                assert(a[i] == c@[pos + i]);
            }
            assert forall|tt: Term| well_formed(tt) && #[trigger] fits(c@, pos as int, tt) implies tt
                == t@ && end == pos + render(tt).len() by {
                lemma_render_first(tt);
                assert(c@.subrange(pos as int, pos + render(tt).len())[0] == c@[pos as int]);
                let b = tt->Atom_0;
                let m = pos + b.len();
                if end < m {
                    assert(c@.subrange(pos as int, m)[end - pos] == c@[end as int]);
                    assert(!is_delimiter(b[end - pos]));
                }
                if end > m {
                    assert(!is_delimiter(c@[m]));
                }
                assert(a =~= b);
            }
        }
        Some((t, end))
    }
}

/// The term whose text is exactly `s`, if there is one: a well-formed term
/// is read back from its text.
pub fn parse_sexp(s: &str) -> (r: Option<Sexp>)
    ensures
        r matches Some(t) ==> render(t@) == s@ && well_formed(t@),
        forall|t: Term| well_formed(t) && render(t) == s@ ==> (r matches Some(u) && u@ == t),
{
    let c = chars_of(s);
    proof {
        assert forall|t: Term| well_formed(t) && render(t) == s@ implies fits(c@, 0, t) by {
            assert(c@.subrange(0, render(t).len() as int) =~= c@);
        }
    }
    match parse_at(s, &c, 0) {
        Some((t, end)) => {
            if end == c.len() {
                assert(c@.subrange(0, end as int) =~= c@);
                Some(t)
            } else {
                proof {
                    assert forall|tt: Term| well_formed(tt) && render(tt) == s@ implies false by {
                        assert(fits(c@, 0, tt));
                    }
                }
                None
            }
        },
        None => {
            proof {
                assert forall|tt: Term| well_formed(tt) && render(tt) == s@ implies false by {
                    assert(fits(c@, 0, tt));
                }
            }
            None
        },
    }
}

/// Whether the characters from place `at` on start with `word`.
fn starts_with_at(c: &Vec<char>, at: usize, word: &str) -> (r: bool)
    ensures
        r == (at + word@.len() <= c@.len() && c@.subrange(at as int, at + word@.len()) == word@),
{
    let w = chars_of(word);
    let n = w.len();
    let m = c.len();
    if at > m || n > m - at {
        return false;
    }
    let mut i: usize = 0;
    while i < n
        invariant
            m == c@.len(),
            n == w@.len(),
            w@ == word@,
            at + n <= c@.len(),
            i <= n,
            forall|j: int| 0 <= j < i ==> c@[at + j] == w@[j],
        decreases n - i,
    {
        if c[at + i] != w[i] {
            assert(c@.subrange(at as int, at + n)[i as int] != word@[i as int]);
            return false;
        }
        i += 1;
    }
    assert(c@.subrange(at as int, at + n) =~= word@);
    true
}

/// The line `lhs => rhs` of the readable rule `v`.
pub open spec fn forward_line(v: RuleView, s: Seq<char>) -> bool {
    readable(v) && s == v.0
}

/// The line `lhs <=> rhs` of the readable rule `v`, whose reverse is a rule
/// too.
pub open spec fn both_line(v: RuleView, s: Seq<char>) -> bool {
    &&& readable(v)
    &&& pattern_vars(v.1).subset_of(pattern_vars(v.2))
    &&& s == render(v.1) + " <=> "@ + render(v.2)
}

/// The rule from `v`'s right side to its left side.
pub open spec fn reversed(v: RuleView) -> RuleView {
    (rule_name(v.2, v.1), v.2, v.1)
}

impl Rule {
    /// Reads a rule line: `lhs => rhs` gives the forward rule alone; `lhs <=>
    /// rhs` gives it with its reverse. `None` where the line is neither,
    /// which includes a line whose rule would use a pattern variable that its
    /// left side lacks.
    pub fn from_string(s: &str) -> (r: Option<(Rule, Option<Rule>)>)
        ensures
            r matches Some((f, b)) ==> {
                &&& f.wf()
                &&& b is None ==> forward_line(f@, s@)
                &&& b matches Some(bb) ==> both_line(f@, s@) && bb@ == reversed(f@) && bb.wf()
            },
            forall|v: RuleView| #[trigger]
                forward_line(v, s@) ==> (r matches Some((f, b)) && b is None && f@ == v),
            forall|v: RuleView| #[trigger]
                both_line(v, s@) ==> (r matches Some((f, b)) && f@ == v && (b matches Some(bb)
                    && bb@ == reversed(v))),
    {
        proof {
            reveal_strlit(" => ");
            reveal_strlit(" <=> ");
        }
        let c = chars_of(s);
        let n = c.len();
        proof {
            assert forall|v: RuleView| #[trigger] forward_line(v, s@) implies fits(c@, 0, v.1) && fits(
                c@,
                render(v.1).len() + 4int,
                v.2,
            ) by {
                let a = render(v.1);
                assert(c@ == a + " => "@ + render(v.2));
                assert(c@.subrange(0, a.len() as int) =~= a);
                assert(c@[a.len() as int] == ' ');
                assert(c@.subrange(a.len() + 4int, c@.len() as int) =~= render(v.2));
            }
            assert forall|v: RuleView| #[trigger] both_line(v, s@) implies fits(c@, 0, v.1) && fits(
                c@,
                render(v.1).len() + 5int,
                v.2,
            ) by {
                let a = render(v.1);
                assert(c@ == a + " <=> "@ + render(v.2));
                assert(c@.subrange(0, a.len() as int) =~= a);
                assert(c@[a.len() as int] == ' ');
                assert(c@.subrange(a.len() + 5int, c@.len() as int) =~= render(v.2));
            }
        }
        let (l, e) = match parse_at(s, &c, 0) {
            Some(p) => p,
            None => {
                proof {
                    assert forall|v: RuleView| #[trigger] forward_line(v, s@) implies false by {
                        assert(fits(c@, 0, v.1));
                    }
                    assert forall|v: RuleView| #[trigger] both_line(v, s@) implies false by {
                        assert(fits(c@, 0, v.1));
                    }
                }
                return None;
            },
        };
        proof {
            assert forall|v: RuleView| #[trigger] forward_line(v, s@) implies l@ == v.1 && e
                == render(v.1).len() by {
                assert(fits(c@, 0, v.1));
            }
            assert forall|v: RuleView| #[trigger] both_line(v, s@) implies l@ == v.1 && e == render(
                v.1,
            ).len() by {
                assert(fits(c@, 0, v.1));
            }
        }
        let both = if starts_with_at(&c, e, " => ") {
            proof {
                assert forall|v: RuleView| #[trigger] both_line(v, s@) implies false by {
                    let a = render(v.1);
                    assert(c@ == a + " <=> "@ + render(v.2));
                    assert(c@[e + 1] == '<');
                    assert(c@.subrange(e as int, e + 4)[1] == c@[e + 1]);
                }
            }
            false
        } else if starts_with_at(&c, e, " <=> ") {
            proof {
                assert forall|v: RuleView| #[trigger] forward_line(v, s@) implies false by {
                    let a = render(v.1);
                    assert(c@ == a + " => "@ + render(v.2));
                    assert(c@.subrange(e as int, e + 4) =~= " => "@);
                }
            }
            true
        } else {
            proof {
                assert forall|v: RuleView| #[trigger] forward_line(v, s@) implies false by {
                    let a = render(v.1);
                    assert(c@ == a + " => "@ + render(v.2));
                    assert(c@.subrange(e as int, e + 4) =~= " => "@);
                }
                assert forall|v: RuleView| #[trigger] both_line(v, s@) implies false by {
                    let a = render(v.1);
                    assert(c@ == a + " <=> "@ + render(v.2));
                    assert(c@.subrange(e as int, e + 5) =~= " <=> "@);
                }
            }
            return None;
        };
        let start = if both {
            e + 5
        } else {
            e + 4
        };
        let (rt, e2) = match parse_at(s, &c, start) {
            Some(p) => p,
            None => {
                proof {
                    assert forall|v: RuleView| #[trigger] forward_line(v, s@) implies false by {
                        assert(fits(c@, render(v.1).len() + 4int, v.2));
                    }
                    assert forall|v: RuleView| #[trigger] both_line(v, s@) implies false by {
                        assert(fits(c@, render(v.1).len() + 5int, v.2));
                    }
                }
                return None;
            },
        };
        proof {
            assert forall|v: RuleView| #[trigger] forward_line(v, s@) implies rt@ == v.2 && e2 == n by {
                assert(fits(c@, render(v.1).len() + 4int, v.2));
            }
            assert forall|v: RuleView| #[trigger] both_line(v, s@) implies rt@ == v.2 && e2 == n by {
                assert(fits(c@, render(v.1).len() + 5int, v.2));
            }
        }
        if e2 != n {
            return None;
        }
        proof {
            let sep = if both {
                " <=> "@
            } else {
                " => "@
            };
            assert(c@ =~= c@.subrange(0, e as int) + c@.subrange(e as int, start as int)
                + c@.subrange(start as int, n as int));
            assert(c@.subrange(e as int, start as int) == sep);
        }
        let forward = match Rule::new(&l, &rt) {
            Some(f) => f,
            None => {
                return None;
            },
        };
        if both {
            match Rule::new(&rt, &l) {
                Some(b) => Some((forward, Some(b))),
                None => None,
            }
        } else {
            Some((forward, None))
        }
    }
}

/// A rule as the rule reader gives it: named after its sides, its right side
/// using only pattern variables of its left side, and both sides with a text
/// of their own.
pub open spec fn readable(v: RuleView) -> bool {
    &&& v.0 == rule_name(v.1, v.2)
    &&& pattern_vars(v.2).subset_of(pattern_vars(v.1))
    &&& well_formed(v.1)
    &&& well_formed(v.2)
}

/// What a line gives: its rule for `lhs => rhs`; the rule and its reverse
/// for `lhs <=> rhs`; nothing for any other line.
pub open spec fn line_rules(s: Seq<char>) -> Seq<RuleView> {
    if exists|v: RuleView| #[trigger] forward_line(v, s) {
        seq![choose|v: RuleView| #[trigger] forward_line(v, s)]
    } else if exists|v: RuleView| #[trigger] both_line(v, s) {
        let v = choose|v: RuleView| #[trigger] both_line(v, s);
        seq![v, reversed(v)]
    } else {
        Seq::empty()
    }
}

/// The rules that the lines give, added in turn.
pub open spec fn read_rules(lines: Seq<Seq<char>>) -> Seq<RuleView>
    decreases lines.len(),
{
    if lines.len() == 0 {
        Seq::empty()
    } else {
        added_all(read_rules(lines.drop_last()), line_rules(lines.last()))
    }
}

impl Ruleset {
    /// The rules read from the lines, in order: a line gives its rule, or its
    /// rule and the reverse; a line that does not read is skipped.
    pub fn new(vals: &Vec<String>) -> (r: Ruleset)
        ensures
            r@ == read_rules(strs_view(vals@)),
    {
        let mut rules = Ruleset::empty();
        let ghost lines = strs_view(vals@);
        let mut i: usize = 0;
        while i < vals.len()
            invariant
                i <= vals.len(),
                lines == strs_view(vals@),
                rules@ == read_rules(lines.subrange(0, i as int)),
            decreases vals.len() - i,
        {
            let ghost before = rules@;
            let ghost line = vals@[i as int]@;
            proof {
                let next = lines.subrange(0, i + 1);
                assert(next.drop_last() =~= lines.subrange(0, i as int));
                assert(next.last() == line);
            }
            match Rule::from_string(vals[i].as_str()) {
                Some((forward, backward)) => {
                    let ghost fv = forward@;
                    rules.add(forward);
                    match backward {
                        Some(b) => {
                            let ghost bv = b@;
                            rules.add(b);
                            proof {
                                if exists|v: RuleView| #[trigger] forward_line(v, line) {
                                    let v = choose|v: RuleView| #[trigger] forward_line(v, line);
                                    assert(forward_line(v, line));
                                }
                                let v = choose|v: RuleView| #[trigger] both_line(v, line);
                                assert(both_line(fv, line));
                                assert(both_line(v, line));
                                assert(line_rules(line) == seq![fv, bv]);
                                assert(seq![fv, bv].drop_last() =~= seq![fv]);
                                assert(seq![fv].drop_last() =~= Seq::<RuleView>::empty());
                                let prev = read_rules(lines.subrange(0, i as int));
                                assert(added_all(prev, Seq::<RuleView>::empty()) == prev);
                                assert(added_all(prev, seq![fv]) == added(prev, fv));
                                assert(added_all(prev, seq![fv, bv]) == added(added(prev, fv), bv));
                            }
                        },
                        None => {
                            proof {
                                assert(forward_line(fv, line));
                                let v = choose|v: RuleView| #[trigger] forward_line(v, line);
                                assert(forward_line(v, line));
                                assert(line_rules(line) == seq![fv]);
                                assert(seq![fv].drop_last() =~= Seq::<RuleView>::empty());
                                let prev = read_rules(lines.subrange(0, i as int));
                                assert(added_all(prev, Seq::<RuleView>::empty()) == prev);
                                assert(added_all(prev, seq![fv]) == added(prev, fv));
                            }
                        },
                    }
                },
                None => {
                    proof {
                        assert forall|v: RuleView| !#[trigger] forward_line(v, line) by {}
                        assert forall|v: RuleView| !#[trigger] both_line(v, line) by {}
                        assert(line_rules(line) =~= Seq::<RuleView>::empty());
                        let prev = read_rules(lines.subrange(0, i as int));
                        assert(added_all(prev, Seq::<RuleView>::empty()) == prev);
                    }
                },
            }
            i += 1;
        }
        assert(lines.subrange(0, vals.len() as int) =~= lines);
        rules
    }
}

/// Writing a ruleset's names and reading them back gives the same names, in
/// the same order, for rules whose sides each have a text of their own.
pub proof fn rule_lines_round_trip(vs: Seq<RuleView>)
    requires
        forall|i: int| 0 <= i < vs.len() ==> readable(#[trigger] vs[i]),
        crate::ruleset::names_of(vs).no_duplicates(),
    ensures
        crate::ruleset::names_of(read_rules(crate::ruleset::names_of(vs))) == crate::ruleset::names_of(vs),
    decreases vs.len(),
{
    let names = crate::ruleset::names_of(vs);
    if vs.len() > 0 {
        let d = vs.drop_last();
        let dn = crate::ruleset::names_of(d);
        assert(names.drop_last() =~= dn);
        assert forall|i: int, j: int| 0 <= i < dn.len() && 0 <= j < dn.len() && i != j implies dn[i]
            != dn[j] by {
            assert(dn[i] == names[i]);
            assert(dn[j] == names[j]);
        }
        rule_lines_round_trip(d);
        let last = vs.last();
        assert(names.last() == last.0);
        assert(readable(vs[vs.len() - 1]));
        assert(forward_line(last, last.0));
        let v = choose|v: RuleView| #[trigger] forward_line(v, last.0);
        assert(forward_line(v, last.0));
        assert(line_rules(last.0) == seq![v]);
        let prev = read_rules(dn);
        assert(seq![v].drop_last() =~= Seq::<RuleView>::empty());
        assert(added_all(prev, Seq::<RuleView>::empty()) == prev);
        assert(added_all(prev, seq![v]) == added(prev, v));
        assert(read_rules(names) == added(prev, v));
        crate::ruleset::lemma_name_position(prev, v.0);
        assert forall|j: int| 0 <= j < prev.len() implies (#[trigger] prev[j]).0 != v.0 by {
            assert(crate::ruleset::names_of(prev)[j] == prev[j].0);
            assert(dn[j] == names[j]);
            assert(names[vs.len() - 1] == v.0);
        }
        assert(added(prev, v) == prev.push(v));
        assert(crate::ruleset::names_of(prev.push(v)) =~= crate::ruleset::names_of(prev).push(v.0));
        assert(crate::ruleset::names_of(added(prev, v)) =~= names);
    } else {
        assert(names =~= Seq::<Seq<char>>::empty());
    }
}

/// The text `lhs <=> rhs` of a rule that holds both ways.
pub open spec fn both_text(v: RuleView) -> Seq<char> {
    render(v.1) + " <=> "@ + render(v.2)
}

/// The lines that show the rules: a rule whose reverse is among `names`
/// shows as `lhs <=> rhs`, once for the pair; any other rule shows as its
/// name.
pub open spec fn pretty(vs: Seq<RuleView>, names: Seq<Seq<char>>) -> Seq<Seq<char>>
    decreases vs.len(),
{
    if vs.len() == 0 {
        Seq::empty()
    } else {
        let prev = pretty(vs.drop_last(), names);
        let v = vs.last();
        if crate::ruleset::reverse_present(names, v) {
            if prev.contains(both_text(reversed(v))) {
                prev
            } else {
                prev.push(both_text(v))
            }
        } else {
            prev.push(v.0)
        }
    }
}

impl Ruleset {
    /// The lines that show the rules, as `pretty` gives them.
    pub fn pretty_lines(&self) -> (r: Vec<String>)
        ensures
            strs_view(r@) == pretty(self@, self.names()),
    {
        let n = self.len();
        let mut out: Vec<String> = Vec::new();
        let mut i: usize = 0;
        while i < n
            invariant
                n == self@.len(),
                i <= n,
                strs_view(out@) == pretty(self@.subrange(0, i as int), self.names()),
            decreases n - i,
        {
            let rule = self.rule_at(i);
            let ghost v = self@[i as int];
            proof {
                let next = self@.subrange(0, i + 1);
                assert(next.drop_last() =~= self@.subrange(0, i as int));
                assert(next.last() == v);
            }
            let present = match rule.reverse() {
                Some(rev) => self.contains(&rev),
                None => false,
            };
            if present {
                let mut back = rule.rhs.to_text();
                back.append(" <=> ");
                let lt = rule.lhs.to_text();
                back.append(lt.as_str());
                if !crate::rule::holds_text(&out, back.as_str()) {
                    let mut line = rule.lhs.to_text();
                    line.append(" <=> ");
                    let rt = rule.rhs.to_text();
                    line.append(rt.as_str());
                    let ghost before = out@;
                    out.push(line);
                    assert(strs_view(out@) =~= strs_view(before).push(line@));
                }
            } else {
                let ghost before = out@;
                let name = rule.name.clone();
                out.push(name);
                assert(strs_view(out@) =~= strs_view(before).push(name@));
            }
            i += 1;
        }
        assert(self@.subrange(0, n as int) =~= self@);
        out
    }
}

} // verus!
