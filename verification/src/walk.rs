//! What the compilers read of a term: its size, the bindings of a cycle, the
//! references they follow, the labels they allocate, and the shape they need.

use vstd::prelude::*;
use crate::types::{ABT, Term, MatchCase};
use crate::model::{AbtV, TermV, CaseV, RefV, SymbolV, abt_v, term_v, abts_v, cases_v, case_v, boxed_abts_v,
    lemma_abts_v, lemma_cases_v, lemma_boxed_abts_v};
use crate::ir::unroll_cycle;

verus! {

pub open spec fn abt_size(a: AbtV<TermV>) -> nat
    decreases a,
{
    match a {
        AbtV::Var(_) => 1,
        AbtV::Tm(t) => 1 + term_size(t),
        AbtV::Cycle(i) => 1 + abt_size(*i),
        AbtV::Abs(_, b) => 1 + abt_size(*b),
    }
}

pub open spec fn term_size(t: TermV) -> nat
    decreases t,
{
    match t {
        TermV::Handle(a, b) => 1 + abt_size(*a) + abt_size(*b),
        TermV::App(a, b) => 3 + abt_size(*a) + abt_size(*b),
        TermV::Ann(a, _) => 1 + abt_size(*a),
        TermV::Sequence(ts) => 1 + abts_size(ts),
        TermV::If(a, b, c) => 4 + abt_size(*a) + abt_size(*b) + abt_size(*c),
        TermV::And(a, b) => 3 + abt_size(*a) + abt_size(*b),
        TermV::Or(a, b) => 3 + abt_size(*a) + abt_size(*b),
        TermV::Lam(a) => 2 + abt_size(*a),
        TermV::LetRec(_, ts, b) => 1 + abts_size(ts) + abt_size(*b),
        TermV::Let(_, a, b) => 1 + abt_size(*a) + abt_size(*b),
        TermV::Match(a, cs) => 1 + abt_size(*a) + cases_size(cs),
        _ => 1,
    }
}

pub open spec fn abts_size(s: Seq<AbtV<TermV>>) -> nat
    decreases s,
{
    if s.len() == 0 {
        0
    } else {
        1 + abt_size(s[0]) + abts_size(s.subrange(1, s.len() as int))
    }
}

pub open spec fn cases_size(s: Seq<CaseV>) -> nat
    decreases s,
{
    if s.len() == 0 {
        0
    } else {
        1 + match s[0].guard {
            Some(g) => abt_size(g),
            None => 0,
        } + abt_size(s[0].body) + cases_size(s.subrange(1, s.len() as int))
    }
}

/// The bindings of a cycle: the names bound by its chain of abstractions
/// (outermost first), the bound values and the body of the `LetRec` at its
/// end; `None` where the chain does not end in a `LetRec`.
pub open spec fn unroll(a: AbtV<TermV>) -> Option<(Seq<Seq<char>>, Seq<AbtV<TermV>>, AbtV<TermV>)>
    decreases a,
{
    match a {
        AbtV::Abs(sym, inner) => match *inner {
            AbtV::Tm(TermV::LetRec(_, values, body)) => Some((seq![sym.text], values, *body)),
            _ => match unroll(*inner) {
                Some((names, values, body)) => Some((seq![sym.text] + names, values, body)),
                None => None,
            },
        },
        _ => None,
    }
}

pub proof fn lemma_abts_size_take(s: Seq<AbtV<TermV>>, k: int)
    requires
        0 <= k <= s.len(),
    ensures
        abts_size(s.take(k)) <= abts_size(s),
    decreases s.len(),
{
    if k > 0 {
        let rest = s.subrange(1, s.len() as int);
        lemma_abts_size_take(rest, k - 1);
        assert(s.take(k)[0] == s[0]);
        assert(s.take(k).subrange(1, k) =~= rest.take(k - 1));
    }
}

pub proof fn lemma_abts_size_elem(s: Seq<AbtV<TermV>>, i: int)
    requires
        0 <= i < s.len(),
    ensures
        abt_size(s[i]) <= abts_size(s),
    decreases s.len(),
{
    if i > 0 {
        let rest = s.subrange(1, s.len() as int);
        lemma_abts_size_elem(rest, i - 1);
        assert(rest[i - 1] == s[i]);
    }
}

/// The parts of a cycle are smaller than the cycle.
pub proof fn lemma_unroll_size(a: AbtV<TermV>)
    ensures
        unroll(a) matches Some((names, values, body)) ==> {
            &&& abts_size(values) < abt_size(a)
            &&& abt_size(body) < abt_size(a)
            &&& names.len() >= 1
        },
    decreases a,
{
    match a {
        AbtV::Abs(sym, inner) => {
            assert(abt_size(a) == 1 + abt_size(*inner));
            match *inner {
            AbtV::Tm(t) => {
                assert(abt_size(*inner) == 1 + term_size(t));
                if let TermV::LetRec(_, values, body) = t {
                    assert(term_size(t) == 1 + abts_size(values) + abt_size(*body));
                } else {
                    assert(unroll(*inner) is None);
                }
            },
            _ => {
                lemma_unroll_size(*inner);
            },
            }
        },
        _ => {},
    }
}

/// The labels that compiling a term allocates in the body being built (a
/// lambda's body is built apart, with labels of its own).
pub open spec fn marks(a: AbtV<TermV>) -> nat
    decreases abt_size(a),
{
    match a {
        AbtV::Var(_) => 0,
        AbtV::Tm(t) => term_marks(t),
        AbtV::Cycle(inner) => match unroll(*inner) {
            Some((names, values, body)) => {
                proof {
                    lemma_unroll_size(*inner);
                    if names.len() <= values.len() {
                        lemma_abts_size_take(values, names.len() as int);
                    }
                }
                if names.len() <= values.len() {
                    abts_marks(values.take(names.len() as int)) + marks(body)
                } else {
                    0
                }
            },
            None => 0,
        },
        AbtV::Abs(_, b) => marks(*b),
    }
}

pub open spec fn term_marks(t: TermV) -> nat
    decreases term_size(t),
{
    match t {
        TermV::App(a, b) => marks(*a) + marks(*b),
        TermV::Ann(a, _) => marks(*a),
        TermV::Sequence(ts) => abts_marks(ts),
        TermV::If(a, b, c) => 2 + marks(*a) + marks(*b) + marks(*c),
        TermV::And(a, b) => 2 + marks(*a) + marks(*b),
        TermV::Or(a, b) => 4 + marks(*a) + marks(*b),
        TermV::Let(_, a, b) => marks(*a) + marks(*b),
        TermV::Match(a, cs) => 2 + marks(*a) + cases_marks(cs),
        _ => 0,
    }
}

pub open spec fn abts_marks(s: Seq<AbtV<TermV>>) -> nat
    decreases abts_size(s),
{
    if s.len() == 0 {
        0
    } else {
        marks(s[0]) + abts_marks(s.subrange(1, s.len() as int))
    }
}

pub open spec fn cases_marks(s: Seq<CaseV>) -> nat
    decreases cases_size(s),
{
    if s.len() == 0 {
        0
    } else {
        1 + match s[0].guard {
            Some(g) => marks(g),
            None => 0,
        } + marks(s[0].body) + cases_marks(s.subrange(1, s.len() as int))
    }
}

/// Every cycle that compiling a term meets is a chain of abstractions that
/// ends in a `LetRec` with at least one value per name, and the labels of
/// every lambda body fit in a `usize`.
pub open spec fn wf(a: AbtV<TermV>) -> bool
    decreases abt_size(a),
{
    match a {
        AbtV::Var(_) => true,
        AbtV::Tm(t) => term_wf(t),
        AbtV::Cycle(inner) => match unroll(*inner) {
            Some((names, values, body)) => {
                proof {
                    lemma_unroll_size(*inner);
                    if names.len() <= values.len() {
                        lemma_abts_size_take(values, names.len() as int);
                    }
                }
                names.len() <= values.len() && abts_wf(values.take(names.len() as int)) && wf(
                    body,
                )
            },
            None => false,
        },
        AbtV::Abs(_, b) => wf(*b),
    }
}

pub open spec fn term_wf(t: TermV) -> bool
    decreases term_size(t),
{
    match t {
        TermV::App(a, b) => wf(*a) && wf(*b),
        TermV::Ann(a, _) => wf(*a),
        TermV::Sequence(ts) => abts_wf(ts),
        TermV::If(a, b, c) => wf(*a) && wf(*b) && wf(*c),
        TermV::And(a, b) => wf(*a) && wf(*b),
        TermV::Or(a, b) => wf(*a) && wf(*b),
        TermV::Let(_, a, b) => wf(*a) && wf(*b),
        TermV::Match(a, cs) => wf(*a) && cases_wf(cs),
        TermV::Lam(a) => wf(*a) && marks(*a) <= usize::MAX,
        _ => true,
    }
}

pub open spec fn abts_wf(s: Seq<AbtV<TermV>>) -> bool
    decreases abts_size(s),
{
    if s.len() == 0 {
        true
    } else {
        wf(s[0]) && abts_wf(s.subrange(1, s.len() as int))
    }
}

pub open spec fn cases_wf(s: Seq<CaseV>) -> bool
    decreases cases_size(s),
{
    if s.len() == 0 {
        true
    } else {
        (match s[0].guard {
            Some(g) => wf(g),
            None => true,
        }) && wf(s[0].body) && cases_wf(s.subrange(1, s.len() as int))
    }
}

/// The hashes of the stored terms that a translation reads: `deep` follows
/// what compiling to IR follows; otherwise only what the translation to
/// Scheme follows (applications, conditionals and cycles).
pub open spec fn refs(a: AbtV<TermV>, deep: bool) -> Set<Seq<char>>
    decreases abt_size(a),
{
    match a {
        AbtV::Var(_) => Set::empty(),
        AbtV::Tm(t) => term_refs(t, deep),
        AbtV::Cycle(inner) => match unroll(*inner) {
            Some((names, values, body)) => {
                proof {
                    lemma_unroll_size(*inner);
                    if names.len() <= values.len() {
                        lemma_abts_size_take(values, names.len() as int);
                    }
                }
                if names.len() <= values.len() {
                    abts_refs(values.take(names.len() as int), deep) + refs(body, deep)
                } else {
                    Set::empty()
                }
            },
            None => Set::empty(),
        },
        AbtV::Abs(_, b) => refs(*b, deep),
    }
}

pub open spec fn term_refs(t: TermV, deep: bool) -> Set<Seq<char>>
    decreases term_size(t),
{
    match t {
        TermV::Ref(RefV::Derived(h, _, _)) => set![h],
        TermV::App(a, b) => refs(*a, deep) + refs(*b, deep),
        TermV::If(a, b, c) => refs(*a, deep) + refs(*b, deep) + refs(*c, deep),
        TermV::And(a, b) => refs(*a, deep) + refs(*b, deep),
        TermV::Or(a, b) => refs(*a, deep) + refs(*b, deep),
        TermV::Ann(a, _) => if deep {
            refs(*a, deep)
        } else {
            Set::empty()
        },
        TermV::Sequence(ts) => if deep {
            abts_refs(ts, deep)
        } else {
            Set::empty()
        },
        TermV::Let(_, a, b) => if deep {
            refs(*a, deep) + refs(*b, deep)
        } else {
            Set::empty()
        },
        TermV::Match(a, cs) => if deep {
            refs(*a, deep) + cases_refs(cs, deep)
        } else {
            Set::empty()
        },
        TermV::Lam(a) => if deep {
            refs(*a, deep)
        } else {
            Set::empty()
        },
        _ => Set::empty(),
    }
}

pub open spec fn abts_refs(s: Seq<AbtV<TermV>>, deep: bool) -> Set<Seq<char>>
    decreases abts_size(s),
{
    if s.len() == 0 {
        Set::empty()
    } else {
        refs(s[0], deep) + abts_refs(s.subrange(1, s.len() as int), deep)
    }
}

pub open spec fn cases_refs(s: Seq<CaseV>, deep: bool) -> Set<Seq<char>>
    decreases cases_size(s),
{
    if s.len() == 0 {
        Set::empty()
    } else {
        (match s[0].guard {
            Some(g) => refs(g, deep),
            None => Set::empty(),
        }) + refs(s[0].body, deep) + cases_refs(s.subrange(1, s.len() as int), deep)
    }
}

/// One element of a sequence of trees, and the rest after it.
pub proof fn lemma_abts_step(ts: Seq<AbtV<TermV>>, i: int, deep: bool)
    requires
        0 <= i < ts.len(),
    ensures
        ({
            let rest = ts.subrange(i, ts.len() as int);
            let next = ts.subrange(i + 1, ts.len() as int);
            &&& rest.len() > 0
            &&& rest[0] == ts[i]
            &&& rest.subrange(1, rest.len() as int) == next
            &&& abts_refs(rest, deep) == refs(ts[i], deep) + abts_refs(next, deep)
            &&& abts_marks(rest) == marks(ts[i]) + abts_marks(next)
            &&& abts_wf(rest) == (wf(ts[i]) && abts_wf(next))
            &&& abts_size(rest) == 1 + abt_size(ts[i]) + abts_size(next)
        }),
{
    let rest = ts.subrange(i, ts.len() as int);
    assert(rest.subrange(1, rest.len() as int) =~= ts.subrange(i + 1, ts.len() as int));
}

/// One arm of a match, and the arms after it.
pub proof fn lemma_cases_step(cs: Seq<CaseV>, i: int, deep: bool)
    requires
        0 <= i < cs.len(),
    ensures
        ({
            let rest = cs.subrange(i, cs.len() as int);
            let next = cs.subrange(i + 1, cs.len() as int);
            let c = cs[i];
            &&& rest.len() > 0
            &&& rest[0] == c
            &&& rest.subrange(1, rest.len() as int) == next
            &&& cases_refs(rest, deep) == (match c.guard {
                Some(g) => refs(g, deep),
                None => Set::empty(),
            }) + refs(c.body, deep) + cases_refs(next, deep)
            &&& cases_marks(rest) == 1 + (match c.guard {
                Some(g) => marks(g),
                None => 0,
            }) + marks(c.body) + cases_marks(next)
            &&& cases_wf(rest) == ((match c.guard {
                Some(g) => wf(g),
                None => true,
            }) && wf(c.body) && cases_wf(next))
            &&& cases_size(rest) == 1 + (match c.guard {
                Some(g) => abt_size(g),
                None => 0,
            }) + abt_size(c.body) + cases_size(next)
        }),
{
    let rest = cs.subrange(i, cs.len() as int);
    assert(rest.subrange(1, rest.len() as int) =~= cs.subrange(i + 1, cs.len() as int));
}

pub proof fn lemma_cases_size_elem(cs: Seq<CaseV>, i: int)
    requires
        0 <= i < cs.len(),
    ensures
        abt_size(cs[i].body) < cases_size(cs),
        cs[i].guard matches Some(g) ==> abt_size(g) < cases_size(cs),
    decreases cs.len(),
{
    if i > 0 {
        let rest = cs.subrange(1, cs.len() as int);
        lemma_cases_size_elem(rest, i - 1);
        assert(rest[i - 1] == cs[i]);
    }
}

/// Anything that lay within what was allowed still does when more is allowed.
pub proof fn lemma_refs_grow(r: Set<Seq<char>>, vs: Set<Seq<char>>, t0: Set<Seq<char>>, t1: Set<Seq<char>>)
    requires
        r.subset_of(vs + t0),
        t0.subset_of(t1),
    ensures
        r.subset_of(vs + t1),
{
}

/// Whether a tree is a chain of abstractions that ends in a `LetRec`.
pub fn cycle_shape(a: &ABT<Term>) -> (r: bool)
    ensures
        r == (unroll(abt_v(*a)) is Some),
    decreases a,
{
    match a {
        ABT::Abs(sym, inner) => {
            assert(abt_v(*a) == AbtV::Abs(crate::model::sym_v(*sym), Box::new(abt_v(**inner))));
            if let ABT::Tm(Term::LetRec(_, _, _)) = &**inner {
                proof {
                    reveal_with_fuel(abt_v, 2);
                }
                true
            } else {
                proof {
                    reveal_with_fuel(abt_v, 2);
                }
                cycle_shape(inner)
            }
        },
        _ => false,
    }
}

/// `x + y`, where both are known and the sum fits.
fn add_known(x: Option<usize>, y: Option<usize>) -> (r: Option<usize>)
    ensures
        r == (if x is Some && y is Some && x.unwrap() + y.unwrap() <= usize::MAX {
            Some((x.unwrap() + y.unwrap()) as usize)
        } else {
            None::<usize>
        }),
{
    match (x, y) {
        (Some(a), Some(b)) => a.checked_add(b),
        _ => None,
    }
}

/// The labels that compiling the tree allocates, where the tree is well formed
/// and their number fits in a `usize`; `None` otherwise.
pub fn label_count(a: &ABT<Term>) -> (r: Option<usize>)
    ensures
        r == (if wf(abt_v(*a)) && marks(abt_v(*a)) <= usize::MAX {
            Some(marks(abt_v(*a)) as usize)
        } else {
            None::<usize>
        }),
    decreases abt_size(abt_v(*a)),
{
    let ghost av = abt_v(*a);
    match a {
        ABT::Var(_) => Some(0),
        ABT::Tm(t) => term_label_count(t),
        ABT::Cycle(inner) => {
            if !cycle_shape(inner) {
                return None;
            }
            let ghost (ns, vals, b) = unroll(abt_v(**inner)).unwrap();
            let ghost k = ns.len() as int;
            proof {
                lemma_unroll_size(abt_v(**inner));
                assert(av == AbtV::Cycle(Box::new(abt_v(**inner))));
            }
            let mut names: Vec<String> = Vec::new();
            let (values, body) = unroll_cycle(inner, &mut names);
            assert(crate::env::strs_v(names@).len() == names@.len());
            proof {
                lemma_boxed_abts_v(values@);
            }
            if names.len() > values.len() {
                return None;
            }
            let ghost bound = vals.take(k);
            proof {
                lemma_abts_size_take(vals, k);
                assert forall|j: int| 0 <= j < k implies abt_size(#[trigger] vals[j]) < abt_size(av) by {
                    lemma_abts_size_elem(vals, j);
                }
                assert(bound.subrange(0, k) =~= bound);
                assert(wf(av) == (abts_wf(bound) && wf(b)));
                assert(marks(av) == abts_marks(bound) + marks(b));
            }
            let n = names.len();
            let mut total: usize = 0;
            let mut i: usize = 0;
            while i < n
                invariant
                    n == k,
                    k <= vals.len(),
                    bound.len() == k,
                    bound == vals.take(k),
                    vals == boxed_abts_v(values@),
                    vals.len() == values.len(),
                    forall|j: int| 0 <= j < vals.len() ==> #[trigger] vals[j] == abt_v(*values@[j]),
                    forall|j: int| 0 <= j < k ==> abt_size(#[trigger] vals[j]) < abt_size(av),
                    av == abt_v(*a),
                    i <= n,
                    abts_wf(bound) == abts_wf(bound.subrange(i as int, k)),
                    wf(av) == (abts_wf(bound) && wf(b)),
                    marks(av) == abts_marks(bound) + marks(b),
                    total + abts_marks(bound.subrange(i as int, k)) == abts_marks(bound),
                decreases n - i,
            {
                proof {
                    lemma_abts_step(bound, i as int, true);
                    assert(bound[i as int] == vals[i as int]);
                }
                match add_known(Some(total), label_count(&values[i])) {
                    Some(t) => total = t,
                    None => {
                        return None;
                    },
                }
                i = i + 1;
            }
            assert(bound.subrange(k, k) =~= Seq::<AbtV<TermV>>::empty());
            add_known(Some(total), label_count(&body))
        },
        ABT::Abs(_, body) => label_count(body),
    }
}

fn term_label_count(t: &Term) -> (r: Option<usize>)
    ensures
        r == (if term_wf(term_v(*t)) && term_marks(term_v(*t)) <= usize::MAX {
            Some(term_marks(term_v(*t)) as usize)
        } else {
            None::<usize>
        }),
    decreases term_size(term_v(*t)),
{
    let ghost tv = term_v(*t);
    match t {
        Term::App(a, b) => add_known(label_count(a), label_count(b)),
        Term::Ann(a, _) => label_count(a),
        Term::If(a, b, c) => add_known(
            add_known(Some(2), label_count(a)),
            add_known(label_count(b), label_count(c)),
        ),
        Term::And(a, b) => add_known(Some(2), add_known(label_count(a), label_count(b))),
        Term::Or(a, b) => add_known(Some(4), add_known(label_count(a), label_count(b))),
        Term::Let(_, a, b) => add_known(label_count(a), label_count(b)),
        Term::Lam(a) => match label_count(a) {
            Some(_) => Some(0),
            None => None,
        },
        Term::Sequence(terms) => {
            let ghost ts = abts_v(terms@);
            proof {
                lemma_abts_v(terms@);
                assert(ts.subrange(0, ts.len() as int) =~= ts);
            }
            let ln = terms.len();
            let mut total: usize = 0;
            let mut i: usize = 0;
            while i < ln
                invariant
                    ln == terms.len(),
                    ts == abts_v(terms@),
                    ts.len() == ln,
                    forall|j: int| 0 <= j < ln ==> #[trigger] ts[j] == abt_v(terms@[j]),
                    tv == term_v(*t),
                    tv == TermV::Sequence(ts),
                    i <= ln,
                    abts_wf(ts) == abts_wf(ts.subrange(i as int, ln as int)),
                    total + abts_marks(ts.subrange(i as int, ln as int)) == abts_marks(ts),
                decreases ln - i,
            {
                proof {
                    lemma_abts_step(ts, i as int, true);
                    lemma_abts_size_elem(ts, i as int);
                }
                match add_known(Some(total), label_count(&terms[i])) {
                    Some(x) => total = x,
                    None => {
                        return None;
                    },
                }
                i = i + 1;
            }
            assert(ts.subrange(ln as int, ln as int) =~= Seq::<AbtV<TermV>>::empty());
            Some(total)
        },
        Term::Match(item, arms) => {
            let ghost cs = cases_v(arms@);
            proof {
                lemma_cases_v(arms@);
                assert(cs.subrange(0, cs.len() as int) =~= cs);
            }
            let first = add_known(Some(2), label_count(item));
            let mut total: usize = match first {
                Some(x) => x,
                None => {
                    return None;
                },
            };
            let n = arms.len();
            let mut k: usize = 0;
            while k < n
                invariant
                    n == arms.len(),
                    cs == cases_v(arms@),
                    cs.len() == n,
                    forall|j: int| 0 <= j < n ==> #[trigger] cs[j] == case_v(arms@[j]),
                    tv == term_v(*t),
                    tv == TermV::Match(Box::new(abt_v(**item)), cs),
                    wf(abt_v(**item)),
                    k <= n,
                    cases_wf(cs) == cases_wf(cs.subrange(k as int, n as int)),
                    total + cases_marks(cs.subrange(k as int, n as int)) == 2 + marks(abt_v(**item))
                        + cases_marks(cs),
                decreases n - k,
            {
                proof {
                    lemma_cases_step(cs, k as int, true);
                    lemma_cases_size_elem(cs, k as int);
                }
                let MatchCase(_, cond, body) = &arms[k];
                let g = match cond {
                    Some(cond) => label_count(cond),
                    None => Some(0),
                };
                match add_known(add_known(Some(total), Some(1)), add_known(g, label_count(body))) {
                    Some(x) => total = x,
                    None => {
                        return None;
                    },
                }
                k = k + 1;
            }
            assert(cs.subrange(n as int, n as int) =~= Seq::<CaseV>::empty());
            Some(total)
        },
        _ => Some(0),
    }
}

/// Every cycle that the translation to Scheme meets (through applications,
/// conditionals, cycles and abstractions) is well formed.
pub open spec fn cwf(a: AbtV<TermV>) -> bool
    decreases abt_size(a),
{
    match a {
        AbtV::Var(_) => true,
        AbtV::Tm(t) => term_cwf(t),
        AbtV::Cycle(inner) => match unroll(*inner) {
            Some((names, values, body)) => {
                proof {
                    lemma_unroll_size(*inner);
                    if names.len() <= values.len() {
                        lemma_abts_size_take(values, names.len() as int);
                    }
                }
                names.len() <= values.len() && abts_cwf(values.take(names.len() as int)) && cwf(
                    body,
                )
            },
            None => false,
        },
        AbtV::Abs(_, b) => cwf(*b),
    }
}

pub open spec fn term_cwf(t: TermV) -> bool
    decreases term_size(t),
{
    match t {
        TermV::App(a, b) => cwf(*a) && cwf(*b),
        TermV::If(a, b, c) => cwf(*a) && cwf(*b) && cwf(*c),
        TermV::And(a, b) => cwf(*a) && cwf(*b),
        TermV::Or(a, b) => cwf(*a) && cwf(*b),
        _ => true,
    }
}

pub open spec fn abts_cwf(s: Seq<AbtV<TermV>>) -> bool
    decreases abts_size(s),
{
    if s.len() == 0 {
        true
    } else {
        cwf(s[0]) && abts_cwf(s.subrange(1, s.len() as int))
    }
}

/// Whether every cycle that the translation to Scheme meets is well formed.
pub fn cycles_ok(a: &ABT<Term>) -> (r: bool)
    ensures
        r == cwf(abt_v(*a)),
    decreases abt_size(abt_v(*a)),
{
    let ghost av = abt_v(*a);
    match a {
        ABT::Var(_) => true,
        ABT::Tm(t) => term_cycles_ok(t),
        ABT::Cycle(inner) => {
            if !cycle_shape(inner) {
                return false;
            }
            let ghost (ns, vals, b) = unroll(abt_v(**inner)).unwrap();
            let ghost k = ns.len() as int;
            proof {
                lemma_unroll_size(abt_v(**inner));
                assert(av == AbtV::Cycle(Box::new(abt_v(**inner))));
            }
            let mut names: Vec<String> = Vec::new();
            let (values, body) = unroll_cycle(inner, &mut names);
            assert(crate::env::strs_v(names@).len() == names@.len());
            proof {
                lemma_boxed_abts_v(values@);
            }
            if names.len() > values.len() {
                return false;
            }
            let ghost bound = vals.take(k);
            proof {
                lemma_abts_size_take(vals, k);
                assert forall|j: int| 0 <= j < k implies abt_size(#[trigger] vals[j]) < abt_size(av) by {
                    lemma_abts_size_elem(vals, j);
                }
                assert(bound.subrange(0, k) =~= bound);
                assert(cwf(av) == (abts_cwf(bound) && cwf(b)));
            }
            let n = names.len();
            let mut i: usize = 0;
            while i < n
                invariant
                    n == k,
                    k <= vals.len(),
                    bound.len() == k,
                    bound == vals.take(k),
                    vals == boxed_abts_v(values@),
                    vals.len() == values.len(),
                    forall|j: int| 0 <= j < vals.len() ==> #[trigger] vals[j] == abt_v(*values@[j]),
                    forall|j: int| 0 <= j < k ==> abt_size(#[trigger] vals[j]) < abt_size(av),
                    av == abt_v(*a),
                    i <= n,
                    abts_cwf(bound) == abts_cwf(bound.subrange(i as int, k)),
                    cwf(av) == (abts_cwf(bound) && cwf(b)),
                decreases n - i,
            {
                proof {
                    lemma_abts_cwf_step(bound, i as int);
                    assert(bound[i as int] == vals[i as int]);
                }
                if !cycles_ok(&values[i]) {
                    return false;
                }
                i = i + 1;
            }
            assert(bound.subrange(k, k) =~= Seq::<AbtV<TermV>>::empty());
            cycles_ok(&body)
        },
        ABT::Abs(_, body) => cycles_ok(body),
    }
}

fn term_cycles_ok(t: &Term) -> (r: bool)
    ensures
        r == term_cwf(term_v(*t)),
    decreases term_size(term_v(*t)),
{
    match t {
        Term::App(a, b) => cycles_ok(a) && cycles_ok(b),
        Term::If(a, b, c) => cycles_ok(a) && cycles_ok(b) && cycles_ok(c),
        Term::And(a, b) => cycles_ok(a) && cycles_ok(b),
        Term::Or(a, b) => cycles_ok(a) && cycles_ok(b),
        _ => true,
    }
}

/// The shape that a translation needs: `deep` for the compiler to IR.
pub open spec fn shaped(a: AbtV<TermV>, deep: bool) -> bool {
    if deep {
        wf(a)
    } else {
        cwf(a)
    }
}

/// What a stored term needs to be translated: its shape, and for the
/// compiler to IR labels that fit in a `usize`.
pub open spec fn good(a: AbtV<TermV>, deep: bool) -> bool {
    &&& shaped(a, deep)
    &&& deep ==> marks(a) <= usize::MAX
}

pub proof fn lemma_abts_cwf_step(ts: Seq<AbtV<TermV>>, i: int)
    requires
        0 <= i < ts.len(),
    ensures
        abts_cwf(ts.subrange(i, ts.len() as int)) == (cwf(ts[i]) && abts_cwf(
            ts.subrange(i + 1, ts.len() as int),
        )),
{
    let rest = ts.subrange(i, ts.len() as int);
    assert(rest.subrange(1, rest.len() as int) =~= ts.subrange(i + 1, ts.len() as int));
}

/// The symbols that a cycle binds, outermost first.
pub open spec fn cycle_syms(a: AbtV<TermV>) -> Seq<SymbolV>
    decreases a,
{
    match a {
        AbtV::Abs(sym, inner) => match *inner {
            AbtV::Tm(TermV::LetRec(_, _, _)) => seq![sym],
            _ => seq![sym] + cycle_syms(*inner),
        },
        _ => Seq::empty(),
    }
}

pub proof fn lemma_cycle_syms(a: AbtV<TermV>)
    ensures
        unroll(a) is Some ==> cycle_syms(a).len() == unroll(a).unwrap().0.len(),
    decreases a,
{
    match a {
        AbtV::Abs(sym, inner) => {
            lemma_cycle_syms(*inner);
        },
        _ => {},
    }
}

pub proof fn lemma_abts_size_lit2(a: AbtV<TermV>, b: AbtV<TermV>)
    ensures
        abts_size(seq![a, b]) == 2 + abt_size(a) + abt_size(b),
{
    let s = seq![a, b];
    let t = seq![b];
    let e = Seq::<AbtV<TermV>>::empty();
    assert(s.subrange(1, 2) =~= t);
    assert(t.subrange(1, 1) =~= e);
    assert(abts_size(e) == 0);
    assert(abts_size(t) == 1 + abt_size(t[0]) + abts_size(e));
    assert(abts_size(s) == 1 + abt_size(s[0]) + abts_size(t));
}

pub proof fn lemma_abts_size_lit3(a: AbtV<TermV>, b: AbtV<TermV>, c: AbtV<TermV>)
    ensures
        abts_size(seq![a, b, c]) == 3 + abt_size(a) + abt_size(b) + abt_size(c),
{
    let s = seq![a, b, c];
    assert(s.subrange(1, 3) =~= seq![b, c]);
    lemma_abts_size_lit2(b, c);
}

} // verus!
