//! Deep copies of the term language, each proved to keep the view.

use vstd::prelude::*;
use crate::types::{Symbol, Id, Reference, Pattern, ABT, Type, MatchCase, Term, DataDecl, TypeDecl};
use crate::model::{
    sym_v, ref_v, pattern_v, patterns_v, type_abt_v, type_v, type_abts_v, abt_v, term_v, abts_v,
    boxed_abts_v, case_v, cases_v, syms_v, ctors_v, datadecl_v, typedecl_v, lemma_patterns_v,
    lemma_type_abts_v, lemma_abts_v, lemma_boxed_abts_v, lemma_cases_v,
};

verus! {

broadcast use vstd::std_specs::vec::group_vec_axioms;

pub fn copy_symbol(s: &Symbol) -> (r: Symbol)
    ensures
        sym_v(r) == sym_v(*s),
{
    Symbol { text: s.text.clone(), unique: s.unique }
}

pub fn copy_reference(r: &Reference) -> (out: Reference)
    ensures
        ref_v(out) == ref_v(*r),
{
    match r {
        Reference::Builtin(name) => Reference::Builtin(name.clone()),
        Reference::DerivedId(Id(h, i, n)) => Reference::DerivedId(
            Id(crate::types::Hash(h.0.clone()), *i, *n),
        ),
    }
}

pub fn copy_pattern(p: &Pattern) -> (r: Pattern)
    ensures
        pattern_v(r) == pattern_v(*p),
    decreases p,
{
    match p {
        Pattern::Unbound => Pattern::Unbound,
        Pattern::Var => Pattern::Var,
        Pattern::Boolean(b) => Pattern::Boolean(*b),
        Pattern::Int(n) => Pattern::Int(*n),
        Pattern::Nat(n) => Pattern::Nat(*n),
        Pattern::Text(t) => Pattern::Text(t.clone()),
        Pattern::Char(c) => Pattern::Char(*c),
        Pattern::Constructor(r, n, ps) => Pattern::Constructor(
            copy_reference(r),
            *n,
            copy_patterns(ps),
        ),
        Pattern::As(q) => Pattern::As(Box::new(copy_pattern(q))),
        Pattern::EffectPure(q) => Pattern::EffectPure(Box::new(copy_pattern(q))),
        Pattern::EffectBind(r, n, ps, k) => Pattern::EffectBind(
            copy_reference(r),
            *n,
            copy_patterns(ps),
            Box::new(copy_pattern(k)),
        ),
        Pattern::SequenceLiteral(ps) => Pattern::SequenceLiteral(copy_patterns(ps)),
    }
}

pub fn copy_patterns(v: &Vec<Pattern>) -> (r: Vec<Pattern>)
    ensures
        patterns_v(r@) == patterns_v(v@),
    decreases v,
{
    let mut out: Vec<Pattern> = Vec::new();
    let mut i: usize = 0;
    while i < v.len()
        invariant
            i <= v.len(),
            out.len() == i,
            forall|j: int| 0 <= j < i ==> pattern_v(#[trigger] out@[j]) == pattern_v(v@[j]),
        decreases v.len() - i,
    {
        proof {
            assert(decreases_to!(*v => v@[i as int]));
        }
        out.push(copy_pattern(&v[i]));
        i = i + 1;
    }
    proof {
        lemma_patterns_v(out@);
        lemma_patterns_v(v@);
        assert(patterns_v(out@) =~= patterns_v(v@));
    }
    out
}

pub fn copy_type_abt(a: &ABT<Type>) -> (r: ABT<Type>)
    ensures
        type_abt_v(r) == type_abt_v(*a),
    decreases a,
{
    match a {
        ABT::Var(s) => ABT::Var(copy_symbol(s)),
        ABT::Tm(t) => ABT::Tm(copy_type(t)),
        ABT::Cycle(i) => ABT::Cycle(Box::new(copy_type_abt(i))),
        ABT::Abs(s, b) => ABT::Abs(copy_symbol(s), Box::new(copy_type_abt(b))),
    }
}

pub fn copy_type(t: &Type) -> (r: Type)
    ensures
        type_v(r) == type_v(*t),
    decreases t,
{
    match t {
        Type::Ref(r) => Type::Ref(copy_reference(r)),
        Type::Arrow(a, b) => Type::Arrow(Box::new(copy_type_abt(a)), Box::new(copy_type_abt(b))),
        Type::App(a, b) => Type::App(Box::new(copy_type_abt(a)), Box::new(copy_type_abt(b))),
        Type::Effect(a, b) => Type::Effect(Box::new(copy_type_abt(a)), Box::new(copy_type_abt(b))),
        Type::Effects(v) => Type::Effects(copy_type_abts(v)),
        Type::Forall(a) => Type::Forall(Box::new(copy_type_abt(a))),
        Type::IntroOuter(a) => Type::IntroOuter(Box::new(copy_type_abt(a))),
    }
}

pub fn copy_type_abts(v: &Vec<ABT<Type>>) -> (r: Vec<ABT<Type>>)
    ensures
        type_abts_v(r@) == type_abts_v(v@),
    decreases v,
{
    let mut out: Vec<ABT<Type>> = Vec::new();
    let mut i: usize = 0;
    while i < v.len()
        invariant
            i <= v.len(),
            out.len() == i,
            forall|j: int| 0 <= j < i ==> type_abt_v(#[trigger] out@[j]) == type_abt_v(v@[j]),
        decreases v.len() - i,
    {
        proof {
            assert(decreases_to!(*v => v@[i as int]));
        }
        out.push(copy_type_abt(&v[i]));
        i = i + 1;
    }
    proof {
        lemma_type_abts_v(out@);
        lemma_type_abts_v(v@);
        assert(type_abts_v(out@) =~= type_abts_v(v@));
    }
    out
}

pub fn copy_abt(a: &ABT<Term>) -> (r: ABT<Term>)
    ensures
        abt_v(r) == abt_v(*a),
    decreases a,
{
    match a {
        ABT::Var(s) => ABT::Var(copy_symbol(s)),
        ABT::Tm(t) => ABT::Tm(copy_term(t)),
        ABT::Cycle(i) => ABT::Cycle(Box::new(copy_abt(i))),
        ABT::Abs(s, b) => ABT::Abs(copy_symbol(s), Box::new(copy_abt(b))),
    }
}

pub fn copy_term(t: &Term) -> (r: Term)
    ensures
        term_v(r) == term_v(*t),
    decreases t,
{
    match t {
        Term::Int(n) => Term::Int(*n),
        Term::Nat(n) => Term::Nat(*n),
        Term::Float(s) => Term::Float(s.clone()),
        Term::Boolean(b) => Term::Boolean(*b),
        Term::Text(s) => Term::Text(s.clone()),
        Term::Char(c) => Term::Char(*c),
        Term::Blank => Term::Blank,
        Term::Ref(r) => Term::Ref(copy_reference(r)),
        Term::Constructor(r, n) => Term::Constructor(copy_reference(r), *n),
        Term::Request(r, n) => Term::Request(copy_reference(r), *n),
        Term::Handle(a, b) => Term::Handle(Box::new(copy_abt(a)), Box::new(copy_abt(b))),
        Term::App(a, b) => Term::App(Box::new(copy_abt(a)), Box::new(copy_abt(b))),
        Term::Ann(a, ty) => Term::Ann(Box::new(copy_abt(a)), copy_type_abt(ty)),
        Term::Sequence(v) => Term::Sequence(copy_abts(v)),
        Term::If(a, b, c) => Term::If(
            Box::new(copy_abt(a)),
            Box::new(copy_abt(b)),
            Box::new(copy_abt(c)),
        ),
        Term::And(a, b) => Term::And(Box::new(copy_abt(a)), Box::new(copy_abt(b))),
        Term::Or(a, b) => Term::Or(Box::new(copy_abt(a)), Box::new(copy_abt(b))),
        Term::Lam(a) => Term::Lam(Box::new(copy_abt(a))),
        Term::LetRec(rec, v, b) => Term::LetRec(*rec, copy_boxed_abts(v), Box::new(copy_abt(b))),
        Term::Let(rec, a, b) => Term::Let(*rec, Box::new(copy_abt(a)), Box::new(copy_abt(b))),
        Term::Match(a, cs) => Term::Match(Box::new(copy_abt(a)), copy_cases(cs)),
        Term::TypeLink(r) => Term::TypeLink(copy_reference(r)),
    }
}

pub fn copy_abts(v: &Vec<ABT<Term>>) -> (r: Vec<ABT<Term>>)
    ensures
        abts_v(r@) == abts_v(v@),
    decreases v,
{
    let mut out: Vec<ABT<Term>> = Vec::new();
    let mut i: usize = 0;
    while i < v.len()
        invariant
            i <= v.len(),
            out.len() == i,
            forall|j: int| 0 <= j < i ==> abt_v(#[trigger] out@[j]) == abt_v(v@[j]),
        decreases v.len() - i,
    {
        proof {
            assert(decreases_to!(*v => v@[i as int]));
        }
        out.push(copy_abt(&v[i]));
        i = i + 1;
    }
    proof {
        lemma_abts_v(out@);
        lemma_abts_v(v@);
        assert(abts_v(out@) =~= abts_v(v@));
    }
    out
}

pub fn copy_boxed_abts(v: &Vec<Box<ABT<Term>>>) -> (r: Vec<Box<ABT<Term>>>)
    ensures
        boxed_abts_v(r@) == boxed_abts_v(v@),
    decreases v,
{
    let mut out: Vec<Box<ABT<Term>>> = Vec::new();
    let mut i: usize = 0;
    while i < v.len()
        invariant
            i <= v.len(),
            out.len() == i,
            forall|j: int| 0 <= j < i ==> abt_v(*#[trigger] out@[j]) == abt_v(*v@[j]),
        decreases v.len() - i,
    {
        proof {
            assert(decreases_to!(*v => v@[i as int]));
        }
        out.push(Box::new(copy_abt(&v[i])));
        i = i + 1;
    }
    proof {
        lemma_boxed_abts_v(out@);
        lemma_boxed_abts_v(v@);
        assert(boxed_abts_v(out@) =~= boxed_abts_v(v@));
    }
    out
}

pub fn copy_case(c: &MatchCase) -> (r: MatchCase)
    ensures
        case_v(r) == case_v(*c),
    decreases c,
{
    let guard = match &c.1 {
        Some(g) => Some(Box::new(copy_abt(g))),
        None => None,
    };
    MatchCase(copy_pattern(&c.0), guard, Box::new(copy_abt(&c.2)))
}

pub fn copy_cases(v: &Vec<MatchCase>) -> (r: Vec<MatchCase>)
    ensures
        cases_v(r@) == cases_v(v@),
    decreases v,
{
    let mut out: Vec<MatchCase> = Vec::new();
    let mut i: usize = 0;
    while i < v.len()
        invariant
            i <= v.len(),
            out.len() == i,
            forall|j: int| 0 <= j < i ==> case_v(#[trigger] out@[j]) == case_v(v@[j]),
        decreases v.len() - i,
    {
        proof {
            assert(decreases_to!(*v => v@[i as int]));
        }
        out.push(copy_case(&v[i]));
        i = i + 1;
    }
    proof {
        lemma_cases_v(out@);
        lemma_cases_v(v@);
        assert(cases_v(out@) =~= cases_v(v@));
    }
    out
}

pub fn copy_datadecl(d: &DataDecl) -> (r: DataDecl)
    ensures
        datadecl_v(r) == datadecl_v(*d),
{
    let mut bound: Vec<Symbol> = Vec::new();
    let mut i: usize = 0;
    while i < d.bound.len()
        invariant
            i <= d.bound.len(),
            bound.len() == i,
            forall|j: int| 0 <= j < i ==> sym_v(#[trigger] bound@[j]) == sym_v(d.bound@[j]),
        decreases d.bound.len() - i,
    {
        bound.push(copy_symbol(&d.bound[i]));
        i = i + 1;
    }
    let mut ctors: Vec<(Symbol, ABT<Type>)> = Vec::new();
    let mut k: usize = 0;
    while k < d.constructors.len()
        invariant
            k <= d.constructors.len(),
            ctors.len() == k,
            forall|j: int|
                0 <= j < k ==> sym_v((#[trigger] ctors@[j]).0) == sym_v(d.constructors@[j].0)
                    && type_abt_v(ctors@[j].1) == type_abt_v(d.constructors@[j].1),
        decreases d.constructors.len() - k,
    {
        let (s, t) = (&d.constructors[k].0, &d.constructors[k].1);
        ctors.push((copy_symbol(s), copy_type_abt(t)));
        k = k + 1;
    }
    let r = DataDecl { bound, constructors: ctors };
    assert(syms_v(r.bound@) =~= syms_v(d.bound@));
    assert(ctors_v(r.constructors@) =~= ctors_v(d.constructors@));
    r
}

pub fn copy_typedecl(d: &TypeDecl) -> (r: TypeDecl)
    ensures
        typedecl_v(r) == typedecl_v(*d),
{
    match d {
        TypeDecl::Effect(x) => TypeDecl::Effect(copy_datadecl(x)),
        TypeDecl::Data(x) => TypeDecl::Data(copy_datadecl(x)),
    }
}

impl Clone for Symbol {
    fn clone(&self) -> (r: Self)
        ensures
            sym_v(r) == sym_v(*self),
    {
        copy_symbol(self)
    }
}

impl Clone for crate::types::Hash {
    fn clone(&self) -> (r: Self)
        ensures
            r.0@ == self.0@,
    {
        crate::types::Hash(self.0.clone())
    }
}

impl Clone for Id {
    fn clone(&self) -> (r: Self)
        ensures
            r.0.0@ == self.0.0@,
            r.1 == self.1,
            r.2 == self.2,
    {
        Id(self.0.clone(), self.1, self.2)
    }
}

impl Clone for Reference {
    fn clone(&self) -> (r: Self)
        ensures
            ref_v(r) == ref_v(*self),
    {
        copy_reference(self)
    }
}

impl Clone for Pattern {
    fn clone(&self) -> (r: Self)
        ensures
            pattern_v(r) == pattern_v(*self),
    {
        copy_pattern(self)
    }
}

impl Clone for Type {
    fn clone(&self) -> (r: Self)
        ensures
            type_v(r) == type_v(*self),
    {
        copy_type(self)
    }
}

impl Clone for ABT<Type> {
    fn clone(&self) -> (r: Self)
        ensures
            type_abt_v(r) == type_abt_v(*self),
    {
        copy_type_abt(self)
    }
}

impl Clone for ABT<Term> {
    fn clone(&self) -> (r: Self)
        ensures
            abt_v(r) == abt_v(*self),
    {
        copy_abt(self)
    }
}

impl Clone for Term {
    fn clone(&self) -> (r: Self)
        ensures
            term_v(r) == term_v(*self),
    {
        copy_term(self)
    }
}

impl Clone for MatchCase {
    fn clone(&self) -> (r: Self)
        ensures
            case_v(r) == case_v(*self),
    {
        copy_case(self)
    }
}

impl Clone for DataDecl {
    fn clone(&self) -> (r: Self)
        ensures
            datadecl_v(r) == datadecl_v(*self),
    {
        copy_datadecl(self)
    }
}

impl Clone for TypeDecl {
    fn clone(&self) -> (r: Self)
        ensures
            typedecl_v(r) == typedecl_v(*self),
    {
        copy_typedecl(self)
    }
}

} // verus!
