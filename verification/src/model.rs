//! Mathematical models of the term language: every type is seen through a
//! view in which strings are `Seq<char>` and vectors are `Seq`.

use vstd::prelude::*;
use crate::types::{
    Symbol, Id, Reference, Pattern, ABT, Type, MatchCase, Term, DataDecl, TypeDecl,
};

verus! {

pub struct SymbolV {
    pub text: Seq<char>,
    pub unique: usize,
}

pub enum RefV {
    Builtin(Seq<char>),
    Derived(Seq<char>, usize, usize),
}

pub enum PatternV {
    Unbound,
    Var,
    Boolean(bool),
    Int(i64),
    Nat(u64),
    Text(Seq<char>),
    Char(char),
    Constructor(RefV, usize, Seq<PatternV>),
    As(Box<PatternV>),
    EffectPure(Box<PatternV>),
    EffectBind(RefV, usize, Seq<PatternV>, Box<PatternV>),
    SequenceLiteral(Seq<PatternV>),
}

pub enum AbtV<C> {
    Var(SymbolV),
    Tm(C),
    Cycle(Box<AbtV<C>>),
    Abs(SymbolV, Box<AbtV<C>>),
}

pub enum TypeV {
    Ref(RefV),
    Arrow(Box<AbtV<TypeV>>, Box<AbtV<TypeV>>),
    App(Box<AbtV<TypeV>>, Box<AbtV<TypeV>>),
    Effect(Box<AbtV<TypeV>>, Box<AbtV<TypeV>>),
    Effects(Seq<AbtV<TypeV>>),
    Forall(Box<AbtV<TypeV>>),
    IntroOuter(Box<AbtV<TypeV>>),
}

pub struct CaseV {
    pub pattern: PatternV,
    pub guard: Option<AbtV<TermV>>,
    pub body: AbtV<TermV>,
}

pub enum TermV {
    Int(i64),
    Nat(u64),
    Float(Seq<char>),
    Boolean(bool),
    Text(Seq<char>),
    Char(char),
    Blank,
    Ref(RefV),
    Constructor(RefV, usize),
    Request(RefV, usize),
    Handle(Box<AbtV<TermV>>, Box<AbtV<TermV>>),
    App(Box<AbtV<TermV>>, Box<AbtV<TermV>>),
    Ann(Box<AbtV<TermV>>, AbtV<TypeV>),
    Sequence(Seq<AbtV<TermV>>),
    If(Box<AbtV<TermV>>, Box<AbtV<TermV>>, Box<AbtV<TermV>>),
    And(Box<AbtV<TermV>>, Box<AbtV<TermV>>),
    Or(Box<AbtV<TermV>>, Box<AbtV<TermV>>),
    Lam(Box<AbtV<TermV>>),
    LetRec(bool, Seq<AbtV<TermV>>, Box<AbtV<TermV>>),
    Let(bool, Box<AbtV<TermV>>, Box<AbtV<TermV>>),
    Match(Box<AbtV<TermV>>, Seq<CaseV>),
    TypeLink(RefV),
}

pub struct DataDeclV {
    pub bound: Seq<SymbolV>,
    pub constructors: Seq<(SymbolV, AbtV<TypeV>)>,
}

pub enum TypeDeclV {
    Effect(DataDeclV),
    Data(DataDeclV),
}

pub open spec fn sym_v(s: Symbol) -> SymbolV {
    SymbolV { text: s.text@, unique: s.unique }
}

pub open spec fn ref_v(r: Reference) -> RefV {
    match r {
        Reference::Builtin(name) => RefV::Builtin(name@),
        Reference::DerivedId(Id(crate::types::Hash(h), i, n)) => RefV::Derived(h@, i, n),
    }
}

pub open spec fn pattern_v(p: Pattern) -> PatternV
    decreases p,
{
    match p {
        Pattern::Unbound => PatternV::Unbound,
        Pattern::Var => PatternV::Var,
        Pattern::Boolean(b) => PatternV::Boolean(b),
        Pattern::Int(n) => PatternV::Int(n),
        Pattern::Nat(n) => PatternV::Nat(n),
        Pattern::Text(t) => PatternV::Text(t@),
        Pattern::Char(c) => PatternV::Char(c),
        Pattern::Constructor(r, n, ps) => PatternV::Constructor(ref_v(r), n, patterns_v(ps@)),
        Pattern::As(p) => PatternV::As(Box::new(pattern_v(*p))),
        Pattern::EffectPure(p) => PatternV::EffectPure(Box::new(pattern_v(*p))),
        Pattern::EffectBind(r, n, ps, k) => PatternV::EffectBind(
            ref_v(r),
            n,
            patterns_v(ps@),
            Box::new(pattern_v(*k)),
        ),
        Pattern::SequenceLiteral(ps) => PatternV::SequenceLiteral(patterns_v(ps@)),
    }
}

pub open spec fn patterns_v(s: Seq<Pattern>) -> Seq<PatternV>
    decreases s,
{
    if s.len() == 0 {
        Seq::empty()
    } else {
        seq![pattern_v(s[0])] + patterns_v(s.subrange(1, s.len() as int))
    }
}

pub open spec fn type_abt_v(a: ABT<Type>) -> AbtV<TypeV>
    decreases a,
{
    match a {
        ABT::Var(s) => AbtV::Var(sym_v(s)),
        ABT::Tm(t) => AbtV::Tm(type_v(t)),
        ABT::Cycle(i) => AbtV::Cycle(Box::new(type_abt_v(*i))),
        ABT::Abs(s, b) => AbtV::Abs(sym_v(s), Box::new(type_abt_v(*b))),
    }
}

pub open spec fn type_v(t: Type) -> TypeV
    decreases t,
{
    match t {
        Type::Ref(r) => TypeV::Ref(ref_v(r)),
        Type::Arrow(a, b) => TypeV::Arrow(Box::new(type_abt_v(*a)), Box::new(type_abt_v(*b))),
        Type::App(a, b) => TypeV::App(Box::new(type_abt_v(*a)), Box::new(type_abt_v(*b))),
        Type::Effect(a, b) => TypeV::Effect(Box::new(type_abt_v(*a)), Box::new(type_abt_v(*b))),
        Type::Effects(v) => TypeV::Effects(type_abts_v(v@)),
        Type::Forall(a) => TypeV::Forall(Box::new(type_abt_v(*a))),
        Type::IntroOuter(a) => TypeV::IntroOuter(Box::new(type_abt_v(*a))),
    }
}

pub open spec fn type_abts_v(s: Seq<ABT<Type>>) -> Seq<AbtV<TypeV>>
    decreases s,
{
    if s.len() == 0 {
        Seq::empty()
    } else {
        seq![type_abt_v(s[0])] + type_abts_v(s.subrange(1, s.len() as int))
    }
}

pub open spec fn abt_v(a: ABT<Term>) -> AbtV<TermV>
    decreases a,
{
    match a {
        ABT::Var(s) => AbtV::Var(sym_v(s)),
        ABT::Tm(t) => AbtV::Tm(term_v(t)),
        ABT::Cycle(i) => AbtV::Cycle(Box::new(abt_v(*i))),
        ABT::Abs(s, b) => AbtV::Abs(sym_v(s), Box::new(abt_v(*b))),
    }
}

pub open spec fn term_v(t: Term) -> TermV
    decreases t,
{
    match t {
        Term::Int(n) => TermV::Int(n),
        Term::Nat(n) => TermV::Nat(n),
        Term::Float(s) => TermV::Float(s@),
        Term::Boolean(b) => TermV::Boolean(b),
        Term::Text(s) => TermV::Text(s@),
        Term::Char(c) => TermV::Char(c),
        Term::Blank => TermV::Blank,
        Term::Ref(r) => TermV::Ref(ref_v(r)),
        Term::Constructor(r, n) => TermV::Constructor(ref_v(r), n),
        Term::Request(r, n) => TermV::Request(ref_v(r), n),
        Term::Handle(a, b) => TermV::Handle(Box::new(abt_v(*a)), Box::new(abt_v(*b))),
        Term::App(a, b) => TermV::App(Box::new(abt_v(*a)), Box::new(abt_v(*b))),
        Term::Ann(a, t) => TermV::Ann(Box::new(abt_v(*a)), type_abt_v(t)),
        Term::Sequence(v) => TermV::Sequence(abts_v(v@)),
        Term::If(a, b, c) => TermV::If(
            Box::new(abt_v(*a)),
            Box::new(abt_v(*b)),
            Box::new(abt_v(*c)),
        ),
        Term::And(a, b) => TermV::And(Box::new(abt_v(*a)), Box::new(abt_v(*b))),
        Term::Or(a, b) => TermV::Or(Box::new(abt_v(*a)), Box::new(abt_v(*b))),
        Term::Lam(a) => TermV::Lam(Box::new(abt_v(*a))),
        Term::LetRec(r, v, b) => TermV::LetRec(r, boxed_abts_v(v@), Box::new(abt_v(*b))),
        Term::Let(r, a, b) => TermV::Let(r, Box::new(abt_v(*a)), Box::new(abt_v(*b))),
        Term::Match(a, cs) => TermV::Match(Box::new(abt_v(*a)), cases_v(cs@)),
        Term::TypeLink(r) => TermV::TypeLink(ref_v(r)),
    }
}

pub open spec fn abts_v(s: Seq<ABT<Term>>) -> Seq<AbtV<TermV>>
    decreases s,
{
    if s.len() == 0 {
        Seq::empty()
    } else {
        seq![abt_v(s[0])] + abts_v(s.subrange(1, s.len() as int))
    }
}

pub open spec fn boxed_abts_v(s: Seq<Box<ABT<Term>>>) -> Seq<AbtV<TermV>>
    decreases s,
{
    if s.len() == 0 {
        Seq::empty()
    } else {
        seq![abt_v(*s[0])] + boxed_abts_v(s.subrange(1, s.len() as int))
    }
}

pub open spec fn case_v(c: MatchCase) -> CaseV
    decreases c,
{
    CaseV {
        pattern: pattern_v(c.0),
        guard: match c.1 {
            Some(g) => Some(abt_v(*g)),
            None => None,
        },
        body: abt_v(*c.2),
    }
}

pub open spec fn cases_v(s: Seq<MatchCase>) -> Seq<CaseV>
    decreases s,
{
    if s.len() == 0 {
        Seq::empty()
    } else {
        seq![case_v(s[0])] + cases_v(s.subrange(1, s.len() as int))
    }
}

pub open spec fn syms_v(s: Seq<Symbol>) -> Seq<SymbolV> {
    s.map_values(|x: Symbol| sym_v(x))
}

pub open spec fn ctors_v(s: Seq<(Symbol, ABT<Type>)>) -> Seq<(SymbolV, AbtV<TypeV>)> {
    s.map_values(|x: (Symbol, ABT<Type>)| (sym_v(x.0), type_abt_v(x.1)))
}

pub open spec fn datadecl_v(d: DataDecl) -> DataDeclV {
    DataDeclV { bound: syms_v(d.bound@), constructors: ctors_v(d.constructors@) }
}

pub open spec fn typedecl_v(d: TypeDecl) -> TypeDeclV {
    match d {
        TypeDecl::Effect(d) => TypeDeclV::Effect(datadecl_v(d)),
        TypeDecl::Data(d) => TypeDeclV::Data(datadecl_v(d)),
    }
}

impl View for Symbol {
    type V = SymbolV;

    open spec fn view(&self) -> SymbolV {
        sym_v(*self)
    }
}

impl View for Reference {
    type V = RefV;

    open spec fn view(&self) -> RefV {
        ref_v(*self)
    }
}

impl View for Pattern {
    type V = PatternV;

    open spec fn view(&self) -> PatternV {
        pattern_v(*self)
    }
}

impl View for Term {
    type V = TermV;

    open spec fn view(&self) -> TermV {
        term_v(*self)
    }
}

impl View for MatchCase {
    type V = CaseV;

    open spec fn view(&self) -> CaseV {
        case_v(*self)
    }
}

impl View for TypeDecl {
    type V = TypeDeclV;

    open spec fn view(&self) -> TypeDeclV {
        typedecl_v(*self)
    }
}

// Lengths and elements of the sequence views.

pub proof fn lemma_patterns_v(s: Seq<Pattern>)
    ensures
        patterns_v(s).len() == s.len(),
        forall|i: int| 0 <= i < s.len() ==> #[trigger] patterns_v(s)[i] == pattern_v(s[i]),
    decreases s.len(),
{
    if s.len() > 0 {
        lemma_patterns_v(s.subrange(1, s.len() as int));
    }
}

pub proof fn lemma_type_abts_v(s: Seq<ABT<Type>>)
    ensures
        type_abts_v(s).len() == s.len(),
        forall|i: int| 0 <= i < s.len() ==> #[trigger] type_abts_v(s)[i] == type_abt_v(s[i]),
    decreases s.len(),
{
    if s.len() > 0 {
        lemma_type_abts_v(s.subrange(1, s.len() as int));
    }
}

pub proof fn lemma_abts_v(s: Seq<ABT<Term>>)
    ensures
        abts_v(s).len() == s.len(),
        forall|i: int| 0 <= i < s.len() ==> #[trigger] abts_v(s)[i] == abt_v(s[i]),
    decreases s.len(),
{
    if s.len() > 0 {
        lemma_abts_v(s.subrange(1, s.len() as int));
    }
}

pub proof fn lemma_boxed_abts_v(s: Seq<Box<ABT<Term>>>)
    ensures
        boxed_abts_v(s).len() == s.len(),
        forall|i: int| 0 <= i < s.len() ==> #[trigger] boxed_abts_v(s)[i] == abt_v(*s[i]),
    decreases s.len(),
{
    if s.len() > 0 {
        lemma_boxed_abts_v(s.subrange(1, s.len() as int));
    }
}

pub proof fn lemma_cases_v(s: Seq<MatchCase>)
    ensures
        cases_v(s).len() == s.len(),
        forall|i: int| 0 <= i < s.len() ==> #[trigger] cases_v(s)[i] == case_v(s[i]),
    decreases s.len(),
{
    if s.len() > 0 {
        lemma_cases_v(s.subrange(1, s.len() as int));
    }
}

} // verus!
