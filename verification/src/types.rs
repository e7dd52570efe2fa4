//! The term language that the compiler reads: abstract binding trees over
//! terms, types and patterns.

use vstd::prelude::*;

verus! {

/// A variable name together with the number that keeps it unique.
#[derive(Debug, PartialEq)]
pub struct Symbol {
    pub text: String,
    pub unique: usize,
}

/// The hash that names a stored term or type.
#[derive(Debug, PartialEq)]
pub struct Hash(pub String);

impl Hash {
    /// The hash as text.
    pub fn to_string(&self) -> (r: String)
        ensures
            r@ == self.0@,
    {
        self.0.clone()
    }
}

/// A derived identifier: the hash of a definition, its position within its
/// cycle, and the size of that cycle.
#[derive(Debug, PartialEq)]
pub struct Id(pub Hash, pub usize, pub usize);

#[derive(Debug, PartialEq)]
pub enum Reference {
    Builtin(String),
    DerivedId(Id),
}

#[derive(Debug, PartialEq)]
pub enum Pattern {
    Unbound,
    Var,
    Boolean(bool),
    Int(i64),
    Nat(u64),
    Text(String),
    Char(char),
    Constructor(Reference, usize, Vec<Pattern>),
    As(Box<Pattern>),
    EffectPure(Box<Pattern>),
    EffectBind(Reference, usize, Vec<Pattern>, Box<Pattern>),
    SequenceLiteral(Vec<Pattern>),
}

/// An abstract binding tree over some content.
#[derive(Debug, PartialEq)]
pub enum ABT<Content> {
    Var(Symbol),
    Tm(Content),
    Cycle(Box<ABT<Content>>),
    Abs(Symbol, Box<ABT<Content>>),
}

#[derive(Debug, PartialEq)]
pub enum Type {
    Ref(Reference),
    Arrow(Box<ABT<Type>>, Box<ABT<Type>>),
    App(Box<ABT<Type>>, Box<ABT<Type>>),
    Effect(Box<ABT<Type>>, Box<ABT<Type>>),
    Effects(Vec<ABT<Type>>),
    Forall(Box<ABT<Type>>),
    IntroOuter(Box<ABT<Type>>),
}

/// One arm of a `match`: the pattern, an optional guard and the body.
#[derive(Debug, PartialEq)]
pub struct MatchCase(pub Pattern, pub Option<Box<ABT<Term>>>, pub Box<ABT<Term>>);

/// A term. A float literal is held as the text it is written with.
#[derive(Debug, PartialEq)]
pub enum Term {
    Int(i64),
    Nat(u64),
    Float(String),
    Boolean(bool),
    Text(String),
    Char(char),
    Blank,
    Ref(Reference),
    Constructor(Reference, usize),
    Request(Reference, usize),
    Handle(Box<ABT<Term>>, Box<ABT<Term>>),
    App(Box<ABT<Term>>, Box<ABT<Term>>),
    Ann(Box<ABT<Term>>, ABT<Type>),
    Sequence(Vec<ABT<Term>>),
    If(Box<ABT<Term>>, Box<ABT<Term>>, Box<ABT<Term>>),
    And(Box<ABT<Term>>, Box<ABT<Term>>),
    Or(Box<ABT<Term>>, Box<ABT<Term>>),
    Lam(Box<ABT<Term>>),
    LetRec(bool, Vec<Box<ABT<Term>>>, Box<ABT<Term>>),
    Let(bool, Box<ABT<Term>>, Box<ABT<Term>>),
    Match(Box<ABT<Term>>, Vec<MatchCase>),
    TypeLink(Reference),
}

#[derive(Debug, PartialEq)]
pub struct DataDecl {
    pub bound: Vec<Symbol>,
    pub constructors: Vec<(Symbol, ABT<Type>)>,
}

#[derive(Debug, PartialEq)]
pub enum TypeDecl {
    Effect(DataDecl),
    Data(DataDecl),
}

} // verus!
