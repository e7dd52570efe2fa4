use unison_rs::chicken::{Chicken, Error, ToChicken, TranslationEnv};
use unison_rs::env::{Env, Fetch};
use unison_rs::types::{DataDecl, Id, Reference, Symbol, Term, Type, TypeDecl, ABT};

fn sym(text: &str, unique: usize) -> Symbol {
    Symbol { text: text.to_string(), unique }
}

fn tm(t: Term) -> Box<ABT<Term>> {
    Box::new(ABT::Tm(t))
}

fn hash(h: &str) -> unison_rs::types::Hash {
    unison_rs::types::Hash(h.to_string())
}

fn derived(h: &str) -> Term {
    Term::Ref(Reference::DerivedId(Id(hash(h), 0, 1)))
}

fn no_type() -> ABT<Type> {
    ABT::Tm(Type::Ref(Reference::Builtin("nvm".to_string())))
}

fn atom(a: &str) -> Chicken {
    Chicken::Atom(a.to_string())
}

fn translate(t: &Term) -> Result<Chicken, Error> {
    let mut te = TranslationEnv::new(Env::init("/r"));
    t.to_chicken(&mut te)
}

#[test]
fn text_of_a_list_is_parenthesised_and_spaced() {
    let c = Chicken::Apply(vec![atom("a"), Chicken::Apply(vec![atom("b"), atom("c")]), atom("d")]);
    assert_eq!(c.to_string(), "(a (b c) d)");
    assert_eq!(atom("x").to_string(), "x");
    assert_eq!(Chicken::Apply(vec![]).to_string(), "()");
}

#[test]
fn numbers_become_decimal_atoms() {
    assert_eq!(translate(&Term::Int(-5)), Ok(atom("-5")));
    assert_eq!(translate(&Term::Int(120)), Ok(atom("120")));
    assert_eq!(translate(&Term::Int(0)), Ok(atom("0")));
    assert_eq!(translate(&Term::Int(i64::MIN)), Ok(atom("-9223372036854775808")));
    assert_eq!(translate(&Term::Int(i64::MAX)), Ok(atom("9223372036854775807")));
    assert_eq!(translate(&Term::Nat(7)), Ok(atom("7")));
    assert_eq!(translate(&Term::Nat(18446744073709551615)), Ok(atom("18446744073709551615")));
    assert_eq!(translate(&Term::Float("1.5".to_string())), Ok(atom("1.5")));
}

#[test]
fn booleans_characters_and_text_become_atoms() {
    assert_eq!(translate(&Term::Boolean(true)), Ok(atom("true")));
    assert_eq!(translate(&Term::Boolean(false)), Ok(atom("false")));
    assert_eq!(translate(&Term::Char('q')), Ok(atom("q")));
    assert_eq!(translate(&Term::Text("hi \"x\"".to_string())), Ok(atom("\"hi \\\"x\\\"\"")));
}

#[test]
fn constructors_are_named_with_their_number() {
    assert_eq!(
        translate(&Term::Constructor(Reference::Builtin("Optional".to_string()), 1)),
        Ok(atom("Optional_1"))
    );
    assert_eq!(
        translate(&Term::Constructor(Reference::DerivedId(Id(hash("abc"), 0, 1)), 3)),
        Ok(atom("abc_3"))
    );
}

#[test]
fn builtins_are_named_by_their_name() {
    assert_eq!(translate(&Term::Ref(Reference::Builtin("Nat.+".to_string()))), Ok(atom("Nat.+")));
}

#[test]
fn conditionals_and_applications_become_lists() {
    let t = Term::If(tm(Term::Boolean(true)), tm(Term::Int(1)), tm(Term::Int(2)));
    assert_eq!(translate(&t).map(|c| c.to_string()), Ok("(if true 1 2)".to_string()));
    let t = Term::App(tm(Term::Ref(Reference::Builtin("f".to_string()))), tm(Term::Nat(3)));
    assert_eq!(translate(&t).map(|c| c.to_string()), Ok("(f 3)".to_string()));
    let t = Term::And(tm(Term::Boolean(true)), tm(Term::Boolean(false)));
    assert_eq!(translate(&t).map(|c| c.to_string()), Ok("(and true false)".to_string()));
}

#[test]
fn or_is_written_with_the_and_head() {
    let t = Term::Or(tm(Term::Boolean(true)), tm(Term::Boolean(false)));
    assert_eq!(translate(&t).map(|c| c.to_string()), Ok("(and true false)".to_string()));
}

#[test]
fn variables_and_abstractions_use_the_unique_name() {
    let mut te = TranslationEnv::new(Env::init("/r"));
    assert_eq!(sym("x", 3).to_atom(), "x_3");
    assert_eq!(ABT::Var(sym("x", 3)).to_chicken(&mut te), Ok(atom("x_3")));
    let abs = ABT::Abs(sym("y", 0), Box::new(ABT::Var(sym("y", 0))));
    assert_eq!(abs.to_chicken(&mut te).map(|c| c.to_string()), Ok("(y_0 y_0)".to_string()));
}

#[test]
fn a_cycle_becomes_a_let() {
    let letrec = Term::LetRec(true, vec![tm(Term::Int(1)), tm(Term::Int(2))], Box::new(ABT::Var(sym("f", 0))));
    let cycle = ABT::Cycle(Box::new(ABT::Abs(sym("f", 0), Box::new(ABT::Abs(sym("g", 1), tm(letrec))))));
    let mut te = TranslationEnv::new(Env::init("/r"));
    assert_eq!(
        cycle.to_chicken(&mut te).map(|c| c.to_string()),
        Ok("(let ((f_0 1) (g_1 2)) f_0)".to_string())
    );
}

#[test]
fn other_terms_are_marked_not_implemented() {
    assert_eq!(translate(&Term::Blank), Ok(atom("(not-implemented \"Blank\")")));
    let t = Term::Sequence(vec![ABT::Tm(Term::Int(1))]);
    assert_eq!(
        translate(&t),
        Ok(Chicken::Atom(format!("(not-implemented {:?})", format!("{:?}", t))))
    );
}

#[test]
fn a_reference_to_a_missing_term_fails() {
    let mut te = TranslationEnv::new(Env::init("/r"));
    assert_eq!(derived("abc").to_chicken(&mut te), Err(Error::Missing("abc".to_string())));
}

#[test]
fn a_reference_translates_the_term_it_names() {
    let mut env = Env::init("/r");
    env.store("abc", ABT::Tm(Term::Int(42)));
    let mut te = TranslationEnv::new(env);
    assert_eq!(derived("abc").to_chicken(&mut te), Ok(atom("abc")));
    assert_eq!(te.terms.get("abc"), Some(&(atom("42"), no_type())));
}

#[test]
fn translation_load_names_a_missing_term() {
    let mut env = Env::init("/r");
    env.store("a", ABT::Tm(Term::App(tm(derived("b")), tm(Term::Int(1)))));
    let mut te = TranslationEnv::new(env);
    assert_eq!(te.load(&hash("a")), Err(Error::Missing("b".to_string())));
    assert_eq!(te.terms.get("a"), Some(&(atom("not-yet-evaluated"), no_type())));
    assert_eq!(te.terms.get("b"), Some(&(atom("not-yet-evaluated"), no_type())));
    // The placeholder stays: a later load does not try again.
    assert_eq!(te.load(&hash("a")), Ok(()));
    assert_eq!(te.to_string(&hash("a")), "(define (a)\n  not-yet-evaluated)");
}

#[test]
fn translated_terms_keep_their_type() {
    let mut env = Env::init("/r");
    env.store("a", ABT::Tm(Term::Int(3)));
    let nat = ABT::Tm(Type::Ref(Reference::Builtin("Nat".to_string())));
    env.store_term_type("a", ABT::Tm(Type::Ref(Reference::Builtin("Nat".to_string()))));
    env.store("b", ABT::Tm(Term::Int(4)));
    let mut te = TranslationEnv::new(env);
    assert_eq!(te.load(&hash("a")), Ok(()));
    assert_eq!(te.load(&hash("b")), Ok(()));
    assert_eq!(te.terms.get("a"), Some(&(atom("3"), nat)));
    assert_eq!(te.terms.get("b"), Some(&(atom("4"), no_type())));
}

#[test]
fn load_then_to_string_gives_a_definition() {
    let mut env = Env::init("/r");
    env.store("a", ABT::Tm(Term::App(tm(derived("b")), tm(Term::Int(1)))));
    env.store("b", ABT::Tm(Term::Int(7)));
    let mut te = TranslationEnv::new(env);
    assert_eq!(te.load(&hash("a")), Ok(()));
    assert_eq!(te.to_string(&hash("a")), "(define (a)\n  (b 1))");
    assert_eq!(te.to_string(&hash("b")), "(define (b)\n  7)");
}

#[test]
fn a_term_that_refers_to_itself_is_translated_once() {
    let mut env = Env::init("/r");
    env.store("a", ABT::Tm(Term::App(tm(derived("a")), tm(Term::Int(1)))));
    let mut te = TranslationEnv::new(env);
    assert_eq!(te.load(&hash("a")), Ok(()));
    assert_eq!(te.to_string(&hash("a")), "(define (a)\n  (a 1))");
    assert_eq!(te.load(&hash("a")), Ok(()));
    assert_eq!(te.to_string(&hash("a")), "(define (a)\n  (a 1))");
}

#[test]
fn add_fn_reuses_an_equal_function() {
    let mut te = TranslationEnv::new(Env::init("/r"));
    assert_eq!(te.add_fn(hash("h"), &ABT::Tm(Term::Int(1))), Ok(0));
    assert_eq!(te.add_fn(hash("k"), &ABT::Tm(Term::Int(1))), Ok(0));
    assert_eq!(te.add_fn(hash("h"), &ABT::Tm(Term::Int(2))), Ok(1));
    assert_eq!(te.anon_fns.len(), 2);
    assert_eq!(te.anon_fns[0], (hash("h"), atom("1")));
    assert_eq!(te.anon_fns[1], (hash("h"), atom("2")));
}

#[test]
fn add_fn_fails_on_a_missing_term() {
    let mut te = TranslationEnv::new(Env::init("/r"));
    assert_eq!(te.add_fn(hash("h"), &ABT::Tm(derived("zz"))), Err(Error::Missing("zz".to_string())));
    assert_eq!(te.anon_fns.len(), 0);
}

#[test]
fn get_type_reads_through_the_store() {
    let mut te = TranslationEnv::new(Env::init("/r"));
    assert_eq!(
        te.get_type(&hash("t")),
        Fetch::Read(vec!["/r".to_string(), "types".to_string(), "#t".to_string(), "compiled.ub".to_string()])
    );
    te.env.store_type("t", TypeDecl::Effect(DataDecl { bound: vec![], constructors: vec![] }));
    assert_eq!(
        te.get_type(&hash("t")),
        Fetch::Found(TypeDecl::Effect(DataDecl { bound: vec![], constructors: vec![] }))
    );
    assert!(te.types.contains_key("t"));
}

#[test]
fn load_translates_every_term_reached() {
    let mut env = Env::init("/r");
    env.store("a", ABT::Tm(Term::If(tm(derived("b")), tm(Term::Int(1)), tm(Term::Int(2)))));
    env.store("b", ABT::Tm(Term::App(tm(derived("c")), tm(Term::Nat(0)))));
    env.store("c", ABT::Tm(Term::Ref(Reference::Builtin("is-zero".to_string()))));
    let mut te = TranslationEnv::new(env);
    assert_eq!(te.load(&hash("a")), Ok(()));
    assert_eq!(te.to_string(&hash("a")), "(define (a)\n  (if b 1 2))");
    assert_eq!(te.to_string(&hash("b")), "(define (b)\n  (c 0))");
    assert_eq!(te.to_string(&hash("c")), "(define (c)\n  is-zero)");
}
