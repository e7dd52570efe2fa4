use unison_rs::env::{Env, Fetch, Scan};
use unison_rs::ir::GlobalEnv;
use unison_rs::types::{DataDecl, Id, Reference, Symbol, Term, TypeDecl, ABT};

fn sym(text: &str, unique: usize) -> Symbol {
    Symbol { text: text.to_string(), unique }
}

fn derived(hash: &str) -> Term {
    Term::Ref(Reference::DerivedId(Id(unison_rs::types::Hash(hash.to_string()), 0, 1)))
}

fn path(parts: &[&str]) -> Vec<String> {
    parts.iter().map(|p| p.to_string()).collect()
}

#[test]
fn load_names_the_file_of_a_term_not_stored() {
    let env = Env::init("/data");
    assert_eq!(env.load("abc"), Fetch::Read(path(&["/data", "terms", "#abc", "compiled.ub"])));
}

#[test]
fn load_type_names_the_file_of_a_type_not_stored() {
    let env = Env::init("/data");
    assert_eq!(
        env.load_type("t1"),
        Fetch::Read(path(&["/data", "types", "#t1", "compiled.ub"]))
    );
}

#[test]
fn store_then_load_finds_the_term() {
    let mut env = Env::init("/data");
    let kept = env.store("abc", ABT::Tm(Term::Int(42)));
    assert_eq!(kept, ABT::Tm(Term::Int(42)));
    assert_eq!(env.load("abc"), Fetch::Found(ABT::Tm(Term::Int(42))));
    assert_eq!(env.load("other"), Fetch::Read(path(&["/data", "terms", "#other", "compiled.ub"])));
}

#[test]
fn store_again_replaces_the_term() {
    let mut env = Env::init("/data");
    env.store("abc", ABT::Tm(Term::Int(1)));
    env.store("abc", ABT::Var(sym("x", 0)));
    assert_eq!(env.load("abc"), Fetch::Found(ABT::Var(sym("x", 0))));
}

#[test]
fn store_type_then_load_type_finds_it() {
    let mut env = Env::init("/data");
    let decl = TypeDecl::Data(DataDecl { bound: vec![sym("a", 1)], constructors: vec![] });
    let kept = env.store_type("t1", decl);
    assert_eq!(
        kept,
        TypeDecl::Data(DataDecl { bound: vec![sym("a", 1)], constructors: vec![] })
    );
    assert_eq!(
        env.load_type("t1"),
        Fetch::Found(TypeDecl::Data(DataDecl { bound: vec![sym("a", 1)], constructors: vec![] }))
    );
}

#[test]
fn scan_names_the_first_term_missing() {
    let mut env = Env::init("/r");
    env.store("a", ABT::Tm(Term::App(Box::new(ABT::Tm(derived("b"))), Box::new(ABT::Tm(Term::Int(1))))));
    let done = GlobalEnv::new(Env::init("/r"));
    assert_eq!(env.scan("a", &done.terms, true), Scan::Missing("b".to_string()));
    assert_eq!(env.scan("a", &done.terms, false), Scan::Missing("b".to_string()));
    assert_eq!(env.scan("zzz", &done.terms, true), Scan::Missing("zzz".to_string()));
}

#[test]
fn scan_completes_when_everything_is_stored() {
    let mut env = Env::init("/r");
    env.store("a", ABT::Tm(Term::App(Box::new(ABT::Tm(derived("b"))), Box::new(ABT::Tm(derived("a"))))));
    env.store("b", ABT::Tm(Term::Int(7)));
    let done = GlobalEnv::new(Env::init("/r"));
    assert_eq!(env.scan("a", &done.terms, true), Scan::Complete);
    assert_eq!(env.scan("a", &done.terms, false), Scan::Complete);
}

#[test]
fn scan_names_a_stored_cycle_that_is_not_a_chain() {
    let mut env = Env::init("/r");
    env.store("m", ABT::Cycle(Box::new(ABT::Var(sym("x", 0)))));
    env.store("top", ABT::Tm(derived("m")));
    let done = GlobalEnv::new(Env::init("/r"));
    assert_eq!(env.scan("top", &done.terms, true), Scan::Malformed("m".to_string()));
    assert_eq!(env.scan("top", &done.terms, false), Scan::Malformed("m".to_string()));
}

#[test]
fn scan_of_the_compiler_follows_lambdas_and_the_translation_does_not() {
    let mut env = Env::init("/r");
    env.store("a", ABT::Tm(Term::Lam(Box::new(ABT::Tm(derived("b"))))));
    let done = GlobalEnv::new(Env::init("/r"));
    assert_eq!(env.scan("a", &done.terms, true), Scan::Missing("b".to_string()));
    assert_eq!(env.scan("a", &done.terms, false), Scan::Complete);
}
