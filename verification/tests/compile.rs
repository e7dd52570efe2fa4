use unison_rs::env::Env;
use unison_rs::ir::{GlobalEnv, IREnv, IR};
use unison_rs::types::{Id, MatchCase, Pattern, Reference, Symbol, Term, ABT};
use unison_rs::walk::label_count;

fn sym(text: &str, unique: usize) -> Symbol {
    Symbol { text: text.to_string(), unique }
}

fn var(text: &str) -> Box<ABT<Term>> {
    Box::new(ABT::Var(sym(text, 0)))
}

fn tm(t: Term) -> Box<ABT<Term>> {
    Box::new(ABT::Tm(t))
}

fn derived(hash: &str) -> Term {
    Term::Ref(Reference::DerivedId(Id(unison_rs::types::Hash(hash.to_string()), 0, 1)))
}

fn compile(t: &Term) -> (Vec<IR>, usize, GlobalEnv) {
    let mut ge = GlobalEnv::new(Env::init("/r"));
    let mut cmds = IREnv::new("h".to_string());
    t.to_ir(&mut cmds, &mut ge);
    (cmds.cmds, cmds.counter, ge)
}

/// Every label is marked at most once, every jump goes to a label marked
/// further on, scopes and stack marks are closed as often as opened (never
/// more often on the way), and a name is popped only right after a scope opens.
fn well_labelled(cmds: &[IR]) -> bool {
    let mut marks: Vec<usize> = Vec::new();
    for c in cmds {
        if let IR::Mark(n) = c {
            if marks.contains(n) {
                return false;
            }
            marks.push(*n);
        }
    }
    let forward = cmds.iter().enumerate().all(|(i, c)| match c {
        IR::If(n) | IR::JumpTo(n) | IR::IfAndPopStack(n) => cmds[i + 1..].contains(&IR::Mark(*n)),
        _ => true,
    });
    let (mut scopes, mut stack) = (0i64, 0i64);
    for (i, c) in cmds.iter().enumerate() {
        match c {
            IR::MarkBindings => scopes += 1,
            IR::PopBindings => scopes -= 1,
            IR::MarkStack => stack += 1,
            IR::ClearStackMark => stack -= 1,
            IR::PopAndName(_) => {
                if i == 0 || cmds[i - 1] != IR::MarkBindings {
                    return false;
                }
            }
            _ => {}
        }
        if scopes < 0 || stack < 0 {
            return false;
        }
    }
    forward && scopes == 0 && stack == 0
}

#[test]
fn if_jumps_over_the_branch_not_taken() {
    let t = Term::If(tm(Term::Boolean(true)), tm(Term::Int(1)), tm(Term::Int(2)));
    let (cmds, counter, _) = compile(&t);
    assert_eq!(
        cmds,
        vec![
            IR::Value(Term::Boolean(true)),
            IR::If(1),
            IR::Value(Term::Int(1)),
            IR::JumpTo(2),
            IR::Mark(1),
            IR::Value(Term::Int(2)),
            IR::Mark(2),
        ]
    );
    assert_eq!(counter, 2);
    assert!(well_labelled(&cmds));
}

#[test]
fn and_pushes_a_boolean() {
    let t = Term::And(tm(Term::Boolean(true)), tm(Term::Boolean(false)));
    let (cmds, counter, _) = compile(&t);
    assert_eq!(
        cmds,
        vec![
            IR::Value(Term::Boolean(true)),
            IR::If(1),
            IR::Value(Term::Boolean(false)),
            IR::If(1),
            IR::Value(Term::Boolean(true)),
            IR::JumpTo(2),
            IR::Mark(1),
            IR::Value(Term::Boolean(false)),
            IR::Mark(2),
        ]
    );
    assert_eq!(counter, 2);
    assert!(well_labelled(&cmds));
}

#[test]
fn or_tries_the_second_only_when_the_first_fails() {
    let t = Term::Or(var("x"), var("y"));
    let (cmds, counter, _) = compile(&t);
    assert_eq!(
        cmds,
        vec![
            IR::PushSym(sym("x", 0)),
            IR::If(3),
            IR::JumpTo(1),
            IR::Mark(3),
            IR::PushSym(sym("y", 0)),
            IR::If(2),
            IR::Mark(1),
            IR::Value(Term::Boolean(true)),
            IR::JumpTo(4),
            IR::Mark(2),
            IR::Value(Term::Boolean(false)),
            IR::Mark(4),
        ]
    );
    assert_eq!(counter, 4);
    assert!(well_labelled(&cmds));
}

#[test]
fn match_tries_each_arm_in_turn() {
    let arms = vec![
        MatchCase(Pattern::Int(1), None, tm(Term::Text("one".to_string()))),
        MatchCase(Pattern::Var, Some(tm(Term::Boolean(true))), tm(Term::Text("other".to_string()))),
    ];
    let t = Term::Match(var("x"), arms);
    let (cmds, counter, _) = compile(&t);
    assert_eq!(
        cmds,
        vec![
            IR::PushSym(sym("x", 0)),
            IR::PatternMatch(Pattern::Int(1), false),
            IR::If(2),
            IR::Value(Term::Text("one".to_string())),
            IR::JumpTo(1),
            IR::Mark(2),
            IR::MarkStack,
            IR::PatternMatch(Pattern::Var, true),
            IR::IfAndPopStack(3),
            IR::Value(Term::Boolean(true)),
            IR::IfAndPopStack(3),
            IR::ClearStackMark,
            IR::Value(Term::Text("other".to_string())),
            IR::JumpTo(1),
            IR::Mark(3),
            IR::PatternMatchFail,
            IR::Mark(1),
            IR::PopUpOne,
        ]
    );
    assert_eq!(counter, 4);
    assert!(well_labelled(&cmds));
}

#[test]
fn scopes_and_stack_marks_are_closed() {
    let arms = vec![MatchCase(
        Pattern::Var,
        Some(Box::new(ABT::Abs(sym("v", 1), tm(Term::Boolean(true))))),
        Box::new(ABT::Abs(sym("v", 1), var("v"))),
    )];
    let t = Term::Match(var("x"), arms);
    let (cmds, _, _) = compile(&t);
    assert!(well_labelled(&cmds));
    assert_eq!(cmds.iter().filter(|c| **c == IR::MarkBindings).count(), 2);
    assert_eq!(cmds.iter().filter(|c| **c == IR::MarkStack).count(), 1);
}

#[test]
fn nested_conditions_keep_labels_apart() {
    let inner = Term::If(var("a"), tm(Term::Or(var("b"), var("c"))), tm(Term::Int(0)));
    let t = Term::And(tm(inner), tm(Term::If(var("d"), var("e"), var("f"))));
    let (cmds, counter, _) = compile(&t);
    assert!(well_labelled(&cmds));
    assert_eq!(counter, 2 + 2 + 4 + 2);
    assert_eq!(label_count(&ABT::Tm(t)), Some(10));
}

#[test]
fn sequence_counts_its_items() {
    let t = Term::Sequence(vec![ABT::Tm(Term::Int(1)), ABT::Tm(Term::Int(2))]);
    let (cmds, _, _) = compile(&t);
    assert_eq!(
        cmds,
        vec![IR::Value(Term::Int(1)), IR::Value(Term::Int(2)), IR::Sequence(2)]
    );
}

#[test]
fn application_calls_after_both_sides() {
    let t = Term::App(var("f"), var("x"));
    let (cmds, _, _) = compile(&t);
    assert_eq!(cmds, vec![IR::PushSym(sym("f", 0)), IR::PushSym(sym("x", 0)), IR::Call]);
}

#[test]
fn let_compiles_value_then_body() {
    let t = Term::Let(false, tm(Term::Int(5)), Box::new(ABT::Abs(sym("v", 2), var("v"))));
    let (cmds, _, _) = compile(&t);
    assert_eq!(
        cmds,
        vec![
            IR::Value(Term::Int(5)),
            IR::MarkBindings,
            IR::PopAndName(sym("v", 2)),
            IR::PushSym(sym("v", 0)),
            IR::PopBindings,
        ]
    );
}

#[test]
fn lambda_becomes_an_anonymous_function() {
    let t = Term::Lam(Box::new(ABT::Abs(sym("x", 1), tm(Term::If(var("x"), tm(Term::Int(1)), tm(Term::Int(2)))))));
    let (cmds, counter, ge) = compile(&t);
    assert_eq!(cmds, vec![IR::Fn(0)]);
    assert_eq!(counter, 0);
    assert_eq!(ge.anon_fns.len(), 1);
    assert_eq!(ge.anon_fns[0].0, "h".to_string());
    assert_eq!(ge.anon_fns[0].1[0], IR::MarkBindings);
    assert_eq!(ge.anon_fns[0].1[3], IR::If(1));
    assert!(well_labelled(&ge.anon_fns[0].1));
}

#[test]
fn nested_lambdas_are_numbered_inside_out() {
    let t = Term::Lam(tm(Term::App(tm(Term::Lam(var("y"))), tm(Term::Lam(var("z"))))));
    let (cmds, _, ge) = compile(&t);
    assert_eq!(cmds, vec![IR::Fn(2)]);
    assert_eq!(ge.anon_fns[0].1, vec![IR::PushSym(sym("y", 0))]);
    assert_eq!(ge.anon_fns[1].1, vec![IR::PushSym(sym("z", 0))]);
    assert_eq!(ge.anon_fns[2].1, vec![IR::Fn(0), IR::Fn(1), IR::Call]);
}

#[test]
fn cycle_binds_its_names_in_reverse() {
    let letrec = Term::LetRec(false, vec![tm(Term::Int(1)), tm(Term::Int(2))], var("f"));
    let cycle = ABT::Cycle(Box::new(ABT::Abs(sym("f", 0), Box::new(ABT::Abs(sym("g", 0), tm(letrec))))));
    let mut ge = GlobalEnv::new(Env::init("/r"));
    let mut cmds = IREnv::new("h".to_string());
    cycle.to_ir(&mut cmds, &mut ge);
    assert_eq!(
        cmds.cmds,
        vec![
            IR::Value(Term::Int(1)),
            IR::Value(Term::Int(2)),
            IR::Cycle(vec!["g".to_string(), "f".to_string()]),
            IR::PushSym(sym("f", 0)),
        ]
    );
}

#[test]
fn label_count_refuses_a_cycle_that_is_not_a_chain() {
    assert_eq!(label_count(&ABT::Cycle(var("x"))), None);
    let short = ABT::Cycle(Box::new(ABT::Abs(
        sym("f", 0),
        Box::new(ABT::Abs(sym("g", 0), tm(Term::LetRec(false, vec![tm(Term::Int(1))], var("f"))))),
    )));
    assert_eq!(label_count(&short), None);
}

#[test]
fn load_names_a_missing_term_and_changes_nothing() {
    let mut env = Env::init("/r");
    env.store("a", ABT::Tm(Term::App(tm(derived("b")), tm(Term::Int(1)))));
    let mut ge = GlobalEnv::new(env);
    assert_eq!(ge.load("a"), Some("b".to_string()));
    assert!(!ge.terms.contains_key("a"));
    assert_eq!(ge.anon_fns.len(), 0);
}

#[test]
fn load_compiles_every_term_reached() {
    let mut env = Env::init("/r");
    env.store("a", ABT::Tm(Term::App(tm(derived("b")), tm(Term::Int(1)))));
    env.store("b", ABT::Tm(Term::Int(7)));
    let mut ge = GlobalEnv::new(env);
    assert_eq!(ge.load("a"), None);
    assert_eq!(
        ge.terms.get("a"),
        Some(&vec![IR::Value(derived("b")), IR::Value(Term::Int(1)), IR::Call])
    );
    assert_eq!(ge.terms.get("b"), Some(&vec![IR::Value(Term::Int(7))]));
}

#[test]
fn a_term_that_refers_to_itself_is_compiled_once() {
    let mut env = Env::init("/r");
    env.store("a", ABT::Tm(Term::App(tm(derived("a")), tm(Term::Int(1)))));
    let mut ge = GlobalEnv::new(env);
    assert_eq!(ge.load("a"), None);
    assert_eq!(
        ge.terms.get("a"),
        Some(&vec![IR::Value(derived("a")), IR::Value(Term::Int(1)), IR::Call])
    );
}

#[test]
fn loading_twice_changes_nothing_the_second_time() {
    let mut env = Env::init("/r");
    env.store("a", ABT::Tm(Term::Lam(var("x"))));
    let mut ge = GlobalEnv::new(env);
    assert_eq!(ge.load("a"), None);
    let first = ge.terms.get("a").map(|v| v.len());
    assert_eq!(ge.anon_fns.len(), 1);
    assert_eq!(ge.load("a"), None);
    assert_eq!(ge.terms.get("a").map(|v| v.len()), first);
    assert_eq!(ge.anon_fns.len(), 1);
}

#[test]
fn loading_more_keeps_what_was_compiled() {
    let mut env = Env::init("/r");
    env.store("a", ABT::Tm(Term::Int(1)));
    env.store("b", ABT::Tm(Term::App(tm(derived("a")), tm(Term::Lam(var("q"))))));
    let mut ge = GlobalEnv::new(env);
    assert_eq!(ge.load("a"), None);
    assert_eq!(ge.load("b"), None);
    assert_eq!(ge.terms.get("a"), Some(&vec![IR::Value(Term::Int(1))]));
    assert_eq!(
        ge.terms.get("b"),
        Some(&vec![IR::Value(derived("a")), IR::Fn(0), IR::Call])
    );
}

#[test]
fn add_fn_gives_the_index_of_the_new_function() {
    let mut ge = GlobalEnv::new(Env::init("/r"));
    assert_eq!(ge.add_fn("h".to_string(), &ABT::Var(sym("x", 0))), 0);
    assert_eq!(ge.add_fn("h".to_string(), &ABT::Var(sym("x", 0))), 1);
    assert_eq!(ge.anon_fns.len(), 2);
    assert_eq!(ge.anon_fns[1].1, vec![IR::PushSym(sym("x", 0))]);
}

#[test]
fn load_follows_references_inside_lambdas_and_matches() {
    let mut env = Env::init("/r");
    env.store("a", ABT::Tm(Term::Lam(tm(derived("b")))));
    env.store(
        "b",
        ABT::Tm(Term::Match(
            tm(Term::Int(0)),
            vec![MatchCase(Pattern::Unbound, Some(tm(derived("c"))), tm(Term::Int(1)))],
        )),
    );
    env.store("c", ABT::Tm(Term::Boolean(true)));
    let mut ge = GlobalEnv::new(env);
    assert_eq!(ge.load("a"), None);
    assert!(ge.terms.contains_key("a"));
    assert!(ge.terms.contains_key("b"));
    assert!(ge.terms.contains_key("c"));
    assert_eq!(ge.anon_fns[0].1, vec![IR::Value(derived("b"))]);
    assert!(well_labelled(ge.terms.get("b").unwrap()));
}
