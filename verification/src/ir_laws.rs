//! What compiling promises of particular instructions: a cycle binds its
//! names in reverse, a reference or a literal pushes itself, and every
//! anonymous function is filed under the term it comes from.

use vstd::prelude::*;
use crate::ir::{IRV, IRState, GState, emit, bump, fresh, c_abt, c_term, c_seq, c_arms, c_load};
use crate::model::{AbtV, TermV, CaseV, RefV};
use crate::walk::{abt_size, term_size, abts_size, cases_size, unroll, lemma_unroll_size,
    lemma_abts_size_take};
use crate::labels::{kept, lemma_c_abt, lemma_c_term, lemma_c_seq, lemma_c_arms, lemma_c_load};

verus! {

/// Compiling a cycle pushes its values and then one `Cycle` instruction that
/// carries the names the cycle binds in reverse order of binding (the name
/// bound last, whose value is on top of the stack, comes first), for any
/// number of names.
pub proof fn law_cycle_names(
    inner: AbtV<TermV>,
    src: Map<Seq<char>, AbtV<TermV>>,
    fuel: nat,
    s: IRState,
    g: GState,
)
    requires
        unroll(inner) is Some,
        unroll(inner).unwrap().0.len() <= unroll(inner).unwrap().1.len(),
    ensures
        ({
            let names = unroll(inner).unwrap().0;
            let out = c_abt(AbtV::Cycle(Box::new(inner)), src, fuel, s, g).0;
            &&& exists|j: int|
                s.cmds.len() <= j < out.cmds.len() && #[trigger] out.cmds[j] == IRV::Cycle(
                    names.reverse(),
                )
            &&& forall|i: int| 0 <= i < names.len() ==> #[trigger] names.reverse()[i] == names[names.len()
                - 1 - i]
        }),
{
    let (names, values, body) = unroll(inner).unwrap();
    let k = names.len() as int;
    lemma_unroll_size(inner);
    lemma_abts_size_take(values, k);
    let bound = values.take(k);
    lemma_c_seq(bound, src, fuel, s, g);
    let (s1, g1) = c_seq(bound, src, fuel, s, g);
    let s1b = emit(s1, IRV::Cycle(names.reverse()));
    lemma_c_abt(body, src, fuel, s1b, g1);
    let out = c_abt(body, src, fuel, s1b, g1).0;
    let j = s1.cmds.len() as int;
    assert(c_abt(AbtV::Cycle(Box::new(inner)), src, fuel, s, g).0 == out);
    assert(s1b.cmds[j] == IRV::Cycle(names.reverse()));
    assert(out.cmds[j] == s1b.cmds[j]);
    assert(s.cmds.len() <= j < out.cmds.len());
    assert forall|i: int| 0 <= i < names.len() implies #[trigger] names.reverse()[i] == names[names.len()
        - 1 - i] by {
    }
}

/// A term with no parts to compile: a reference, a literal, or one that the
/// compiler pushes whole.
pub open spec fn pushed_whole(t: TermV) -> bool {
    !(t is App || t is Ann || t is Sequence || t is If || t is And || t is Or || t is Let
        || t is Match || t is Lam)
}

/// Compiling a reference (to a builtin or to any member of any stored cycle)
/// or a literal appends exactly one instruction, which pushes that very term,
/// and allocates no label.
pub proof fn law_pushes_itself(
    t: TermV,
    src: Map<Seq<char>, AbtV<TermV>>,
    fuel: nat,
    s: IRState,
    g: GState,
)
    requires
        pushed_whole(t),
    ensures
        c_term(t, src, fuel, s, g).0.cmds == s.cmds.push(IRV::Value(t)),
        c_term(t, src, fuel, s, g).0.counter == s.counter,
        c_term(t, src, fuel, s, g).0.term == s.term,
{
}

/// Compiling a reference to a stored term `h` compiles `h` (where it is not
/// compiled yet and there is fuel) and pushes the reference unchanged: same
/// hash, same position in its cycle, same cycle size.
pub proof fn law_reference(
    h: Seq<char>,
    pos: usize,
    size: usize,
    src: Map<Seq<char>, AbtV<TermV>>,
    fuel: nat,
    s: IRState,
    g: GState,
)
    ensures
        ({
            let t = TermV::Ref(RefV::Derived(h, pos, size));
            let (s2, g2) = c_term(t, src, fuel, s, g);
            &&& s2.cmds == s.cmds.push(IRV::Value(TermV::Ref(RefV::Derived(h, pos, size))))
            &&& fuel > 0 ==> g2.terms.contains_key(h)
            &&& g.terms.submap_of(g2.terms)
        }),
{
    lemma_c_load(h, src, fuel, g);
}

/// Every anonymous function added from `g` to `g2` is filed under `term` or
/// under a stored term that was compiled on the way.
pub open spec fn owned(g: GState, g2: GState, term: Seq<char>) -> bool {
    forall|k: int|
        g.anon.len() <= k < g2.anon.len() ==> (#[trigger] g2.anon[k]).0 == term || (
        g2.terms.contains_key(g2.anon[k].0) && !g.terms.contains_key(g2.anon[k].0))
}

/// Every anonymous function added from `g` to `g2` is filed under a stored
/// term that was compiled on the way.
pub open spec fn owned_by_new(g: GState, g2: GState) -> bool {
    forall|k: int|
        g.anon.len() <= k < g2.anon.len() ==> g2.terms.contains_key((#[trigger] g2.anon[k]).0)
            && !g.terms.contains_key(g2.anon[k].0)
}

proof fn lemma_owned_trans(g0: GState, g1: GState, g2: GState, term: Seq<char>)
    requires
        owned(g0, g1, term),
        owned(g1, g2, term),
        kept(g0, g1),
        kept(g1, g2),
    ensures
        owned(g0, g2, term),
{
    assert forall|k: int| g0.anon.len() <= k < g2.anon.len() implies (#[trigger] g2.anon[k]).0 == term
        || (g2.terms.contains_key(g2.anon[k].0) && !g0.terms.contains_key(g2.anon[k].0)) by {
        if k < g1.anon.len() {
            assert(g2.anon[k] == g1.anon[k]);
            let o = g1.anon[k].0;
            if o != term {
                assert(g1.terms.contains_key(o));
                assert(g1.terms.dom().contains(o));
                assert(g2.terms.dom().contains(o));
            }
        } else {
            let o = g2.anon[k].0;
            if o != term && g0.terms.contains_key(o) {
                assert(g0.terms.dom().contains(o));
                assert(g1.terms.dom().contains(o));
            }
        }
    }
}

/// Compiling a tree files every anonymous function it adds under the term
/// being compiled or under a stored term it compiled on the way.
pub proof fn law_owner_abt(
    a: AbtV<TermV>,
    src: Map<Seq<char>, AbtV<TermV>>,
    fuel: nat,
    s: IRState,
    g: GState,
)
    ensures
        owned(g, c_abt(a, src, fuel, s, g).1, s.term),
    decreases fuel, abt_size(a),
{
    match a {
        AbtV::Var(_) => {},
        AbtV::Tm(t) => {
            law_owner_term(t, src, fuel, s, g);
        },
        AbtV::Cycle(inner) => {
            match unroll(*inner) {
                Some((names, values, body)) => {
                    lemma_unroll_size(*inner);
                    if names.len() <= values.len() {
                        let k = names.len() as int;
                        lemma_abts_size_take(values, k);
                        let bound = values.take(k);
                        law_owner_seq(bound, src, fuel, s, g);
                        lemma_c_seq(bound, src, fuel, s, g);
                        let (s1, g1) = c_seq(bound, src, fuel, s, g);
                        let s1b = emit(s1, IRV::Cycle(names.reverse()));
                        law_owner_abt(body, src, fuel, s1b, g1);
                        lemma_c_abt(body, src, fuel, s1b, g1);
                        lemma_owned_trans(g, g1, c_abt(body, src, fuel, s1b, g1).1, s.term);
                    }
                },
                None => {},
            }
        },
        AbtV::Abs(name, body) => {
            law_owner_abt(
                *body,
                src,
                fuel,
                emit(emit(s, IRV::MarkBindings), IRV::PopAndName(name)),
                g,
            );
        },
    }
}

pub proof fn law_owner_seq(
    ts: Seq<AbtV<TermV>>,
    src: Map<Seq<char>, AbtV<TermV>>,
    fuel: nat,
    s: IRState,
    g: GState,
)
    ensures
        owned(g, c_seq(ts, src, fuel, s, g).1, s.term),
    decreases fuel, abts_size(ts),
{
    if ts.len() > 0 {
        law_owner_abt(ts[0], src, fuel, s, g);
        lemma_c_abt(ts[0], src, fuel, s, g);
        let (s1, g1) = c_abt(ts[0], src, fuel, s, g);
        let rest = ts.subrange(1, ts.len() as int);
        law_owner_seq(rest, src, fuel, s1, g1);
        lemma_c_seq(rest, src, fuel, s1, g1);
        lemma_owned_trans(g, g1, c_seq(rest, src, fuel, s1, g1).1, s.term);
    }
}

/// Two trees compiled one after the other.
proof fn lemma_owner_two(
    a: AbtV<TermV>,
    b: AbtV<TermV>,
    src: Map<Seq<char>, AbtV<TermV>>,
    fuel: nat,
    s: IRState,
    mid: spec_fn(IRState) -> IRState,
    g: GState,
)
    requires
        forall|x: IRState| #[trigger] mid(x).term == x.term,
    ensures
        ({
            let (s1, g1) = c_abt(a, src, fuel, s, g);
            owned(g, c_abt(b, src, fuel, mid(s1), g1).1, s.term) && kept(
                g,
                c_abt(b, src, fuel, mid(s1), g1).1,
            ) && s1.term == s.term
        }),
    decreases fuel, abt_size(a) + abt_size(b),
{
    law_owner_abt(a, src, fuel, s, g);
    lemma_c_abt(a, src, fuel, s, g);
    let (s1, g1) = c_abt(a, src, fuel, s, g);
    assert(mid(s1).term == s1.term);
    law_owner_abt(b, src, fuel, mid(s1), g1);
    lemma_c_abt(b, src, fuel, mid(s1), g1);
    let g2 = c_abt(b, src, fuel, mid(s1), g1).1;
    lemma_owned_trans(g, g1, g2, s.term);
    crate::labels::lemma_kept_trans(g, g1, g2);
}

pub proof fn law_owner_term(
    t: TermV,
    src: Map<Seq<char>, AbtV<TermV>>,
    fuel: nat,
    s: IRState,
    g: GState,
)
    ensures
        owned(g, c_term(t, src, fuel, s, g).1, s.term),
    decreases fuel, term_size(t),
{
    let c = s.counter;
    match t {
        TermV::Ref(RefV::Derived(h, _, _)) => {
            law_owner_load(h, src, fuel, g);
        },
        TermV::App(a, b) => {
            lemma_owner_two(*a, *b, src, fuel, s, |x: IRState| x, g);
        },
        TermV::Ann(a, _) => {
            law_owner_abt(*a, src, fuel, s, g);
        },
        TermV::Sequence(ts) => {
            law_owner_seq(ts, src, fuel, s, g);
        },
        TermV::If(cc, y, nn) => {
            let sb = bump(s, 2);
            lemma_owner_two(*cc, *y, src, fuel, sb, |x: IRState| emit(x, IRV::If(c + 1)), g);
            let (s1, g1) = c_abt(*cc, src, fuel, sb, g);
            lemma_c_abt(*cc, src, fuel, sb, g);
            let (s2, g2) = c_abt(*y, src, fuel, emit(s1, IRV::If(c + 1)), g1);
            lemma_c_abt(*y, src, fuel, emit(s1, IRV::If(c + 1)), g1);
            let s2e = emit(emit(s2, IRV::JumpTo(c + 2)), IRV::Mark(c + 1));
            law_owner_abt(*nn, src, fuel, s2e, g2);
            lemma_c_abt(*nn, src, fuel, s2e, g2);
            lemma_owned_trans(g, g2, c_abt(*nn, src, fuel, s2e, g2).1, s.term);
        },
        TermV::And(a, b) => {
            lemma_owner_two(*a, *b, src, fuel, bump(s, 2), |x: IRState| emit(x, IRV::If(c + 1)), g);
        },
        TermV::Or(a, b) => {
            lemma_owner_two(
                *a,
                *b,
                src,
                fuel,
                bump(s, 4),
                |x: IRState|
                    emit(emit(emit(x, IRV::If(c + 3)), IRV::JumpTo(c + 1)), IRV::Mark(c + 3)),
                g,
            );
        },
        TermV::Let(_, v, body) => {
            lemma_owner_two(*v, *body, src, fuel, s, |x: IRState| x, g);
        },
        TermV::Match(item, arms) => {
            let sb = bump(s, 1);
            law_owner_abt(*item, src, fuel, sb, g);
            lemma_c_abt(*item, src, fuel, sb, g);
            let (s1, g1) = c_abt(*item, src, fuel, sb, g);
            law_owner_arms(arms, c + 1, src, fuel, bump(s1, 1), g1);
            lemma_c_arms(arms, c + 1, src, fuel, bump(s1, 1), g1);
            lemma_owned_trans(g, g1, c_arms(arms, c + 1, src, fuel, bump(s1, 1), g1).1, s.term);
        },
        TermV::Lam(body) => {
            law_owner_abt(*body, src, fuel, fresh(s.term), g);
            lemma_c_abt(*body, src, fuel, fresh(s.term), g);
            let (sb, gb) = c_abt(*body, src, fuel, fresh(s.term), g);
            let g3 = GState { terms: gb.terms, anon: gb.anon.push((s.term, sb.cmds)) };
            assert forall|k: int| g.anon.len() <= k < g3.anon.len() implies (#[trigger] g3.anon[k]).0
                == s.term || (g3.terms.contains_key(g3.anon[k].0) && !g.terms.contains_key(
                g3.anon[k].0,
            )) by {
                if k < gb.anon.len() {
                    assert(g3.anon[k] == gb.anon[k]);
                }
            }
        },
        _ => {},
    }
}

pub proof fn law_owner_arms(
    arms: Seq<CaseV>,
    done: nat,
    src: Map<Seq<char>, AbtV<TermV>>,
    fuel: nat,
    s: IRState,
    g: GState,
)
    ensures
        owned(g, c_arms(arms, done, src, fuel, s, g).1, s.term),
    decreases fuel, cases_size(arms),
{
    if arms.len() > 0 {
        let arm = arms[0];
        let next = s.counter;
        let (s1, g1) = match arm.guard {
            None => (emit(emit(s, IRV::PatternMatch(arm.pattern, false)), IRV::If(next)), g),
            Some(cond) => {
                let sa = emit(
                    emit(emit(s, IRV::MarkStack), IRV::PatternMatch(arm.pattern, true)),
                    IRV::IfAndPopStack(next),
                );
                let (sb, gb) = c_abt(cond, src, fuel, sa, g);
                (emit(emit(sb, IRV::IfAndPopStack(next)), IRV::ClearStackMark), gb)
            },
        };
        assert(owned(g, g1, s.term) && kept(g, g1) && s1.term == s.term) by {
            match arm.guard {
                None => {
                    crate::labels::lemma_kept_refl(g);
                },
                Some(cond) => {
                    let sa = emit(
                        emit(emit(s, IRV::MarkStack), IRV::PatternMatch(arm.pattern, true)),
                        IRV::IfAndPopStack(next),
                    );
                    law_owner_abt(cond, src, fuel, sa, g);
                    lemma_c_abt(cond, src, fuel, sa, g);
                },
            }
        }
        law_owner_abt(arm.body, src, fuel, s1, g1);
        lemma_c_abt(arm.body, src, fuel, s1, g1);
        let (s2, g2) = c_abt(arm.body, src, fuel, s1, g1);
        lemma_owned_trans(g, g1, g2, s.term);
        crate::labels::lemma_kept_trans(g, g1, g2);
        let s3 = bump(emit(emit(s2, IRV::JumpTo(done)), IRV::Mark(next)), 1);
        let rest = arms.subrange(1, arms.len() as int);
        law_owner_arms(rest, done, src, fuel, s3, g2);
        lemma_c_arms(rest, done, src, fuel, s3, g2);
        lemma_owned_trans(g, g2, c_arms(rest, done, src, fuel, s3, g2).1, s.term);
    }
}

/// Compiling the stored term `h` (as `GlobalEnv::load` does) files every
/// anonymous function it adds under a stored term compiled in that call: `h`
/// itself for the lambdas of `h`'s own body.
pub proof fn law_owner_load(h: Seq<char>, src: Map<Seq<char>, AbtV<TermV>>, fuel: nat, g: GState)
    ensures
        owned_by_new(g, c_load(h, src, fuel, g)),
        forall|t: Seq<char>| owned(g, c_load(h, src, fuel, g), t),
    decreases fuel, 0nat,
{
    if !(g.terms.contains_key(h) || fuel == 0) {
        let g1 = GState { terms: g.terms.insert(h, Seq::empty()), anon: g.anon };
        law_owner_abt(src[h], src, (fuel - 1) as nat, fresh(h), g1);
        lemma_c_abt(src[h], src, (fuel - 1) as nat, fresh(h), g1);
        let (s, g2) = c_abt(src[h], src, (fuel - 1) as nat, fresh(h), g1);
        let g3 = GState { terms: g2.terms.insert(h, s.cmds), anon: g2.anon };
        assert forall|k: int| g.anon.len() <= k < g3.anon.len() implies g3.terms.contains_key(
            (#[trigger] g3.anon[k]).0,
        ) && !g.terms.contains_key(g3.anon[k].0) by {
            let o = g3.anon[k].0;
            if o != h {
                assert(g2.terms.contains_key(o) && !g1.terms.contains_key(o));
            }
        }
    }
}

} // verus!
