//! Compiling does not depend on the fuel, as long as the fuel covers the
//! stored terms that can still be met; so compiling the parts of a term in
//! separate calls gives what compiling the whole term gives.

use vstd::prelude::*;
use crate::ir::{IRV, IRState, GState, emit, bump, fresh, pending, c_abt, c_term, c_seq, c_arms,
    c_load};
use crate::model::{AbtV, TermV, CaseV, RefV, SymbolV};
use crate::walk::{abt_size, term_size, abts_size, cases_size, unroll, lemma_unroll_size,
    lemma_abts_size_take, refs, term_refs, abts_refs, cases_refs, lemma_abts_step, lemma_cases_step,
    lemma_refs_grow};
use crate::env::closed;
use crate::labels::{lemma_c_abt, lemma_c_seq};
use crate::sets::{lemma_diff_mono, lemma_diff_insert};

verus! {

/// The stored terms that can still be met are `vs`, closed under references
/// (up to what is compiled), and `fuel` covers those not compiled yet.
pub open spec fn enough(src: Map<Seq<char>, AbtV<TermV>>, vs: Set<Seq<char>>, g: GState, fuel: nat) -> bool {
    &&& vs.finite()
    &&& closed(src, vs, g.terms.dom(), true)
    &&& vs.difference(g.terms.dom()).len() <= fuel
}

/// Enough stays enough when more is compiled.
pub proof fn lemma_enough_grows(
    src: Map<Seq<char>, AbtV<TermV>>,
    vs: Set<Seq<char>>,
    g: GState,
    g2: GState,
    fuel: nat,
)
    requires
        enough(src, vs, g, fuel),
        g.terms.dom().subset_of(g2.terms.dom()),
    ensures
        enough(src, vs, g2, fuel),
{
    lemma_diff_mono(vs, g.terms.dom(), g2.terms.dom());
}

/// Compiling a tree gives the same with any two fuels that are enough.
pub proof fn lemma_fuel_abt(
    a: AbtV<TermV>,
    src: Map<Seq<char>, AbtV<TermV>>,
    f1: nat,
    f2: nat,
    s: IRState,
    g: GState,
    vs: Set<Seq<char>>,
)
    requires
        enough(src, vs, g, f1),
        enough(src, vs, g, f2),
        refs(a, true).subset_of(vs + g.terms.dom()),
    ensures
        c_abt(a, src, f1, s, g) == c_abt(a, src, f2, s, g),
    decreases f1, abt_size(a),
{
    match a {
        AbtV::Var(_) => {},
        AbtV::Tm(t) => {
            lemma_fuel_term(t, src, f1, f2, s, g, vs);
        },
        AbtV::Cycle(inner) => {
            match unroll(*inner) {
                Some((names, values, body)) => {
                    lemma_unroll_size(*inner);
                    if names.len() <= values.len() {
                        let k = names.len() as int;
                        lemma_abts_size_take(values, k);
                        let bound = values.take(k);
                        lemma_fuel_seq(bound, src, f1, f2, s, g, vs);
                        lemma_c_seq(bound, src, f1, s, g);
                        let (s1, g1) = c_seq(bound, src, f1, s, g);
                        lemma_enough_grows(src, vs, g, g1, f1);
                        lemma_enough_grows(src, vs, g, g1, f2);
                        lemma_refs_grow(refs(body, true), vs, g.terms.dom(), g1.terms.dom());
                        lemma_fuel_abt(body, src, f1, f2, emit(s1, IRV::Cycle(names.reverse())), g1, vs);
                    }
                },
                None => {},
            }
        },
        AbtV::Abs(name, body) => {
            lemma_fuel_abt(
                *body,
                src,
                f1,
                f2,
                emit(emit(s, IRV::MarkBindings), IRV::PopAndName(name)),
                g,
                vs,
            );
        },
    }
}

pub proof fn lemma_fuel_seq(
    ts: Seq<AbtV<TermV>>,
    src: Map<Seq<char>, AbtV<TermV>>,
    f1: nat,
    f2: nat,
    s: IRState,
    g: GState,
    vs: Set<Seq<char>>,
)
    requires
        enough(src, vs, g, f1),
        enough(src, vs, g, f2),
        abts_refs(ts, true).subset_of(vs + g.terms.dom()),
    ensures
        c_seq(ts, src, f1, s, g) == c_seq(ts, src, f2, s, g),
    decreases f1, abts_size(ts),
{
    if ts.len() > 0 {
        lemma_abts_step(ts, 0, true);
        assert(ts.subrange(0, ts.len() as int) =~= ts);
        lemma_fuel_abt(ts[0], src, f1, f2, s, g, vs);
        lemma_c_abt(ts[0], src, f1, s, g);
        let (s1, g1) = c_abt(ts[0], src, f1, s, g);
        let rest = ts.subrange(1, ts.len() as int);
        lemma_enough_grows(src, vs, g, g1, f1);
        lemma_enough_grows(src, vs, g, g1, f2);
        lemma_refs_grow(abts_refs(rest, true), vs, g.terms.dom(), g1.terms.dom());
        lemma_fuel_seq(rest, src, f1, f2, s1, g1, vs);
    }
}

/// Two trees one after the other, the second given what the first leaves.
proof fn lemma_fuel_two(
    a: AbtV<TermV>,
    b: AbtV<TermV>,
    src: Map<Seq<char>, AbtV<TermV>>,
    f1: nat,
    f2: nat,
    s: IRState,
    g: GState,
    vs: Set<Seq<char>>,
)
    requires
        enough(src, vs, g, f1),
        enough(src, vs, g, f2),
        refs(a, true).subset_of(vs + g.terms.dom()),
        refs(b, true).subset_of(vs + g.terms.dom()),
    ensures
        c_abt(a, src, f1, s, g) == c_abt(a, src, f2, s, g),
        ({
            let g1 = c_abt(a, src, f1, s, g).1;
            &&& enough(src, vs, g1, f1)
            &&& enough(src, vs, g1, f2)
            &&& refs(b, true).subset_of(vs + g1.terms.dom())
            &&& g.terms.dom().subset_of(g1.terms.dom())
        }),
    decreases f1, abt_size(a) + 1,
{
    lemma_fuel_abt(a, src, f1, f2, s, g, vs);
    lemma_c_abt(a, src, f1, s, g);
    let g1 = c_abt(a, src, f1, s, g).1;
    lemma_enough_grows(src, vs, g, g1, f1);
    lemma_enough_grows(src, vs, g, g1, f2);
    lemma_refs_grow(refs(b, true), vs, g.terms.dom(), g1.terms.dom());
}

pub proof fn lemma_fuel_term(
    t: TermV,
    src: Map<Seq<char>, AbtV<TermV>>,
    f1: nat,
    f2: nat,
    s: IRState,
    g: GState,
    vs: Set<Seq<char>>,
)
    requires
        enough(src, vs, g, f1),
        enough(src, vs, g, f2),
        term_refs(t, true).subset_of(vs + g.terms.dom()),
    ensures
        c_term(t, src, f1, s, g) == c_term(t, src, f2, s, g),
    decreases f1, term_size(t),
{
    let c = s.counter;
    match t {
        TermV::Ref(RefV::Derived(h, _, _)) => {
            assert(term_refs(t, true).contains(h));
            lemma_fuel_load(h, src, f1, f2, g, vs);
        },
        TermV::App(a, b) => {
            lemma_fuel_two(*a, *b, src, f1, f2, s, g, vs);
            let (s1, g1) = c_abt(*a, src, f1, s, g);
            lemma_fuel_abt(*b, src, f1, f2, s1, g1, vs);
        },
        TermV::Ann(a, _) => {
            lemma_fuel_abt(*a, src, f1, f2, s, g, vs);
        },
        TermV::Sequence(ts) => {
            lemma_fuel_seq(ts, src, f1, f2, s, g, vs);
        },
        TermV::If(cc, y, nn) => {
            let sb = bump(s, 2);
            lemma_fuel_two(*cc, *y, src, f1, f2, sb, g, vs);
            let (s1, g1) = c_abt(*cc, src, f1, sb, g);
            lemma_refs_grow(refs(*nn, true), vs, g.terms.dom(), g1.terms.dom());
            let s1e = emit(s1, IRV::If(c + 1));
            lemma_fuel_two(*y, *nn, src, f1, f2, s1e, g1, vs);
            let (s2, g2) = c_abt(*y, src, f1, s1e, g1);
            lemma_fuel_abt(
                *nn,
                src,
                f1,
                f2,
                emit(emit(s2, IRV::JumpTo(c + 2)), IRV::Mark(c + 1)),
                g2,
                vs,
            );
        },
        TermV::And(a, b) => {
            let sb = bump(s, 2);
            lemma_fuel_two(*a, *b, src, f1, f2, sb, g, vs);
            let (s1, g1) = c_abt(*a, src, f1, sb, g);
            lemma_fuel_abt(*b, src, f1, f2, emit(s1, IRV::If(c + 1)), g1, vs);
        },
        TermV::Or(a, b) => {
            let sb = bump(s, 4);
            lemma_fuel_two(*a, *b, src, f1, f2, sb, g, vs);
            let (s1, g1) = c_abt(*a, src, f1, sb, g);
            let s2 = emit(emit(emit(s1, IRV::If(c + 3)), IRV::JumpTo(c + 1)), IRV::Mark(c + 3));
            lemma_fuel_abt(*b, src, f1, f2, s2, g1, vs);
        },
        TermV::Let(_, v, body) => {
            lemma_fuel_two(*v, *body, src, f1, f2, s, g, vs);
            let (s1, g1) = c_abt(*v, src, f1, s, g);
            lemma_fuel_abt(*body, src, f1, f2, s1, g1, vs);
        },
        TermV::Match(item, arms) => {
            let sb = bump(s, 1);
            lemma_fuel_abt(*item, src, f1, f2, sb, g, vs);
            lemma_c_abt(*item, src, f1, sb, g);
            let (s1, g1) = c_abt(*item, src, f1, sb, g);
            lemma_enough_grows(src, vs, g, g1, f1);
            lemma_enough_grows(src, vs, g, g1, f2);
            lemma_refs_grow(cases_refs(arms, true), vs, g.terms.dom(), g1.terms.dom());
            lemma_fuel_arms(arms, c + 1, src, f1, f2, bump(s1, 1), g1, vs);
        },
        TermV::Lam(body) => {
            lemma_fuel_abt(*body, src, f1, f2, fresh(s.term), g, vs);
        },
        _ => {},
    }
}

pub proof fn lemma_fuel_arms(
    arms: Seq<CaseV>,
    done: nat,
    src: Map<Seq<char>, AbtV<TermV>>,
    f1: nat,
    f2: nat,
    s: IRState,
    g: GState,
    vs: Set<Seq<char>>,
)
    requires
        enough(src, vs, g, f1),
        enough(src, vs, g, f2),
        cases_refs(arms, true).subset_of(vs + g.terms.dom()),
    ensures
        c_arms(arms, done, src, f1, s, g) == c_arms(arms, done, src, f2, s, g),
    decreases f1, cases_size(arms),
{
    if arms.len() > 0 {
        lemma_cases_step(arms, 0, true);
        assert(arms.subrange(0, arms.len() as int) =~= arms);
        let arm = arms[0];
        let next = s.counter;
        let rest = arms.subrange(1, arms.len() as int);
        let (s1, g1) = match arm.guard {
            None => (emit(emit(s, IRV::PatternMatch(arm.pattern, false)), IRV::If(next)), g),
            Some(cond) => {
                let sa = emit(
                    emit(emit(s, IRV::MarkStack), IRV::PatternMatch(arm.pattern, true)),
                    IRV::IfAndPopStack(next),
                );
                let (sb, gb) = c_abt(cond, src, f1, sa, g);
                (emit(emit(sb, IRV::IfAndPopStack(next)), IRV::ClearStackMark), gb)
            },
        };
        let (s1b, g1b) = match arm.guard {
            None => (emit(emit(s, IRV::PatternMatch(arm.pattern, false)), IRV::If(next)), g),
            Some(cond) => {
                let sa = emit(
                    emit(emit(s, IRV::MarkStack), IRV::PatternMatch(arm.pattern, true)),
                    IRV::IfAndPopStack(next),
                );
                let (sb, gb) = c_abt(cond, src, f2, sa, g);
                (emit(emit(sb, IRV::IfAndPopStack(next)), IRV::ClearStackMark), gb)
            },
        };
        assert((s1, g1) == (s1b, g1b) && enough(src, vs, g1, f1) && enough(src, vs, g1, f2)
            && g.terms.dom().subset_of(g1.terms.dom())) by {
            match arm.guard {
                None => {},
                Some(cond) => {
                    let sa = emit(
                        emit(emit(s, IRV::MarkStack), IRV::PatternMatch(arm.pattern, true)),
                        IRV::IfAndPopStack(next),
                    );
                    lemma_fuel_abt(cond, src, f1, f2, sa, g, vs);
                    lemma_c_abt(cond, src, f1, sa, g);
                    let gb = c_abt(cond, src, f1, sa, g).1;
                    lemma_enough_grows(src, vs, g, gb, f1);
                    lemma_enough_grows(src, vs, g, gb, f2);
                },
            }
        }
        lemma_refs_grow(refs(arm.body, true), vs, g.terms.dom(), g1.terms.dom());
        lemma_fuel_abt(arm.body, src, f1, f2, s1, g1, vs);
        lemma_c_abt(arm.body, src, f1, s1, g1);
        let (s2, g2) = c_abt(arm.body, src, f1, s1, g1);
        lemma_enough_grows(src, vs, g1, g2, f1);
        lemma_enough_grows(src, vs, g1, g2, f2);
        lemma_refs_grow(cases_refs(rest, true), vs, g.terms.dom(), g2.terms.dom());
        let s3 = emit(emit(s2, IRV::JumpTo(done)), IRV::Mark(next));
        lemma_fuel_arms(rest, done, src, f1, f2, bump(s3, 1), g2, vs);
    }
}

pub proof fn lemma_fuel_load(
    h: Seq<char>,
    src: Map<Seq<char>, AbtV<TermV>>,
    f1: nat,
    f2: nat,
    g: GState,
    vs: Set<Seq<char>>,
)
    requires
        enough(src, vs, g, f1),
        enough(src, vs, g, f2),
        vs.contains(h) || g.terms.contains_key(h),
    ensures
        c_load(h, src, f1, g) == c_load(h, src, f2, g),
    decreases f1, 0nat,
{
    if !g.terms.contains_key(h) {
        lemma_diff_insert(vs, g.terms.dom(), h);
        let g1 = GState { terms: g.terms.insert(h, Seq::empty()), anon: g.anon };
        assert(g1.terms.dom() =~= g.terms.dom().insert(h));
        assert(enough(src, vs, g1, (f1 - 1) as nat));
        assert(enough(src, vs, g1, (f2 - 1) as nat));
        lemma_refs_grow(refs(src[h], true), vs, g.terms.dom(), g1.terms.dom());
        lemma_fuel_abt(src[h], src, (f1 - 1) as nat, (f2 - 1) as nat, fresh(h), g1, vs);
    }
}

/// The number of stored terms not compiled yet is enough for a closed set.
pub proof fn lemma_pending_enough(src: Map<Seq<char>, AbtV<TermV>>, vs: Set<Seq<char>>, g: GState)
    requires
        src.dom().finite(),
        closed(src, vs, g.terms.dom(), true),
    ensures
        enough(src, vs, g, pending(src, g)),
{
    vstd::set_lib::lemma_len_subset(vs, src.dom());
    vstd::set_lib::lemma_len_subset(vs.difference(g.terms.dom()), src.dom().difference(g.terms.dom()));
}

/// Compiling does not depend on the fuel: where the stored terms that can
/// be met are closed under references, compiling with the fuel a call starts
/// with (`pending`) gives what compiling with any other enough fuel gives.
pub proof fn law_fuel(
    a: AbtV<TermV>,
    src: Map<Seq<char>, AbtV<TermV>>,
    fuel: nat,
    s: IRState,
    g: GState,
    vs: Set<Seq<char>>,
)
    requires
        src.dom().finite(),
        closed(src, vs, g.terms.dom(), true),
        refs(a, true).subset_of(vs + g.terms.dom()),
        enough(src, vs, g, fuel),
    ensures
        c_abt(a, src, fuel, s, g) == c_abt(a, src, pending(src, g), s, g),
{
    lemma_pending_enough(src, vs, g);
    lemma_fuel_abt(a, src, fuel, pending(src, g), s, g, vs);
}

/// Compiling an application in one call gives what compiling its function,
/// then its argument, each in a call of its own, and then pushing `Call`
/// gives.
pub proof fn law_app_in_parts(
    a: AbtV<TermV>,
    b: AbtV<TermV>,
    src: Map<Seq<char>, AbtV<TermV>>,
    s: IRState,
    g: GState,
    vs: Set<Seq<char>>,
)
    requires
        src.dom().finite(),
        closed(src, vs, g.terms.dom(), true),
        refs(a, true).subset_of(vs + g.terms.dom()),
        refs(b, true).subset_of(vs + g.terms.dom()),
    ensures
        ({
            let (s1, g1) = c_abt(a, src, pending(src, g), s, g);
            let (s2, g2) = c_abt(b, src, pending(src, g1), s1, g1);
            c_term(TermV::App(Box::new(a), Box::new(b)), src, pending(src, g), s, g) == (
                emit(s2, IRV::Call),
                g2,
            )
        }),
{
    let f = pending(src, g);
    lemma_pending_enough(src, vs, g);
    lemma_c_abt(a, src, f, s, g);
    let (s1, g1) = c_abt(a, src, f, s, g);
    lemma_enough_grows(src, vs, g, g1, f);
    assert(closed(src, vs, g1.terms.dom(), true));
    lemma_pending_enough(src, vs, g1);
    lemma_refs_grow(refs(b, true), vs, g.terms.dom(), g1.terms.dom());
    lemma_fuel_abt(b, src, f, pending(src, g1), s1, g1, vs);
}

/// Compiling a `let` in one call gives what compiling its value, then its
/// body, each in a call of its own, gives.
pub proof fn law_let_in_parts(
    r: bool,
    v: AbtV<TermV>,
    body: AbtV<TermV>,
    src: Map<Seq<char>, AbtV<TermV>>,
    s: IRState,
    g: GState,
    vs: Set<Seq<char>>,
)
    requires
        src.dom().finite(),
        closed(src, vs, g.terms.dom(), true),
        refs(v, true).subset_of(vs + g.terms.dom()),
        refs(body, true).subset_of(vs + g.terms.dom()),
    ensures
        ({
            let (s1, g1) = c_abt(v, src, pending(src, g), s, g);
            c_term(TermV::Let(r, Box::new(v), Box::new(body)), src, pending(src, g), s, g)
                == c_abt(body, src, pending(src, g1), s1, g1)
        }),
{
    let f = pending(src, g);
    lemma_pending_enough(src, vs, g);
    lemma_c_abt(v, src, f, s, g);
    let (s1, g1) = c_abt(v, src, f, s, g);
    lemma_enough_grows(src, vs, g, g1, f);
    lemma_pending_enough(src, vs, g1);
    lemma_refs_grow(refs(body, true), vs, g.terms.dom(), g1.terms.dom());
    lemma_fuel_abt(body, src, f, pending(src, g1), s1, g1, vs);
}

/// Compiling an abstraction in one call gives what pushing `MarkBindings`
/// and `PopAndName`, compiling the body in a call of its own, and pushing
/// `PopBindings` gives.
pub proof fn law_abs_in_parts(
    name: SymbolV,
    body: AbtV<TermV>,
    src: Map<Seq<char>, AbtV<TermV>>,
    s: IRState,
    g: GState,
)
    ensures
        ({
            let sb = emit(emit(s, IRV::MarkBindings), IRV::PopAndName(name));
            let (s1, g1) = c_abt(body, src, pending(src, g), sb, g);
            c_abt(AbtV::Abs(name, Box::new(body)), src, pending(src, g), s, g) == (
                emit(s1, IRV::PopBindings),
                g1,
            )
        }),
{
}

} // verus!
