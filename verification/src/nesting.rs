//! Nesting in compiled bodies: the instructions that compiling a tree adds
//! close every scope of bindings and every stack mark they open, never close
//! one that is not open, and name a value only right after opening a scope.

use vstd::prelude::*;
use crate::ir::{IRV, IRState, GState, emit, bump, fresh, c_abt, c_term, c_seq, c_arms};
use crate::model::{AbtV, TermV, CaseV};
use crate::walk::{abt_size, term_size, abts_size, cases_size, unroll, lemma_unroll_size,
    lemma_abts_size_take};
use crate::labels::extends;

verus! {

/// What an instruction does to the depth of bindings scopes (`stack` false)
/// or of stack marks (`stack` true).
pub open spec fn delta(i: IRV, stack: bool) -> int {
    if stack {
        match i {
            IRV::MarkStack => 1,
            IRV::ClearStackMark => -1,
            _ => 0,
        }
    } else {
        match i {
            IRV::MarkBindings => 1,
            IRV::PopBindings => -1,
            _ => 0,
        }
    }
}

/// The depth after the instructions at indices in `[x, y)`.
#[verifier::opaque]
pub open spec fn depth(c: Seq<IRV>, x: int, y: int, stack: bool) -> int
    decreases y - x,
{
    if y <= x {
        0
    } else {
        depth(c, x, y - 1, stack) + delta(c[y - 1], stack)
    }
}

/// The instructions at indices in `[x, y)` end at depths `db` (bindings) and
/// `ds` (stack marks), are never below zero on the way, and name a value
/// only right after a bindings scope is opened.
pub open spec fn nests(c: Seq<IRV>, x: int, y: int, db: int, ds: int) -> bool {
    &&& x <= y
    &&& depth(c, x, y, false) == db
    &&& depth(c, x, y, true) == ds
    &&& forall|z: int| x <= z <= y ==> #[trigger] depth(c, x, z, false) >= 0
    &&& forall|z: int| x <= z <= y ==> #[trigger] depth(c, x, z, true) >= 0
    &&& forall|i: int| x <= i < y ==> #[trigger] named_after_scope(c, x, i)
}

/// Where the instruction at `i` names a value, the one before it (at or
/// after `x`) opens a bindings scope.
pub open spec fn named_after_scope(c: Seq<IRV>, x: int, i: int) -> bool {
    c[i] is PopAndName ==> x < i && c[i - 1] == IRV::MarkBindings
}

pub proof fn lemma_depth_prefix(c1: Seq<IRV>, c2: Seq<IRV>, x: int, z: int, stack: bool)
    requires
        extends(c1, c2),
        0 <= x,
        z <= c1.len(),
    ensures
        depth(c2, x, z, stack) == depth(c1, x, z, stack),
    decreases z - x,
{
    reveal(depth);
    if z > x {
        lemma_depth_prefix(c1, c2, x, z - 1, stack);
        assert(c2[z - 1] == c1[z - 1]);
    }
}

/// One instruction more.
pub proof fn lemma_depth_step(c: Seq<IRV>, x: int, y: int, stack: bool)
    requires
        x <= y,
    ensures
        depth(c, x, y + 1, stack) == depth(c, x, y, stack) + delta(c[y], stack),
{
    reveal(depth);
}

pub proof fn lemma_depth_split(c: Seq<IRV>, x: int, m: int, z: int, stack: bool)
    requires
        x <= m <= z,
    ensures
        depth(c, x, z, stack) == depth(c, x, m, stack) + depth(c, m, z, stack),
    decreases z - m,
{
    reveal(depth);
    if z > m {
        lemma_depth_split(c, x, m, z - 1, stack);
    }
}

/// Nothing added.
pub proof fn lemma_nests_none(c: Seq<IRV>, x: int)
    ensures
        nests(c, x, x, 0, 0),
{
    reveal(depth);
}

/// One more instruction.
pub proof fn lemma_nests_emit(s0: IRState, s1: IRState, i: IRV, db: int, ds: int)
    requires
        extends(s0.cmds, s1.cmds),
        nests(s1.cmds, s0.cmds.len() as int, s1.cmds.len() as int, db, ds),
        db + delta(i, false) >= 0,
        ds + delta(i, true) >= 0,
        i is PopAndName ==> s0.cmds.len() < s1.cmds.len() && s1.cmds.last() == IRV::MarkBindings,
    ensures
        extends(s0.cmds, emit(s1, i).cmds),
        nests(
            emit(s1, i).cmds,
            s0.cmds.len() as int,
            emit(s1, i).cmds.len() as int,
            db + delta(i, false),
            ds + delta(i, true),
        ),
{
    let c1 = s1.cmds;
    let c2 = emit(s1, i).cmds;
    let x = s0.cmds.len() as int;
    let m = c1.len() as int;
    assert(extends(c1, c2));
    assert forall|z: int|
        #![trigger depth(c2, x, z, false)]
        #![trigger depth(c2, x, z, true)]
        x <= z <= m + 1 implies depth(c2, x, z, false) >= 0 && depth(c2, x, z, true) >= 0 by {
        if z <= m {
            lemma_depth_prefix(c1, c2, x, z, false);
            lemma_depth_prefix(c1, c2, x, z, true);
        } else {
            lemma_depth_prefix(c1, c2, x, m, false);
            lemma_depth_prefix(c1, c2, x, m, true);
            lemma_depth_step(c2, x, m, false);
            lemma_depth_step(c2, x, m, true);
        }
    }
    lemma_depth_prefix(c1, c2, x, m, false);
    lemma_depth_prefix(c1, c2, x, m, true);
    lemma_depth_step(c2, x, m, false);
    lemma_depth_step(c2, x, m, true);
    assert(c2[m] == i);
    assert forall|k: int| x <= k < m + 1 implies #[trigger] named_after_scope(c2, x, k) by {
        if k < m {
            assert(named_after_scope(c1, x, k));
            assert(c2[k] == c1[k]);
            if x < k {
                assert(c2[k - 1] == c1[k - 1]);
            }
        } else if m > 0 {
            assert(c2[m - 1] == c1[m - 1]);
        }
    }
    assert(forall|i: int| 0 <= i < s0.cmds.len() ==> #[trigger] c2[i] == c1[i]);
    assert(depth(c2, x, m + 1, false) == db + delta(i, false));
    assert(depth(c2, x, m + 1, true) == ds + delta(i, true));
    assert(forall|z: int| x <= z <= m + 1 ==> #[trigger] depth(c2, x, z, false) >= 0);
    assert(forall|z: int| x <= z <= m + 1 ==> #[trigger] depth(c2, x, z, true) >= 0);
}

/// A balanced run after what was added.
pub proof fn lemma_nests_join(s0: IRState, s1: IRState, s2: IRState, db: int, ds: int)
    requires
        extends(s0.cmds, s1.cmds),
        extends(s1.cmds, s2.cmds),
        nests(s1.cmds, s0.cmds.len() as int, s1.cmds.len() as int, db, ds),
        nests(s2.cmds, s1.cmds.len() as int, s2.cmds.len() as int, 0, 0),
    ensures
        extends(s0.cmds, s2.cmds),
        nests(s2.cmds, s0.cmds.len() as int, s2.cmds.len() as int, db, ds),
{
    let c1 = s1.cmds;
    let c2 = s2.cmds;
    let x = s0.cmds.len() as int;
    let m = c1.len() as int;
    let y = c2.len() as int;
    assert forall|i: int| 0 <= i < s0.cmds.len() implies #[trigger] c2[i] == s0.cmds[i] by {
        assert(c2[i] == c1[i]);
    }
    lemma_depth_prefix(c1, c2, x, m, false);
    lemma_depth_prefix(c1, c2, x, m, true);
    lemma_depth_split(c2, x, m, y, false);
    lemma_depth_split(c2, x, m, y, true);
    assert(depth(c1, x, m, false) >= 0);
    assert(depth(c1, x, m, true) >= 0);
    assert forall|z: int|
        #![trigger depth(c2, x, z, false)]
        #![trigger depth(c2, x, z, true)]
        x <= z <= y implies depth(c2, x, z, false) >= 0 && depth(c2, x, z, true) >= 0 by {
        if z <= m {
            lemma_depth_prefix(c1, c2, x, z, false);
            lemma_depth_prefix(c1, c2, x, z, true);
        } else {
            lemma_depth_split(c2, x, m, z, false);
            lemma_depth_split(c2, x, m, z, true);
            assert(depth(c2, m, z, false) >= 0);
            assert(depth(c2, m, z, true) >= 0);
        }
    }
    assert forall|k: int| x <= k < y implies #[trigger] named_after_scope(c2, x, k) by {
        if k < m {
            assert(named_after_scope(c1, x, k));
            assert(c2[k] == c1[k]);
            if x < k {
                assert(c2[k - 1] == c1[k - 1]);
            }
        } else {
            assert(named_after_scope(c2, m, k));
        }
    }
    assert(depth(c2, x, y, false) == db);
    assert(depth(c2, x, y, true) == ds);
    assert(forall|z: int| x <= z <= y ==> #[trigger] depth(c2, x, z, false) >= 0);
    assert(forall|z: int| x <= z <= y ==> #[trigger] depth(c2, x, z, true) >= 0);
}

/// `s2` extends `s`, and what was added nests, ending at depths `db`, `ds`.
pub open spec fn nested(s: IRState, s2: IRState, db: int, ds: int) -> bool {
    &&& extends(s.cmds, s2.cmds)
    &&& nests(s2.cmds, s.cmds.len() as int, s2.cmds.len() as int, db, ds)
}

pub proof fn lemma_n_start(s: IRState)
    ensures
        nested(s, s, 0, 0),
{
    lemma_nests_none(s.cmds, s.cmds.len() as int);
}

pub proof fn lemma_n_emit(s0: IRState, s1: IRState, i: IRV, db: int, ds: int)
    requires
        nested(s0, s1, db, ds),
        db + delta(i, false) >= 0,
        ds + delta(i, true) >= 0,
        i is PopAndName ==> s0.cmds.len() < s1.cmds.len() && s1.cmds.last() == IRV::MarkBindings,
    ensures
        nested(s0, emit(s1, i), db + delta(i, false), ds + delta(i, true)),
{
    lemma_nests_emit(s0, s1, i, db, ds);
}

pub proof fn lemma_n_join(s0: IRState, s1: IRState, s2: IRState, db: int, ds: int)
    requires
        nested(s0, s1, db, ds),
        nested(s1, s2, 0, 0),
    ensures
        nested(s0, s2, db, ds),
{
    lemma_nests_join(s0, s1, s2, db, ds);
}

/// Compiling a tree adds instructions that nest: every bindings scope and
/// every stack mark opened is closed, none is closed before it is opened, and
/// a value is named only right after a bindings scope is opened.
pub proof fn lemma_n_abt(
    a: AbtV<TermV>,
    src: Map<Seq<char>, AbtV<TermV>>,
    fuel: nat,
    s: IRState,
    g: GState,
)
    ensures
        nested(s, c_abt(a, src, fuel, s, g).0, 0, 0),
    decreases fuel, abt_size(a),
{
    lemma_n_start(s);
    match a {
        AbtV::Var(sym) => {
            lemma_n_emit(s, s, IRV::PushSym(sym), 0, 0);
        },
        AbtV::Tm(t) => {
            lemma_n_term(t, src, fuel, s, g);
        },
        AbtV::Cycle(inner) => {
            match unroll(*inner) {
                Some((names, values, body)) => {
                    lemma_unroll_size(*inner);
                    if names.len() <= values.len() {
                        let k = names.len() as int;
                        lemma_abts_size_take(values, k);
                        let bound = values.take(k);
                        lemma_n_seq(bound, src, fuel, s, g);
                        let (s1, g1) = c_seq(bound, src, fuel, s, g);
                        let s1b = emit(s1, IRV::Cycle(names.reverse()));
                        lemma_n_emit(s, s1, IRV::Cycle(names.reverse()), 0, 0);
                        lemma_n_abt(body, src, fuel, s1b, g1);
                        lemma_n_join(s, s1b, c_abt(body, src, fuel, s1b, g1).0, 0, 0);
                    }
                },
                None => {},
            }
        },
        AbtV::Abs(name, body) => {
            let sa = emit(s, IRV::MarkBindings);
            let sb = emit(sa, IRV::PopAndName(name));
            lemma_n_emit(s, s, IRV::MarkBindings, 0, 0);
            lemma_n_emit(s, sa, IRV::PopAndName(name), 1, 0);
            lemma_n_abt(*body, src, fuel, sb, g);
            let s1 = c_abt(*body, src, fuel, sb, g).0;
            lemma_n_join(s, sb, s1, 1, 0);
            lemma_n_emit(s, s1, IRV::PopBindings, 1, 0);
        },
    }
}

pub proof fn lemma_n_seq(
    ts: Seq<AbtV<TermV>>,
    src: Map<Seq<char>, AbtV<TermV>>,
    fuel: nat,
    s: IRState,
    g: GState,
)
    ensures
        nested(s, c_seq(ts, src, fuel, s, g).0, 0, 0),
    decreases fuel, abts_size(ts),
{
    lemma_n_start(s);
    if ts.len() > 0 {
        lemma_n_abt(ts[0], src, fuel, s, g);
        let (s1, g1) = c_abt(ts[0], src, fuel, s, g);
        let rest = ts.subrange(1, ts.len() as int);
        lemma_n_seq(rest, src, fuel, s1, g1);
        lemma_n_join(s, s1, c_seq(rest, src, fuel, s1, g1).0, 0, 0);
    }
}

pub proof fn lemma_n_term(
    t: TermV,
    src: Map<Seq<char>, AbtV<TermV>>,
    fuel: nat,
    s: IRState,
    g: GState,
)
    ensures
        nested(s, c_term(t, src, fuel, s, g).0, 0, 0),
    decreases fuel, term_size(t),
{
    lemma_n_start(s);
    let c = s.counter;
    match t {
        TermV::App(a, b) => {
            lemma_n_abt(*a, src, fuel, s, g);
            let (s1, g1) = c_abt(*a, src, fuel, s, g);
            lemma_n_abt(*b, src, fuel, s1, g1);
            let s2 = c_abt(*b, src, fuel, s1, g1).0;
            lemma_n_join(s, s1, s2, 0, 0);
            lemma_n_emit(s, s2, IRV::Call, 0, 0);
        },
        TermV::Ann(a, _) => {
            lemma_n_abt(*a, src, fuel, s, g);
        },
        TermV::Sequence(ts) => {
            lemma_n_seq(ts, src, fuel, s, g);
            let s1 = c_seq(ts, src, fuel, s, g).0;
            lemma_n_emit(s, s1, IRV::Sequence(ts.len()), 0, 0);
        },
        TermV::If(cc, y, nn) => {
            let sb = bump(s, 2);
            lemma_n_abt(*cc, src, fuel, sb, g);
            let (s1, g1) = c_abt(*cc, src, fuel, sb, g);
            lemma_n_join(s, sb, s1, 0, 0);
            let s1e = emit(s1, IRV::If(c + 1));
            lemma_n_emit(s, s1, IRV::If(c + 1), 0, 0);
            lemma_n_abt(*y, src, fuel, s1e, g1);
            let (s2, g2) = c_abt(*y, src, fuel, s1e, g1);
            lemma_n_join(s, s1e, s2, 0, 0);
            let s2a = emit(s2, IRV::JumpTo(c + 2));
            lemma_n_emit(s, s2, IRV::JumpTo(c + 2), 0, 0);
            let s2e = emit(s2a, IRV::Mark(c + 1));
            lemma_n_emit(s, s2a, IRV::Mark(c + 1), 0, 0);
            lemma_n_abt(*nn, src, fuel, s2e, g2);
            let s3 = c_abt(*nn, src, fuel, s2e, g2).0;
            lemma_n_join(s, s2e, s3, 0, 0);
            lemma_n_emit(s, s3, IRV::Mark(c + 2), 0, 0);
        },
        TermV::And(a, b) => {
            let sb = bump(s, 2);
            lemma_n_abt(*a, src, fuel, sb, g);
            let (s1, g1) = c_abt(*a, src, fuel, sb, g);
            lemma_n_join(s, sb, s1, 0, 0);
            let s1e = emit(s1, IRV::If(c + 1));
            lemma_n_emit(s, s1, IRV::If(c + 1), 0, 0);
            lemma_n_abt(*b, src, fuel, s1e, g1);
            let s2 = c_abt(*b, src, fuel, s1e, g1).0;
            lemma_n_join(s, s1e, s2, 0, 0);
            let s3a = emit(s2, IRV::If(c + 1));
            lemma_n_emit(s, s2, IRV::If(c + 1), 0, 0);
            let s3 = emit(s3a, IRV::Value(TermV::Boolean(true)));
            lemma_n_emit(s, s3a, IRV::Value(TermV::Boolean(true)), 0, 0);
            let s4a = emit(s3, IRV::JumpTo(c + 2));
            lemma_n_emit(s, s3, IRV::JumpTo(c + 2), 0, 0);
            let s4 = emit(s4a, IRV::Mark(c + 1));
            lemma_n_emit(s, s4a, IRV::Mark(c + 1), 0, 0);
            let s5 = emit(s4, IRV::Value(TermV::Boolean(false)));
            lemma_n_emit(s, s4, IRV::Value(TermV::Boolean(false)), 0, 0);
            lemma_n_emit(s, s5, IRV::Mark(c + 2), 0, 0);
        },
        TermV::Or(a, b) => {
            let sb = bump(s, 4);
            lemma_n_abt(*a, src, fuel, sb, g);
            let (s1, g1) = c_abt(*a, src, fuel, sb, g);
            lemma_n_join(s, sb, s1, 0, 0);
            let s2a = emit(s1, IRV::If(c + 3));
            lemma_n_emit(s, s1, IRV::If(c + 3), 0, 0);
            let s2b = emit(s2a, IRV::JumpTo(c + 1));
            lemma_n_emit(s, s2a, IRV::JumpTo(c + 1), 0, 0);
            let s2 = emit(s2b, IRV::Mark(c + 3));
            lemma_n_emit(s, s2b, IRV::Mark(c + 3), 0, 0);
            lemma_n_abt(*b, src, fuel, s2, g1);
            let s3 = c_abt(*b, src, fuel, s2, g1).0;
            lemma_n_join(s, s2, s3, 0, 0);
            let s4a = emit(s3, IRV::If(c + 2));
            lemma_n_emit(s, s3, IRV::If(c + 2), 0, 0);
            let s4 = emit(s4a, IRV::Mark(c + 1));
            lemma_n_emit(s, s4a, IRV::Mark(c + 1), 0, 0);
            let s5a = emit(s4, IRV::Value(TermV::Boolean(true)));
            lemma_n_emit(s, s4, IRV::Value(TermV::Boolean(true)), 0, 0);
            let s5 = emit(s5a, IRV::JumpTo(c + 4));
            lemma_n_emit(s, s5a, IRV::JumpTo(c + 4), 0, 0);
            let s6a = emit(s5, IRV::Mark(c + 2));
            lemma_n_emit(s, s5, IRV::Mark(c + 2), 0, 0);
            let s6 = emit(s6a, IRV::Value(TermV::Boolean(false)));
            lemma_n_emit(s, s6a, IRV::Value(TermV::Boolean(false)), 0, 0);
            lemma_n_emit(s, s6, IRV::Mark(c + 4), 0, 0);
        },
        TermV::Let(_, v, body) => {
            lemma_n_abt(*v, src, fuel, s, g);
            let (s1, g1) = c_abt(*v, src, fuel, s, g);
            lemma_n_abt(*body, src, fuel, s1, g1);
            lemma_n_join(s, s1, c_abt(*body, src, fuel, s1, g1).0, 0, 0);
        },
        TermV::Match(item, arms) => {
            let sb = bump(s, 1);
            lemma_n_abt(*item, src, fuel, sb, g);
            let (s1, g1) = c_abt(*item, src, fuel, sb, g);
            lemma_n_join(s, sb, s1, 0, 0);
            let sb2 = bump(s1, 1);
            lemma_n_arms(arms, c + 1, src, fuel, sb2, g1);
            let s2 = c_arms(arms, c + 1, src, fuel, sb2, g1).0;
            lemma_n_join(s, sb2, s2, 0, 0);
            let s3a = emit(s2, IRV::PatternMatchFail);
            lemma_n_emit(s, s2, IRV::PatternMatchFail, 0, 0);
            let s3b = emit(s3a, IRV::Mark(c + 1));
            lemma_n_emit(s, s3a, IRV::Mark(c + 1), 0, 0);
            lemma_n_emit(s, s3b, IRV::PopUpOne, 0, 0);
        },
        TermV::Lam(body) => {
            let gb = c_abt(*body, src, fuel, fresh(s.term), g).1;
            lemma_n_emit(s, s, IRV::Fn(gb.anon.len()), 0, 0);
        },
        TermV::Ref(crate::model::RefV::Derived(h, _, _)) => {
            lemma_n_emit(s, s, IRV::Value(t), 0, 0);
        },
        _ => {
            lemma_n_emit(s, s, IRV::Value(t), 0, 0);
        },
    }
}

pub proof fn lemma_n_arms(
    arms: Seq<CaseV>,
    done: nat,
    src: Map<Seq<char>, AbtV<TermV>>,
    fuel: nat,
    s: IRState,
    g: GState,
)
    ensures
        nested(s, c_arms(arms, done, src, fuel, s, g).0, 0, 0),
    decreases fuel, cases_size(arms),
{
    lemma_n_start(s);
    if arms.len() > 0 {
        let arm = arms[0];
        let next = s.counter;
        let (s1, g1) = match arm.guard {
            None => (emit(emit(s, IRV::PatternMatch(arm.pattern, false)), IRV::If(next)), g),
            Some(cond) => {
                let sa = emit(
                    emit(emit(s, IRV::MarkStack), IRV::PatternMatch(arm.pattern, true)),
                    IRV::IfAndPopStack(next),
                );
                let (sb, gb) = c_abt(cond, src, fuel, sa, g);
                (emit(emit(sb, IRV::IfAndPopStack(next)), IRV::ClearStackMark), gb)
            },
        };
        assert(nested(s, s1, 0, 0)) by {
            match arm.guard {
                None => {
                    let sa = emit(s, IRV::PatternMatch(arm.pattern, false));
                    lemma_n_emit(s, s, IRV::PatternMatch(arm.pattern, false), 0, 0);
                    lemma_n_emit(s, sa, IRV::If(next), 0, 0);
                },
                Some(cond) => {
                    let sa1 = emit(s, IRV::MarkStack);
                    let sa2 = emit(sa1, IRV::PatternMatch(arm.pattern, true));
                    let sa = emit(sa2, IRV::IfAndPopStack(next));
                    lemma_n_emit(s, s, IRV::MarkStack, 0, 0);
                    lemma_n_emit(s, sa1, IRV::PatternMatch(arm.pattern, true), 0, 1);
                    lemma_n_emit(s, sa2, IRV::IfAndPopStack(next), 0, 1);
                    lemma_n_abt(cond, src, fuel, sa, g);
                    let sb = c_abt(cond, src, fuel, sa, g).0;
                    lemma_n_join(s, sa, sb, 0, 1);
                    let sc = emit(sb, IRV::IfAndPopStack(next));
                    lemma_n_emit(s, sb, IRV::IfAndPopStack(next), 0, 1);
                    lemma_n_emit(s, sc, IRV::ClearStackMark, 0, 1);
                },
            }
        }
        lemma_n_abt(arm.body, src, fuel, s1, g1);
        let (s2, g2) = c_abt(arm.body, src, fuel, s1, g1);
        lemma_n_join(s, s1, s2, 0, 0);
        let s3a = emit(s2, IRV::JumpTo(done));
        lemma_n_emit(s, s2, IRV::JumpTo(done), 0, 0);
        let s3 = emit(s3a, IRV::Mark(next));
        lemma_n_emit(s, s3a, IRV::Mark(next), 0, 0);
        let sb3 = bump(s3, 1);
        let rest = arms.subrange(1, arms.len() as int);
        lemma_n_arms(rest, done, src, fuel, sb3, g2);
        lemma_n_join(s, sb3, c_arms(rest, done, src, fuel, sb3, g2).0, 0, 0);
    }
}

} // verus!
