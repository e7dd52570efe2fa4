//! Labels in compiled bodies: every label is marked at most once, every jump
//! goes to a label that its body marks further on, and every anonymous
//! function that a body pushes exists.

use vstd::prelude::*;
use crate::ir::{IRV, IRState, GState, emit, bump, fresh, c_abt, c_term, c_seq, c_arms, c_load};
use crate::model::{AbtV, TermV, CaseV, RefV};
use crate::walk::{abt_size, term_size, abts_size, cases_size, unroll, lemma_unroll_size,
    lemma_abts_size_take, marks, term_marks, abts_marks, cases_marks};

verus! {

/// The label that an instruction jumps to.
pub open spec fn target_of(i: IRV) -> Option<nat> {
    match i {
        IRV::If(n) => Some(n),
        IRV::JumpTo(n) => Some(n),
        IRV::IfAndPopStack(n) => Some(n),
        _ => None,
    }
}

/// The labels `lo < k <= hi`.
pub open spec fn iv(lo: int, hi: int) -> Set<nat> {
    Set::new(|k: nat| lo < k <= hi)
}

/// `b` begins with `a`.
pub open spec fn extends(a: Seq<IRV>, b: Seq<IRV>) -> bool {
    &&& a.len() <= b.len()
    &&& forall|i: int| 0 <= i < a.len() ==> #[trigger] b[i] == a[i]
}

/// Every label marked at an index in `[x, y)` is in `labels`.
pub open spec fn marks_in(c: Seq<IRV>, x: int, y: int, labels: Set<nat>) -> bool {
    forall|i: int| #![trigger c[i]] x <= i < y && c[i] is Mark ==> labels.contains(c[i]->Mark_0)
}

/// No label is marked twice at indices in `[x, y)`.
pub open spec fn uniq(c: Seq<IRV>, x: int, y: int) -> bool {
    forall|i: int, j: int|
        #![trigger c[i], c[j]]
        x <= i < y && x <= j < y && c[i] is Mark && c[i] == c[j] ==> i == j
}

/// The label `n` is marked at an index in `[x, y)`.
pub open spec fn marked(c: Seq<IRV>, x: int, y: int, n: nat) -> bool {
    exists|j: int| x <= j < y && #[trigger] c[j] == IRV::Mark(n)
}

/// Every jump at an index in `[x, y)` goes to a label in `ext` or to one
/// marked after it, before `y`.
pub open spec fn resolved(c: Seq<IRV>, x: int, y: int, ext: Set<nat>) -> bool {
    forall|i: int|
        #![trigger c[i]]
        x <= i < y && target_of(c[i]) is Some ==> ext.contains(target_of(c[i])->0) || marked(
            c,
            i + 1,
            y,
            target_of(c[i])->0,
        )
}

/// Every anonymous function pushed at an index in `[x, y)` is below `n`.
pub open spec fn fns_below(c: Seq<IRV>, x: int, y: int, n: nat) -> bool {
    forall|i: int| #![trigger c[i]] x <= i < y && c[i] is Fn ==> c[i]->Fn_0 < n
}

/// A body that marks no label twice, jumps only forward to labels it marks,
/// and pushes only the first `n` anonymous functions.
pub open spec fn body_ok(c: Seq<IRV>, n: nat) -> bool {
    &&& uniq(c, 0, c.len() as int)
    &&& resolved(c, 0, c.len() as int, Set::empty())
    &&& fns_below(c, 0, c.len() as int, n)
}

/// Every compiled body, of a stored term or of an anonymous function, is
/// well labelled and pushes only functions that exist.
pub open spec fn bodies_ok(g: GState) -> bool {
    &&& forall|h: Seq<char>| #[trigger] g.terms.contains_key(h) ==> body_ok(g.terms[h], g.anon.len())
    &&& forall|k: int| 0 <= k < g.anon.len() ==> body_ok(#[trigger] g.anon[k].1, g.anon.len())
}

/// What went from `s` to `s2`: `s2` extends `s`, and the instructions added
/// mark labels in `labels`, each at most once, jump forward to labels they
/// mark or to `ext`, and push functions below `n`.
pub open spec fn emitted(s: IRState, s2: IRState, labels: Set<nat>, n: nat, ext: Set<nat>) -> bool {
    let x = s.cmds.len() as int;
    let y = s2.cmds.len() as int;
    &&& s2.term == s.term
    &&& extends(s.cmds, s2.cmds)
    &&& marks_in(s2.cmds, x, y, labels)
    &&& uniq(s2.cmds, x, y)
    &&& resolved(s2.cmds, x, y, ext)
    &&& fns_below(s2.cmds, x, y, n)
}

/// Compiled terms stay as they are, anonymous functions are only added, and
/// well-labelled bodies stay so.
pub open spec fn kept(g: GState, g2: GState) -> bool {
    &&& g.terms.submap_of(g2.terms)
    &&& g.anon.len() <= g2.anon.len()
    &&& forall|k: int| 0 <= k < g.anon.len() ==> #[trigger] g2.anon[k] == g.anon[k]
    &&& bodies_ok(g) ==> bodies_ok(g2)
}

pub proof fn lemma_kept_refl(g: GState)
    ensures
        kept(g, g),
{
}

pub proof fn lemma_kept_trans(g0: GState, g1: GState, g2: GState)
    requires
        kept(g0, g1),
        kept(g1, g2),
    ensures
        kept(g0, g2),
{
    assert forall|k: int| 0 <= k < g0.anon.len() implies #[trigger] g2.anon[k] == g0.anon[k] by {
        assert(g2.anon[k] == g1.anon[k]);
    }
    assert forall|h: Seq<char>| #[trigger] g0.terms.contains_key(h) implies g2.terms.contains_key(h)
        && g2.terms[h] == g0.terms[h] by {
        assert(g1.terms.contains_key(h));
    }
}

/// A body stays well labelled when more functions exist.
pub proof fn lemma_body_more(c: Seq<IRV>, n: nat, n2: nat)
    requires
        body_ok(c, n),
        n <= n2,
    ensures
        body_ok(c, n2),
{
}

/// Nothing added.
pub proof fn lemma_emitted_none(s: IRState, n: nat)
    ensures
        emitted(s, s, Set::empty(), n, Set::empty()),
{
}

/// Nothing added to the instructions while labels are allocated.
pub proof fn lemma_emitted_bump(s: IRState, s2: IRState, n: nat)
    requires
        s2.term == s.term,
        s2.cmds == s.cmds,
    ensures
        emitted(s, s2, Set::empty(), n, Set::empty()),
{
}

/// One instruction added.
pub proof fn lemma_emitted_one(s: IRState, i: IRV, labels: Set<nat>, n: nat, ext: Set<nat>)
    requires
        i is Mark ==> labels.contains(i->Mark_0),
        target_of(i) is Some ==> ext.contains(target_of(i)->0),
        i is Fn ==> i->Fn_0 < n,
    ensures
        emitted(s, emit(s, i), labels, n, ext),
{
    let s2 = emit(s, i);
    let x = s.cmds.len() as int;
    assert(s2.cmds[x] == i);
}

/// What was added in two steps, where the labels marked in each are apart.
pub proof fn lemma_emitted_join(
    s0: IRState,
    s1: IRState,
    s2: IRState,
    l0: Set<nat>,
    l1: Set<nat>,
    n0: nat,
    n1: nat,
    e0: Set<nat>,
    e1: Set<nat>,
)
    requires
        emitted(s0, s1, l0, n0, e0),
        emitted(s1, s2, l1, n1, e1),
        l0.disjoint(l1),
        n0 <= n1,
    ensures
        emitted(s0, s2, l0 + l1, n1, e0 + e1),
{
    let c1 = s1.cmds;
    let c2 = s2.cmds;
    let x = s0.cmds.len() as int;
    let m = c1.len() as int;
    let y = c2.len() as int;
    assert forall|i: int| 0 <= i < s0.cmds.len() implies #[trigger] c2[i] == s0.cmds[i] by {
        assert(c2[i] == c1[i]);
    }
    assert forall|i: int| #![trigger c2[i]] x <= i < y && c2[i] is Mark implies (l0 + l1).contains(
        c2[i]->Mark_0,
    ) by {
        if i < m {
            assert(c2[i] == c1[i]);
        }
    }
    assert forall|i: int, j: int|
        #![trigger c2[i], c2[j]]
        x <= i < y && x <= j < y && c2[i] is Mark && c2[i] == c2[j] implies i == j by {
        if i < m {
            assert(c2[i] == c1[i]);
        }
        if j < m {
            assert(c2[j] == c1[j]);
        }
        if i < m && j >= m {
            assert(l0.contains(c2[i]->Mark_0));
            assert(l1.contains(c2[j]->Mark_0));
        }
        if j < m && i >= m {
            assert(l0.contains(c2[j]->Mark_0));
            assert(l1.contains(c2[i]->Mark_0));
        }
    }
    assert forall|i: int|
        #![trigger c2[i]]
        x <= i < y && target_of(c2[i]) is Some implies (e0 + e1).contains(target_of(c2[i])->0)
        || marked(c2, x, y, target_of(c2[i])->0) by {
        let t = target_of(c2[i])->0;
        if i < m {
            assert(c2[i] == c1[i]);
            if !e0.contains(t) {
                let j = choose|j: int| i + 1 <= j < m && #[trigger] c1[j] == IRV::Mark(t);
                assert(c2[j] == c1[j]);
            }
        }
    }
    assert forall|i: int| #![trigger c2[i]] x <= i < y && c2[i] is Fn implies c2[i]->Fn_0 < n1 by {
        if i < m {
            assert(c2[i] == c1[i]);
        }
    }
}

/// Fewer demands: more labels allowed, more functions, more outside labels.
pub proof fn lemma_emitted_weaken(
    s: IRState,
    s2: IRState,
    l: Set<nat>,
    l2: Set<nat>,
    n: nat,
    n2: nat,
    e: Set<nat>,
    e2: Set<nat>,
)
    requires
        emitted(s, s2, l, n, e),
        l.subset_of(l2),
        n <= n2,
        e.subset_of(e2),
    ensures
        emitted(s, s2, l2, n2, e2),
{
}

/// Where the instruction added last marks `k`, the jumps to `k` before it
/// are resolved.
pub proof fn lemma_close_last(
    s: IRState,
    s2: IRState,
    l: Set<nat>,
    n: nat,
    e: Set<nat>,
    e2: Set<nat>,
    k: nat,
)
    requires
        emitted(s, s2, l, n, e),
        s.cmds.len() < s2.cmds.len(),
        s2.cmds.last() == IRV::Mark(k),
        forall|j: nat| e.contains(j) && !e2.contains(j) ==> j == k,
    ensures
        emitted(s, s2, l, n, e2),
{
    let c = s2.cmds;
    let x = s.cmds.len() as int;
    let y = c.len() as int;
    assert forall|i: int|
        #![trigger c[i]]
        x <= i < y && target_of(c[i]) is Some implies e2.contains(target_of(c[i])->0) || marked(
            c,
            i + 1,
            y,
            target_of(c[i])->0,
        ) by {
        let t = target_of(c[i])->0;
        if !e2.contains(t) && e.contains(t) {
            assert(i != y - 1);
            assert(c[y - 1] == IRV::Mark(t));
        }
    }
}

/// A body built from nothing.
pub proof fn lemma_emitted_body(s: IRState, s2: IRState, l: Set<nat>, n: nat)
    requires
        s.cmds.len() == 0,
        emitted(s, s2, l, n, Set::empty()),
    ensures
        body_ok(s2.cmds, n),
{
}

/// A new body is kept with the others.
pub proof fn lemma_bodies_insert(g: GState, h: Seq<char>, c: Seq<IRV>)
    requires
        bodies_ok(g),
        body_ok(c, g.anon.len()),
    ensures
        bodies_ok(GState { terms: g.terms.insert(h, c), anon: g.anon }),
{
}

/// A new anonymous function is kept with the others.
pub proof fn lemma_bodies_push(g: GState, h: Seq<char>, c: Seq<IRV>)
    requires
        bodies_ok(g),
        body_ok(c, g.anon.len()),
    ensures
        bodies_ok(GState { terms: g.terms, anon: g.anon.push((h, c)) }),
{
    let g2 = GState { terms: g.terms, anon: g.anon.push((h, c)) };
    assert forall|h2: Seq<char>| #[trigger] g2.terms.contains_key(h2) implies body_ok(
        g2.terms[h2],
        g2.anon.len(),
    ) by {
        lemma_body_more(g.terms[h2], g.anon.len(), g2.anon.len());
    }
    assert forall|k: int| 0 <= k < g2.anon.len() implies body_ok(#[trigger] g2.anon[k].1, g2.anon.len()) by {
        if k < g.anon.len() {
            assert(g2.anon[k] == g.anon[k]);
            lemma_body_more(g.anon[k].1, g.anon.len(), g2.anon.len());
        } else {
            lemma_body_more(c, g.anon.len(), g2.anon.len());
        }
    }
}

/// One more instruction after what was added.
pub proof fn lemma_then(
    s0: IRState,
    s1: IRState,
    i: IRV,
    l0: Set<nat>,
    li: Set<nat>,
    l: Set<nat>,
    n: nat,
    e0: Set<nat>,
    ei: Set<nat>,
    e: Set<nat>,
)
    requires
        emitted(s0, s1, l0, n, e0),
        i is Mark ==> li.contains(i->Mark_0),
        target_of(i) is Some ==> ei.contains(target_of(i)->0),
        i is Fn ==> i->Fn_0 < n,
        l0.disjoint(li),
        (l0 + li).subset_of(l),
        (e0 + ei).subset_of(e),
    ensures
        emitted(s0, emit(s1, i), l, n, e),
{
    lemma_emitted_one(s1, i, li, n, ei);
    lemma_emitted_join(s0, s1, emit(s1, i), l0, li, n, n, e0, ei);
    lemma_emitted_weaken(s0, emit(s1, i), l0 + li, l, n, n, e0 + ei, e);
}

/// What was added in two steps, stated with wider bounds.
pub proof fn lemma_join_to(
    s0: IRState,
    s1: IRState,
    s2: IRState,
    l0: Set<nat>,
    l1: Set<nat>,
    l: Set<nat>,
    n0: nat,
    n1: nat,
    e0: Set<nat>,
    e1: Set<nat>,
    e: Set<nat>,
)
    requires
        emitted(s0, s1, l0, n0, e0),
        emitted(s1, s2, l1, n1, e1),
        l0.disjoint(l1),
        n0 <= n1,
        (l0 + l1).subset_of(l),
        (e0 + e1).subset_of(e),
    ensures
        emitted(s0, s2, l, n1, e),
{
    lemma_emitted_join(s0, s1, s2, l0, l1, n0, n1, e0, e1);
    lemma_emitted_weaken(s0, s2, l0 + l1, l, n1, n1, e0 + e1, e);
}

/// Compiling a tree adds a well-labelled run of instructions whose labels
/// are those it allocates, and keeps every compiled body well labelled.
pub proof fn lemma_c_abt(
    a: AbtV<TermV>,
    src: Map<Seq<char>, AbtV<TermV>>,
    fuel: nat,
    s: IRState,
    g: GState,
)
    ensures
        ({
            let (s2, g2) = c_abt(a, src, fuel, s, g);
            &&& s2.counter == s.counter + marks(a)
            &&& emitted(s, s2, iv(s.counter as int, s2.counter as int), g2.anon.len(), Set::empty())
            &&& kept(g, g2)
        }),
    decreases fuel, abt_size(a),
{
    let c = s.counter as int;
    match a {
        AbtV::Var(sym) => {
            lemma_emitted_one(s, IRV::PushSym(sym), Set::empty(), g.anon.len(), Set::empty());
        },
        AbtV::Tm(t) => {
            lemma_c_term(t, src, fuel, s, g);
        },
        AbtV::Cycle(inner) => {
            match unroll(*inner) {
                Some((names, values, body)) => {
                    lemma_unroll_size(*inner);
                    if names.len() <= values.len() {
                        let k = names.len() as int;
                        lemma_abts_size_take(values, k);
                        let bound = values.take(k);
                        lemma_c_seq(bound, src, fuel, s, g);
                        let (s1, g1) = c_seq(bound, src, fuel, s, g);
                        let c1 = s1.counter as int;
                        let s1b = emit(s1, IRV::Cycle(names.reverse()));
                        lemma_then(
                            s,
                            s1,
                            IRV::Cycle(names.reverse()),
                            iv(c, c1),
                            Set::empty(),
                            iv(c, c1),
                            g1.anon.len(),
                            Set::empty(),
                            Set::empty(),
                            Set::empty(),
                        );
                        lemma_c_abt(body, src, fuel, s1b, g1);
                        let (s2, g2) = c_abt(body, src, fuel, s1b, g1);
                        let c2 = s2.counter as int;
                        lemma_join_to(
                            s,
                            s1b,
                            s2,
                            iv(c, c1),
                            iv(c1, c2),
                            iv(c, c2),
                            g1.anon.len(),
                            g2.anon.len(),
                            Set::empty(),
                            Set::empty(),
                            Set::empty(),
                        );
                        lemma_kept_trans(g, g1, g2);
                    }
                },
                None => {},
            }
        },
        AbtV::Abs(name, body) => {
            let n0 = g.anon.len();
            let sa = emit(s, IRV::MarkBindings);
            let sb = emit(sa, IRV::PopAndName(name));
            lemma_emitted_one(s, IRV::MarkBindings, Set::empty(), n0, Set::empty());
            lemma_then(
                s,
                sa,
                IRV::PopAndName(name),
                Set::empty(),
                Set::empty(),
                Set::empty(),
                n0,
                Set::empty(),
                Set::empty(),
                Set::empty(),
            );
            lemma_c_abt(*body, src, fuel, sb, g);
            let (s1, g1) = c_abt(*body, src, fuel, sb, g);
            let c1 = s1.counter as int;
            lemma_join_to(
                s,
                sb,
                s1,
                Set::empty(),
                iv(c, c1),
                iv(c, c1),
                n0,
                g1.anon.len(),
                Set::empty(),
                Set::empty(),
                Set::empty(),
            );
            lemma_then(
                s,
                s1,
                IRV::PopBindings,
                iv(c, c1),
                Set::empty(),
                iv(c, c1),
                g1.anon.len(),
                Set::empty(),
                Set::empty(),
                Set::empty(),
            );
        },
    }
}

/// Compiling a term: as for a tree.
pub proof fn lemma_c_term(
    t: TermV,
    src: Map<Seq<char>, AbtV<TermV>>,
    fuel: nat,
    s: IRState,
    g: GState,
)
    ensures
        ({
            let (s2, g2) = c_term(t, src, fuel, s, g);
            &&& s2.counter == s.counter + term_marks(t)
            &&& emitted(s, s2, iv(s.counter as int, s2.counter as int), g2.anon.len(), Set::empty())
            &&& kept(g, g2)
        }),
    decreases fuel, term_size(t),
{
    let c = s.counter as int;
    let n0 = g.anon.len();
    let none = Set::<nat>::empty();
    match t {
        TermV::Ref(RefV::Derived(h, _, _)) => {
            lemma_c_load(h, src, fuel, g);
            let gl = c_load(h, src, fuel, g);
            lemma_emitted_one(s, IRV::Value(t), iv(c, c), gl.anon.len(), none);
        },
        TermV::App(a, b) => {
            lemma_c_abt(*a, src, fuel, s, g);
            let (s1, g1) = c_abt(*a, src, fuel, s, g);
            let c1 = s1.counter as int;
            lemma_c_abt(*b, src, fuel, s1, g1);
            let (s2, g2) = c_abt(*b, src, fuel, s1, g1);
            let c2 = s2.counter as int;
            lemma_join_to(s, s1, s2, iv(c, c1), iv(c1, c2), iv(c, c2), g1.anon.len(), g2.anon.len(), none, none, none);
            lemma_then(s, s2, IRV::Call, iv(c, c2), none, iv(c, c2), g2.anon.len(), none, none, none);
            lemma_kept_trans(g, g1, g2);
        },
        TermV::Ann(a, _) => {
            lemma_c_abt(*a, src, fuel, s, g);
        },
        TermV::Sequence(ts) => {
            lemma_c_seq(ts, src, fuel, s, g);
            let (s1, g1) = c_seq(ts, src, fuel, s, g);
            let c1 = s1.counter as int;
            lemma_then(s, s1, IRV::Sequence(ts.len()), iv(c, c1), none, iv(c, c1), g1.anon.len(), none, none, none);
        },
        TermV::If(cc, y, nn) => {
            let no = (c + 1) as nat;
            let done = (c + 2) as nat;
            let sb = bump(s, 2);
            lemma_emitted_bump(s, sb, n0);
            lemma_c_abt(*cc, src, fuel, sb, g);
            let (s1, g1) = c_abt(*cc, src, fuel, sb, g);
            let c1 = s1.counter as int;
            lemma_join_to(s, sb, s1, none, iv(c + 2, c1), iv(c + 2, c1), n0, g1.anon.len(), none, none, none);
            let s1e = emit(s1, IRV::If(no));
            lemma_then(s, s1, IRV::If(no), iv(c + 2, c1), none, iv(c + 2, c1), g1.anon.len(), none, set![no], set![no]);
            lemma_c_abt(*y, src, fuel, s1e, g1);
            let (s2, g2) = c_abt(*y, src, fuel, s1e, g1);
            let c2 = s2.counter as int;
            lemma_join_to(s, s1e, s2, iv(c + 2, c1), iv(c1, c2), iv(c + 2, c2), g1.anon.len(), g2.anon.len(), set![no], none, set![no]);
            let s2a = emit(s2, IRV::JumpTo(done));
            lemma_then(s, s2, IRV::JumpTo(done), iv(c + 2, c2), none, iv(c + 2, c2), g2.anon.len(), set![no], set![done], set![no, done]);
            let s2e = emit(s2a, IRV::Mark(no));
            lemma_then(s, s2a, IRV::Mark(no), iv(c + 2, c2), set![no], iv(c + 2, c2).insert(no), g2.anon.len(), set![no, done], none, set![no, done]);
            lemma_close_last(s, s2e, iv(c + 2, c2).insert(no), g2.anon.len(), set![no, done], set![done], no);
            lemma_c_abt(*nn, src, fuel, s2e, g2);
            let (s3, g3) = c_abt(*nn, src, fuel, s2e, g2);
            let c3 = s3.counter as int;
            lemma_join_to(s, s2e, s3, iv(c + 2, c2).insert(no), iv(c2, c3), iv(c + 2, c3).insert(no), g2.anon.len(), g3.anon.len(), set![done], none, set![done]);
            let sf = emit(s3, IRV::Mark(done));
            lemma_then(s, s3, IRV::Mark(done), iv(c + 2, c3).insert(no), set![done], iv(c, c3), g3.anon.len(), set![done], none, set![done]);
            lemma_close_last(s, sf, iv(c, c3), g3.anon.len(), set![done], none, done);
            lemma_kept_trans(g, g1, g2);
            lemma_kept_trans(g, g2, g3);
        },
        TermV::And(a, b) => {
            let fail = (c + 1) as nat;
            let done = (c + 2) as nat;
            let sb = bump(s, 2);
            lemma_emitted_bump(s, sb, n0);
            lemma_c_abt(*a, src, fuel, sb, g);
            let (s1, g1) = c_abt(*a, src, fuel, sb, g);
            let c1 = s1.counter as int;
            lemma_join_to(s, sb, s1, none, iv(c + 2, c1), iv(c + 2, c1), n0, g1.anon.len(), none, none, none);
            let s1e = emit(s1, IRV::If(fail));
            lemma_then(s, s1, IRV::If(fail), iv(c + 2, c1), none, iv(c + 2, c1), g1.anon.len(), none, set![fail], set![fail]);
            lemma_c_abt(*b, src, fuel, s1e, g1);
            let (s2, g2) = c_abt(*b, src, fuel, s1e, g1);
            let c2 = s2.counter as int;
            let n2 = g2.anon.len();
            lemma_join_to(s, s1e, s2, iv(c + 2, c1), iv(c1, c2), iv(c + 2, c2), g1.anon.len(), n2, set![fail], none, set![fail]);
            let s3a = emit(s2, IRV::If(fail));
            lemma_then(s, s2, IRV::If(fail), iv(c + 2, c2), none, iv(c + 2, c2), n2, set![fail], set![fail], set![fail]);
            let s3 = emit(s3a, IRV::Value(TermV::Boolean(true)));
            lemma_then(s, s3a, IRV::Value(TermV::Boolean(true)), iv(c + 2, c2), none, iv(c + 2, c2), n2, set![fail], none, set![fail]);
            let s4a = emit(s3, IRV::JumpTo(done));
            lemma_then(s, s3, IRV::JumpTo(done), iv(c + 2, c2), none, iv(c + 2, c2), n2, set![fail], set![done], set![fail, done]);
            let s4 = emit(s4a, IRV::Mark(fail));
            lemma_then(s, s4a, IRV::Mark(fail), iv(c + 2, c2), set![fail], iv(c + 2, c2).insert(fail), n2, set![fail, done], none, set![fail, done]);
            lemma_close_last(s, s4, iv(c + 2, c2).insert(fail), n2, set![fail, done], set![done], fail);
            let s5a = emit(s4, IRV::Value(TermV::Boolean(false)));
            lemma_then(s, s4, IRV::Value(TermV::Boolean(false)), iv(c + 2, c2).insert(fail), none, iv(c + 2, c2).insert(fail), n2, set![done], none, set![done]);
            let sf = emit(s5a, IRV::Mark(done));
            lemma_then(s, s5a, IRV::Mark(done), iv(c + 2, c2).insert(fail), set![done], iv(c, c2), n2, set![done], none, set![done]);
            lemma_close_last(s, sf, iv(c, c2), n2, set![done], none, done);
            lemma_kept_trans(g, g1, g2);
        },
        TermV::Or(a, b) => {
            let good = (c + 1) as nat;
            let fail = (c + 2) as nat;
            let bt = (c + 3) as nat;
            let done = (c + 4) as nat;
            let sb = bump(s, 4);
            lemma_emitted_bump(s, sb, n0);
            lemma_c_abt(*a, src, fuel, sb, g);
            let (s1, g1) = c_abt(*a, src, fuel, sb, g);
            let c1 = s1.counter as int;
            let n1 = g1.anon.len();
            lemma_join_to(s, sb, s1, none, iv(c + 4, c1), iv(c + 4, c1), n0, n1, none, none, none);
            let s2a = emit(s1, IRV::If(bt));
            lemma_then(s, s1, IRV::If(bt), iv(c + 4, c1), none, iv(c + 4, c1), n1, none, set![bt], set![bt]);
            let s2b = emit(s2a, IRV::JumpTo(good));
            lemma_then(s, s2a, IRV::JumpTo(good), iv(c + 4, c1), none, iv(c + 4, c1), n1, set![bt], set![good], set![bt, good]);
            let s2 = emit(s2b, IRV::Mark(bt));
            lemma_then(s, s2b, IRV::Mark(bt), iv(c + 4, c1), set![bt], iv(c + 4, c1).insert(bt), n1, set![bt, good], none, set![bt, good]);
            lemma_close_last(s, s2, iv(c + 4, c1).insert(bt), n1, set![bt, good], set![good], bt);
            lemma_c_abt(*b, src, fuel, s2, g1);
            let (s3, g3) = c_abt(*b, src, fuel, s2, g1);
            let c3 = s3.counter as int;
            let n3 = g3.anon.len();
            let l3 = iv(c + 4, c3).insert(bt);
            lemma_join_to(s, s2, s3, iv(c + 4, c1).insert(bt), iv(c1, c3), l3, n1, n3, set![good], none, set![good]);
            let s4a = emit(s3, IRV::If(fail));
            lemma_then(s, s3, IRV::If(fail), l3, none, l3, n3, set![good], set![fail], set![good, fail]);
            let s4 = emit(s4a, IRV::Mark(good));
            lemma_then(s, s4a, IRV::Mark(good), l3, set![good], l3.insert(good), n3, set![good, fail], none, set![good, fail]);
            lemma_close_last(s, s4, l3.insert(good), n3, set![good, fail], set![fail], good);
            let s5a = emit(s4, IRV::Value(TermV::Boolean(true)));
            lemma_then(s, s4, IRV::Value(TermV::Boolean(true)), l3.insert(good), none, l3.insert(good), n3, set![fail], none, set![fail]);
            let s5 = emit(s5a, IRV::JumpTo(done));
            lemma_then(s, s5a, IRV::JumpTo(done), l3.insert(good), none, l3.insert(good), n3, set![fail], set![done], set![fail, done]);
            let s6a = emit(s5, IRV::Mark(fail));
            lemma_then(s, s5, IRV::Mark(fail), l3.insert(good), set![fail], l3.insert(good).insert(fail), n3, set![fail, done], none, set![fail, done]);
            lemma_close_last(s, s6a, l3.insert(good).insert(fail), n3, set![fail, done], set![done], fail);
            let s6 = emit(s6a, IRV::Value(TermV::Boolean(false)));
            lemma_then(s, s6a, IRV::Value(TermV::Boolean(false)), l3.insert(good).insert(fail), none, l3.insert(good).insert(fail), n3, set![done], none, set![done]);
            let sf = emit(s6, IRV::Mark(done));
            lemma_then(s, s6, IRV::Mark(done), l3.insert(good).insert(fail), set![done], iv(c, c3), n3, set![done], none, set![done]);
            lemma_close_last(s, sf, iv(c, c3), n3, set![done], none, done);
            lemma_kept_trans(g, g1, g3);
        },
        TermV::Let(_, v, body) => {
            lemma_c_abt(*v, src, fuel, s, g);
            let (s1, g1) = c_abt(*v, src, fuel, s, g);
            let c1 = s1.counter as int;
            lemma_c_abt(*body, src, fuel, s1, g1);
            let (s2, g2) = c_abt(*body, src, fuel, s1, g1);
            let c2 = s2.counter as int;
            lemma_join_to(s, s1, s2, iv(c, c1), iv(c1, c2), iv(c, c2), g1.anon.len(), g2.anon.len(), none, none, none);
            lemma_kept_trans(g, g1, g2);
        },
        TermV::Match(item, arms) => {
            let done = (c + 1) as nat;
            let sb = bump(s, 1);
            lemma_emitted_bump(s, sb, n0);
            lemma_c_abt(*item, src, fuel, sb, g);
            let (s1, g1) = c_abt(*item, src, fuel, sb, g);
            let c1 = s1.counter as int;
            let n1 = g1.anon.len();
            lemma_join_to(s, sb, s1, none, iv(c + 1, c1), iv(c + 1, c1), n0, n1, none, none, none);
            let sb2 = bump(s1, 1);
            lemma_emitted_bump(s1, sb2, n1);
            lemma_join_to(s, s1, sb2, iv(c + 1, c1), none, iv(c + 1, c1), n1, n1, none, none, none);
            lemma_c_arms(arms, done, src, fuel, sb2, g1);
            let (s2, g2) = c_arms(arms, done, src, fuel, sb2, g1);
            let c2 = s2.counter as int;
            let n2 = g2.anon.len();
            lemma_join_to(s, sb2, s2, iv(c + 1, c1), iv(c1, c2 - 1), iv(c + 1, c2 - 1), n1, n2, none, set![done], set![done]);
            let s3a = emit(s2, IRV::PatternMatchFail);
            lemma_then(s, s2, IRV::PatternMatchFail, iv(c + 1, c2 - 1), none, iv(c + 1, c2 - 1), n2, set![done], none, set![done]);
            let s3b = emit(s3a, IRV::Mark(done));
            lemma_then(s, s3a, IRV::Mark(done), iv(c + 1, c2 - 1), set![done], iv(c, c2), n2, set![done], none, set![done]);
            lemma_close_last(s, s3b, iv(c, c2), n2, set![done], none, done);
            lemma_then(s, s3b, IRV::PopUpOne, iv(c, c2), none, iv(c, c2), n2, none, none, none);
            lemma_kept_trans(g, g1, g2);
        },
        TermV::Lam(body) => {
            lemma_c_abt(*body, src, fuel, fresh(s.term), g);
            let (sb, gb) = c_abt(*body, src, fuel, fresh(s.term), g);
            let v = gb.anon.len();
            let g3 = GState { terms: gb.terms, anon: gb.anon.push((s.term, sb.cmds)) };
            lemma_emitted_one(s, IRV::Fn(v), iv(c, c), v + 1, none);
            if bodies_ok(gb) {
                lemma_emitted_body(fresh(s.term), sb, iv(0, sb.counter as int), v);
                lemma_bodies_push(gb, s.term, sb.cmds);
            }
            lemma_kept_trans(g, gb, g3);
        },
        _ => {
            lemma_emitted_one(s, IRV::Value(t), iv(c, c), n0, none);
        },
    }
}

/// Compiling the arms of a match: the labels are the one allocated before
/// (`s.counter`) and those allocated on the way but the last; jumps go
/// within or to `done`.
pub proof fn lemma_c_arms(
    arms: Seq<CaseV>,
    done: nat,
    src: Map<Seq<char>, AbtV<TermV>>,
    fuel: nat,
    s: IRState,
    g: GState,
)
    ensures
        ({
            let (s2, g2) = c_arms(arms, done, src, fuel, s, g);
            &&& s2.counter == s.counter + cases_marks(arms)
            &&& emitted(
                s,
                s2,
                iv(s.counter - 1, s2.counter - 1),
                g2.anon.len(),
                set![done],
            )
            &&& kept(g, g2)
        }),
    decreases fuel, cases_size(arms),
{
    let c = s.counter as int;
    let n0 = g.anon.len();
    let none = Set::<nat>::empty();
    if arms.len() == 0 {
        lemma_emitted_none(s, n0);
        lemma_emitted_weaken(s, s, none, iv(c - 1, c - 1), n0, n0, none, set![done]);
    } else {
        let arm = arms[0];
        let next = s.counter;
        let (s1, g1) = match arm.guard {
            None => (emit(emit(s, IRV::PatternMatch(arm.pattern, false)), IRV::If(next)), g),
            Some(cond) => {
                let sa = emit(
                    emit(emit(s, IRV::MarkStack), IRV::PatternMatch(arm.pattern, true)),
                    IRV::IfAndPopStack(next),
                );
                let (sb, gb) = c_abt(cond, src, fuel, sa, g);
                (emit(emit(sb, IRV::IfAndPopStack(next)), IRV::ClearStackMark), gb)
            },
        };
        let c1 = s1.counter as int;
        let n1 = g1.anon.len();
        let gm: nat = match arm.guard {
            Some(cond) => marks(cond),
            None => 0,
        };
        assert(c1 == c + gm && emitted(s, s1, iv(c, c1), n1, set![next]) && kept(g, g1)) by {
            match arm.guard {
                None => {
                    let sa = emit(s, IRV::PatternMatch(arm.pattern, false));
                    lemma_emitted_one(s, IRV::PatternMatch(arm.pattern, false), none, n0, none);
                    lemma_then(s, sa, IRV::If(next), none, none, iv(c, c1), n0, none, set![next], set![next]);
                },
                Some(cond) => {
                    let sa1 = emit(s, IRV::MarkStack);
                    let sa2 = emit(sa1, IRV::PatternMatch(arm.pattern, true));
                    let sa = emit(sa2, IRV::IfAndPopStack(next));
                    lemma_emitted_one(s, IRV::MarkStack, none, n0, none);
                    lemma_then(s, sa1, IRV::PatternMatch(arm.pattern, true), none, none, none, n0, none, none, none);
                    lemma_then(s, sa2, IRV::IfAndPopStack(next), none, none, none, n0, none, set![next], set![next]);
                    lemma_c_abt(cond, src, fuel, sa, g);
                    let (sb, gb) = c_abt(cond, src, fuel, sa, g);
                    let cb = sb.counter as int;
                    lemma_join_to(s, sa, sb, none, iv(c, cb), iv(c, cb), n0, gb.anon.len(), set![next], none, set![next]);
                    let sc = emit(sb, IRV::IfAndPopStack(next));
                    lemma_then(s, sb, IRV::IfAndPopStack(next), iv(c, cb), none, iv(c, cb), gb.anon.len(), set![next], set![next], set![next]);
                    lemma_then(s, sc, IRV::ClearStackMark, iv(c, cb), none, iv(c, cb), gb.anon.len(), set![next], none, set![next]);
                },
            }
        }
        lemma_c_abt(arm.body, src, fuel, s1, g1);
        let (s2, g2) = c_abt(arm.body, src, fuel, s1, g1);
        let c2 = s2.counter as int;
        let n2 = g2.anon.len();
        lemma_join_to(s, s1, s2, iv(c, c1), iv(c1, c2), iv(c, c2), n1, n2, set![next], none, set![next]);
        let s3a = emit(s2, IRV::JumpTo(done));
        lemma_then(s, s2, IRV::JumpTo(done), iv(c, c2), none, iv(c, c2), n2, set![next], set![done], set![next, done]);
        let s3 = emit(s3a, IRV::Mark(next));
        lemma_then(s, s3a, IRV::Mark(next), iv(c, c2), set![next], iv(c - 1, c2), n2, set![next, done], none, set![next, done]);
        lemma_close_last(s, s3, iv(c - 1, c2), n2, set![next, done], set![done], next);
        let sb3 = bump(s3, 1);
        lemma_emitted_bump(s3, sb3, n2);
        lemma_join_to(s, s3, sb3, iv(c - 1, c2), none, iv(c - 1, c2), n2, n2, set![done], none, set![done]);
        let rest = arms.subrange(1, arms.len() as int);
        lemma_c_arms(rest, done, src, fuel, sb3, g2);
        let (s4, g4) = c_arms(rest, done, src, fuel, sb3, g2);
        let c4 = s4.counter as int;
        let n4 = g4.anon.len();
        lemma_join_to(s, sb3, s4, iv(c - 1, c2), iv(c2, c4 - 1), iv(c - 1, c4 - 1), n2, n4, set![done], set![done], set![done]);
        lemma_kept_trans(g, g1, g2);
        lemma_kept_trans(g, g2, g4);
    }
}

/// Compiling a sequence of trees, first to last.
pub proof fn lemma_c_seq(
    ts: Seq<AbtV<TermV>>,
    src: Map<Seq<char>, AbtV<TermV>>,
    fuel: nat,
    s: IRState,
    g: GState,
)
    ensures
        ({
            let (s2, g2) = c_seq(ts, src, fuel, s, g);
            &&& s2.counter == s.counter + abts_marks(ts)
            &&& emitted(s, s2, iv(s.counter as int, s2.counter as int), g2.anon.len(), Set::empty())
            &&& kept(g, g2)
        }),
    decreases fuel, abts_size(ts),
{
    let c = s.counter as int;
    if ts.len() == 0 {
        lemma_emitted_none(s, g.anon.len());
    } else {
        lemma_c_abt(ts[0], src, fuel, s, g);
        let (s1, g1) = c_abt(ts[0], src, fuel, s, g);
        let rest = ts.subrange(1, ts.len() as int);
        lemma_c_seq(rest, src, fuel, s1, g1);
        let (s2, g2) = c_seq(rest, src, fuel, s1, g1);
        let c1 = s1.counter as int;
        let c2 = s2.counter as int;
        lemma_emitted_join(
            s,
            s1,
            s2,
            iv(c, c1),
            iv(c1, c2),
            g1.anon.len(),
            g2.anon.len(),
            Set::empty(),
            Set::empty(),
        );
        lemma_emitted_weaken(
            s,
            s2,
            iv(c, c1) + iv(c1, c2),
            iv(c, c2),
            g2.anon.len(),
            g2.anon.len(),
            Set::<nat>::empty() + Set::empty(),
            Set::empty(),
        );
        lemma_kept_trans(g, g1, g2);
    }
}

/// Compiling a stored term keeps every compiled body well labelled.
pub proof fn lemma_c_load(h: Seq<char>, src: Map<Seq<char>, AbtV<TermV>>, fuel: nat, g: GState)
    ensures
        kept(g, c_load(h, src, fuel, g)),
    decreases fuel, 0nat,
{
    if !(g.terms.contains_key(h) || fuel == 0) {
        let g1 = GState { terms: g.terms.insert(h, Seq::empty()), anon: g.anon };
        lemma_c_abt(src[h], src, (fuel - 1) as nat, fresh(h), g1);
        let (s, g2) = c_abt(src[h], src, (fuel - 1) as nat, fresh(h), g1);
        let g3 = GState { terms: g2.terms.insert(h, s.cmds), anon: g2.anon };
        assert(g.terms.submap_of(g3.terms)) by {
            assert forall|k: Seq<char>| #[trigger] g.terms.contains_key(k) implies g3.terms.contains_key(k)
                && g3.terms[k] == g.terms[k] by {
                assert(g1.terms.contains_key(k));
                assert(g1.terms[k] == g.terms[k]);
            }
        }
        if bodies_ok(g) {
            lemma_bodies_insert(g, h, Seq::empty());
            lemma_emitted_body(fresh(h), s, iv(0, s.counter as int), g2.anon.len());
            lemma_bodies_insert(g2, h, s.cmds);
        }
    }
}

} // verus!

