//! Compilation of terms to a flat list of stack-machine instructions.

use vstd::prelude::*;
use vstd::hash_map::StringHashMap;
use crate::types::{Symbol, Pattern, ABT, Term, Reference, Id, MatchCase};
use crate::copy::{copy_symbol, copy_boxed_abts, copy_abt};
use crate::model::{
    AbtV, TermV, CaseV, RefV, SymbolV, PatternV, sym_v, pattern_v, term_v, abt_v,
};
use crate::model::{boxed_abts_v, abts_v, cases_v, case_v, lemma_boxed_abts_v, lemma_abts_v,
    lemma_cases_v};
use crate::walk::{abt_size, term_size, abts_size, cases_size, unroll, lemma_unroll_size,
    lemma_abts_size_take, lemma_abts_size_elem, good, shaped, wf, term_wf, abts_wf, cases_wf, marks, term_marks,
    abts_marks, cases_marks, refs, term_refs, abts_refs, cases_refs, lemma_abts_step, lemma_cases_step,
    lemma_cases_size_elem, lemma_refs_grow};
use crate::env::{Env, Fetch, Scan, strs_v, closed, ready, reaches, compilable, sound, settled, complete,
    lemma_settled};
use crate::sets::{lemma_diff_mono, lemma_diff_insert};
use crate::labels::{bodies_ok, kept, emitted, iv, lemma_c_abt, lemma_c_term, lemma_c_load,
    lemma_kept_refl, lemma_kept_trans, lemma_emitted_body, lemma_bodies_push};

verus! {

/// One instruction of the stack machine.
#[derive(Debug, PartialEq)]
pub enum IR {
    /// Push the anonymous function with this index.
    Fn(usize),
    /// Bind the values on the stack to these names, recursively.
    Cycle(Vec<String>),
    /// Push this value.
    Value(Term),
    /// Look up the symbol and push its value.
    PushSym(Symbol),
    /// Pop the top value and give it a name.
    PopAndName(Symbol),
    /// Pop a function and an argument and apply one to the other.
    Call,
    /// Pop this many values and push them as a sequence.
    Sequence(usize),
    JumpTo(usize),
    Mark(usize),
    /// Pop a boolean; on `false`, jump to the mark.
    If(usize),
    PopUpOne,
    MarkBindings,
    PopBindings,
    /// Match the top of the stack against the pattern; the flag says that
    /// a guard follows.
    PatternMatch(Pattern, bool),
    PatternMatchFail,
    MarkStack,
    ClearStackMark,
    /// Pop a boolean; on `false`, drop the stack back to its mark and jump.
    IfAndPopStack(usize),
}

pub enum IRV {
    Fn(nat),
    Cycle(Seq<Seq<char>>),
    Value(TermV),
    PushSym(SymbolV),
    PopAndName(SymbolV),
    Call,
    Sequence(nat),
    JumpTo(nat),
    Mark(nat),
    If(nat),
    PopUpOne,
    MarkBindings,
    PopBindings,
    PatternMatch(PatternV, bool),
    PatternMatchFail,
    MarkStack,
    ClearStackMark,
    IfAndPopStack(nat),
}

pub open spec fn ir_v(i: IR) -> IRV {
    match i {
        IR::Fn(n) => IRV::Fn(n as nat),
        IR::Cycle(names) => IRV::Cycle(strs_v(names@)),
        IR::Value(t) => IRV::Value(term_v(t)),
        IR::PushSym(s) => IRV::PushSym(sym_v(s)),
        IR::PopAndName(s) => IRV::PopAndName(sym_v(s)),
        IR::Call => IRV::Call,
        IR::Sequence(n) => IRV::Sequence(n as nat),
        IR::JumpTo(n) => IRV::JumpTo(n as nat),
        IR::Mark(n) => IRV::Mark(n as nat),
        IR::If(n) => IRV::If(n as nat),
        IR::PopUpOne => IRV::PopUpOne,
        IR::MarkBindings => IRV::MarkBindings,
        IR::PopBindings => IRV::PopBindings,
        IR::PatternMatch(p, b) => IRV::PatternMatch(pattern_v(p), b),
        IR::PatternMatchFail => IRV::PatternMatchFail,
        IR::MarkStack => IRV::MarkStack,
        IR::ClearStackMark => IRV::ClearStackMark,
        IR::IfAndPopStack(n) => IRV::IfAndPopStack(n as nat),
    }
}

pub open spec fn irs_v(s: Seq<IR>) -> Seq<IRV> {
    s.map_values(|i: IR| ir_v(i))
}

/// A copy of a list of names.
fn copy_names(v: &Vec<String>) -> (r: Vec<String>)
    ensures
        strs_v(r@) == strs_v(v@),
{
    let mut r: Vec<String> = Vec::new();
    let mut j: usize = 0;
    while j < v.len()
        invariant
            j <= v.len(),
            r.len() == j,
            forall|k: int| 0 <= k < j ==> (#[trigger] r@[k])@ == v@[k]@,
        decreases v.len() - j,
    {
        r.push(v[j].clone());
        j = j + 1;
    }
    assert(strs_v(r@) =~= strs_v(v@));
    r
}

impl Clone for IR {
    fn clone(&self) -> (r: Self)
        ensures
            ir_v(r) == ir_v(*self),
    {
        match self {
            IR::Fn(n) => IR::Fn(*n),
            IR::Cycle(names) => IR::Cycle(copy_names(names)),
            IR::Value(t) => IR::Value(t.clone()),
            IR::PushSym(s) => IR::PushSym(copy_symbol(s)),
            IR::PopAndName(s) => IR::PopAndName(copy_symbol(s)),
            IR::Call => IR::Call,
            IR::Sequence(n) => IR::Sequence(*n),
            IR::JumpTo(n) => IR::JumpTo(*n),
            IR::Mark(n) => IR::Mark(*n),
            IR::If(n) => IR::If(*n),
            IR::PopUpOne => IR::PopUpOne,
            IR::MarkBindings => IR::MarkBindings,
            IR::PopBindings => IR::PopBindings,
            IR::PatternMatch(p, b) => IR::PatternMatch(p.clone(), *b),
            IR::PatternMatchFail => IR::PatternMatchFail,
            IR::MarkStack => IR::MarkStack,
            IR::ClearStackMark => IR::ClearStackMark,
            IR::IfAndPopStack(n) => IR::IfAndPopStack(*n),
        }
    }
}

/// The instructions of one body under construction.
pub struct IREnv {
    pub term: String,
    pub cmds: Vec<IR>,
    pub counter: usize,
}

pub struct IRState {
    pub term: Seq<char>,
    pub cmds: Seq<IRV>,
    pub counter: nat,
}

/// Compiled terms by hash, and the anonymous functions met on the way.
pub struct GlobalEnv {
    pub env: Env,
    pub terms: StringHashMap<Vec<IR>>,
    pub anon_fns: Vec<(String, Vec<IR>)>,
}

pub struct GState {
    pub terms: Map<Seq<char>, Seq<IRV>>,
    pub anon: Seq<(Seq<char>, Seq<IRV>)>,
}

impl View for IR {
    type V = IRV;

    open spec fn view(&self) -> IRV {
        ir_v(*self)
    }
}

impl View for IREnv {
    type V = IRState;

    open spec fn view(&self) -> IRState {
        IRState { term: self.term@, cmds: irs_v(self.cmds@), counter: self.counter as nat }
    }
}

impl View for GlobalEnv {
    type V = GState;

    open spec fn view(&self) -> GState {
        GState {
            terms: self.terms@.map_values(|v: Vec<IR>| irs_v(v@)),
            anon: self.anon_fns@.map_values(|p: (String, Vec<IR>)| (p.0@, irs_v(p.1@))),
        }
    }
}

pub open spec fn emit(s: IRState, i: IRV) -> IRState {
    IRState { term: s.term, cmds: s.cmds.push(i), counter: s.counter }
}

pub open spec fn bump(s: IRState, n: nat) -> IRState {
    IRState { term: s.term, cmds: s.cmds, counter: s.counter + n }
}

pub open spec fn fresh(term: Seq<char>) -> IRState {
    IRState { term, cmds: Seq::empty(), counter: 0 }
}

/// The number of stored terms that are not compiled yet.
pub open spec fn pending(src: Map<Seq<char>, AbtV<TermV>>, g: GState) -> nat {
    src.dom().difference(g.terms.dom()).len()
}

/// Compiling a binding tree: what `s` (the body under construction) and `g`
/// become. `fuel` bounds the number of stored terms compiled on the way.
pub open spec fn c_abt(
    a: AbtV<TermV>,
    src: Map<Seq<char>, AbtV<TermV>>,
    fuel: nat,
    s: IRState,
    g: GState,
) -> (IRState, GState)
    decreases fuel, abt_size(a),
{
    match a {
        AbtV::Var(sym) => (emit(s, IRV::PushSym(sym)), g),
        AbtV::Tm(t) => c_term(t, src, fuel, s, g),
        AbtV::Cycle(inner) => match unroll(*inner) {
            Some((names, values, body)) => {
                proof {
                    lemma_unroll_size(*inner);
                    if names.len() <= values.len() {
                        lemma_abts_size_take(values, names.len() as int);
                    }
                }
                if names.len() <= values.len() {
                    let (s1, g1) = c_seq(values.take(names.len() as int), src, fuel, s, g);
                    c_abt(body, src, fuel, emit(s1, IRV::Cycle(names.reverse())), g1)
                } else {
                    (s, g)
                }
            },
            None => (s, g),
        },
        AbtV::Abs(name, body) => {
            let (s1, g1) = c_abt(
                *body,
                src,
                fuel,
                emit(emit(s, IRV::MarkBindings), IRV::PopAndName(name)),
                g,
            );
            (emit(s1, IRV::PopBindings), g1)
        },
    }
}

pub open spec fn c_term(
    t: TermV,
    src: Map<Seq<char>, AbtV<TermV>>,
    fuel: nat,
    s: IRState,
    g: GState,
) -> (IRState, GState)
    decreases fuel, term_size(t),
{
    match t {
        TermV::Ref(RefV::Derived(h, _, _)) => (emit(s, IRV::Value(t)), c_load(h, src, fuel, g)),
        TermV::App(a, b) => {
            let (s1, g1) = c_abt(*a, src, fuel, s, g);
            let (s2, g2) = c_abt(*b, src, fuel, s1, g1);
            (emit(s2, IRV::Call), g2)
        },
        TermV::Ann(a, _) => c_abt(*a, src, fuel, s, g),
        TermV::Sequence(ts) => {
            let (s1, g1) = c_seq(ts, src, fuel, s, g);
            (emit(s1, IRV::Sequence(ts.len())), g1)
        },
        TermV::If(c, y, n) => {
            let no = s.counter + 1;
            let done = s.counter + 2;
            let (s1, g1) = c_abt(*c, src, fuel, bump(s, 2), g);
            let (s2, g2) = c_abt(*y, src, fuel, emit(s1, IRV::If(no)), g1);
            let (s3, g3) = c_abt(
                *n,
                src,
                fuel,
                emit(emit(s2, IRV::JumpTo(done)), IRV::Mark(no)),
                g2,
            );
            (emit(s3, IRV::Mark(done)), g3)
        },
        TermV::And(a, b) => {
            let fail = s.counter + 1;
            let done = s.counter + 2;
            let (s1, g1) = c_abt(*a, src, fuel, bump(s, 2), g);
            let (s2, g2) = c_abt(*b, src, fuel, emit(s1, IRV::If(fail)), g1);
            let s3 = emit(emit(s2, IRV::If(fail)), IRV::Value(TermV::Boolean(true)));
            let s4 = emit(emit(s3, IRV::JumpTo(done)), IRV::Mark(fail));
            (emit(emit(s4, IRV::Value(TermV::Boolean(false))), IRV::Mark(done)), g2)
        },
        TermV::Or(a, b) => {
            let good = s.counter + 1;
            let fail = s.counter + 2;
            let b_tok = s.counter + 3;
            let done = s.counter + 4;
            let (s1, g1) = c_abt(*a, src, fuel, bump(s, 4), g);
            let s2 = emit(emit(emit(s1, IRV::If(b_tok)), IRV::JumpTo(good)), IRV::Mark(b_tok));
            let (s3, g3) = c_abt(*b, src, fuel, s2, g1);
            let s4 = emit(emit(s3, IRV::If(fail)), IRV::Mark(good));
            let s5 = emit(emit(s4, IRV::Value(TermV::Boolean(true))), IRV::JumpTo(done));
            let s6 = emit(emit(s5, IRV::Mark(fail)), IRV::Value(TermV::Boolean(false)));
            (emit(s6, IRV::Mark(done)), g3)
        },
        TermV::Let(_, v, body) => {
            let (s1, g1) = c_abt(*v, src, fuel, s, g);
            c_abt(*body, src, fuel, s1, g1)
        },
        TermV::Match(item, arms) => {
            let done = s.counter + 1;
            let (s1, g1) = c_abt(*item, src, fuel, bump(s, 1), g);
            let (s2, g2) = c_arms(arms, done, src, fuel, bump(s1, 1), g1);
            (emit(emit(emit(s2, IRV::PatternMatchFail), IRV::Mark(done)), IRV::PopUpOne), g2)
        },
        TermV::Lam(body) => {
            let (sb, gb) = c_abt(*body, src, fuel, fresh(s.term), g);
            (
                emit(s, IRV::Fn(gb.anon.len())),
                GState { terms: gb.terms, anon: gb.anon.push((s.term, sb.cmds)) },
            )
        },
        _ => (emit(s, IRV::Value(t)), g),
    }
}

/// Compiling a sequence of trees, first to last.
pub open spec fn c_seq(
    ts: Seq<AbtV<TermV>>,
    src: Map<Seq<char>, AbtV<TermV>>,
    fuel: nat,
    s: IRState,
    g: GState,
) -> (IRState, GState)
    decreases fuel, abts_size(ts),
{
    if ts.len() == 0 {
        (s, g)
    } else {
        let (s1, g1) = c_abt(ts[0], src, fuel, s, g);
        c_seq(ts.subrange(1, ts.len() as int), src, fuel, s1, g1)
    }
}

/// Compiling the arms of a match; the label of the next arm is the last one
/// allocated (`s.counter`), and `done` ends the match.
pub open spec fn c_arms(
    arms: Seq<CaseV>,
    done: nat,
    src: Map<Seq<char>, AbtV<TermV>>,
    fuel: nat,
    s: IRState,
    g: GState,
) -> (IRState, GState)
    decreases fuel, cases_size(arms),
{
    if arms.len() == 0 {
        (s, g)
    } else {
        let arm = arms[0];
        let next = s.counter;
        let (s1, g1) = match arm.guard {
            None => (
                emit(emit(s, IRV::PatternMatch(arm.pattern, false)), IRV::If(next)),
                g,
            ),
            Some(cond) => {
                let sa = emit(
                    emit(emit(s, IRV::MarkStack), IRV::PatternMatch(arm.pattern, true)),
                    IRV::IfAndPopStack(next),
                );
                let (sb, gb) = c_abt(cond, src, fuel, sa, g);
                (emit(emit(sb, IRV::IfAndPopStack(next)), IRV::ClearStackMark), gb)
            },
        };
        let (s2, g2) = c_abt(arm.body, src, fuel, s1, g1);
        let s3 = emit(emit(s2, IRV::JumpTo(done)), IRV::Mark(next));
        c_arms(arms.subrange(1, arms.len() as int), done, src, fuel, bump(s3, 1), g2)
    }
}

/// Compiling the stored term `h`, unless it is compiled (or being compiled)
/// already. It is entered with an empty body first, so that a term that
/// refers to itself is compiled once.
pub open spec fn c_load(
    h: Seq<char>,
    src: Map<Seq<char>, AbtV<TermV>>,
    fuel: nat,
    g: GState,
) -> GState
    decreases fuel, 0nat,
{
    if g.terms.contains_key(h) || fuel == 0 {
        g
    } else {
        let g1 = GState { terms: g.terms.insert(h, Seq::empty()), anon: g.anon };
        let (s, g2) = c_abt(src[h], src, (fuel - 1) as nat, fresh(h), g1);
        GState { terms: g2.terms.insert(h, s.cmds), anon: g2.anon }
    }
}

/// Along a chain of references from `h` through terms newly compiled, every
/// term is compiled.
proof fn lemma_reached_loaded(
    src: Map<Seq<char>, AbtV<TermV>>,
    g0: GState,
    g1: GState,
    p: Seq<Seq<char>>,
    i: int,
)
    requires
        loaded(src, g0, g1),
        crate::env::path_ok(src, g0.terms.dom(), true, p),
        g1.terms.contains_key(p[0]),
        0 <= i < p.len(),
    ensures
        g1.terms.contains_key(p[i]),
    decreases i,
{
    if i > 0 {
        lemma_reached_loaded(src, g0, g1, p, i - 1);
        assert(!g0.terms.dom().contains(p[i - 1]));
        assert(refs(src[p[i - 1]], true).contains(p[i]));
    }
}

/// Compiling a stored term that is compiled (or being compiled) already
/// changes nothing.
pub proof fn law_load_once(h: Seq<char>, src: Map<Seq<char>, AbtV<TermV>>, fuel: nat, g: GState)
    requires
        g.terms.contains_key(h),
    ensures
        c_load(h, src, fuel, g) == g,
{
}

/// Loading a term a second time changes nothing: after a load with some
/// fuel the term is compiled (or being compiled), so a second load, with any
/// fuel, leaves the state as the first one left it.
pub proof fn law_load_twice(
    h: Seq<char>,
    src: Map<Seq<char>, AbtV<TermV>>,
    fuel: nat,
    fuel2: nat,
    g: GState,
)
    requires
        fuel > 0,
    ensures
        c_load(h, src, fuel2, c_load(h, src, fuel, g)) == c_load(h, src, fuel, g),
{
}

/// Compiling a tree that is a term is compiling the term, from the same
/// state with the same fuel.
pub proof fn law_tm_is_term(
    t: TermV,
    src: Map<Seq<char>, AbtV<TermV>>,
    fuel: nat,
    s: IRState,
    g: GState,
)
    ensures
        c_abt(AbtV::Tm(t), src, fuel, s, g) == c_term(t, src, fuel, s, g),
{
}

/// The names in reverse order.
fn reversed(v: &Vec<String>) -> (r: Vec<String>)
    ensures
        strs_v(r@) == strs_v(v@).reverse(),
{
    let mut r: Vec<String> = Vec::new();
    let mut j: usize = v.len();
    while j > 0
        invariant
            j <= v.len(),
            r.len() == v.len() - j,
            forall|k: int| 0 <= k < r.len() ==> (#[trigger] r@[k])@ == v@[v.len() - 1 - k]@,
        decreases j,
    {
        j = j - 1;
        r.push(v[j].clone());
    }
    assert(strs_v(r@) =~= strs_v(v@).reverse());
    r
}

/// Splits a cycle into its names (appended to `names`), its values and its body.
pub fn unroll_cycle(inner: &ABT<Term>, names: &mut Vec<String>) -> (r: (
    Vec<Box<ABT<Term>>>,
    Box<ABT<Term>>,
))
    requires
        unroll(abt_v(*inner)) is Some,
    ensures
        ({
            let (ns, vals, body) = unroll(abt_v(*inner)).unwrap();
            &&& strs_v(final(names)@) == strs_v(old(names)@) + ns
            &&& boxed_abts_v(r.0@) == vals
            &&& abt_v(*r.1) == body
        }),
    decreases inner,
{
    match inner {
        ABT::Abs(sym, inner2) => {
            names.push(sym.text.clone());
            assert(strs_v(names@) =~= strs_v(old(names)@) + seq![sym.text@]);
            assert(abt_v(*inner) == AbtV::Abs(sym_v(*sym), Box::new(abt_v(**inner2))));
            if let ABT::Tm(Term::LetRec(rec, things, body)) = &**inner2 {
                assert(abt_v(**inner2) == AbtV::Tm(
                    TermV::LetRec(*rec, boxed_abts_v(things@), Box::new(abt_v(**body))),
                )) by {
                    reveal_with_fuel(abt_v, 2);
                }
                (copy_boxed_abts(things), Box::new(copy_abt(body)))
            } else {
                proof {
                    reveal_with_fuel(abt_v, 2);
                }
                let r = unroll_cycle(inner2, names);
                assert(strs_v(names@) =~= strs_v(old(names)@) + unroll(abt_v(*inner)).unwrap().0);
                r
            }
        },
        _ => vstd::pervasive::unreached(),
    }
}

impl IREnv {
    /// An empty body for the term `term`.
    pub fn new(term: String) -> (r: IREnv)
        ensures
            r@ == fresh(term@),
    {
        let r = IREnv { term, cmds: Vec::new(), counter: 0 };
        assert(irs_v(r.cmds@) =~= Seq::<IRV>::empty());
        r
    }

    fn push(&mut self, ir: IR)
        ensures
            final(self)@ == emit(old(self)@, ir@),
    {
        let ghost v = ir@;
        self.cmds.push(ir);
        assert(irs_v(self.cmds@) =~= irs_v(old(self).cmds@).push(v));
    }

    fn mark(&mut self) -> (r: usize)
        requires
            old(self).counter < usize::MAX,
        ensures
            r == old(self).counter + 1,
            final(self)@ == bump(old(self)@, 1),
    {
        self.counter += 1;
        self.counter
    }
}

/// The state from which compiling can go on: the store is sound, `vs` holds
/// every stored term that can still be met, and `fuel` covers them.
pub open spec fn compiling(ge: GlobalEnv, vs: Set<Seq<char>>, fuel: nat) -> bool {
    &&& ge.env.wf()
    &&& closed(ge.env.source(), vs, ge@.terms.dom(), true)
    &&& compilable(ge.env.source(), vs)
    &&& vs.difference(ge@.terms.dom()).len() <= fuel
}

/// The store is untouched, no compiled term is forgotten, and every term
/// compiled since has the stored terms it refers to compiled too.
pub open spec fn grows(g0: GlobalEnv, g1: GlobalEnv) -> bool {
    &&& g1.env == g0.env
    &&& g0@.terms.dom().subset_of(g1@.terms.dom())
    &&& loaded(g0.env.source(), g0@, g1@)
}

/// Every term compiled in `g1` and not in `g0` has the stored terms it refers
/// to compiled in `g1`.
pub open spec fn loaded(src: Map<Seq<char>, AbtV<TermV>>, g0: GState, g1: GState) -> bool {
    forall|k: Seq<char>|
        #[trigger] g1.terms.contains_key(k) && !g0.terms.contains_key(k) ==> refs(
            src[k],
            true,
        ).subset_of(g1.terms.dom())
}

pub proof fn lemma_compiling_grows(g0: GlobalEnv, g1: GlobalEnv, vs: Set<Seq<char>>, fuel: nat)
    requires
        compiling(g0, vs, fuel),
        grows(g0, g1),
    ensures
        compiling(g1, vs, fuel),
{
    g0.env.lemma_source_finite();
    vstd::set_lib::lemma_len_subset(vs, g0.env.source().dom());
    lemma_diff_mono(vs, g0@.terms.dom(), g1@.terms.dom());
}

/// What compiling `a` into a body whose label counter is `counter` needs.
pub open spec fn can_compile(a: AbtV<TermV>, counter: nat, ge: GlobalEnv, vs: Set<Seq<char>>) -> bool {
    &&& wf(a)
    &&& counter + marks(a) <= usize::MAX
    &&& refs(a, true).subset_of(vs + ge@.terms.dom())
}

impl GlobalEnv {
    /// Nothing compiled yet, over the store `env`.
    pub fn new(env: Env) -> (r: GlobalEnv)
        ensures
            r.env == env,
            r@.terms == Map::<Seq<char>, Seq<IRV>>::empty(),
            r@.anon == Seq::<(Seq<char>, Seq<IRV>)>::empty(),
            bodies_ok(r@),
    {
        let r = GlobalEnv { env, terms: StringHashMap::new(), anon_fns: Vec::new() };
        assert(r@.terms =~= Map::<Seq<char>, Seq<IRV>>::empty());
        assert(r@.anon =~= Seq::<(Seq<char>, Seq<IRV>)>::empty());
        r
    }

    fn load_in(&mut self, hash: &str, Ghost(vs): Ghost<Set<Seq<char>>>, Ghost(fuel): Ghost<nat>)
        requires
            compiling(*old(self), vs, fuel),
            vs.contains(hash@) || old(self)@.terms.contains_key(hash@),
        ensures
            final(self)@ == c_load(hash@, old(self).env.source(), fuel, old(self)@),
            grows(*old(self), *final(self)),
            final(self)@.terms.contains_key(hash@),
        decreases fuel, 0nat,
    {
        if self.terms.contains_key(hash) {
            return;
        }
        let ghost src = self.env.source();
        let ghost g0 = self@;
        proof {
            self.env.lemma_source_finite();
            vstd::set_lib::lemma_len_subset(vs, src.dom());
            lemma_diff_insert(vs, g0.terms.dom(), hash@);
        }
        let mut cmds = IREnv::new(hash.to_owned());
        self.terms.insert(hash.to_owned(), Vec::new());
        let ghost g1 = GState { terms: g0.terms.insert(hash@, Seq::empty()), anon: g0.anon };
        assert(irs_v(Seq::<IR>::empty()) =~= Seq::<IRV>::empty());
        assert(self@.terms =~= g1.terms);
        assert(self@.anon =~= g1.anon);
        assert(self@.terms.dom() =~= g0.terms.dom().insert(hash@));
        let term = match self.env.load(hash) {
            Fetch::Found(t) => t,
            Fetch::Read(_) => vstd::pervasive::unreached(),
        };
        proof {
            assert(refs(src[hash@], true).subset_of(vs + g0.terms.dom()));
            assert(compiling(*self, vs, (fuel - 1) as nat));
        }
        term.ir_abt(&mut cmds, self, Ghost(vs), Ghost((fuel - 1) as nat));
        let ghost g2 = self@;
        self.terms.insert(hash.to_owned(), cmds.cmds);
        assert(self@.terms =~= g2.terms.insert(hash@, cmds@.cmds));
        assert(self@.anon =~= g2.anon);
    }

    fn add_fn_in(
        &mut self,
        hash: String,
        contents: &ABT<Term>,
        Ghost(vs): Ghost<Set<Seq<char>>>,
        Ghost(fuel): Ghost<nat>,
    ) -> (v: usize)
        requires
            compiling(*old(self), vs, fuel),
            can_compile(abt_v(*contents), 0, *old(self), vs),
        ensures
            ({
                let (sb, gb) = c_abt(
                    abt_v(*contents),
                    old(self).env.source(),
                    fuel,
                    fresh(hash@),
                    old(self)@,
                );
                &&& v == gb.anon.len()
                &&& final(self)@ == GState { terms: gb.terms, anon: gb.anon.push((hash@, sb.cmds)) }
            }),
            grows(*old(self), *final(self)),
            refs(abt_v(*contents), true).subset_of(final(self)@.terms.dom()),
        decreases fuel, abt_size(abt_v(*contents)) + 1,
    {
        let mut sub = IREnv::new(hash.clone());
        contents.ir_abt(&mut sub, self, Ghost(vs), Ghost(fuel));
        let ghost g1 = self@;
        let ghost old_fns = self.anon_fns@;
        let ghost entry = (hash@, sub@.cmds);
        let v = self.anon_fns.len();
        self.anon_fns.push((hash, sub.cmds));
        proof {
            assert(self.anon_fns@ == old_fns.push(self.anon_fns@.last()));
            assert forall|j: int| 0 <= j < self@.anon.len() implies self@.anon[j] == g1.anon.push(
                entry,
            )[j] by {
                if j < old_fns.len() {
                    assert(self.anon_fns@[j] == old_fns[j]);
                }
            }
            assert(self@.anon =~= g1.anon.push(entry));
            assert(self@.terms =~= g1.terms);
        }
        v
    }
}

impl ABT<Term> {
    fn ir_abt(
        &self,
        cmds: &mut IREnv,
        ge: &mut GlobalEnv,
        Ghost(vs): Ghost<Set<Seq<char>>>,
        Ghost(fuel): Ghost<nat>,
    )
        requires
            compiling(*old(ge), vs, fuel),
            can_compile(abt_v(*self), old(cmds).counter as nat, *old(ge), vs),
        ensures
            (final(cmds)@, final(ge)@) == c_abt(
                abt_v(*self),
                old(ge).env.source(),
                fuel,
                old(cmds)@,
                old(ge)@,
            ),
            grows(*old(ge), *final(ge)),
            refs(abt_v(*self), true).subset_of(final(ge)@.terms.dom()),
            final(cmds).counter == old(cmds).counter + marks(abt_v(*self)),
        decreases fuel, abt_size(abt_v(*self)),
    {
        let ghost src = ge.env.source();
        match self {
            ABT::Var(symbol) => cmds.push(IR::PushSym(copy_symbol(symbol))),
            ABT::Tm(term) => term.ir_term(cmds, ge, Ghost(vs), Ghost(fuel)),
            ABT::Cycle(inner) => {
                let ghost a = abt_v(*self);
                let ghost (ns, vals, b) = unroll(abt_v(**inner)).unwrap();
                let ghost k = ns.len() as int;
                let ghost bound = vals.take(k);
                proof {
                    lemma_unroll_size(abt_v(**inner));
                    assert(a == AbtV::Cycle(Box::new(abt_v(**inner))));
                    assert(k <= vals.len());
                    lemma_abts_size_take(vals, k);
                    assert forall|j: int| 0 <= j < k implies abt_size(#[trigger] vals[j]) < abt_size(a) by {
                        lemma_abts_size_elem(vals, j);
                    }
                    assert(bound.subrange(0, k) =~= bound);
                }
                let mut names: Vec<String> = Vec::new();
                let (values, body) = unroll_cycle(inner, &mut names);
                assert(strs_v(names@) =~= ns);
                proof {
                    lemma_boxed_abts_v(values@);
                }
                let ghost target = c_seq(bound, src, fuel, cmds@, ge@);
                let ghost base = old(cmds).counter + abts_marks(bound);
                let n = names.len();
                let mut i: usize = 0;
                while i < n
                    invariant
                        n == names.len(),
                        n == k,
                        k <= vals.len(),
                        bound.len() == k,
                        bound == vals.take(k),
                        vals == boxed_abts_v(values@),
                        vals.len() == values.len(),
                        forall|j: int| 0 <= j < vals.len() ==> #[trigger] vals[j] == abt_v(*values@[j]),
                        forall|j: int| 0 <= j < k ==> abt_size(#[trigger] vals[j]) < abt_size(a),
                        a == abt_v(*self),
                        src == old(ge).env.source(),
                        i <= n,
                        compiling(*ge, vs, fuel),
                        grows(*old(ge), *ge),
                        c_seq(bound.subrange(i as int, k), src, fuel, cmds@, ge@) == target,
                        cmds.counter + abts_marks(bound.subrange(i as int, k)) == base,
                        base + marks(b) <= usize::MAX,
                        abts_wf(bound.subrange(i as int, k)),
                        abts_refs(bound.subrange(i as int, k), true).subset_of(vs + ge@.terms.dom()),
                        abts_refs(bound, true).subset_of(
                            ge@.terms.dom() + abts_refs(bound.subrange(i as int, k), true),
                        ),
                    decreases n - i,
                {
                    proof {
                        lemma_abts_step(bound, i as int, true);
                        assert(bound[i as int] == vals[i as int]);
                    }
                    let ghost g_before = *ge;
                    values[i].ir_abt(cmds, ge, Ghost(vs), Ghost(fuel));
                    proof {
                        lemma_compiling_grows(g_before, *ge, vs, fuel);
                        lemma_refs_grow(
                            abts_refs(bound.subrange(i + 1, k), true),
                            vs,
                            g_before@.terms.dom(),
                            ge@.terms.dom(),
                        );
                    }
                    i = i + 1;
                }
                let rev = reversed(&names);
                cmds.push(IR::Cycle(rev));
                proof {
                    assert(bound.subrange(k, k) =~= Seq::<AbtV<TermV>>::empty());
                    assert(abts_refs(bound.subrange(k, k), true) =~= Set::<Seq<char>>::empty());
                    lemma_refs_grow(refs(b, true), vs, old(ge)@.terms.dom(), ge@.terms.dom());
                    assert(refs(a, true) == abts_refs(bound, true) + refs(b, true));
                }
                body.ir_abt(cmds, ge, Ghost(vs), Ghost(fuel));
            },
            ABT::Abs(name, body) => {
                cmds.push(IR::MarkBindings);
                cmds.push(IR::PopAndName(copy_symbol(name)));
                body.ir_abt(cmds, ge, Ghost(vs), Ghost(fuel));
                cmds.push(IR::PopBindings);
            },
        }
    }
}

impl Term {
    fn ir_term(
        &self,
        cmds: &mut IREnv,
        ge: &mut GlobalEnv,
        Ghost(vs): Ghost<Set<Seq<char>>>,
        Ghost(fuel): Ghost<nat>,
    )
        requires
            compiling(*old(ge), vs, fuel),
            term_wf(term_v(*self)),
            old(cmds).counter + term_marks(term_v(*self)) <= usize::MAX,
            term_refs(term_v(*self), true).subset_of(vs + old(ge)@.terms.dom()),
        ensures
            (final(cmds)@, final(ge)@) == c_term(
                term_v(*self),
                old(ge).env.source(),
                fuel,
                old(cmds)@,
                old(ge)@,
            ),
            grows(*old(ge), *final(ge)),
            term_refs(term_v(*self), true).subset_of(final(ge)@.terms.dom()),
            final(cmds).counter == old(cmds).counter + term_marks(term_v(*self)),
        decreases fuel, term_size(term_v(*self)),
    {
        let ghost src = ge.env.source();
        let ghost t = term_v(*self);
        let ghost t0 = ge@.terms.dom();
        match self {
            Term::Ref(Reference::Builtin(_)) => cmds.push(IR::Value(self.clone())),
            Term::Ref(Reference::DerivedId(Id(hash, i, n))) => {
                assert(t == TermV::Ref(RefV::Derived(hash.0@, *i, *n)));
                assert(term_refs(t, true).contains(hash.0@));
                ge.load_in(hash.0.as_str(), Ghost(vs), Ghost(fuel));
                cmds.push(IR::Value(self.clone()));
            },
            Term::App(one, two) => {
                let ghost g0 = *ge;
                one.ir_abt(cmds, ge, Ghost(vs), Ghost(fuel));
                proof {
                    lemma_compiling_grows(g0, *ge, vs, fuel);
                    lemma_refs_grow(refs(abt_v(**two), true), vs, t0, ge@.terms.dom());
                }
                two.ir_abt(cmds, ge, Ghost(vs), Ghost(fuel));
                cmds.push(IR::Call);
            },
            Term::Ann(term, _) => term.ir_abt(cmds, ge, Ghost(vs), Ghost(fuel)),
            Term::Sequence(terms) => {
                let ghost ts = abts_v(terms@);
                proof {
                    lemma_abts_v(terms@);
                    assert(ts.subrange(0, ts.len() as int) =~= ts);
                }
                let ghost target = c_seq(ts, src, fuel, cmds@, ge@);
                let ghost base = old(cmds).counter + abts_marks(ts);
                let ln = terms.len();
                let mut i: usize = 0;
                while i < ln
                    invariant
                        ln == terms.len(),
                        ts == abts_v(terms@),
                        ts.len() == ln,
                        forall|j: int| 0 <= j < ln ==> #[trigger] ts[j] == abt_v(terms@[j]),
                        t == term_v(*self),
                        t == TermV::Sequence(ts),
                        src == old(ge).env.source(),
                        i <= ln,
                        compiling(*ge, vs, fuel),
                        grows(*old(ge), *ge),
                        c_seq(ts.subrange(i as int, ln as int), src, fuel, cmds@, ge@) == target,
                        cmds.counter + abts_marks(ts.subrange(i as int, ln as int)) == base,
                        base <= usize::MAX,
                        abts_wf(ts.subrange(i as int, ln as int)),
                        abts_refs(ts.subrange(i as int, ln as int), true).subset_of(
                            vs + ge@.terms.dom(),
                        ),
                        abts_refs(ts, true).subset_of(
                            ge@.terms.dom() + abts_refs(ts.subrange(i as int, ln as int), true),
                        ),
                    decreases ln - i,
                {
                    proof {
                        lemma_abts_step(ts, i as int, true);
                        lemma_abts_size_elem(ts, i as int);
                    }
                    let ghost g_before = *ge;
                    terms[i].ir_abt(cmds, ge, Ghost(vs), Ghost(fuel));
                    proof {
                        lemma_compiling_grows(g_before, *ge, vs, fuel);
                        lemma_refs_grow(
                            abts_refs(ts.subrange(i + 1, ln as int), true),
                            vs,
                            g_before@.terms.dom(),
                            ge@.terms.dom(),
                        );
                    }
                    i = i + 1;
                }
                proof {
                    assert(ts.subrange(ln as int, ln as int) =~= Seq::<AbtV<TermV>>::empty());
                }
                cmds.push(IR::Sequence(ln));
            },
            Term::If(cond, yes, no) => {
                let no_tok = cmds.mark();
                let done_tok = cmds.mark();
                let ghost g0 = *ge;
                cond.ir_abt(cmds, ge, Ghost(vs), Ghost(fuel));
                proof {
                    lemma_compiling_grows(g0, *ge, vs, fuel);
                    lemma_refs_grow(refs(abt_v(**yes), true), vs, t0, ge@.terms.dom());
                }
                cmds.push(IR::If(no_tok));
                let ghost g1 = *ge;
                yes.ir_abt(cmds, ge, Ghost(vs), Ghost(fuel));
                proof {
                    lemma_compiling_grows(g1, *ge, vs, fuel);
                    lemma_refs_grow(refs(abt_v(**no), true), vs, t0, ge@.terms.dom());
                }
                cmds.push(IR::JumpTo(done_tok));
                cmds.push(IR::Mark(no_tok));
                no.ir_abt(cmds, ge, Ghost(vs), Ghost(fuel));
                cmds.push(IR::Mark(done_tok));
            },
            Term::And(a, b) => {
                let fail_tok = cmds.mark();
                let done_tok = cmds.mark();
                let ghost g0 = *ge;
                a.ir_abt(cmds, ge, Ghost(vs), Ghost(fuel));
                proof {
                    lemma_compiling_grows(g0, *ge, vs, fuel);
                    lemma_refs_grow(refs(abt_v(**b), true), vs, t0, ge@.terms.dom());
                }
                cmds.push(IR::If(fail_tok));
                b.ir_abt(cmds, ge, Ghost(vs), Ghost(fuel));
                cmds.push(IR::If(fail_tok));
                cmds.push(IR::Value(Term::Boolean(true)));
                cmds.push(IR::JumpTo(done_tok));
                cmds.push(IR::Mark(fail_tok));
                cmds.push(IR::Value(Term::Boolean(false)));
                cmds.push(IR::Mark(done_tok));
            },
            Term::Or(a, b) => {
                let good_tok = cmds.mark();
                let fail_tok = cmds.mark();
                let b_tok = cmds.mark();
                let done_tok = cmds.mark();
                let ghost g0 = *ge;
                a.ir_abt(cmds, ge, Ghost(vs), Ghost(fuel));
                proof {
                    lemma_compiling_grows(g0, *ge, vs, fuel);
                    lemma_refs_grow(refs(abt_v(**b), true), vs, t0, ge@.terms.dom());
                }
                cmds.push(IR::If(b_tok));
                cmds.push(IR::JumpTo(good_tok));
                cmds.push(IR::Mark(b_tok));
                b.ir_abt(cmds, ge, Ghost(vs), Ghost(fuel));
                cmds.push(IR::If(fail_tok));

                cmds.push(IR::Mark(good_tok));
                cmds.push(IR::Value(Term::Boolean(true)));
                cmds.push(IR::JumpTo(done_tok));

                cmds.push(IR::Mark(fail_tok));
                cmds.push(IR::Value(Term::Boolean(false)));

                cmds.push(IR::Mark(done_tok));
            },
            Term::Let(_, v, body) => {
                let ghost g0 = *ge;
                v.ir_abt(cmds, ge, Ghost(vs), Ghost(fuel));
                proof {
                    lemma_compiling_grows(g0, *ge, vs, fuel);
                    lemma_refs_grow(refs(abt_v(**body), true), vs, t0, ge@.terms.dom());
                }
                body.ir_abt(cmds, ge, Ghost(vs), Ghost(fuel));
            },
            Term::Match(item, arms) => {
                let ghost cs = cases_v(arms@);
                proof {
                    lemma_cases_v(arms@);
                    assert(cs.subrange(0, cs.len() as int) =~= cs);
                }
                let done_tok = cmds.mark();
                let ghost g0 = *ge;
                item.ir_abt(cmds, ge, Ghost(vs), Ghost(fuel));
                proof {
                    lemma_compiling_grows(g0, *ge, vs, fuel);
                    lemma_refs_grow(cases_refs(cs, true), vs, t0, ge@.terms.dom());
                }
                let mut next_tok = cmds.mark();
                let ghost target = c_arms(cs, done_tok as nat, src, fuel, cmds@, ge@);
                let ghost base = cmds.counter + cases_marks(cs);
                let n = arms.len();
                let mut k: usize = 0;
                while k < n
                    invariant
                        n == arms.len(),
                        cs == cases_v(arms@),
                        cs.len() == n,
                        forall|j: int| 0 <= j < n ==> #[trigger] cs[j] == case_v(arms@[j]),
                        t == term_v(*self),
                        t == TermV::Match(Box::new(abt_v(**item)), cs),
                        src == old(ge).env.source(),
                        k <= n,
                        next_tok == cmds.counter,
                        compiling(*ge, vs, fuel),
                        grows(*old(ge), *ge),
                        c_arms(cs.subrange(k as int, n as int), done_tok as nat, src, fuel, cmds@, ge@)
                            == target,
                        cmds.counter + cases_marks(cs.subrange(k as int, n as int)) == base,
                        base <= usize::MAX,
                        cases_wf(cs.subrange(k as int, n as int)),
                        cases_refs(cs.subrange(k as int, n as int), true).subset_of(
                            vs + ge@.terms.dom(),
                        ),
                        cases_refs(cs, true).subset_of(
                            ge@.terms.dom() + cases_refs(cs.subrange(k as int, n as int), true),
                        ),
                        refs(abt_v(**item), true).subset_of(ge@.terms.dom()),
                    decreases n - k,
                {
                    proof {
                        lemma_cases_step(cs, k as int, true);
                        lemma_cases_size_elem(cs, k as int);
                    }
                    let ghost c = cs[k as int];
                    let ghost g1 = *ge;
                    let MatchCase(pattern, cond, body) = &arms[k];
                    match cond {
                        None => {
                            cmds.push(IR::PatternMatch(pattern.clone(), false));
                            cmds.push(IR::If(next_tok));
                        },
                        Some(cond) => {
                            cmds.push(IR::MarkStack);
                            cmds.push(IR::PatternMatch(pattern.clone(), true));
                            cmds.push(IR::IfAndPopStack(next_tok));
                            cond.ir_abt(cmds, ge, Ghost(vs), Ghost(fuel));
                            proof {
                                lemma_compiling_grows(g1, *ge, vs, fuel);
                            }
                            cmds.push(IR::IfAndPopStack(next_tok));
                            cmds.push(IR::ClearStackMark);
                        },
                    }
                    proof {
                        lemma_refs_grow(refs(c.body, true), vs, g1@.terms.dom(), ge@.terms.dom());
                    }
                    let ghost g2 = *ge;
                    body.ir_abt(cmds, ge, Ghost(vs), Ghost(fuel));
                    proof {
                        lemma_compiling_grows(g2, *ge, vs, fuel);
                        lemma_refs_grow(
                            cases_refs(cs.subrange(k + 1, n as int), true),
                            vs,
                            g1@.terms.dom(),
                            ge@.terms.dom(),
                        );
                    }
                    cmds.push(IR::JumpTo(done_tok));
                    cmds.push(IR::Mark(next_tok));
                    next_tok = cmds.mark();
                    k = k + 1;
                }
                proof {
                    assert(cs.subrange(n as int, n as int) =~= Seq::<CaseV>::empty());
                }
                cmds.push(IR::PatternMatchFail);
                cmds.push(IR::Mark(done_tok));
                cmds.push(IR::PopUpOne);
            },
            Term::Lam(contents) => {
                let v = ge.add_fn_in(cmds.term.clone(), contents, Ghost(vs), Ghost(fuel));
                cmds.push(IR::Fn(v));
            },
            _ => cmds.push(IR::Value(self.clone())),
        }
    }
}

impl GlobalEnv {
    proof fn lemma_start(&self, vs: Set<Seq<char>>, roots: Set<Seq<char>>)
        requires
            self.env.wf(),
            closed(self.env.source(), vs, self@.terms.dom(), true),
            compilable(self.env.source(), vs),
            roots.subset_of(vs + self@.terms.dom()),
        ensures
            compiling(*self, vs, pending(self.env.source(), self@)),
    {
        let src = self.env.source();
        self.env.lemma_source_finite();
        vstd::set_lib::lemma_len_subset(
            vs.difference(self@.terms.dom()),
            src.dom().difference(self@.terms.dom()),
        );
    }

    /// Compiles the stored term `hash` and every stored term it reaches that
    /// is not compiled yet. Where one of them is not stored, nothing changes
    /// and its hash comes back: it is to be read and stored first.
    pub fn load(&mut self, hash: &str) -> (missing: Option<String>)
        requires
            old(self).env.wf(),
            sound(old(self).env.source(), old(self)@.terms.dom(), true, hash@),
        ensures
            final(self).env == old(self).env,
            kept(old(self)@, final(self)@),
            (missing is None) <==> complete(
                old(self).env.source(),
                old(self)@.terms.dom(),
                true,
                hash@,
            ),
            match missing {
                None => {
                    &&& final(self)@.terms.contains_key(hash@)
                    &&& complete(old(self).env.source(), old(self)@.terms.dom(), true, hash@)
                    &&& forall|m: Seq<char>|
                        #[trigger] reaches(old(self).env.source(), old(self)@.terms.dom(), true, hash@, m)
                            ==> final(self)@.terms.contains_key(m)
                    &&& final(self)@ == c_load(
                        hash@,
                        old(self).env.source(),
                        pending(old(self).env.source(), old(self)@),
                        old(self)@,
                    )
                },
                Some(m) => {
                    &&& final(self)@ == old(self)@
                    &&& !old(self)@.terms.contains_key(hash@)
                    &&& !old(self).env.source().contains_key(m@)
                    &&& !old(self)@.terms.contains_key(m@)
                    &&& reaches(old(self).env.source(), old(self)@.terms.dom(), true, hash@, m@)
                },
            },
    {
        proof {
            lemma_kept_refl(self@);
            lemma_c_load(hash@, self.env.source(), pending(self.env.source(), self@), self@);
        }
        if self.terms.contains_key(hash) {
            proof {
                assert forall|m: Seq<char>|
                    #[trigger] reaches(self.env.source(), self@.terms.dom(), true, hash@, m) implies self.env.source().contains_key(m) by {
                    let p = choose|p: Seq<Seq<char>>| #[trigger] crate::env::path_ok(self.env.source(), self@.terms.dom(), true, p) && p[0] == hash@ && p.last() == m;
                    assert(!self@.terms.dom().contains(p[0]));
                }
            }
            return None;
        }
        assert(self.terms@.dom() =~= self@.terms.dom());
        match self.env.scan(hash, &self.terms, true) {
            Scan::Missing(m) => Some(m),
            Scan::Malformed(m) => {
                proof {
                    assert(good(self.env.source()[m@], true));
                }
                vstd::pervasive::unreached()
            },
            Scan::Complete => {
                let ghost src = self.env.source();
                let ghost t = self@.terms.dom();
                let ghost vs = choose|vs: Set<Seq<char>>|
                    #[trigger] closed(src, vs, t, true) && (vs.contains(hash@) || t.contains(hash@))
                        && forall|k: Seq<char>| #[trigger] vs.contains(k) ==> reaches(src, t, true, hash@, k)
                        && good(src[k], true);
                proof {
                    lemma_settled(src, t, true, hash@);
                    self.lemma_start(vs, set![hash@]);
                    assert(set![hash@].contains(hash@));
                }
                let ghost g0 = self@;
                self.load_in(hash, Ghost(vs), Ghost(pending(src, self@)));
                proof {
                    assert forall|m: Seq<char>| #[trigger] reaches(src, t, true, hash@, m) implies self@.terms.contains_key(m) by {
                        let p = choose|p: Seq<Seq<char>>| #[trigger] crate::env::path_ok(src, t, true, p) && p[0] == hash@ && p.last() == m;
                        lemma_reached_loaded(src, g0, self@, p, p.len() - 1);
                    }
                }
                None
            },
        }
    }

    /// Compiles `contents` as an anonymous function of `hash` and gives its
    /// index among the anonymous functions.
    pub fn add_fn(&mut self, hash: String, contents: &ABT<Term>) -> (v: usize)
        requires
            old(self).env.wf(),
            wf(abt_v(*contents)),
            marks(abt_v(*contents)) <= usize::MAX,
            ready(old(self).env.source(), old(self)@.terms.dom(), refs(abt_v(*contents), true)),
        ensures
            ({
                let (sb, gb) = c_abt(
                    abt_v(*contents),
                    old(self).env.source(),
                    pending(old(self).env.source(), old(self)@),
                    fresh(hash@),
                    old(self)@,
                );
                &&& v == gb.anon.len()
                &&& final(self)@ == GState { terms: gb.terms, anon: gb.anon.push((hash@, sb.cmds)) }
            }),
            final(self).env == old(self).env,
            kept(old(self)@, final(self)@),
            old(self)@.anon.len() <= v,
            v + 1 == final(self)@.anon.len(),
    {
        let ghost src = self.env.source();
        let ghost t = self@.terms.dom();
        let ghost roots = refs(abt_v(*contents), true);
        proof {
            let fuel = pending(src, self@);
            lemma_c_abt(abt_v(*contents), src, fuel, fresh(hash@), self@);
            let (sb, gb) = c_abt(abt_v(*contents), src, fuel, fresh(hash@), self@);
            let g3 = GState { terms: gb.terms, anon: gb.anon.push((hash@, sb.cmds)) };
            if bodies_ok(gb) {
                lemma_emitted_body(fresh(hash@), sb, iv(0, sb.counter as int), gb.anon.len());
                lemma_bodies_push(gb, hash@, sb.cmds);
            }
            lemma_kept_trans(self@, gb, g3);
        }
        let ghost vs = choose|vs: Set<Seq<char>>| #[trigger] closed(src, vs, t, true) && roots.subset_of(vs + t) && compilable(src, vs);
        proof {
            self.lemma_start(vs, roots);
        }
        self.add_fn_in(hash, contents, Ghost(vs), Ghost(pending(src, self@)))
    }
}

impl ABT<Term> {
    /// Appends the instructions of this tree to `cmds`, compiling on the way
    /// the stored terms it refers to and the lambdas it holds. Every term it
    /// reaches is to be in the store first (`Env::scan` names one that is not).
    pub fn to_ir(&self, cmds: &mut IREnv, env: &mut GlobalEnv)
        requires
            old(env).env.wf(),
            wf(abt_v(*self)),
            old(cmds).counter + marks(abt_v(*self)) <= usize::MAX,
            ready(old(env).env.source(), old(env)@.terms.dom(), refs(abt_v(*self), true)),
        ensures
            (final(cmds)@, final(env)@) == c_abt(
                abt_v(*self),
                old(env).env.source(),
                pending(old(env).env.source(), old(env)@),
                old(cmds)@,
                old(env)@,
            ),
            final(env).env == old(env).env,
            final(cmds).counter == old(cmds).counter + marks(abt_v(*self)),
            crate::nesting::nested(old(cmds)@, final(cmds)@, 0, 0),
            emitted(
                old(cmds)@,
                final(cmds)@,
                iv(old(cmds).counter as int, final(cmds).counter as int),
                final(env)@.anon.len(),
                Set::empty(),
            ),
            kept(old(env)@, final(env)@),
    {
        let ghost src = env.env.source();
        let ghost t = env@.terms.dom();
        let ghost roots = refs(abt_v(*self), true);
        proof {
            lemma_c_abt(abt_v(*self), src, pending(src, env@), cmds@, env@);
            crate::nesting::lemma_n_abt(abt_v(*self), src, pending(src, env@), cmds@, env@);
        }
        let ghost vs = choose|vs: Set<Seq<char>>| #[trigger] closed(src, vs, t, true) && roots.subset_of(vs + t) && compilable(src, vs);
        proof {
            env.lemma_start(vs, roots);
        }
        self.ir_abt(cmds, env, Ghost(vs), Ghost(pending(src, env@)));
    }
}

impl Term {
    /// Appends the instructions of this term to `cmds`, compiling on the way
    /// the stored terms it refers to and the lambdas it holds. Every term it
    /// reaches is to be in the store first (`Env::scan` names one that is not).
    pub fn to_ir(&self, cmds: &mut IREnv, env: &mut GlobalEnv)
        requires
            old(env).env.wf(),
            term_wf(term_v(*self)),
            old(cmds).counter + term_marks(term_v(*self)) <= usize::MAX,
            ready(old(env).env.source(), old(env)@.terms.dom(), term_refs(term_v(*self), true)),
        ensures
            (final(cmds)@, final(env)@) == c_term(
                term_v(*self),
                old(env).env.source(),
                pending(old(env).env.source(), old(env)@),
                old(cmds)@,
                old(env)@,
            ),
            final(env).env == old(env).env,
            final(cmds).counter == old(cmds).counter + term_marks(term_v(*self)),
            crate::nesting::nested(old(cmds)@, final(cmds)@, 0, 0),
            emitted(
                old(cmds)@,
                final(cmds)@,
                iv(old(cmds).counter as int, final(cmds).counter as int),
                final(env)@.anon.len(),
                Set::empty(),
            ),
            kept(old(env)@, final(env)@),
    {
        let ghost src = env.env.source();
        let ghost t = env@.terms.dom();
        let ghost roots = term_refs(term_v(*self), true);
        proof {
            lemma_c_term(term_v(*self), src, pending(src, env@), cmds@, env@);
            crate::nesting::lemma_n_term(term_v(*self), src, pending(src, env@), cmds@, env@);
        }
        let ghost vs = choose|vs: Set<Seq<char>>| #[trigger] closed(src, vs, t, true) && roots.subset_of(vs + t) && compilable(src, vs);
        proof {
            env.lemma_start(vs, roots);
        }
        self.ir_term(cmds, env, Ghost(vs), Ghost(pending(src, env@)));
    }
}

} // verus!
