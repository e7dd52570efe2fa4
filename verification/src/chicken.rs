//! Translation of terms to Scheme (Chicken) expressions.

use vstd::prelude::*;
use vstd::hash_map::StringHashMap;
use crate::types::{Symbol, Reference, Id, ABT, Term, Type, TypeDecl};
use crate::model::{AbtV, TermV, TypeV, RefV, SymbolV, TypeDeclV, type_abt_v, abt_v, term_v, sym_v, typedecl_v,
    boxed_abts_v, lemma_boxed_abts_v, syms_v};
use crate::walk::{abt_size, term_size, abts_size, unroll, cycle_syms, lemma_cycle_syms,
    lemma_unroll_size, lemma_abts_size_take, lemma_abts_size_elem, cwf, term_cwf, abts_cwf,
    lemma_abts_cwf_step, refs, term_refs, abts_refs, lemma_abts_step, good, shaped};
use crate::env::{Env, Fetch, Scan, no_type, type_of, lemma_reaches_append, reaches, sound, settled, complete, closed, strs_v, file_path,
    lemma_reaches_self, lemma_settled};
use crate::copy::copy_symbol;
use crate::text::{nat_text, int_text, str_debug, term_debug, u64_text, usize_text, i64_text,
    char_text, debug_str, debug_term};
use crate::sets::{lemma_diff_mono, lemma_diff_insert};

verus! {

/// A Scheme expression: an atom, or an application of a list.
#[derive(Debug, PartialEq)]
pub enum Chicken {
    Atom(String),
    Apply(Vec<Chicken>),
}

pub enum ChickenV {
    Atom(Seq<char>),
    Apply(Seq<ChickenV>),
}

pub open spec fn chicken_v(c: Chicken) -> ChickenV
    decreases c,
{
    match c {
        Chicken::Atom(a) => ChickenV::Atom(a@),
        Chicken::Apply(items) => ChickenV::Apply(chickens_v(items@)),
    }
}

pub open spec fn chickens_v(s: Seq<Chicken>) -> Seq<ChickenV>
    decreases s,
{
    if s.len() == 0 {
        Seq::empty()
    } else {
        seq![chicken_v(s[0])] + chickens_v(s.subrange(1, s.len() as int))
    }
}

pub proof fn lemma_chickens_v(s: Seq<Chicken>)
    ensures
        chickens_v(s).len() == s.len(),
        forall|i: int| 0 <= i < s.len() ==> #[trigger] chickens_v(s)[i] == chicken_v(s[i]),
    decreases s.len(),
{
    if s.len() > 0 {
        lemma_chickens_v(s.subrange(1, s.len() as int));
    }
}

impl View for Chicken {
    type V = ChickenV;

    open spec fn view(&self) -> ChickenV {
        chicken_v(*self)
    }
}

/// The text of an expression: an atom as it is, a list in parentheses with
/// its items separated by single spaces.
pub open spec fn text(c: ChickenV) -> Seq<char>
    decreases c,
{
    match c {
        ChickenV::Atom(a) => a,
        ChickenV::Apply(items) => "("@ + joined(items) + ")"@,
    }
}

pub open spec fn joined(items: Seq<ChickenV>) -> Seq<char>
    decreases items,
{
    if items.len() == 0 {
        Seq::empty()
    } else if items.len() == 1 {
        text(items[0])
    } else {
        joined(items.subrange(0, items.len() - 1)) + " "@ + text(items[items.len() - 1])
    }
}

/// The text of every list, whatever its length (none, one or more items),
/// begins with `(` and ends with `)`.
pub proof fn law_list_text(items: Seq<ChickenV>)
    ensures
        text(ChickenV::Apply(items)).len() >= 2,
        text(ChickenV::Apply(items))[0] == '(',
        text(ChickenV::Apply(items)).last() == ')',
{
    reveal_strlit("(");
    reveal_strlit(")");
    let t = text(ChickenV::Apply(items));
    assert(t == "("@ + joined(items) + ")"@);
    assert(t[0] == '(');
    assert(t[t.len() - 1] == ')');
}

/// A list of one item is that item's text in parentheses; a list of two is
/// their texts, separated by one space, in parentheses; the empty list is
/// `()`.
pub proof fn law_list_text_small(x: ChickenV, y: ChickenV)
    ensures
        text(ChickenV::Apply(Seq::empty())) == "()"@,
        text(ChickenV::Apply(seq![x])) == "("@ + text(x) + ")"@,
        text(ChickenV::Apply(seq![x, y])) == "("@ + text(x) + " "@ + text(y) + ")"@,
{
    reveal_strlit("(");
    reveal_strlit(")");
    reveal_strlit("()");
    assert(joined(Seq::<ChickenV>::empty()) == Seq::<char>::empty());
    assert("("@ + Seq::<char>::empty() + ")"@ =~= "()"@);
    assert(seq![x].len() == 1 && seq![x][0] == x);
    assert(joined(seq![x]) == text(x));
    let two = seq![x, y];
    assert(two.subrange(0, 1) =~= seq![x]);
    assert(joined(two) == joined(two.subrange(0, 1)) + " "@ + text(two[1]));
}

/// A deep copy.
pub fn copy_chicken(c: &Chicken) -> (r: Chicken)
    ensures
        chicken_v(r) == chicken_v(*c),
    decreases c,
{
    match c {
        Chicken::Atom(a) => Chicken::Atom(a.clone()),
        Chicken::Apply(items) => {
            let mut out: Vec<Chicken> = Vec::new();
            let mut i: usize = 0;
            while i < items.len()
                invariant
                    i <= items.len(),
                    out.len() == i,
                    forall|j: int| 0 <= j < i ==> chicken_v(#[trigger] out@[j]) == chicken_v(items@[j]),
                    decreases_to!(*c => *items),
                decreases items.len() - i,
            {
                proof {
                    assert(decreases_to!(*items => items@[i as int]));
                }
                out.push(copy_chicken(&items[i]));
                i = i + 1;
            }
            proof {
                lemma_chickens_v(out@);
                lemma_chickens_v(items@);
                assert(chickens_v(out@) =~= chickens_v(items@));
            }
            Chicken::Apply(out)
        },
    }
}

impl Clone for Chicken {
    fn clone(&self) -> (r: Self)
        ensures
            chicken_v(r) == chicken_v(*self),
    {
        copy_chicken(self)
    }
}

/// Whether two expressions are the same.
pub fn same_chicken(a: &Chicken, b: &Chicken) -> (r: bool)
    ensures
        r == (chicken_v(*a) == chicken_v(*b)),
    decreases a,
{
    match (a, b) {
        (Chicken::Atom(x), Chicken::Atom(y)) => {
            let r = *x == *y;
            assert(r == (x@ == y@));
            r
        },
        (Chicken::Apply(xs), Chicken::Apply(ys)) => {
            proof {
                lemma_chickens_v(xs@);
                lemma_chickens_v(ys@);
            }
            assert(chicken_v(*a) == ChickenV::Apply(chickens_v(xs@)));
            assert(chicken_v(*b) == ChickenV::Apply(chickens_v(ys@)));
            if xs.len() != ys.len() {
                return false;
            }
            let mut i: usize = 0;
            while i < xs.len()
                invariant
                    xs.len() == ys.len(),
                    i <= xs.len(),
                    chickens_v(xs@).len() == xs.len(),
                    chickens_v(ys@).len() == ys.len(),
                    forall|j: int| 0 <= j < xs.len() ==> #[trigger] chickens_v(xs@)[j] == chicken_v(xs@[j]),
                    forall|j: int| 0 <= j < ys.len() ==> #[trigger] chickens_v(ys@)[j] == chicken_v(ys@[j]),
                    forall|j: int| 0 <= j < i ==> chicken_v(#[trigger] xs@[j]) == chicken_v(ys@[j]),
                    decreases_to!(*a => *xs),
                    chicken_v(*a) == ChickenV::Apply(chickens_v(xs@)),
                    chicken_v(*b) == ChickenV::Apply(chickens_v(ys@)),
                decreases xs.len() - i,
            {
                proof {
                    assert(decreases_to!(*xs => xs@[i as int]));
                }
                if !same_chicken(&xs[i], &ys[i]) {
                    assert(chickens_v(xs@)[i as int] != chickens_v(ys@)[i as int]);
                    return false;
                }
                i = i + 1;
            }
            assert(chickens_v(xs@) =~= chickens_v(ys@));
            true
        },
        _ => {
            assert(chicken_v(*a) != chicken_v(*b));
            false
        },
    }
}

impl Chicken {
    /// The text of the expression.
    pub fn to_string(&self) -> (r: String)
        ensures
            r@ == text(chicken_v(*self)),
        decreases self,
    {
        match self {
            Chicken::Atom(atom) => atom.clone(),
            Chicken::Apply(items) => {
                let ghost cs = chickens_v(items@);
                proof {
                    lemma_chickens_v(items@);
                    assert(cs.take(0) =~= Seq::<ChickenV>::empty());
                }
                let mut res = "(".to_owned();
                let mut i: usize = 0;
                while i < items.len()
                    invariant
                        i <= items.len(),
                        cs == chickens_v(items@),
                        cs.len() == items.len(),
                        forall|j: int| 0 <= j < items.len() ==> #[trigger] cs[j] == chicken_v(items@[j]),
                        res@ == "("@ + joined(cs.take(i as int)),
                        decreases_to!(*self => *items),
                    decreases items.len() - i,
                {
                    proof {
                        assert(decreases_to!(*items => items@[i as int]));
                        assert(cs.take(i + 1).subrange(0, i as int) =~= cs.take(i as int));
                        assert(cs.take(i + 1)[i as int] == cs[i as int]);
                    }
                    if i > 0 {
                        res.append(" ");
                    }
                    let s = items[i].to_string();
                    res.append(s.as_str());
                    proof {
                        if i == 0 {
                            assert(cs.take(1) =~= seq![cs[0]]);
                            assert(res@ =~= "("@ + joined(cs.take(1)));
                        } else {
                            assert(res@ =~= "("@ + joined(cs.take(i + 1)));
                        }
                    }
                    i = i + 1;
                }
                res.append(")");
                assert(cs.take(items.len() as int) =~= cs);
                res
            },
        }
    }
}

/// What went wrong in a translation.
#[derive(Debug, PartialEq)]
pub enum Error {
    /// A part that the translation leaves out, with the text to put in its place.
    NotImplemented(String),
    /// A stored term that was needed and is not stored.
    Missing(String),
}

pub enum ErrorV {
    NotImplemented(Seq<char>),
    Missing(Seq<char>),
}

pub open spec fn error_v(e: Error) -> ErrorV {
    match e {
        Error::NotImplemented(t) => ErrorV::NotImplemented(t@),
        Error::Missing(h) => ErrorV::Missing(h@),
    }
}

pub open spec fn res_v(r: Result<Chicken, Error>) -> Result<ChickenV, ErrorV> {
    match r {
        Ok(c) => Ok(chicken_v(c)),
        Err(e) => Err(error_v(e)),
    }
}

pub open spec fn unit_v(r: Result<(), Error>) -> Result<(), ErrorV> {
    match r {
        Ok(_) => Ok(()),
        Err(e) => Err(error_v(e)),
    }
}

/// The translated terms by hash, each with its type; the anonymous
/// functions; and the types of the stored terms, which the translation reads.
pub struct CState {
    pub terms: Map<Seq<char>, (ChickenV, AbtV<TypeV>)>,
    pub anon: Seq<(Seq<char>, ChickenV)>,
    pub tys: Map<Seq<char>, AbtV<TypeV>>,
}

pub struct TranslationEnv {
    pub env: Env,
    pub terms: StringHashMap<(Chicken, ABT<Type>)>,
    pub types: StringHashMap<TypeDecl>,
    pub anon_fns: Vec<(crate::types::Hash, Chicken)>,
}

impl View for TranslationEnv {
    type V = CState;

    open spec fn view(&self) -> CState {
        CState {
            terms: self.terms@.map_values(
                |p: (Chicken, ABT<Type>)| (chicken_v(p.0), type_abt_v(p.1)),
            ),
            anon: self.anon_fns@.map_values(|p: (crate::types::Hash, Chicken)| (p.0.0@, chicken_v(p.1))),
            tys: self.env.term_types(),
        }
    }
}

/// The name of a symbol as an atom: its text, `_` and its number.
pub open spec fn atom(s: SymbolV) -> Seq<char> {
    s.text + "_"@ + nat_text(s.unique as nat)
}

impl Symbol {
    pub fn to_atom(&self) -> (r: String)
        ensures
            r@ == atom(sym_v(*self)),
    {
        let mut r = self.text.clone();
        r.append("_");
        let n = usize_text(self.unique);
        r.append(n.as_str());
        r
    }
}

/// The stored terms that are not translated yet.
pub open spec fn pending_c(src: Map<Seq<char>, AbtV<TermV>>, g: CState) -> nat {
    src.dom().difference(g.terms.dom()).len()
}

pub open spec fn wrap(head: Seq<ChickenV>, r: (Result<Seq<ChickenV>, ErrorV>, CState)) -> (
    Result<ChickenV, ErrorV>,
    CState,
) {
    match r.0 {
        Ok(cs) => (Ok(ChickenV::Apply(head + cs)), r.1),
        Err(e) => (Err(e), r.1),
    }
}

/// Translating a binding tree: the expression (or the error that stopped
/// it) and what the translated terms become. `fuel` bounds the number of
/// stored terms translated on the way.
pub open spec fn t_abt(
    a: AbtV<TermV>,
    src: Map<Seq<char>, AbtV<TermV>>,
    fuel: nat,
    g: CState,
) -> (Result<ChickenV, ErrorV>, CState)
    decreases fuel, abt_size(a),
{
    match a {
        AbtV::Var(sym) => (Ok(ChickenV::Atom(atom(sym))), g),
        AbtV::Tm(t) => t_term(t, src, fuel, g),
        AbtV::Cycle(inner) => match unroll(*inner) {
            Some((names, values, body)) => {
                proof {
                    lemma_unroll_size(*inner);
                    if names.len() <= values.len() {
                        lemma_abts_size_take(values, names.len() as int);
                    }
                }
                if names.len() <= values.len() {
                    let (rb, g1) = t_bindings(
                        cycle_syms(*inner),
                        values.take(names.len() as int),
                        src,
                        fuel,
                        g,
                    );
                    match rb {
                        Err(e) => (Err(e), g1),
                        Ok(bs) => {
                            let (r2, g2) = t_abt(body, src, fuel, g1);
                            match r2 {
                                Ok(b) => (
                                    Ok(
                                        ChickenV::Apply(
                                            seq![ChickenV::Atom("let"@), ChickenV::Apply(bs), b],
                                        ),
                                    ),
                                    g2,
                                ),
                                Err(e) => (Err(e), g2),
                            }
                        },
                    }
                } else {
                    (Err(ErrorV::NotImplemented(Seq::empty())), g)
                }
            },
            None => (Err(ErrorV::NotImplemented(Seq::empty())), g),
        },
        AbtV::Abs(name, body) => {
            let (r, g1) = t_abt(*body, src, fuel, g);
            match r {
                Ok(b) => (Ok(ChickenV::Apply(seq![ChickenV::Atom(atom(name)), b])), g1),
                Err(e) => (Err(e), g1),
            }
        },
    }
}

/// Translating the values of a cycle, each bound to its name.
pub open spec fn t_bindings(
    syms: Seq<SymbolV>,
    vals: Seq<AbtV<TermV>>,
    src: Map<Seq<char>, AbtV<TermV>>,
    fuel: nat,
    g: CState,
) -> (Result<Seq<ChickenV>, ErrorV>, CState)
    decreases fuel, abts_size(vals),
{
    if vals.len() == 0 {
        (Ok(Seq::empty()), g)
    } else {
        let (r0, g1) = t_abt(vals[0], src, fuel, g);
        match r0 {
            Err(e) => (Err(e), g1),
            Ok(c) => {
                let (rr, g2) = t_bindings(
                    syms.subrange(1, syms.len() as int),
                    vals.subrange(1, vals.len() as int),
                    src,
                    fuel,
                    g1,
                );
                match rr {
                    Ok(bs) => (
                        Ok(seq![ChickenV::Apply(seq![ChickenV::Atom(atom(syms[0])), c])] + bs),
                        g2,
                    ),
                    Err(e) => (Err(e), g2),
                }
            },
        }
    }
}

/// Translating trees first to last, stopping at the first error.
pub open spec fn t_list(
    xs: Seq<AbtV<TermV>>,
    src: Map<Seq<char>, AbtV<TermV>>,
    fuel: nat,
    g: CState,
) -> (Result<Seq<ChickenV>, ErrorV>, CState)
    decreases fuel, abts_size(xs),
{
    if xs.len() == 0 {
        (Ok(Seq::empty()), g)
    } else {
        let (r0, g1) = t_abt(xs[0], src, fuel, g);
        match r0 {
            Err(e) => (Err(e), g1),
            Ok(c) => {
                let (rr, g2) = t_list(xs.subrange(1, xs.len() as int), src, fuel, g1);
                match rr {
                    Ok(cs) => (Ok(seq![c] + cs), g2),
                    Err(e) => (Err(e), g2),
                }
            },
        }
    }
}

pub open spec fn t_term(
    t: TermV,
    src: Map<Seq<char>, AbtV<TermV>>,
    fuel: nat,
    g: CState,
) -> (Result<ChickenV, ErrorV>, CState)
    decreases fuel, term_size(t),
{
    match t {
        TermV::Ref(RefV::Builtin(name)) => (Ok(ChickenV::Atom(name)), g),
        TermV::Ref(RefV::Derived(h, _, _)) => {
            let (r, g1) = t_load(h, src, fuel, g);
            match r {
                Ok(_) => (Ok(ChickenV::Atom(h)), g1),
                Err(e) => (Err(e), g1),
            }
        },
        TermV::App(a, b) => {
            proof {
                crate::walk::lemma_abts_size_lit2(*a, *b);
            }
            wrap(Seq::empty(), t_list(seq![*a, *b], src, fuel, g))
        },
        TermV::Int(n) => (Ok(ChickenV::Atom(int_text(n as int))), g),
        TermV::Float(s) => (Ok(ChickenV::Atom(s)), g),
        TermV::Nat(n) => (Ok(ChickenV::Atom(nat_text(n as nat))), g),
        TermV::Boolean(b) => (Ok(ChickenV::Atom(
            if b {
                "true"@
            } else {
                "false"@
            },
        )), g),
        TermV::Text(s) => (Ok(ChickenV::Atom(str_debug(s))), g),
        TermV::Char(c) => (Ok(ChickenV::Atom(seq![c])), g),
        TermV::If(c, y, n) => {
            proof {
                crate::walk::lemma_abts_size_lit3(*c, *y, *n);
            }
            wrap(seq![ChickenV::Atom("if"@)], t_list(seq![*c, *y, *n], src, fuel, g))
        },
        TermV::And(a, b) => {
            proof {
                crate::walk::lemma_abts_size_lit2(*a, *b);
            }
            wrap(seq![ChickenV::Atom("and"@)], t_list(seq![*a, *b], src, fuel, g))
        },
        TermV::Or(a, b) => {
            proof {
                crate::walk::lemma_abts_size_lit2(*a, *b);
            }
            wrap(seq![ChickenV::Atom("and"@)], t_list(seq![*a, *b], src, fuel, g))
        },
        TermV::Constructor(RefV::Builtin(name), num) => (
            Ok(ChickenV::Atom(name + "_"@ + nat_text(num as nat))),
            g,
        ),
        TermV::Constructor(RefV::Derived(h, _, _), num) => (
            Ok(ChickenV::Atom(h + "_"@ + nat_text(num as nat))),
            g,
        ),
        _ => (Ok(ChickenV::Atom("(not-implemented "@ + str_debug(term_debug(t)) + ")"@)), g),
    }
}

/// Translating the stored term `h`, unless it is translated (or being
/// translated) already. It is entered with a placeholder first, so that a
/// term that refers to itself is translated once.
pub open spec fn t_load(
    h: Seq<char>,
    src: Map<Seq<char>, AbtV<TermV>>,
    fuel: nat,
    g: CState,
) -> (Result<(), ErrorV>, CState)
    decreases fuel, 0nat,
{
    if g.terms.contains_key(h) {
        (Ok(()), g)
    } else {
        let g1 = CState {
            terms: g.terms.insert(h, (ChickenV::Atom("not-yet-evaluated"@), no_type())),
            anon: g.anon,
            tys: g.tys,
        };
        if !src.contains_key(h) {
            (Err(ErrorV::Missing(h)), g1)
        } else if fuel == 0 {
            (Ok(()), g)
        } else {
            let (r, g2) = t_abt(src[h], src, (fuel - 1) as nat, g1);
            match r {
                Ok(c) => (
                    Ok(()),
                    CState {
                        terms: g2.terms.insert(h, (c, type_of(g.tys, h))),
                        anon: g2.anon,
                        tys: g2.tys,
                    },
                ),
                Err(ErrorV::NotImplemented(t)) => (
                    Ok(()),
                    CState {
                        terms: g2.terms.insert(h, (ChickenV::Atom(t), type_of(g.tys, h))),
                        anon: g2.anon,
                        tys: g2.tys,
                    },
                ),
                Err(e) => (Err(e), g2),
            }
        }
    }
}

pub open spec fn prepend(p: Seq<ChickenV>, x: (Result<Seq<ChickenV>, ErrorV>, CState)) -> (
    Result<Seq<ChickenV>, ErrorV>,
    CState,
) {
    match x.0 {
        Ok(bs) => (Ok(p + bs), x.1),
        Err(e) => (Err(e), x.1),
    }
}

/// Translating a cycle, one step.
pub proof fn lemma_t_cycle(
    inner: AbtV<TermV>,
    src: Map<Seq<char>, AbtV<TermV>>,
    fuel: nat,
    g: CState,
)
    requires
        unroll(inner) is Some,
        unroll(inner).unwrap().0.len() <= unroll(inner).unwrap().1.len(),
    ensures
        ({
            let (ns, vals, body) = unroll(inner).unwrap();
            let (rb, g1) = t_bindings(cycle_syms(inner), vals.take(ns.len() as int), src, fuel, g);
            t_abt(AbtV::Cycle(Box::new(inner)), src, fuel, g) == match rb {
                Err(e) => (Err(e), g1),
                Ok(bs) => {
                    let (r2, g2) = t_abt(body, src, fuel, g1);
                    match r2 {
                        Ok(bv) => (
                            Ok(
                                ChickenV::Apply(
                                    seq![ChickenV::Atom("let"@), ChickenV::Apply(bs), bv],
                                ),
                            ),
                            g2,
                        ),
                        Err(e) => (Err(e), g2),
                    }
                },
            }
        }),
{
}

pub proof fn lemma_prepend_step(
    bs: Seq<ChickenV>,
    item: ChickenV,
    x: (Result<Seq<ChickenV>, ErrorV>, CState),
)
    ensures
        prepend(
            bs,
            match x.0 {
                Ok(rest) => (Ok(seq![item] + rest), x.1),
                Err(e) => (Err(e), x.1),
            },
        ) == prepend(bs.push(item), x),
{
    if let Ok(rest) = x.0 {
        assert(bs + (seq![item] + rest) =~= bs.push(item) + rest);
    }
}

pub proof fn lemma_t_list2(
    a: AbtV<TermV>,
    b: AbtV<TermV>,
    src: Map<Seq<char>, AbtV<TermV>>,
    fuel: nat,
    g: CState,
)
    ensures
        t_list(seq![a, b], src, fuel, g) == ({
            let (r0, g1) = t_abt(a, src, fuel, g);
            match r0 {
                Err(e) => (Err(e), g1),
                Ok(ca) => {
                    let (r1, g2) = t_abt(b, src, fuel, g1);
                    match r1 {
                        Err(e) => (Err(e), g2),
                        Ok(cb) => (Ok(seq![ca, cb]), g2),
                    }
                },
            }
        }),
{
    let s = seq![a, b];
    assert(s[0] == a);
    assert(s.subrange(1, 2) =~= seq![b]);
    let sb = seq![b];
    assert(sb[0] == b);
    assert(sb.subrange(1, 1) =~= Seq::<AbtV<TermV>>::empty());
    let (r0, g1) = t_abt(a, src, fuel, g);
    match r0 {
        Err(e) => {
            assert(t_list(s, src, fuel, g) == (Err::<Seq<ChickenV>, ErrorV>(e), g1));
        },
        Ok(ca) => {
            let (r1, g2) = t_abt(b, src, fuel, g1);
            assert(t_list(Seq::<AbtV<TermV>>::empty(), src, fuel, g2) == (
                Ok::<Seq<ChickenV>, ErrorV>(Seq::<ChickenV>::empty()),
                g2,
            ));
            match r1 {
                Err(e) => {
                    assert(t_list(sb, src, fuel, g1) == (Err::<Seq<ChickenV>, ErrorV>(e), g2));
                },
                Ok(cb) => {
                    assert(seq![cb] + Seq::<ChickenV>::empty() =~= seq![cb]);
                    assert(t_list(sb, src, fuel, g1) == (Ok::<Seq<ChickenV>, ErrorV>(seq![cb]), g2));
                    assert(seq![ca] + seq![cb] =~= seq![ca, cb]);
                },
            }
        },
    }
}

pub proof fn lemma_t_list3(
    a: AbtV<TermV>,
    b: AbtV<TermV>,
    c: AbtV<TermV>,
    src: Map<Seq<char>, AbtV<TermV>>,
    fuel: nat,
    g: CState,
)
    ensures
        t_list(seq![a, b, c], src, fuel, g) == ({
            let (r0, g1) = t_abt(a, src, fuel, g);
            match r0 {
                Err(e) => (Err(e), g1),
                Ok(ca) => {
                    let (r1, g2) = t_abt(b, src, fuel, g1);
                    match r1 {
                        Err(e) => (Err(e), g2),
                        Ok(cb) => {
                            let (r2, g3) = t_abt(c, src, fuel, g2);
                            match r2 {
                                Err(e) => (Err(e), g3),
                                Ok(cc) => (Ok(seq![ca, cb, cc]), g3),
                            }
                        },
                    }
                },
            }
        }),
{
    let s = seq![a, b, c];
    assert(s.subrange(1, 3) =~= seq![b, c]);
    let (r0, g1) = t_abt(a, src, fuel, g);
    if let Ok(ca) = r0 {
        lemma_t_list2(b, c, src, fuel, g1);
        let (r1, g2) = t_abt(b, src, fuel, g1);
        if let Ok(cb) = r1 {
            let (r2, g3) = t_abt(c, src, fuel, g2);
            if let Ok(cc) = r2 {
                assert(seq![ca] + seq![cb, cc] =~= seq![ca, cb, cc]);
            }
        }
    }
}

/// Every stored term in `r` can be translated to Scheme and leads only to
/// `r` or to `done`.
pub open spec fn chicken_closed(
    src: Map<Seq<char>, AbtV<TermV>>,
    r: Set<Seq<char>>,
    done: Set<Seq<char>>,
) -> bool {
    forall|k: Seq<char>|
        #[trigger] r.contains(k) && src.contains_key(k) ==> cwf(src[k]) && refs(src[k], false).subset_of(
            r + done,
        )
}

/// The references in `roots` lead only to stored terms that can be
/// translated to Scheme, to terms that are not stored, or to `done`.
pub open spec fn chicken_ready(
    src: Map<Seq<char>, AbtV<TermV>>,
    done: Set<Seq<char>>,
    roots: Set<Seq<char>>,
) -> bool {
    exists|r: Set<Seq<char>>| #[trigger] chicken_closed(src, r, done) && roots.subset_of(r + done)
}

pub open spec fn translating(te: TranslationEnv, r: Set<Seq<char>>, fuel: nat) -> bool {
    &&& te.env.wf()
    &&& chicken_closed(te.env.source(), r, te@.terms.dom())
    &&& te.env.source().dom().difference(te@.terms.dom()).len() <= fuel
}

/// Every term translated in `g1` and not in `g0` has the stored terms it
/// refers to translated in `g1`.
pub open spec fn loaded_c(src: Map<Seq<char>, AbtV<TermV>>, g0: CState, g1: CState) -> bool {
    forall|k: Seq<char>|
        #[trigger] g1.terms.contains_key(k) && !g0.terms.contains_key(k) ==> refs(
            src[k],
            false,
        ).subset_of(g1.terms.dom())
}

/// Along a chain of references from a translated term through terms newly
/// translated, every term is translated.
proof fn lemma_reached_loaded_c(
    src: Map<Seq<char>, AbtV<TermV>>,
    g0: CState,
    g1: CState,
    p: Seq<Seq<char>>,
    i: int,
)
    requires
        loaded_c(src, g0, g1),
        crate::env::path_ok(src, g0.terms.dom(), false, p),
        g1.terms.contains_key(p[0]),
        0 <= i < p.len(),
    ensures
        g1.terms.contains_key(p[i]),
    decreases i,
{
    if i > 0 {
        lemma_reached_loaded_c(src, g0, g1, p, i - 1);
        assert(!g0.terms.dom().contains(p[i - 1]));
        assert(refs(src[p[i - 1]], false).contains(p[i]));
    }
}

/// A translation that succeeded has translated what it refers to; one that
/// failed met a term that is not stored.
pub open spec fn finished(
    res: Result<Chicken, Error>,
    roots: Set<Seq<char>>,
    src: Map<Seq<char>, AbtV<TermV>>,
    g0: CState,
    g1: CState,
) -> bool {
    match res {
        Ok(_) => roots.subset_of(g1.terms.dom()) && loaded_c(src, g0, g1),
        Err(e) => e matches Error::Missing(m) && !src.contains_key(m@),
    }
}

/// The store, the types and the translated terms are kept.
pub open spec fn grows_c(a: TranslationEnv, b: TranslationEnv) -> bool {
    &&& b.env == a.env
    &&& b.types@ == a.types@
    &&& a@.terms.dom().subset_of(b@.terms.dom())
}

pub proof fn lemma_translating_grows(a: TranslationEnv, b: TranslationEnv, r: Set<Seq<char>>, fuel: nat)
    requires
        translating(a, r, fuel),
        grows_c(a, b),
    ensures
        translating(b, r, fuel),
{
    a.env.lemma_source_finite();
    lemma_diff_mono(a.env.source().dom(), a@.terms.dom(), b@.terms.dom());
}

/// Splits a cycle into its symbols (appended to `names`), its values and its body.
fn unroll_cycle(inner: &ABT<Term>, names: &mut Vec<Symbol>) -> (r: (
    Vec<Box<ABT<Term>>>,
    Box<ABT<Term>>,
))
    requires
        unroll(abt_v(*inner)) is Some,
    ensures
        ({
            let (ns, vals, body) = unroll(abt_v(*inner)).unwrap();
            &&& syms_v(final(names)@) == syms_v(old(names)@) + cycle_syms(abt_v(*inner))
            &&& boxed_abts_v(r.0@) == vals
            &&& abt_v(*r.1) == body
        }),
    decreases inner,
{
    match inner {
        ABT::Abs(sym, inner2) => {
            names.push(copy_symbol(sym));
            assert(syms_v(names@) =~= syms_v(old(names)@) + seq![sym_v(*sym)]);
            assert(abt_v(*inner) == AbtV::Abs(sym_v(*sym), Box::new(abt_v(**inner2))));
            if let ABT::Tm(Term::LetRec(rec, things, body)) = &**inner2 {
                assert(abt_v(**inner2) == AbtV::Tm(
                    TermV::LetRec(*rec, boxed_abts_v(things@), Box::new(abt_v(**body))),
                )) by {
                    reveal_with_fuel(abt_v, 2);
                }
                (crate::copy::copy_boxed_abts(things), Box::new(crate::copy::copy_abt(body)))
            } else {
                proof {
                    reveal_with_fuel(abt_v, 2);
                }
                let r = unroll_cycle(inner2, names);
                assert(syms_v(names@) =~= syms_v(old(names)@) + cycle_syms(abt_v(*inner)));
                r
            }
        },
        _ => vstd::pervasive::unreached(),
    }
}

impl TranslationEnv {
    fn load_in(&mut self, hash: &str, Ghost(r): Ghost<Set<Seq<char>>>, Ghost(fuel): Ghost<nat>) -> (res:
        Result<(), Error>)
        requires
            translating(*old(self), r, fuel),
            r.contains(hash@) || old(self)@.terms.contains_key(hash@),
        ensures
            (unit_v(res), final(self)@) == t_load(hash@, old(self).env.source(), fuel, old(self)@),
            grows_c(*old(self), *final(self)),
            match res {
                Ok(_) => final(self)@.terms.contains_key(hash@) && loaded_c(
                    old(self).env.source(),
                    old(self)@,
                    final(self)@,
                ),
                Err(e) => e matches Error::Missing(m) && !old(self).env.source().contains_key(m@),
            },
        decreases fuel, 0nat,
    {
        if self.terms.contains_key(hash) {
            return Ok(());
        }
        let ghost src = self.env.source();
        let ghost g0 = self@;
        let placeholder = (
            Chicken::Atom("not-yet-evaluated".to_owned()),
            ABT::Tm(Type::Ref(Reference::Builtin("nvm".to_owned()))),
        );
        proof {
            reveal_strlit("nvm");
            reveal_strlit("not-yet-evaluated");
            reveal_with_fuel(type_abt_v, 2);
        }
        assert(type_abt_v(placeholder.1) == no_type());
        self.terms.insert(hash.to_owned(), placeholder);
        let ghost g1 = CState {
            terms: g0.terms.insert(hash@, (ChickenV::Atom("not-yet-evaluated"@), no_type())),
            anon: g0.anon,
            tys: g0.tys,
        };
        assert(self@.terms =~= g1.terms);
        assert(self@.anon =~= g1.anon);
        assert(self@.terms.dom() =~= g0.terms.dom().insert(hash@));
        let term = match self.env.load(hash) {
            Fetch::Found(t) => t,
            Fetch::Read(_) => {
                return Err(Error::Missing(hash.to_owned()));
            },
        };
        proof {
            self.env.lemma_source_finite();
            lemma_diff_insert(src.dom(), g0.terms.dom(), hash@);
            assert(cwf(src[hash@]));
            lemma_translating_grows(*old(self), *self, r, fuel);
            assert(translating(*self, r, (fuel - 1) as nat));
        }
        match term.ch_abt(self, Ghost(r), Ghost((fuel - 1) as nat)) {
            Ok(ch) => {
                let ghost g2 = self@;
                let ghost c = chicken_v(ch);
                let typ = self.env.term_type(hash);
                self.terms.insert(hash.to_owned(), (ch, typ));
                assert(self@.terms =~= g2.terms.insert(hash@, (c, type_of(g0.tys, hash@))));
                assert(self@.anon =~= g2.anon);
            },
            Err(Error::NotImplemented(text)) => {
                let ghost g2 = self@;
                let ghost tv = text@;
                let typ = self.env.term_type(hash);
                self.terms.insert(hash.to_owned(), (Chicken::Atom(text), typ));
                assert(self@.terms =~= g2.terms.insert(
                    hash@,
                    (ChickenV::Atom(tv), type_of(g0.tys, hash@)),
                ));
                assert(self@.anon =~= g2.anon);
            },
            Err(err) => {
                return Err(err);
            },
        }
        Ok(())
    }
}

impl TranslationEnv {
    /// The type declarations read so far.
    pub open spec fn known_types(&self) -> Map<Seq<char>, TypeDeclV> {
        self.types@.map_values(|d: TypeDecl| typedecl_v(d))
    }

    /// A translation with nothing translated yet, over the store `env`.
    pub fn new(env: Env) -> (r: TranslationEnv)
        ensures
            r.env == env,
            r@.terms == Map::<Seq<char>, (ChickenV, AbtV<TypeV>)>::empty(),
            r@.anon == Seq::<(Seq<char>, ChickenV)>::empty(),
            r.known_types() == Map::<Seq<char>, TypeDeclV>::empty(),
            distinct_fns(r@.anon),
    {
        let r = TranslationEnv {
            env,
            terms: StringHashMap::new(),
            types: StringHashMap::new(),
            anon_fns: Vec::new(),
        };
        assert(r@.terms =~= Map::<Seq<char>, (ChickenV, AbtV<TypeV>)>::empty());
        assert(r@.anon =~= Seq::<(Seq<char>, ChickenV)>::empty());
        assert(r.known_types() =~= Map::<Seq<char>, TypeDeclV>::empty());
        r
    }

    /// The definition of the translated term `hash` as Scheme text.
    pub fn to_string(&self, hash: &crate::types::Hash) -> (r: String)
        requires
            self@.terms.contains_key(hash.0@),
        ensures
            r@ == "(define ("@ + hash.0@ + ")\n  "@ + text(self@.terms[hash.0@].0) + ")"@,
    {
        let mut res = "(define (".to_owned();
        res.append(hash.to_string().as_str());
        res.append(")\n  ");
        let term = match self.terms.get(hash.0.as_str()) {
            Some(t) => t,
            None => vstd::pervasive::unreached(),
        };
        res.append(term.0.to_string().as_str());
        res.append(")");
        res
    }

    /// The type declaration `hash`: from the declarations read so far, else
    /// from the store (and then kept), else the file to read it from.
    pub fn get_type(&mut self, hash: &crate::types::Hash) -> (r: Fetch<TypeDecl>)
        ensures
            final(self).env == old(self).env,
            final(self)@ == old(self)@,
            match r {
                Fetch::Found(d) => if old(self).known_types().contains_key(hash.0@) {
                    &&& typedecl_v(d) == old(self).known_types()[hash.0@]
                    &&& final(self).known_types() == old(self).known_types()
                } else {
                    &&& old(self).env.types().contains_key(hash.0@)
                    &&& typedecl_v(d) == old(self).env.types()[hash.0@]
                    &&& final(self).known_types() == old(self).known_types().insert(
                        hash.0@,
                        typedecl_v(d),
                    )
                },
                Fetch::Read(path) => {
                    &&& !old(self).known_types().contains_key(hash.0@)
                    &&& !old(self).env.types().contains_key(hash.0@)
                    &&& strs_v(path@) == file_path(old(self).env.root@, "types"@, hash.0@)
                    &&& final(self).known_types() == old(self).known_types()
                },
            },
    {
        match self.types.get(hash.0.as_str()) {
            Some(v) => Fetch::Found(v.clone()),
            None => match self.env.load_type(hash.0.as_str()) {
                Fetch::Found(d) => {
                    let res = d.clone();
                    let ghost dv = typedecl_v(d);
                    self.types.insert(hash.0.clone(), d);
                    assert(self.known_types() =~= old(self).known_types().insert(hash.0@, dv));
                    Fetch::Found(res)
                },
                Fetch::Read(path) => Fetch::Read(path),
            },
        }
    }

    /// Translates the stored term `hash` and every stored term it reaches that
    /// is not translated yet, each kept with its type. A term is entered with
    /// a placeholder before it is translated; where a term that is needed is
    /// not stored, the translation stops with its hash and the placeholders
    /// entered so far stay, `hash`'s among them, so that a later `load` of
    /// `hash` succeeds at once.
    pub fn load(&mut self, hash: &crate::types::Hash) -> (res: Result<(), Error>)
        requires
            old(self).env.wf(),
            sound(old(self).env.source(), old(self)@.terms.dom(), false, hash.0@),
        ensures
            final(self).env == old(self).env,
            final(self).types@ == old(self).types@,
            kept_c(old(self)@, final(self)@),
            (unit_v(res), final(self)@) == t_load(
                hash.0@,
                old(self).env.source(),
                pending_c(old(self).env.source(), old(self)@),
                old(self)@,
            ),
            final(self)@.terms.contains_key(hash.0@),
            complete(old(self).env.source(), old(self)@.terms.dom(), false, hash.0@) ==> res is Ok,
            match res {
                Ok(_) => forall|m: Seq<char>|
                    #[trigger] reaches(old(self).env.source(), old(self)@.terms.dom(), false, hash.0@, m)
                        ==> final(self)@.terms.contains_key(m),
                Err(e) => {
                    &&& e matches Error::Missing(m) && !old(self).env.source().contains_key(m@)
                    &&& final(self)@.terms[hash.0@] == (ChickenV::Atom("not-yet-evaluated"@), no_type())
                },
            },
    {
        let ghost src = self.env.source();
        let ghost t = self@.terms.dom();
        let ghost h = hash.0@;
        let ghost fuel = pending_c(src, self@);
        proof {
            lemma_t_load_kept(h, src, fuel, self@);
        }
        if self.terms.contains_key(hash.0.as_str()) {
            proof {
                assert forall|m: Seq<char>| #[trigger] reaches(src, t, false, h, m) implies self@.terms.contains_key(m) by {
                    let p = choose|p: Seq<Seq<char>>| #[trigger] crate::env::path_ok(src, t, false, p) && p[0] == h && p.last() == m;
                    assert(!t.contains(p[0]));
                }
            }
            return Ok(());
        }
        assert(self.terms@.dom() =~= self@.terms.dom());
        let ghost r = Set::new(|k: Seq<char>| reaches(src, t, false, h, k));
        proof {
            lemma_reaches_self(src, t, false, h);
            assert(r.contains(h));
            assert forall|k: Seq<char>| #[trigger] r.contains(k) && src.contains_key(k) implies cwf(src[k])
                && refs(src[k], false).subset_of(r + t) by {
                assert(reaches(src, t, false, h, k));
                assert(good(src[k], false));
                assert forall|x: Seq<char>| #[trigger] refs(src[k], false).contains(x) implies (r + t).contains(x) by {
                    if !t.contains(x) {
                        lemma_reaches_append(src, t, false, h, k, x);
                    }
                }
            }
            assert(chicken_closed(src, r, t));
            assert(translating(*self, r, fuel));
            lemma_t_load_err(h, src, fuel, self@);
            if complete(src, t, false, h) {
                self.env.lemma_source_finite();
                assert(r.subset_of(src.dom()));
                vstd::set_lib::lemma_len_subset(r.difference(t), src.dom().difference(t));
                assert(closed(src, r, t, false));
                assert(all_there(src, r, self@, fuel));
                lemma_ok_load(h, src, fuel, self@, r);
            }
        }
        let ghost g0 = self@;
        let res = self.load_in(hash.0.as_str(), Ghost(r), Ghost(fuel));
        proof {
            if res is Ok {
                assert forall|m: Seq<char>| #[trigger] reaches(src, t, false, h, m) implies self@.terms.contains_key(m) by {
                    let p = choose|p: Seq<Seq<char>>| #[trigger] crate::env::path_ok(src, t, false, p) && p[0] == h && p.last() == m;
                    lemma_reached_loaded_c(src, g0, self@, p, p.len() - 1);
                }
            }
        }
        res
    }

    /// Translates `contents` as an anonymous function of `hash` and gives its
    /// index among the anonymous functions: that of the first one that is the
    /// same expression, or a new one at the end.
    pub fn add_fn(&mut self, hash: crate::types::Hash, contents: &ABT<Term>) -> (res: Result<
        usize,
        Error,
    >)
        requires
            old(self).env.wf(),
            cwf(abt_v(*contents)),
            chicken_ready(old(self).env.source(), old(self)@.terms.dom(), refs(abt_v(*contents), false)),
        ensures
            final(self).env == old(self).env,
            final(self).types@ == old(self).types@,
            old(self)@.terms.submap_of(final(self)@.terms),
            distinct_fns(old(self)@.anon) ==> distinct_fns(final(self)@.anon),
            ({
                let (r, g1) = t_abt(
                    abt_v(*contents),
                    old(self).env.source(),
                    pending_c(old(self).env.source(), old(self)@),
                    old(self)@,
                );
                match res {
                    Err(e) => r == Err::<ChickenV, ErrorV>(error_v(e)) && final(self)@ == g1,
                    Ok(i) => r is Ok && (forall|j: int| 0 <= j < i ==> g1.anon[j].1 != r->Ok_0) && if i
                        < g1.anon.len() {
                        g1.anon[i as int].1 == r->Ok_0 && final(self)@ == g1
                    } else {
                        i == g1.anon.len() && final(self)@ == (CState {
                            terms: g1.terms,
                            anon: g1.anon.push((hash.0@, r->Ok_0)),
                            tys: g1.tys,
                        })
                    },
                }
            }),
    {
        proof {
            lemma_t_abt_kept(
                abt_v(*contents),
                self.env.source(),
                pending_c(self.env.source(), self@),
                self@,
            );
        }
        let ch = contents.to_chicken(self)?;
        let ghost g1 = self@;
        let ghost c = chicken_v(ch);
        let n = self.anon_fns.len();
        let mut i: usize = 0;
        while i < n
            invariant
                n == self.anon_fns.len(),
                g1 == self@,
                self.env == old(self).env,
                self.types@ == old(self).types@,
                (Ok::<ChickenV, ErrorV>(c), g1) == t_abt(
                    abt_v(*contents),
                    old(self).env.source(),
                    pending_c(old(self).env.source(), old(self)@),
                    old(self)@,
                ),
                g1.anon.len() == n,
                c == chicken_v(ch),
                i <= n,
                forall|j: int| 0 <= j < i ==> g1.anon[j].1 != c,
                kept_c(old(self)@, g1),
            decreases n - i,
        {
            assert(g1.anon[i as int].1 == chicken_v(self.anon_fns@[i as int].1));
            if same_chicken(&self.anon_fns[i].1, &ch) {
                return Ok(i);
            }
            i = i + 1;
        }
        let ghost old_fns = self.anon_fns@;
        let entry = (hash, ch);
        let ghost ev = (entry.0.0@, chicken_v(entry.1));
        self.anon_fns.push(entry);
        proof {
            assert forall|j: int| 0 <= j < self@.anon.len() implies self@.anon[j] == g1.anon.push(ev)[j] by {
                if j < old_fns.len() {
                    assert(self.anon_fns@[j] == old_fns[j]);
                }
            }
            assert(self@.anon =~= g1.anon.push(ev));
            assert(self@.terms =~= g1.terms);
            if distinct_fns(old(self)@.anon) {
                assert forall|a: int, b: int| 0 <= a < b < self@.anon.len() implies self@.anon[a].1
                    != self@.anon[b].1 by {
                    if b == n {
                        assert(self@.anon[a] == g1.anon[a]);
                    }
                }
            }
        }
        Ok(n)
    }
}

/// Translation of a tree to a Scheme expression.
pub trait ToChicken {
    /// What the translation needs of the tree and the environment.
    spec fn ready_for(&self, env: TranslationEnv) -> bool;

    /// The expression (or the error) and what the environment becomes.
    spec fn translation(&self, env: TranslationEnv) -> (Result<ChickenV, ErrorV>, CState);

    fn to_chicken(&self, env: &mut TranslationEnv) -> (r: Result<Chicken, Error>)
        requires
            self.ready_for(*old(env)),
        ensures
            (res_v(r), final(env)@) == self.translation(*old(env)),
            final(env).env == old(env).env,
            final(env).types@ == old(env).types@,
    ;
}

impl ToChicken for ABT<Term> {
    open spec fn ready_for(&self, env: TranslationEnv) -> bool {
        &&& env.env.wf()
        &&& cwf(abt_v(*self))
        &&& chicken_ready(env.env.source(), env@.terms.dom(), refs(abt_v(*self), false))
    }

    open spec fn translation(&self, env: TranslationEnv) -> (Result<ChickenV, ErrorV>, CState) {
        t_abt(abt_v(*self), env.env.source(), pending_c(env.env.source(), env@), env@)
    }

    fn to_chicken(&self, env: &mut TranslationEnv) -> (r: Result<Chicken, Error>) {
        let ghost src = env.env.source();
        let ghost t = env@.terms.dom();
        let ghost roots = refs(abt_v(*self), false);
        let ghost r = choose|r: Set<Seq<char>>| #[trigger] chicken_closed(src, r, t) && roots.subset_of(r + t);
        self.ch_abt(env, Ghost(r), Ghost(pending_c(src, env@)))
    }
}

impl ToChicken for Term {
    open spec fn ready_for(&self, env: TranslationEnv) -> bool {
        &&& env.env.wf()
        &&& term_cwf(term_v(*self))
        &&& chicken_ready(env.env.source(), env@.terms.dom(), term_refs(term_v(*self), false))
    }

    open spec fn translation(&self, env: TranslationEnv) -> (Result<ChickenV, ErrorV>, CState) {
        t_term(term_v(*self), env.env.source(), pending_c(env.env.source(), env@), env@)
    }

    fn to_chicken(&self, env: &mut TranslationEnv) -> (r: Result<Chicken, Error>) {
        let ghost src = env.env.source();
        let ghost t = env@.terms.dom();
        let ghost roots = term_refs(term_v(*self), false);
        let ghost r = choose|r: Set<Seq<char>>| #[trigger] chicken_closed(src, r, t) && roots.subset_of(r + t);
        self.ch_term(env, Ghost(r), Ghost(pending_c(src, env@)))
    }
}

impl ABT<Term> {
    fn ch_abt(&self, env: &mut TranslationEnv, Ghost(r): Ghost<Set<Seq<char>>>, Ghost(fuel): Ghost<nat>) -> (res:
        Result<Chicken, Error>)
        requires
            translating(*old(env), r, fuel),
            cwf(abt_v(*self)),
            refs(abt_v(*self), false).subset_of(r + old(env)@.terms.dom()),
        ensures
            (res_v(res), final(env)@) == t_abt(abt_v(*self), old(env).env.source(), fuel, old(env)@),
            grows_c(*old(env), *final(env)),
            finished(res, refs(abt_v(*self), false), old(env).env.source(), old(env)@, final(env)@),
        decreases fuel, abt_size(abt_v(*self)),
    {
        let ghost src = env.env.source();
        match self {
            ABT::Var(symbol) => Ok(Chicken::Atom(symbol.to_atom())),
            ABT::Tm(term) => term.ch_term(env, Ghost(r), Ghost(fuel)),
            ABT::Cycle(inner) => {
                let ghost a = abt_v(*self);
                let ghost (ns, vals, b) = unroll(abt_v(**inner)).unwrap();
                let ghost k = ns.len() as int;
                let ghost bound = vals.take(k);
                let ghost syms = cycle_syms(abt_v(**inner));
                proof {
                    lemma_unroll_size(abt_v(**inner));
                    lemma_cycle_syms(abt_v(**inner));
                    assert(a == AbtV::Cycle(Box::new(abt_v(**inner))));
                    assert(k <= vals.len());
                    lemma_t_cycle(abt_v(**inner), src, fuel, env@);
                    lemma_abts_size_take(vals, k);
                    assert forall|j: int| 0 <= j < k implies abt_size(#[trigger] vals[j]) < abt_size(a) by {
                        lemma_abts_size_elem(vals, j);
                    }
                    assert(bound.subrange(0, k) =~= bound);
                    assert(syms.subrange(0, k) =~= syms);
                }
                let mut names: Vec<Symbol> = Vec::new();
                let (values, body) = unroll_cycle(inner, &mut names);
                assert(syms_v(names@) =~= syms);
                proof {
                    lemma_boxed_abts_v(values@);
                }
                let ghost target = t_bindings(syms, bound, src, fuel, env@);
                let mut bindings: Vec<Chicken> = Vec::new();
                let n = names.len();
                let mut i: usize = 0;
                while i < n
                    invariant
                        n == names.len(),
                        n == k,
                        syms == syms_v(names@),
                        syms.len() == k,
                        k <= vals.len(),
                        bound.len() == k,
                        bound == vals.take(k),
                        vals == boxed_abts_v(values@),
                        vals.len() == values.len(),
                        forall|j: int| 0 <= j < vals.len() ==> #[trigger] vals[j] == abt_v(*values@[j]),
                        forall|j: int| 0 <= j < k ==> abt_size(#[trigger] vals[j]) < abt_size(a),
                        a == abt_v(*self),
                        a == AbtV::Cycle(Box::new(abt_v(**inner))),
                        unroll(abt_v(**inner)) == Some((ns, vals, b)),
                        k == ns.len(),
                        syms == cycle_syms(abt_v(**inner)),
                        target == t_bindings(syms, bound, src, fuel, old(env)@),
                        src == old(env).env.source(),
                        i <= n,
                        translating(*env, r, fuel),
                        grows_c(*old(env), *env),
                        target == prepend(
                            chickens_v(bindings@),
                            t_bindings(
                                syms.subrange(i as int, k),
                                bound.subrange(i as int, k),
                                src,
                                fuel,
                                env@,
                            ),
                        ),
                        abts_cwf(bound.subrange(i as int, k)),
                        abts_refs(bound.subrange(i as int, k), false).subset_of(
                            r + env@.terms.dom(),
                        ),
                        abts_refs(bound, false).subset_of(
                            env@.terms.dom() + abts_refs(bound.subrange(i as int, k), false),
                        ),
                        loaded_c(src, old(env)@, env@),
                    decreases n - i,
                {
                    proof {
                        lemma_abts_step(bound, i as int, false);
                        lemma_abts_cwf_step(bound, i as int);
                        assert(bound[i as int] == vals[i as int]);
                        assert(syms.subrange(i as int, k).subrange(1, k - i) =~= syms.subrange(
                            i + 1,
                            k,
                        ));
                        assert(syms.subrange(i as int, k)[0] == syms[i as int]);
                        lemma_chickens_v(bindings@);
                    }
                    let ghost g_before = *env;
                    proof {
                        let rest_s = syms.subrange(i as int, k);
                        let rest_v = bound.subrange(i as int, k);
                        assert(rest_v[0] == bound[i as int]);
                        assert(rest_s[0] == syms[i as int]);
                        assert(rest_v.subrange(1, rest_v.len() as int) == bound.subrange(i + 1, k));
                        assert(t_bindings(rest_s, rest_v, src, fuel, env@) == ({
                            let (r0, g1) = t_abt(bound[i as int], src, fuel, env@);
                            match r0 {
                                Err(e) => (Err(e), g1),
                                Ok(c) => {
                                    let (rr, g2) = t_bindings(
                                        syms.subrange(i + 1, k),
                                        bound.subrange(i + 1, k),
                                        src,
                                        fuel,
                                        g1,
                                    );
                                    match rr {
                                        Ok(bs) => (
                                            Ok(
                                                seq![
                                                    ChickenV::Apply(
                                                        seq![
                                                            ChickenV::Atom(atom(syms[i as int])),
                                                            c,
                                                        ],
                                                    ),
                                                ] + bs,
                                            ),
                                            g2,
                                        ),
                                        Err(e) => (Err(e), g2),
                                    }
                                },
                            }
                        }));
                    }
                    let atom_text = names[i].to_atom();
                    let v = match values[i].ch_abt(env, Ghost(r), Ghost(fuel)) {
                        Ok(v) => v,
                        Err(e) => {
                            proof {
                                assert(target == (Err::<Seq<ChickenV>, ErrorV>(error_v(e)), env@));
                                lemma_t_cycle(abt_v(**inner), src, fuel, old(env)@);
                            }
                            return Err(e);
                        },
                    };
                    proof {
                        lemma_translating_grows(g_before, *env, r, fuel);
                        crate::walk::lemma_refs_grow(
                            abts_refs(bound.subrange(i + 1, k), false),
                            r,
                            g_before@.terms.dom(),
                            env@.terms.dom(),
                        );
                    }
                    let ghost old_b = bindings@;
                    let ghost vv = chicken_v(v);
                    let item = Chicken::Apply(vec![Chicken::Atom(atom_text), v]);
                    proof {
                        lemma_chickens_v(item->Apply_0@);
                        assert(chickens_v(item->Apply_0@) =~= seq![
                            ChickenV::Atom(atom(syms[i as int])),
                            vv,
                        ]);
                    }
                    let ghost iv = chicken_v(item);
                    bindings.push(item);
                    proof {
                        lemma_chickens_v(bindings@);
                        lemma_chickens_v(old_b);
                        assert(chickens_v(bindings@) =~= chickens_v(old_b).push(iv));
                        lemma_prepend_step(
                            chickens_v(old_b),
                            iv,
                            t_bindings(
                                syms.subrange(i + 1, k),
                                bound.subrange(i + 1, k),
                                src,
                                fuel,
                                env@,
                            ),
                        );
                    }
                    i = i + 1;
                }
                proof {
                    assert(bound.subrange(k, k) =~= Seq::<AbtV<TermV>>::empty());
                    assert(abts_refs(bound.subrange(k, k), false) =~= Set::<Seq<char>>::empty());
                    assert(refs(a, false) == abts_refs(bound, false) + refs(b, false));
                    assert(chickens_v(bindings@) + Seq::<ChickenV>::empty() =~= chickens_v(
                        bindings@,
                    ));
                    crate::walk::lemma_refs_grow(refs(b, false), r, old(env)@.terms.dom(), env@.terms.dom());
                }
                let bv = body.ch_abt(env, Ghost(r), Ghost(fuel))?;
                let ghost bsv = chickens_v(bindings@);
                let res = Chicken::Apply(vec![Chicken::Atom("let".to_owned()), Chicken::Apply(bindings), bv]);
                proof {
                    lemma_chickens_v(res->Apply_0@);
                    assert(chickens_v(res->Apply_0@) =~= seq![
                        ChickenV::Atom("let"@),
                        ChickenV::Apply(bsv),
                        chicken_v(bv),
                    ]);
                }
                Ok(res)
            },
            ABT::Abs(name, body) => {
                let atom_text = name.to_atom();
                let bv = body.ch_abt(env, Ghost(r), Ghost(fuel))?;
                let res = Chicken::Apply(vec![Chicken::Atom(atom_text), bv]);
                proof {
                    lemma_chickens_v(res->Apply_0@);
                    assert(chickens_v(res->Apply_0@) =~= seq![
                        ChickenV::Atom(atom(sym_v(*name))),
                        chicken_v(bv),
                    ]);
                }
                Ok(res)
            },
        }
    }
}

impl Term {
    fn ch_term(&self, env: &mut TranslationEnv, Ghost(r): Ghost<Set<Seq<char>>>, Ghost(fuel): Ghost<nat>) -> (res:
        Result<Chicken, Error>)
        requires
            translating(*old(env), r, fuel),
            term_cwf(term_v(*self)),
            term_refs(term_v(*self), false).subset_of(r + old(env)@.terms.dom()),
        ensures
            (res_v(res), final(env)@) == t_term(term_v(*self), old(env).env.source(), fuel, old(env)@),
            grows_c(*old(env), *final(env)),
            finished(res, term_refs(term_v(*self), false), old(env).env.source(), old(env)@, final(env)@),
        decreases fuel, term_size(term_v(*self)),
    {
        let ghost src = env.env.source();
        let ghost t = term_v(*self);
        let ghost t0 = env@.terms.dom();
        match self {
            Term::Ref(Reference::Builtin(name)) => Ok(Chicken::Atom(name.clone())),
            Term::Ref(Reference::DerivedId(Id(hash, i, n))) => {
                assert(t == TermV::Ref(RefV::Derived(hash.0@, *i, *n)));
                assert(term_refs(t, false).contains(hash.0@));
                env.load_in(hash.0.as_str(), Ghost(r), Ghost(fuel))?;
                Ok(Chicken::Atom(hash.0.clone()))
            },
            Term::App(one, two) => {
                proof {
                    lemma_t_list2(abt_v(**one), abt_v(**two), src, fuel, env@);
                    crate::walk::lemma_abts_size_lit2(abt_v(**one), abt_v(**two));
                }
                let ghost g0 = *env;
                let a = one.ch_abt(env, Ghost(r), Ghost(fuel))?;
                proof {
                    lemma_translating_grows(g0, *env, r, fuel);
                    crate::walk::lemma_refs_grow(refs(abt_v(**two), false), r, t0, env@.terms.dom());
                }
                let b = two.ch_abt(env, Ghost(r), Ghost(fuel))?;
                let res = Chicken::Apply(vec![a, b]);
                proof {
                    lemma_chickens_v(res->Apply_0@);
                    assert(chickens_v(res->Apply_0@) =~= Seq::<ChickenV>::empty() + seq![
                        chicken_v(a),
                        chicken_v(b),
                    ]);
                }
                Ok(res)
            },
            Term::Int(num) => Ok(Chicken::Atom(i64_text(*num))),
            Term::Float(num) => Ok(Chicken::Atom(num.clone())),
            Term::Nat(num) => Ok(Chicken::Atom(u64_text(*num))),
            Term::Boolean(b) => Ok(
                Chicken::Atom(
                    if *b {
                        "true".to_owned()
                    } else {
                        "false".to_owned()
                    },
                ),
            ),
            Term::Text(text) => Ok(Chicken::Atom(debug_str(text.as_str()))),
            Term::Char(c) => Ok(Chicken::Atom(char_text(*c))),
            Term::If(cond, yes, no) => {
                proof {
                    lemma_t_list3(abt_v(**cond), abt_v(**yes), abt_v(**no), src, fuel, env@);
                    crate::walk::lemma_abts_size_lit3(abt_v(**cond), abt_v(**yes), abt_v(**no));
                }
                let ghost g0 = *env;
                let a = cond.ch_abt(env, Ghost(r), Ghost(fuel))?;
                proof {
                    lemma_translating_grows(g0, *env, r, fuel);
                    crate::walk::lemma_refs_grow(refs(abt_v(**yes), false), r, t0, env@.terms.dom());
                    crate::walk::lemma_refs_grow(refs(abt_v(**no), false), r, t0, env@.terms.dom());
                }
                let ghost g1 = *env;
                let b = yes.ch_abt(env, Ghost(r), Ghost(fuel))?;
                proof {
                    lemma_translating_grows(g1, *env, r, fuel);
                    crate::walk::lemma_refs_grow(
                        refs(abt_v(**no), false),
                        r,
                        g1@.terms.dom(),
                        env@.terms.dom(),
                    );
                }
                let c = no.ch_abt(env, Ghost(r), Ghost(fuel))?;
                let res = Chicken::Apply(vec![Chicken::Atom("if".to_owned()), a, b, c]);
                proof {
                    lemma_chickens_v(res->Apply_0@);
                    assert(chickens_v(res->Apply_0@) =~= seq![ChickenV::Atom("if"@)] + seq![
                        chicken_v(a),
                        chicken_v(b),
                        chicken_v(c),
                    ]);
                }
                Ok(res)
            },
            Term::And(one, two) => {
                proof {
                    lemma_t_list2(abt_v(**one), abt_v(**two), src, fuel, env@);
                    crate::walk::lemma_abts_size_lit2(abt_v(**one), abt_v(**two));
                }
                let ghost g0 = *env;
                let a = one.ch_abt(env, Ghost(r), Ghost(fuel))?;
                proof {
                    lemma_translating_grows(g0, *env, r, fuel);
                    crate::walk::lemma_refs_grow(refs(abt_v(**two), false), r, t0, env@.terms.dom());
                }
                let b = two.ch_abt(env, Ghost(r), Ghost(fuel))?;
                let res = Chicken::Apply(vec![Chicken::Atom("and".to_owned()), a, b]);
                proof {
                    lemma_chickens_v(res->Apply_0@);
                    assert(chickens_v(res->Apply_0@) =~= seq![ChickenV::Atom("and"@)] + seq![
                        chicken_v(a),
                        chicken_v(b),
                    ]);
                }
                Ok(res)
            },
            Term::Or(one, two) => {
                proof {
                    lemma_t_list2(abt_v(**one), abt_v(**two), src, fuel, env@);
                    crate::walk::lemma_abts_size_lit2(abt_v(**one), abt_v(**two));
                }
                let ghost g0 = *env;
                let a = one.ch_abt(env, Ghost(r), Ghost(fuel))?;
                proof {
                    lemma_translating_grows(g0, *env, r, fuel);
                    crate::walk::lemma_refs_grow(refs(abt_v(**two), false), r, t0, env@.terms.dom());
                }
                let b = two.ch_abt(env, Ghost(r), Ghost(fuel))?;
                let res = Chicken::Apply(vec![Chicken::Atom("and".to_owned()), a, b]);
                proof {
                    lemma_chickens_v(res->Apply_0@);
                    assert(chickens_v(res->Apply_0@) =~= seq![ChickenV::Atom("and"@)] + seq![
                        chicken_v(a),
                        chicken_v(b),
                    ]);
                }
                Ok(res)
            },
            Term::Constructor(Reference::Builtin(name), num) => {
                let mut s = name.clone();
                s.append("_");
                let n = usize_text(*num);
                s.append(n.as_str());
                Ok(Chicken::Atom(s))
            },
            Term::Constructor(Reference::DerivedId(Id(hash, _, _)), num) => {
                let mut s = hash.0.clone();
                s.append("_");
                let n = usize_text(*num);
                s.append(n.as_str());
                Ok(Chicken::Atom(s))
            },
            _ => {
                let mut s = "(not-implemented ".to_owned();
                let shown = debug_term(self);
                let quoted = debug_str(shown.as_str());
                s.append(quoted.as_str());
                s.append(")");
                Ok(Chicken::Atom(s))
            },
        }
    }
}

/// The state from which a translation cannot fail: every stored term in
/// `vs` can be translated and leads only into `vs` or to what is done.
pub open spec fn all_there(src: Map<Seq<char>, AbtV<TermV>>, vs: Set<Seq<char>>, g: CState, fuel: nat) -> bool {
    &&& src.dom().finite()
    &&& closed(src, vs, g.terms.dom(), false)
    &&& forall|k: Seq<char>| #[trigger] vs.contains(k) ==> cwf(src[k])
    &&& vs.difference(g.terms.dom()).len() <= fuel
}

pub proof fn lemma_all_there_grows(
    src: Map<Seq<char>, AbtV<TermV>>,
    vs: Set<Seq<char>>,
    g: CState,
    g2: CState,
    fuel: nat,
)
    requires
        all_there(src, vs, g, fuel),
        g.terms.dom().subset_of(g2.terms.dom()),
    ensures
        all_there(src, vs, g2, fuel),
{
    vstd::set_lib::lemma_len_subset(vs, src.dom());
    lemma_diff_mono(vs, g.terms.dom(), g2.terms.dom());
}

/// Translating a tree does not fail when every stored term it can reach
/// (outside what is translated) is stored and can be translated, and the fuel
/// covers them.
pub proof fn lemma_ok_abt(
    a: AbtV<TermV>,
    src: Map<Seq<char>, AbtV<TermV>>,
    fuel: nat,
    g: CState,
    vs: Set<Seq<char>>,
)
    requires
        all_there(src, vs, g, fuel),
        cwf(a),
        refs(a, false).subset_of(vs + g.terms.dom()),
    ensures
        t_abt(a, src, fuel, g).0 is Ok,
        g.terms.dom().subset_of(t_abt(a, src, fuel, g).1.terms.dom()),
    decreases fuel, abt_size(a),
{
    match a {
        AbtV::Var(_) => {},
        AbtV::Tm(t) => {
            lemma_ok_term(t, src, fuel, g, vs);
        },
        AbtV::Cycle(inner) => {
            let (ns, vals, body) = unroll(*inner).unwrap();
            let k = ns.len() as int;
            lemma_unroll_size(*inner);
            lemma_cycle_syms(*inner);
            lemma_abts_size_take(vals, k);
            lemma_t_cycle(*inner, src, fuel, g);
            let bound = vals.take(k);
            lemma_ok_bindings(cycle_syms(*inner), bound, src, fuel, g, vs);
            let (rb, g1) = t_bindings(cycle_syms(*inner), bound, src, fuel, g);
            lemma_all_there_grows(src, vs, g, g1, fuel);
            crate::walk::lemma_refs_grow(refs(body, false), vs, g.terms.dom(), g1.terms.dom());
            lemma_ok_abt(body, src, fuel, g1, vs);
        },
        AbtV::Abs(_, b) => {
            lemma_ok_abt(*b, src, fuel, g, vs);
        },
    }
}

pub proof fn lemma_ok_bindings(
    syms: Seq<SymbolV>,
    vals: Seq<AbtV<TermV>>,
    src: Map<Seq<char>, AbtV<TermV>>,
    fuel: nat,
    g: CState,
    vs: Set<Seq<char>>,
)
    requires
        all_there(src, vs, g, fuel),
        abts_cwf(vals),
        abts_refs(vals, false).subset_of(vs + g.terms.dom()),
    ensures
        t_bindings(syms, vals, src, fuel, g).0 is Ok,
        g.terms.dom().subset_of(t_bindings(syms, vals, src, fuel, g).1.terms.dom()),
    decreases fuel, abts_size(vals),
{
    if vals.len() > 0 {
        lemma_abts_step(vals, 0, false);
        lemma_abts_cwf_step(vals, 0);
        assert(vals.subrange(0, vals.len() as int) =~= vals);
        lemma_ok_abt(vals[0], src, fuel, g, vs);
        let (r0, g1) = t_abt(vals[0], src, fuel, g);
        lemma_all_there_grows(src, vs, g, g1, fuel);
        let rest = vals.subrange(1, vals.len() as int);
        crate::walk::lemma_refs_grow(abts_refs(rest, false), vs, g.terms.dom(), g1.terms.dom());
        lemma_ok_bindings(syms.subrange(1, syms.len() as int), rest, src, fuel, g1, vs);
    }
}

pub proof fn lemma_ok_list(
    xs: Seq<AbtV<TermV>>,
    src: Map<Seq<char>, AbtV<TermV>>,
    fuel: nat,
    g: CState,
    vs: Set<Seq<char>>,
)
    requires
        all_there(src, vs, g, fuel),
        abts_cwf(xs),
        abts_refs(xs, false).subset_of(vs + g.terms.dom()),
    ensures
        t_list(xs, src, fuel, g).0 is Ok,
        g.terms.dom().subset_of(t_list(xs, src, fuel, g).1.terms.dom()),
    decreases fuel, abts_size(xs),
{
    if xs.len() > 0 {
        lemma_abts_step(xs, 0, false);
        lemma_abts_cwf_step(xs, 0);
        assert(xs.subrange(0, xs.len() as int) =~= xs);
        lemma_ok_abt(xs[0], src, fuel, g, vs);
        let (r0, g1) = t_abt(xs[0], src, fuel, g);
        lemma_all_there_grows(src, vs, g, g1, fuel);
        let rest = xs.subrange(1, xs.len() as int);
        crate::walk::lemma_refs_grow(abts_refs(rest, false), vs, g.terms.dom(), g1.terms.dom());
        lemma_ok_list(rest, src, fuel, g1, vs);
    }
}

proof fn lemma_list_facts2(a: AbtV<TermV>, b: AbtV<TermV>)
    ensures
        abts_cwf(seq![a, b]) == (cwf(a) && cwf(b)),
        abts_refs(seq![a, b], false) == refs(a, false) + refs(b, false),
{
    let s = seq![a, b];
    let t = seq![b];
    let e = Seq::<AbtV<TermV>>::empty();
    assert(s.subrange(1, 2) =~= t);
    assert(t.subrange(1, 1) =~= e);
    assert(abts_cwf(e));
    assert(abts_cwf(t) == (cwf(t[0]) && abts_cwf(e)));
    assert(abts_cwf(s) == (cwf(s[0]) && abts_cwf(t)));
    assert(abts_refs(t, false) =~= refs(b, false) + abts_refs(e, false));
    assert(abts_refs(e, false) =~= Set::<Seq<char>>::empty());
    assert(abts_refs(s, false) =~= refs(a, false) + refs(b, false));
}

proof fn lemma_list_facts3(a: AbtV<TermV>, b: AbtV<TermV>, c: AbtV<TermV>)
    ensures
        abts_cwf(seq![a, b, c]) == (cwf(a) && cwf(b) && cwf(c)),
        abts_refs(seq![a, b, c], false) == refs(a, false) + refs(b, false) + refs(c, false),
{
    let s = seq![a, b, c];
    assert(s.subrange(1, 3) =~= seq![b, c]);
    lemma_list_facts2(b, c);
    assert(abts_refs(s, false) =~= refs(a, false) + refs(b, false) + refs(c, false));
}

pub proof fn lemma_ok_term(
    t: TermV,
    src: Map<Seq<char>, AbtV<TermV>>,
    fuel: nat,
    g: CState,
    vs: Set<Seq<char>>,
)
    requires
        all_there(src, vs, g, fuel),
        term_cwf(t),
        term_refs(t, false).subset_of(vs + g.terms.dom()),
    ensures
        t_term(t, src, fuel, g).0 is Ok,
        g.terms.dom().subset_of(t_term(t, src, fuel, g).1.terms.dom()),
    decreases fuel, term_size(t),
{
    match t {
        TermV::Ref(RefV::Derived(h, _, _)) => {
            assert(term_refs(t, false).contains(h));
            lemma_ok_load(h, src, fuel, g, vs);
        },
        TermV::App(a, b) => {
            crate::walk::lemma_abts_size_lit2(*a, *b);
            lemma_list_facts2(*a, *b);
            lemma_ok_list(seq![*a, *b], src, fuel, g, vs);
        },
        TermV::If(a, b, c) => {
            crate::walk::lemma_abts_size_lit3(*a, *b, *c);
            lemma_list_facts3(*a, *b, *c);
            lemma_ok_list(seq![*a, *b, *c], src, fuel, g, vs);
        },
        TermV::And(a, b) => {
            crate::walk::lemma_abts_size_lit2(*a, *b);
            lemma_list_facts2(*a, *b);
            lemma_ok_list(seq![*a, *b], src, fuel, g, vs);
        },
        TermV::Or(a, b) => {
            crate::walk::lemma_abts_size_lit2(*a, *b);
            lemma_list_facts2(*a, *b);
            lemma_ok_list(seq![*a, *b], src, fuel, g, vs);
        },
        _ => {},
    }
}

/// Translating a stored term does not fail under the same conditions, and
/// leaves it translated.
pub proof fn lemma_ok_load(
    h: Seq<char>,
    src: Map<Seq<char>, AbtV<TermV>>,
    fuel: nat,
    g: CState,
    vs: Set<Seq<char>>,
)
    requires
        all_there(src, vs, g, fuel),
        vs.contains(h) || g.terms.contains_key(h),
    ensures
        t_load(h, src, fuel, g).0 is Ok,
        g.terms.dom().subset_of(t_load(h, src, fuel, g).1.terms.dom()),
        fuel > 0 ==> t_load(h, src, fuel, g).1.terms.contains_key(h),
    decreases fuel, 0nat,
{
    if !g.terms.contains_key(h) {
        vstd::set_lib::lemma_len_subset(vs, src.dom());
        lemma_diff_insert(vs, g.terms.dom(), h);
        let g1 = CState {
            terms: g.terms.insert(h, (ChickenV::Atom("not-yet-evaluated"@), no_type())),
            anon: g.anon,
            tys: g.tys,
        };
        assert(g1.terms.dom() =~= g.terms.dom().insert(h));
        assert(all_there(src, vs, g1, (fuel - 1) as nat));
        crate::walk::lemma_refs_grow(refs(src[h], false), vs, g.terms.dom(), g1.terms.dom());
        lemma_ok_abt(src[h], src, (fuel - 1) as nat, g1, vs);
    }
}

/// Translated terms stay as they are, and no anonymous function is added.
pub open spec fn kept_c(g: CState, g2: CState) -> bool {
    &&& g.terms.submap_of(g2.terms)
    &&& g2.anon == g.anon
    &&& g2.tys == g.tys
}

/// No two anonymous functions are the same expression.
pub open spec fn distinct_fns(anon: Seq<(Seq<char>, ChickenV)>) -> bool {
    forall|i: int, j: int| 0 <= i < j < anon.len() ==> anon[i].1 != anon[j].1
}

pub proof fn lemma_kept_c_trans(g0: CState, g1: CState, g2: CState)
    requires
        kept_c(g0, g1),
        kept_c(g1, g2),
    ensures
        kept_c(g0, g2),
{
    vstd::map_lib::lemma_submap_of_trans(g0.terms, g1.terms, g2.terms);
}

/// Translating a tree keeps what is translated, and adds no anonymous
/// function.
pub proof fn lemma_t_abt_kept(a: AbtV<TermV>, src: Map<Seq<char>, AbtV<TermV>>, fuel: nat, g: CState)
    ensures
        kept_c(g, t_abt(a, src, fuel, g).1),
    decreases fuel, abt_size(a),
{
    match a {
        AbtV::Var(_) => {},
        AbtV::Tm(t) => {
            lemma_t_term_kept(t, src, fuel, g);
        },
        AbtV::Cycle(inner) => {
            match unroll(*inner) {
                Some((ns, vals, body)) => {
                    lemma_unroll_size(*inner);
                    if ns.len() <= vals.len() {
                        let k = ns.len() as int;
                        lemma_abts_size_take(vals, k);
                        let bound = vals.take(k);
                        lemma_t_bindings_kept(cycle_syms(*inner), bound, src, fuel, g);
                        let (rb, g1) = t_bindings(cycle_syms(*inner), bound, src, fuel, g);
                        if rb is Ok {
                            lemma_t_abt_kept(body, src, fuel, g1);
                            lemma_kept_c_trans(g, g1, t_abt(body, src, fuel, g1).1);
                        }
                    }
                },
                None => {},
            }
        },
        AbtV::Abs(_, b) => {
            lemma_t_abt_kept(*b, src, fuel, g);
        },
    }
}

pub proof fn lemma_t_bindings_kept(
    syms: Seq<SymbolV>,
    vals: Seq<AbtV<TermV>>,
    src: Map<Seq<char>, AbtV<TermV>>,
    fuel: nat,
    g: CState,
)
    ensures
        kept_c(g, t_bindings(syms, vals, src, fuel, g).1),
    decreases fuel, abts_size(vals),
{
    if vals.len() > 0 {
        lemma_t_abt_kept(vals[0], src, fuel, g);
        let (r0, g1) = t_abt(vals[0], src, fuel, g);
        if r0 is Ok {
            let rest = vals.subrange(1, vals.len() as int);
            lemma_t_bindings_kept(syms.subrange(1, syms.len() as int), rest, src, fuel, g1);
            lemma_kept_c_trans(
                g,
                g1,
                t_bindings(syms.subrange(1, syms.len() as int), rest, src, fuel, g1).1,
            );
        }
    }
}

pub proof fn lemma_t_list_kept(xs: Seq<AbtV<TermV>>, src: Map<Seq<char>, AbtV<TermV>>, fuel: nat, g: CState)
    ensures
        kept_c(g, t_list(xs, src, fuel, g).1),
    decreases fuel, abts_size(xs),
{
    if xs.len() > 0 {
        lemma_t_abt_kept(xs[0], src, fuel, g);
        let (r0, g1) = t_abt(xs[0], src, fuel, g);
        if r0 is Ok {
            let rest = xs.subrange(1, xs.len() as int);
            lemma_t_list_kept(rest, src, fuel, g1);
            lemma_kept_c_trans(g, g1, t_list(rest, src, fuel, g1).1);
        }
    }
}

pub proof fn lemma_t_term_kept(t: TermV, src: Map<Seq<char>, AbtV<TermV>>, fuel: nat, g: CState)
    ensures
        kept_c(g, t_term(t, src, fuel, g).1),
    decreases fuel, term_size(t),
{
    match t {
        TermV::Ref(RefV::Derived(h, _, _)) => {
            lemma_t_load_kept(h, src, fuel, g);
        },
        TermV::App(a, b) => {
            crate::walk::lemma_abts_size_lit2(*a, *b);
            lemma_t_list_kept(seq![*a, *b], src, fuel, g);
        },
        TermV::If(a, b, c) => {
            crate::walk::lemma_abts_size_lit3(*a, *b, *c);
            lemma_t_list_kept(seq![*a, *b, *c], src, fuel, g);
        },
        TermV::And(a, b) => {
            crate::walk::lemma_abts_size_lit2(*a, *b);
            lemma_t_list_kept(seq![*a, *b], src, fuel, g);
        },
        TermV::Or(a, b) => {
            crate::walk::lemma_abts_size_lit2(*a, *b);
            lemma_t_list_kept(seq![*a, *b], src, fuel, g);
        },
        _ => {},
    }
}

pub proof fn lemma_t_load_kept(h: Seq<char>, src: Map<Seq<char>, AbtV<TermV>>, fuel: nat, g: CState)
    ensures
        kept_c(g, t_load(h, src, fuel, g).1),
    decreases fuel, 0nat,
{
    if !g.terms.contains_key(h) && src.contains_key(h) && fuel > 0 {
        let g1 = CState {
            terms: g.terms.insert(h, (ChickenV::Atom("not-yet-evaluated"@), no_type())),
            anon: g.anon,
            tys: g.tys,
        };
        lemma_t_abt_kept(src[h], src, (fuel - 1) as nat, g1);
        let g2 = t_abt(src[h], src, (fuel - 1) as nat, g1).1;
        assert forall|k: Seq<char>| #[trigger] g.terms.contains_key(k) implies g2.terms.contains_key(k)
            && g2.terms[k] == g.terms[k] by {
            assert(g1.terms.contains_key(k));
        }
    }
}

/// Translating a tree that is a term is translating the term, from the same
/// state with the same fuel.
pub proof fn law_tm_is_term_c(t: TermV, src: Map<Seq<char>, AbtV<TermV>>, fuel: nat, g: CState)
    ensures
        t_abt(AbtV::Tm(t), src, fuel, g) == t_term(t, src, fuel, g),
{
}

/// A failed translation of a stored term leaves its placeholder.
pub proof fn lemma_t_load_err(h: Seq<char>, src: Map<Seq<char>, AbtV<TermV>>, fuel: nat, g: CState)
    requires
        !g.terms.contains_key(h),
    ensures
        t_load(h, src, fuel, g).0 is Err ==> t_load(h, src, fuel, g).1.terms.contains_key(h)
            && t_load(h, src, fuel, g).1.terms[h] == (ChickenV::Atom("not-yet-evaluated"@), no_type()),
{
    let g1 = CState {
        terms: g.terms.insert(h, (ChickenV::Atom("not-yet-evaluated"@), no_type())),
        anon: g.anon,
        tys: g.tys,
    };
    if src.contains_key(h) && fuel > 0 {
        lemma_t_abt_kept(src[h], src, (fuel - 1) as nat, g1);
        let g2 = t_abt(src[h], src, (fuel - 1) as nat, g1).1;
        assert(g1.terms.dom().contains(h));
        assert(g2.terms.dom().contains(h));
        assert(g2.terms[h] == g1.terms[h]);
    }
}

/// Translating a term a second time changes nothing and succeeds: after a
/// translation with some fuel (failed or not) the term is entered, so a second
/// translation, with any fuel, returns at once.
pub proof fn law_translate_twice(
    h: Seq<char>,
    src: Map<Seq<char>, AbtV<TermV>>,
    fuel: nat,
    fuel2: nat,
    g: CState,
)
    requires
        fuel > 0,
    ensures
        t_load(h, src, fuel2, t_load(h, src, fuel, g).1) == (Ok::<(), ErrorV>(()), t_load(h, src, fuel, g).1),
{
    if !g.terms.contains_key(h) {
        lemma_t_load_err(h, src, fuel, g);
    }
}

/// Translating a stored term that is translated (or being translated)
/// already changes nothing and succeeds.
pub proof fn law_translate_once(h: Seq<char>, src: Map<Seq<char>, AbtV<TermV>>, fuel: nat, g: CState)
    requires
        g.terms.contains_key(h),
    ensures
        t_load(h, src, fuel, g) == (Ok::<(), ErrorV>(()), g),
{
}

/// Every reference in `r` is to a term in `vs`, one already entered, or one
/// that is not stored.
pub open spec fn covers(src: Map<Seq<char>, AbtV<TermV>>, vs: Set<Seq<char>>, g: CState, r: Set<Seq<char>>) -> bool {
    forall|x: Seq<char>| #[trigger] r.contains(x) ==> vs.contains(x) || g.terms.contains_key(x)
        || !src.contains_key(x)
}

/// The stored terms that can still be met are `vs`, whose references are
/// covered, and `fuel` covers those not entered yet.
pub open spec fn enough_c(src: Map<Seq<char>, AbtV<TermV>>, vs: Set<Seq<char>>, g: CState, fuel: nat) -> bool {
    &&& vs.finite()
    &&& vs.subset_of(src.dom())
    &&& forall|k: Seq<char>| #[trigger] vs.contains(k) ==> covers(src, vs, g, refs(src[k], false))
    &&& vs.difference(g.terms.dom()).len() <= fuel
}

pub proof fn lemma_enough_c_grows(
    src: Map<Seq<char>, AbtV<TermV>>,
    vs: Set<Seq<char>>,
    g: CState,
    g2: CState,
    fuel: nat,
)
    requires
        enough_c(src, vs, g, fuel),
        g.terms.dom().subset_of(g2.terms.dom()),
    ensures
        enough_c(src, vs, g2, fuel),
{
    lemma_diff_mono(vs, g.terms.dom(), g2.terms.dom());
    assert forall|k: Seq<char>| #[trigger] vs.contains(k) implies covers(src, vs, g2, refs(src[k], false)) by {
        assert(covers(src, vs, g, refs(src[k], false)));
    }
}

/// Covering is kept for fewer references and more entered terms.
pub proof fn lemma_covers(
    src: Map<Seq<char>, AbtV<TermV>>,
    vs: Set<Seq<char>>,
    g: CState,
    g2: CState,
    r: Set<Seq<char>>,
    r2: Set<Seq<char>>,
)
    requires
        covers(src, vs, g, r),
        r2.subset_of(r),
        g.terms.dom().subset_of(g2.terms.dom()),
    ensures
        covers(src, vs, g2, r2),
{
    assert forall|x: Seq<char>| #[trigger] r2.contains(x) implies vs.contains(x) || g2.terms.contains_key(x)
        || !src.contains_key(x) by {
        assert(r.contains(x));
    }
}

/// Translating a tree gives the same with any two fuels that are enough.
pub proof fn lemma_cfuel_abt(
    a: AbtV<TermV>,
    src: Map<Seq<char>, AbtV<TermV>>,
    f1: nat,
    f2: nat,
    g: CState,
    vs: Set<Seq<char>>,
)
    requires
        enough_c(src, vs, g, f1),
        enough_c(src, vs, g, f2),
        covers(src, vs, g, refs(a, false)),
    ensures
        t_abt(a, src, f1, g) == t_abt(a, src, f2, g),
    decreases f1, abt_size(a),
{
    match a {
        AbtV::Var(_) => {},
        AbtV::Tm(t) => {
            lemma_cfuel_term(t, src, f1, f2, g, vs);
        },
        AbtV::Cycle(inner) => {
            match unroll(*inner) {
                Some((ns, vals, body)) => {
                    lemma_unroll_size(*inner);
                    if ns.len() <= vals.len() {
                        let k = ns.len() as int;
                        lemma_abts_size_take(vals, k);
                        let bound = vals.take(k);
                        assert(refs(a, false) == abts_refs(bound, false) + refs(body, false));
                        lemma_covers(src, vs, g, g, refs(a, false), abts_refs(bound, false));
                        lemma_cfuel_bindings(cycle_syms(*inner), bound, src, f1, f2, g, vs);
                        lemma_t_bindings_kept(cycle_syms(*inner), bound, src, f1, g);
                        let (rb, g1) = t_bindings(cycle_syms(*inner), bound, src, f1, g);
                        if rb is Ok {
                            lemma_enough_c_grows(src, vs, g, g1, f1);
                            lemma_enough_c_grows(src, vs, g, g1, f2);
                            lemma_covers(src, vs, g, g1, refs(a, false), refs(body, false));
                            lemma_cfuel_abt(body, src, f1, f2, g1, vs);
                        }
                    }
                },
                None => {},
            }
        },
        AbtV::Abs(_, b) => {
            lemma_cfuel_abt(*b, src, f1, f2, g, vs);
        },
    }
}

pub proof fn lemma_cfuel_bindings(
    syms: Seq<SymbolV>,
    vals: Seq<AbtV<TermV>>,
    src: Map<Seq<char>, AbtV<TermV>>,
    f1: nat,
    f2: nat,
    g: CState,
    vs: Set<Seq<char>>,
)
    requires
        enough_c(src, vs, g, f1),
        enough_c(src, vs, g, f2),
        covers(src, vs, g, abts_refs(vals, false)),
    ensures
        t_bindings(syms, vals, src, f1, g) == t_bindings(syms, vals, src, f2, g),
    decreases f1, abts_size(vals),
{
    if vals.len() > 0 {
        lemma_abts_step(vals, 0, false);
        assert(vals.subrange(0, vals.len() as int) =~= vals);
        lemma_covers(src, vs, g, g, abts_refs(vals, false), refs(vals[0], false));
        lemma_cfuel_abt(vals[0], src, f1, f2, g, vs);
        lemma_t_abt_kept(vals[0], src, f1, g);
        let (r0, g1) = t_abt(vals[0], src, f1, g);
        if r0 is Ok {
            lemma_enough_c_grows(src, vs, g, g1, f1);
            lemma_enough_c_grows(src, vs, g, g1, f2);
            lemma_covers(
                src,
                vs,
                g,
                g1,
                abts_refs(vals, false),
                abts_refs(vals.subrange(1, vals.len() as int), false),
            );
            lemma_cfuel_bindings(
                syms.subrange(1, syms.len() as int),
                vals.subrange(1, vals.len() as int),
                src,
                f1,
                f2,
                g1,
                vs,
            );
        }
    }
}

pub proof fn lemma_cfuel_list(
    xs: Seq<AbtV<TermV>>,
    src: Map<Seq<char>, AbtV<TermV>>,
    f1: nat,
    f2: nat,
    g: CState,
    vs: Set<Seq<char>>,
)
    requires
        enough_c(src, vs, g, f1),
        enough_c(src, vs, g, f2),
        covers(src, vs, g, abts_refs(xs, false)),
    ensures
        t_list(xs, src, f1, g) == t_list(xs, src, f2, g),
    decreases f1, abts_size(xs),
{
    if xs.len() > 0 {
        lemma_abts_step(xs, 0, false);
        assert(xs.subrange(0, xs.len() as int) =~= xs);
        lemma_covers(src, vs, g, g, abts_refs(xs, false), refs(xs[0], false));
        lemma_cfuel_abt(xs[0], src, f1, f2, g, vs);
        lemma_t_abt_kept(xs[0], src, f1, g);
        let (r0, g1) = t_abt(xs[0], src, f1, g);
        if r0 is Ok {
            lemma_enough_c_grows(src, vs, g, g1, f1);
            lemma_enough_c_grows(src, vs, g, g1, f2);
            lemma_covers(src, vs, g, g1, abts_refs(xs, false), abts_refs(xs.subrange(1, xs.len() as int), false));
            lemma_cfuel_list(xs.subrange(1, xs.len() as int), src, f1, f2, g1, vs);
        }
    }
}

pub proof fn lemma_cfuel_term(
    t: TermV,
    src: Map<Seq<char>, AbtV<TermV>>,
    f1: nat,
    f2: nat,
    g: CState,
    vs: Set<Seq<char>>,
)
    requires
        enough_c(src, vs, g, f1),
        enough_c(src, vs, g, f2),
        covers(src, vs, g, term_refs(t, false)),
    ensures
        t_term(t, src, f1, g) == t_term(t, src, f2, g),
    decreases f1, term_size(t),
{
    match t {
        TermV::Ref(RefV::Derived(h, _, _)) => {
            assert(term_refs(t, false).contains(h));
            lemma_cfuel_load(h, src, f1, f2, g, vs);
        },
        TermV::App(a, b) => {
            crate::walk::lemma_abts_size_lit2(*a, *b);
            lemma_list_facts2(*a, *b);
            lemma_cfuel_list(seq![*a, *b], src, f1, f2, g, vs);
        },
        TermV::If(a, b, c) => {
            crate::walk::lemma_abts_size_lit3(*a, *b, *c);
            lemma_list_facts3(*a, *b, *c);
            lemma_cfuel_list(seq![*a, *b, *c], src, f1, f2, g, vs);
        },
        TermV::And(a, b) => {
            crate::walk::lemma_abts_size_lit2(*a, *b);
            lemma_list_facts2(*a, *b);
            lemma_cfuel_list(seq![*a, *b], src, f1, f2, g, vs);
        },
        TermV::Or(a, b) => {
            crate::walk::lemma_abts_size_lit2(*a, *b);
            lemma_list_facts2(*a, *b);
            lemma_cfuel_list(seq![*a, *b], src, f1, f2, g, vs);
        },
        _ => {},
    }
}

pub proof fn lemma_cfuel_load(
    h: Seq<char>,
    src: Map<Seq<char>, AbtV<TermV>>,
    f1: nat,
    f2: nat,
    g: CState,
    vs: Set<Seq<char>>,
)
    requires
        enough_c(src, vs, g, f1),
        enough_c(src, vs, g, f2),
        vs.contains(h) || g.terms.contains_key(h) || !src.contains_key(h),
    ensures
        t_load(h, src, f1, g) == t_load(h, src, f2, g),
    decreases f1, 0nat,
{
    if !g.terms.contains_key(h) && src.contains_key(h) {
        lemma_diff_insert(vs, g.terms.dom(), h);
        let g1 = CState {
            terms: g.terms.insert(h, (ChickenV::Atom("not-yet-evaluated"@), no_type())),
            anon: g.anon,
            tys: g.tys,
        };
        assert(g1.terms.dom() =~= g.terms.dom().insert(h));
        lemma_enough_c_grows(src, vs, g, g1, f1);
        assert(enough_c(src, vs, g1, (f1 - 1) as nat));
        assert(enough_c(src, vs, g1, (f2 - 1) as nat));
        assert(covers(src, vs, g, refs(src[h], false)));
        assert(covers(src, vs, g1, refs(src[h], false)));
        lemma_cfuel_abt(src[h], src, (f1 - 1) as nat, (f2 - 1) as nat, g1, vs);
    }
}

/// The stored terms not entered yet are enough fuel for a covered set.
pub proof fn lemma_pending_c_enough(
    src: Map<Seq<char>, AbtV<TermV>>,
    vs: Set<Seq<char>>,
    g: CState,
)
    requires
        src.dom().finite(),
        vs.subset_of(src.dom()),
        forall|k: Seq<char>| #[trigger] vs.contains(k) ==> covers(src, vs, g, refs(src[k], false)),
    ensures
        enough_c(src, vs, g, pending_c(src, g)),
{
    vstd::set_lib::lemma_len_subset(vs, src.dom());
    vstd::set_lib::lemma_len_subset(vs.difference(g.terms.dom()), src.dom().difference(g.terms.dom()));
}

/// Translating two trees one after the other, each in a call of its own
/// (with the fuel that call starts with), and stopping at the first error.
pub open spec fn two_calls(
    a: AbtV<TermV>,
    b: AbtV<TermV>,
    src: Map<Seq<char>, AbtV<TermV>>,
    g: CState,
) -> (Result<Seq<ChickenV>, ErrorV>, CState) {
    let (r0, g1) = t_abt(a, src, pending_c(src, g), g);
    match r0 {
        Err(e) => (Err(e), g1),
        Ok(ca) => {
            let (r1, g2) = t_abt(b, src, pending_c(src, g1), g1);
            match r1 {
                Err(e) => (Err(e), g2),
                Ok(cb) => (Ok(seq![ca, cb]), g2),
            }
        },
    }
}

/// Translating an application, `and` or `or` in one call gives what
/// translating its two parts in calls of their own gives: the list of the
/// head and the two expressions, or the first error, with nothing translated
/// after it.
pub proof fn law_two_in_parts(
    a: AbtV<TermV>,
    b: AbtV<TermV>,
    src: Map<Seq<char>, AbtV<TermV>>,
    g: CState,
    vs: Set<Seq<char>>,
)
    requires
        src.dom().finite(),
        vs.subset_of(src.dom()),
        forall|k: Seq<char>| #[trigger] vs.contains(k) ==> covers(src, vs, g, refs(src[k], false)),
        covers(src, vs, g, refs(a, false) + refs(b, false)),
    ensures
        t_term(TermV::App(Box::new(a), Box::new(b)), src, pending_c(src, g), g) == wrap(
            Seq::empty(),
            two_calls(a, b, src, g),
        ),
        t_term(TermV::And(Box::new(a), Box::new(b)), src, pending_c(src, g), g) == wrap(
            seq![ChickenV::Atom("and"@)],
            two_calls(a, b, src, g),
        ),
        t_term(TermV::Or(Box::new(a), Box::new(b)), src, pending_c(src, g), g) == wrap(
            seq![ChickenV::Atom("and"@)],
            two_calls(a, b, src, g),
        ),
{
    let f = pending_c(src, g);
    lemma_pending_c_enough(src, vs, g);
    lemma_t_list2(a, b, src, f, g);
    lemma_t_abt_kept(a, src, f, g);
    let (r0, g1) = t_abt(a, src, f, g);
    if r0 is Ok {
        lemma_enough_c_grows(src, vs, g, g1, f);
        assert forall|k: Seq<char>| #[trigger] vs.contains(k) implies covers(src, vs, g1, refs(src[k], false)) by {
            lemma_covers(src, vs, g, g1, refs(src[k], false), refs(src[k], false));
        }
        lemma_pending_c_enough(src, vs, g1);
        lemma_covers(src, vs, g, g1, refs(a, false) + refs(b, false), refs(b, false));
        lemma_cfuel_abt(b, src, f, pending_c(src, g1), g1, vs);
    }
}

/// Translating an abstraction in one call gives what translating its body
/// in a call of its own gives, under the atom of its name.
pub proof fn law_abs_in_parts_c(name: SymbolV, b: AbtV<TermV>, src: Map<Seq<char>, AbtV<TermV>>, g: CState)
    ensures
        t_abt(AbtV::Abs(name, Box::new(b)), src, pending_c(src, g), g) == ({
            let (r, g1) = t_abt(b, src, pending_c(src, g), g);
            match r {
                Ok(c) => (Ok(ChickenV::Apply(seq![ChickenV::Atom(atom(name)), c])), g1),
                Err(e) => (Err(e), g1),
            }
        }),
{
}

} // verus!
