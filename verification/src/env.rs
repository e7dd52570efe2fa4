//! The store of terms and types that the compilers read.
//!
//! Reading a file and decoding it is the caller's part: `load` and
//! `load_type` answer from the caches or name the file to read, and `store`
//! and `store_type` keep what was read.

use vstd::prelude::*;
use vstd::hash_map::StringHashMap;
use crate::types::{ABT, Term, Type, TypeDecl, Reference, Id, MatchCase};
use crate::model::{AbtV, TermV, TypeV, TypeDeclV, RefV, CaseV, abt_v, term_v, typedecl_v, type_abt_v, abts_v, cases_v,
    boxed_abts_v, case_v, lemma_abts_v, lemma_cases_v, lemma_boxed_abts_v};
use crate::walk::{shaped, good, cwf, term_cwf, abts_cwf, lemma_abts_cwf_step, wf, term_wf, abts_wf, cases_wf, marks, refs, term_refs, abts_refs, cases_refs,
    unroll, abt_size, term_size, lemma_unroll_size, lemma_abts_size_take, lemma_abts_size_elem,
    lemma_abts_step, lemma_cases_step, lemma_cases_size_elem};
use crate::ir::unroll_cycle;
use crate::sets::lemma_diff_insert;

verus! {

pub struct Env {
    pub root: String,
    pub raw_cache: StringHashMap<ABT<Term>>,
    pub cache: StringHashMap<Term>,
    pub type_cache: StringHashMap<TypeDecl>,
    /// The types of stored terms, read with them.
    pub term_types: StringHashMap<ABT<Type>>,
}

/// What a lookup gives: the stored value, or the path (its components, in
/// order) of the file that holds it.
#[derive(Debug, PartialEq)]
pub enum Fetch<T> {
    Found(T),
    Read(Vec<String>),
}

/// `vs` is a set of stored terms whose references all lead back into `vs`
/// or into `done`.
pub open spec fn closed(
    src: Map<Seq<char>, AbtV<TermV>>,
    vs: Set<Seq<char>>,
    done: Set<Seq<char>>,
    deep: bool,
) -> bool {
    &&& vs.subset_of(src.dom())
    &&& forall|k: Seq<char>| #[trigger] vs.contains(k) ==> refs(src[k], deep).subset_of(vs + done)
}

/// Every stored term in `vs` can be compiled to IR.
pub open spec fn compilable(src: Map<Seq<char>, AbtV<TermV>>, vs: Set<Seq<char>>) -> bool {
    forall|k: Seq<char>| #[trigger] vs.contains(k) ==> good(src[k], true)
}

/// The references in `roots` lead only to stored terms that can be
/// compiled to IR, or to `done`.
pub open spec fn ready(
    src: Map<Seq<char>, AbtV<TermV>>,
    done: Set<Seq<char>>,
    roots: Set<Seq<char>>,
) -> bool {
    exists|vs: Set<Seq<char>>|
        #[trigger] closed(src, vs, done, true) && roots.subset_of(vs + done) && compilable(src, vs)
}

/// `p` is a chain of references through stored terms outside `done`.
pub open spec fn path_ok(
    src: Map<Seq<char>, AbtV<TermV>>,
    done: Set<Seq<char>>,
    deep: bool,
    p: Seq<Seq<char>>,
) -> bool {
    &&& p.len() >= 1
    &&& forall|i: int| 0 <= i < p.len() ==> !done.contains(#[trigger] p[i])
    &&& forall|i: int|
        0 <= i < p.len() - 1 ==> src.contains_key(#[trigger] p[i]) && refs(src[p[i]], deep).contains(
            p[i + 1],
        )
}

/// `to` is reached from `from` through stored terms outside `done`.
pub open spec fn reaches(
    src: Map<Seq<char>, AbtV<TermV>>,
    done: Set<Seq<char>>,
    deep: bool,
    from: Seq<char>,
    to: Seq<char>,
) -> bool {
    exists|p: Seq<Seq<char>>| #[trigger] path_ok(src, done, deep, p) && p[0] == from && p.last() == to
}

/// Every stored term reached from `h` (outside `done`) can be translated.
pub open spec fn sound(
    src: Map<Seq<char>, AbtV<TermV>>,
    done: Set<Seq<char>>,
    deep: bool,
    h: Seq<char>,
) -> bool {
    forall|m: Seq<char>|
        #[trigger] reaches(src, done, deep, h, m) && src.contains_key(m) ==> good(src[m], deep)
}

/// Storing a term under a hash that the decoded cache does not hold sets
/// exactly that entry of the store: a lookup of it then finds the term, and
/// every other lookup finds what it found before.
pub proof fn law_store_then_load(
    cache: Map<Seq<char>, Term>,
    raw: Map<Seq<char>, ABT<Term>>,
    h: Seq<char>,
    t: ABT<Term>,
)
    requires
        !cache.contains_key(h),
    ensures
        source_of(cache, raw.insert(h, t)) == source_of(cache, raw).insert(h, abt_v(t)),
{
    assert(source_of(cache, raw.insert(h, t)) =~= source_of(cache, raw).insert(h, abt_v(t)));
}

/// What `store_type` leaves (`after.types()` is `before.types()` with `h`
/// set to `d`, by its `ensures`) is what `load_type` of `h` answers with
/// `Found(d)` (by its `ensures`, it finds a declaration whose view is
/// `after.types()[h]`), whatever was stored under `h` before.
pub proof fn law_store_type_then_load(before: Env, after: Env, h: Seq<char>, d: TypeDecl)
    requires
        after.types() == before.types().insert(h, typedecl_v(d)),
    ensures
        after.types().contains_key(h),
        after.types()[h] == typedecl_v(d),
        forall|k: Seq<char>| k != h ==> after.types().contains_key(k) == before.types().contains_key(k),
{
}

/// A closed set of stored terms, all reached from `h` and all of which can be
/// translated, holds `h` (unless `h` is in `done`).
pub open spec fn settled(
    src: Map<Seq<char>, AbtV<TermV>>,
    done: Set<Seq<char>>,
    deep: bool,
    h: Seq<char>,
) -> bool {
    exists|vs: Set<Seq<char>>|
        #[trigger] closed(src, vs, done, deep) && (vs.contains(h) || done.contains(h)) && forall|
            k: Seq<char>,
        | #[trigger] vs.contains(k) ==> reaches(src, done, deep, h, k) && good(src[k], deep)
}

/// Every term reached from `h` is stored.
pub open spec fn complete(
    src: Map<Seq<char>, AbtV<TermV>>,
    done: Set<Seq<char>>,
    deep: bool,
    h: Seq<char>,
) -> bool {
    forall|m: Seq<char>| #[trigger] reaches(src, done, deep, h, m) ==> src.contains_key(m)
}

/// What a walk over the stored terms that a translation reads found.
#[derive(Debug, PartialEq)]
pub enum Scan {
    /// Everything it reads is stored and can be translated.
    Complete,
    /// This term is read and is not stored.
    Missing(String),
    /// This stored term is read and cannot be translated.
    Malformed(String),
}

/// A walk from `h` never leaves a closed set that holds `h`.
pub proof fn lemma_closed_reach(
    src: Map<Seq<char>, AbtV<TermV>>,
    vs: Set<Seq<char>>,
    done: Set<Seq<char>>,
    deep: bool,
    h: Seq<char>,
    m: Seq<char>,
)
    requires
        closed(src, vs, done, deep),
        vs.contains(h) || done.contains(h),
        reaches(src, done, deep, h, m),
    ensures
        vs.contains(m),
{
    let p = choose|p: Seq<Seq<char>>| #[trigger] path_ok(src, done, deep, p) && p[0] == h && p.last() == m;
    lemma_path_within(src, vs, done, deep, p, p.len() - 1);
}

proof fn lemma_path_within(
    src: Map<Seq<char>, AbtV<TermV>>,
    vs: Set<Seq<char>>,
    done: Set<Seq<char>>,
    deep: bool,
    p: Seq<Seq<char>>,
    i: int,
)
    requires
        closed(src, vs, done, deep),
        path_ok(src, done, deep, p),
        vs.contains(p[0]) || done.contains(p[0]),
        0 <= i < p.len(),
    ensures
        vs.contains(p[i]),
    decreases i,
{
    assert(!done.contains(p[0]));
    if i > 0 {
        lemma_path_within(src, vs, done, deep, p, i - 1);
        assert(refs(src[p[i - 1]], deep).contains(p[i]));
        assert(!done.contains(p[i]));
    }
}

/// What a walk that found everything settled gives: every term reached is
/// stored and can be translated.
pub proof fn lemma_settled(
    src: Map<Seq<char>, AbtV<TermV>>,
    done: Set<Seq<char>>,
    deep: bool,
    h: Seq<char>,
)
    requires
        settled(src, done, deep, h),
    ensures
        sound(src, done, deep, h),
        complete(src, done, deep, h),
{
    let vs = choose|vs: Set<Seq<char>>|
        #[trigger] closed(src, vs, done, deep) && (vs.contains(h) || done.contains(h)) && forall|
            k: Seq<char>,
        | #[trigger] vs.contains(k) ==> reaches(src, done, deep, h, k) && good(src[k], deep);
    assert forall|m: Seq<char>| #[trigger] reaches(src, done, deep, h, m) implies src.contains_key(m)
        && good(src[m], deep) by {
        lemma_closed_reach(src, vs, done, deep, h, m);
    }
}

/// A path from `r` becomes one from `h` where `h` refers to `r`.
pub proof fn lemma_reaches_prepend(
    src: Map<Seq<char>, AbtV<TermV>>,
    done: Set<Seq<char>>,
    deep: bool,
    h: Seq<char>,
    r: Seq<char>,
    m: Seq<char>,
)
    requires
        src.contains_key(h),
        !done.contains(h),
        refs(src[h], deep).contains(r),
        reaches(src, done, deep, r, m),
    ensures
        reaches(src, done, deep, h, m),
{
    let p = choose|p: Seq<Seq<char>>| #[trigger] path_ok(src, done, deep, p) && p[0] == r && p.last() == m;
    let q = seq![h] + p;
    assert forall|j: int| 0 <= j < q.len() - 1 implies src.contains_key(#[trigger] q[j]) && refs(
        src[q[j]],
        deep,
    ).contains(q[j + 1]) by {
        if j > 0 {
            assert(q[j] == p[j - 1]);
            assert(q[j + 1] == p[j]);
        }
    }
    assert forall|j: int| 0 <= j < q.len() implies !done.contains(#[trigger] q[j]) by {
        if j > 0 {
            assert(q[j] == p[j - 1]);
        }
    }
    assert(path_ok(src, done, deep, q));
    assert(q[0] == h && q.last() == m);
}

/// A path to `k` goes on to what `k` refers to.
pub proof fn lemma_reaches_append(
    src: Map<Seq<char>, AbtV<TermV>>,
    done: Set<Seq<char>>,
    deep: bool,
    h: Seq<char>,
    k: Seq<char>,
    x: Seq<char>,
)
    requires
        reaches(src, done, deep, h, k),
        src.contains_key(k),
        refs(src[k], deep).contains(x),
        !done.contains(x),
    ensures
        reaches(src, done, deep, h, x),
{
    let p = choose|p: Seq<Seq<char>>| #[trigger] path_ok(src, done, deep, p) && p[0] == h && p.last() == k;
    let q = p.push(x);
    assert forall|j: int| 0 <= j < q.len() - 1 implies src.contains_key(#[trigger] q[j]) && refs(
        src[q[j]],
        deep,
    ).contains(q[j + 1]) by {
        assert(q[j] == p[j]);
        if j < p.len() - 1 {
            assert(q[j + 1] == p[j + 1]);
        }
    }
    assert forall|j: int| 0 <= j < q.len() implies !done.contains(#[trigger] q[j]) by {
        if j < p.len() {
            assert(q[j] == p[j]);
        }
    }
    assert(path_ok(src, done, deep, q));
    assert(q[0] == h && q.last() == x);
}

pub proof fn lemma_reaches_self(
    src: Map<Seq<char>, AbtV<TermV>>,
    done: Set<Seq<char>>,
    deep: bool,
    h: Seq<char>,
)
    requires
        !done.contains(h),
    ensures
        reaches(src, done, deep, h, h),
{
    let p = seq![h];
    assert(path_ok(src, done, deep, p));
}

pub open spec fn strs_v(s: Seq<String>) -> Seq<Seq<char>> {
    s.map_values(|x: String| x@)
}

/// The file that holds the term or type `hash` of kind `kind` under `root`.
pub open spec fn file_path(root: Seq<char>, kind: Seq<char>, hash: Seq<char>) -> Seq<Seq<char>> {
    seq![root, kind, "#"@ + hash, "compiled.ub"@]
}

/// The type given to a term that was stored without one.
pub open spec fn no_type() -> AbtV<TypeV> {
    AbtV::Tm(TypeV::Ref(RefV::Builtin("nvm"@)))
}

/// The type of the term `h`: the one read with it, else `no_type()`.
pub open spec fn type_of(tys: Map<Seq<char>, AbtV<TypeV>>, h: Seq<char>) -> AbtV<TypeV> {
    if tys.contains_key(h) {
        tys[h]
    } else {
        no_type()
    }
}

/// The term that a hash stands for: from `cache` where it has the hash, else
/// from `raw_cache`.
pub open spec fn source_of(
    cache: Map<Seq<char>, Term>,
    raw: Map<Seq<char>, ABT<Term>>,
) -> Map<Seq<char>, AbtV<TermV>> {
    Map::new(
        |k: Seq<char>| cache.contains_key(k) || raw.contains_key(k),
        |k: Seq<char>|
            if cache.contains_key(k) {
                AbtV::Tm(term_v(cache[k]))
            } else {
                abt_v(raw[k])
            },
    )
}

impl Env {
    pub open spec fn source(&self) -> Map<Seq<char>, AbtV<TermV>> {
        source_of(self.cache@, self.raw_cache@)
    }

    pub open spec fn term_types(&self) -> Map<Seq<char>, AbtV<TypeV>> {
        self.term_types@.map_values(|t: ABT<Type>| type_abt_v(t))
    }

    pub open spec fn types(&self) -> Map<Seq<char>, TypeDeclV> {
        self.type_cache@.map_values(|d: TypeDecl| typedecl_v(d))
    }

    pub proof fn lemma_source_finite(&self)
        requires
            self.wf(),
        ensures
            self.source().dom().finite(),
    {
        assert(self.source().dom() =~= self.cache@.dom() + self.raw_cache@.dom());
    }

    /// The caches are finite.
    pub open spec fn wf(&self) -> bool {
        &&& self.raw_cache@.dom().finite()
        &&& self.cache@.dom().finite()
    }

    /// An empty store rooted at `root`.
    pub fn init(root: &str) -> (env: Env)
        ensures
            env.root@ == root@,
            env.source() == Map::<Seq<char>, AbtV<TermV>>::empty(),
            env.types() == Map::<Seq<char>, TypeDeclV>::empty(),
            env.term_types() == Map::<Seq<char>, AbtV<TypeV>>::empty(),
            env.wf(),
    {
        let env = Env {
            root: root.to_owned(),
            raw_cache: StringHashMap::new(),
            cache: StringHashMap::new(),
            type_cache: StringHashMap::new(),
            term_types: StringHashMap::new(),
        };
        assert(env.source() =~= Map::<Seq<char>, AbtV<TermV>>::empty());
        assert(env.types() =~= Map::<Seq<char>, TypeDeclV>::empty());
        assert(env.term_types() =~= Map::<Seq<char>, AbtV<TypeV>>::empty());
        env
    }

    /// Keeps the type that was read with the term `hash`.
    pub fn store_term_type(&mut self, hash: &str, typ: ABT<Type>)
        ensures
            final(self).term_types() == old(self).term_types().insert(hash@, type_abt_v(typ)),
            final(self).source() == old(self).source(),
            final(self).types() == old(self).types(),
            final(self).root == old(self).root,
            old(self).wf() ==> final(self).wf(),
    {
        let ghost tv = type_abt_v(typ);
        self.term_types.insert(hash.to_owned(), typ);
        assert(self.term_types() =~= old(self).term_types().insert(hash@, tv));
        assert(self.types() =~= old(self).types());
        assert(self.source() =~= old(self).source());
    }

    /// The type of the term `hash`, or the placeholder type where none was
    /// read with it.
    pub fn term_type(&self, hash: &str) -> (r: ABT<Type>)
        ensures
            type_abt_v(r) == type_of(self.term_types(), hash@),
    {
        match self.term_types.get(hash) {
            Some(t) => t.clone(),
            None => {
                let name = "nvm".to_owned();
                proof {
                    reveal_strlit("nvm");
                }
                let r = ABT::Tm(Type::Ref(Reference::Builtin(name)));
                assert(type_abt_v(r) == no_type()) by {
                    reveal_with_fuel(type_abt_v, 2);
                    assert(name@ == "nvm"@);
                }
                r
            },
        }
    }

    fn path_to(&self, kind: &str, hash: &str) -> (path: Vec<String>)
        ensures
            strs_v(path@) == file_path(self.root@, kind@, hash@),
    {
        let mut file = "#".to_owned();
        file.append(hash);
        let mut path: Vec<String> = Vec::new();
        path.push(self.root.clone());
        path.push(kind.to_owned());
        path.push(file);
        path.push("compiled.ub".to_owned());
        assert(strs_v(path@) =~= file_path(self.root@, kind@, hash@));
        path
    }

    /// The type declaration stored under `hash`, or the file to read it from.
    pub fn load_type(&self, hash: &str) -> (r: Fetch<TypeDecl>)
        ensures
            match r {
                Fetch::Found(d) => self.types().contains_key(hash@) && typedecl_v(d)
                    == self.types()[hash@],
                Fetch::Read(path) => !self.types().contains_key(hash@) && strs_v(path@)
                    == file_path(self.root@, "types"@, hash@),
            },
    {
        match self.type_cache.get(hash) {
            Some(v) => Fetch::Found(v.clone()),
            None => Fetch::Read(self.path_to("types", hash)),
        }
    }

    /// Keeps a type declaration that was read for `hash`, and gives it back.
    pub fn store_type(&mut self, hash: &str, decl: TypeDecl) -> (r: TypeDecl)
        ensures
            final(self).types() == old(self).types().insert(hash@, typedecl_v(decl)),
            final(self).source() == old(self).source(),
            final(self).term_types() == old(self).term_types(),
            final(self).root == old(self).root,
            old(self).wf() ==> final(self).wf(),
            typedecl_v(r) == typedecl_v(decl),
    {
        let res = decl.clone();
        self.type_cache.insert(hash.to_owned(), decl);
        assert(self.types() =~= old(self).types().insert(hash@, typedecl_v(res)));
        assert(self.source() =~= old(self).source());
        res
    }

    /// The term stored under `hash`, or the file to read it from.
    pub fn load(&self, hash: &str) -> (r: Fetch<ABT<Term>>)
        ensures
            match r {
                Fetch::Found(t) => self.source().contains_key(hash@) && abt_v(t)
                    == self.source()[hash@],
                Fetch::Read(path) => !self.source().contains_key(hash@) && strs_v(path@)
                    == file_path(self.root@, "terms"@, hash@),
            },
    {
        match self.cache.get(hash) {
            Some(v) => Fetch::Found(ABT::Tm(v.clone())),
            None => match self.raw_cache.get(hash) {
                Some(v) => Fetch::Found(v.clone()),
                None => Fetch::Read(self.path_to("terms", hash)),
            },
        }
    }

    /// Keeps a term that was read for `hash`, and gives it back.
    pub fn store(&mut self, hash: &str, term: ABT<Term>) -> (r: ABT<Term>)
        ensures
            final(self).raw_cache@ == old(self).raw_cache@.insert(hash@, term),
            final(self).cache@ == old(self).cache@,
            !old(self).cache@.contains_key(hash@) ==> final(self).source() == old(self).source().insert(
                hash@,
                abt_v(term),
            ),
            final(self).types() == old(self).types(),
            final(self).term_types() == old(self).term_types(),
            final(self).root == old(self).root,
            old(self).wf() ==> final(self).wf(),
            abt_v(r) == abt_v(term),
    {
        let res = term.clone();
        let ghost tv = abt_v(term);
        self.raw_cache.insert(hash.to_owned(), term);
        proof {
            if !old(self).cache@.contains_key(hash@) {
                law_store_then_load(old(self).cache@, old(self).raw_cache@, hash@, self.raw_cache@[hash@]);
            }
        }
        assert(self.types() =~= old(self).types());
        assert(self.raw_cache@.dom() =~= old(self).raw_cache@.dom().insert(hash@));
        res
    }
}

#[derive(Debug)]
pub struct Stack(pub Vec<Frame>);

#[derive(Debug)]
pub struct Frame {
    pub term: String,
    pub moment: usize,
    pub bindings: Vec<(String, Term)>,
}

impl Clone for Frame {
    fn clone(&self) -> (r: Self)
        ensures
            r.term@ == self.term@,
            r.moment == self.moment,
            r.bindings.len() == self.bindings.len(),
            forall|i: int|
                0 <= i < self.bindings.len() ==> (#[trigger] r.bindings@[i]).0@ == self.bindings@[i].0@
                    && term_v(r.bindings@[i].1) == term_v(self.bindings@[i].1),
    {
        let mut bindings: Vec<(String, Term)> = Vec::new();
        let mut i: usize = 0;
        while i < self.bindings.len()
            invariant
                i <= self.bindings.len(),
                bindings.len() == i,
                forall|j: int|
                    0 <= j < i ==> (#[trigger] bindings@[j]).0@ == self.bindings@[j].0@ && term_v(
                        bindings@[j].1,
                    ) == term_v(self.bindings@[j].1),
            decreases self.bindings.len() - i,
        {
            bindings.push((self.bindings[i].0.clone(), self.bindings[i].1.clone()));
            i = i + 1;
        }
        Frame { term: self.term.clone(), moment: self.moment, bindings }
    }
}

impl Clone for Stack {
    fn clone(&self) -> (r: Self)
        ensures
            r.0.len() == self.0.len(),
            forall|i: int| 0 <= i < self.0.len() ==> (#[trigger] r.0@[i]).term@ == self.0@[i].term@,
    {
        let mut frames: Vec<Frame> = Vec::new();
        let mut i: usize = 0;
        while i < self.0.len()
            invariant
                i <= self.0.len(),
                frames.len() == i,
                forall|j: int| 0 <= j < i ==> (#[trigger] frames@[j]).term@ == self.0@[j].term@,
            decreases self.0.len() - i,
        {
            frames.push(self.0[i].clone());
            i = i + 1;
        }
        Stack(frames)
    }
}

/// The set of strings in a sequence.
pub open spec fn strset(s: Seq<String>) -> Set<Seq<char>> {
    strs_v(s).to_set()
}

pub proof fn lemma_strset_push(s: Seq<String>, x: String)
    ensures
        strset(s.push(x)) == strset(s).insert(x@),
{
    assert(strs_v(s.push(x)) =~= strs_v(s).push(x@));
    assert forall|y: Seq<char>| #[trigger] strset(s.push(x)).contains(y) <==> strset(s).insert(
        x@,
    ).contains(y) by {
        if strset(s.push(x)).contains(y) {
            let i = choose|i: int| 0 <= i < strs_v(s.push(x)).len() && strs_v(s.push(x))[i] == y;
            if i < s.len() {
                assert(strs_v(s)[i] == y);
            }
        }
        if strset(s).contains(y) {
            let i = choose|i: int| 0 <= i < strs_v(s).len() && strs_v(s)[i] == y;
            assert(strs_v(s.push(x))[i] == y);
        }
        if y == x@ {
            assert(strs_v(s.push(x))[s.len() as int] == y);
        }
    }
    assert(strset(s.push(x)) =~= strset(s).insert(x@));
}

/// Adds to `out` the hashes of the stored terms that translating `a` reads.
pub fn collect_refs(a: &ABT<Term>, deep: bool, out: &mut Vec<String>)
    requires
        shaped(abt_v(*a), deep),
    ensures
        strset(final(out)@) == strset(old(out)@) + refs(abt_v(*a), deep),
    decreases abt_size(abt_v(*a)),
{
    let ghost av = abt_v(*a);
    match a {
        ABT::Var(_) => {
            assert(strset(out@) =~= strset(old(out)@) + refs(av, deep));
        },
        ABT::Tm(t) => collect_term_refs(t, deep, out),
        ABT::Cycle(inner) => {
            let ghost (ns, vals, b) = unroll(abt_v(**inner)).unwrap();
            let ghost k = ns.len() as int;
            let ghost bound = vals.take(k);
            proof {
                lemma_unroll_size(abt_v(**inner));
                assert(av == AbtV::Cycle(Box::new(abt_v(**inner))));
                lemma_abts_size_take(vals, k);
                assert forall|j: int| 0 <= j < k implies abt_size(#[trigger] vals[j]) < abt_size(av) by {
                    lemma_abts_size_elem(vals, j);
                }
                assert(bound.subrange(0, k) =~= bound);
            }
            let mut names: Vec<String> = Vec::new();
            let (values, body) = unroll_cycle(inner, &mut names);
            assert(strs_v(names@) =~= ns);
            proof {
                lemma_boxed_abts_v(values@);
            }
            let ghost start = strset(out@);
            let n = names.len();
            let mut i: usize = 0;
            while i < n
                invariant
                    n == names.len(),
                    n == k,
                    k <= vals.len(),
                    bound.len() == k,
                    bound == vals.take(k),
                    vals == boxed_abts_v(values@),
                    vals.len() == values.len(),
                    forall|j: int| 0 <= j < vals.len() ==> #[trigger] vals[j] == abt_v(*values@[j]),
                    forall|j: int| 0 <= j < k ==> abt_size(#[trigger] vals[j]) < abt_size(av),
                    av == abt_v(*a),
                    i <= n,
                    strset(out@) + abts_refs(bound.subrange(i as int, k), deep) == start
                        + abts_refs(bound, deep),
                    if deep {
                        abts_wf(bound.subrange(i as int, k))
                    } else {
                        abts_cwf(bound.subrange(i as int, k))
                    },
                decreases n - i,
            {
                proof {
                    lemma_abts_step(bound, i as int, deep);
                    lemma_abts_cwf_step(bound, i as int);
                    assert(bound[i as int] == vals[i as int]);
                }
                let ghost before = strset(out@);
                collect_refs(&values[i], deep, out);
                assert(strset(out@) + abts_refs(bound.subrange(i + 1, k), deep) =~= before
                    + abts_refs(bound.subrange(i as int, k), deep));
                i = i + 1;
            }
            proof {
                assert(bound.subrange(k, k) =~= Seq::<AbtV<TermV>>::empty());
                assert(abts_refs(bound.subrange(k, k), deep) =~= Set::<Seq<char>>::empty());
                assert(refs(av, deep) == abts_refs(bound, deep) + refs(b, deep));
                assert(strset(out@) =~= start + abts_refs(bound, deep));
            }
            let ghost mid = strset(out@);
            collect_refs(&body, deep, out);
            assert(strset(out@) =~= strset(old(out)@) + refs(av, deep));
        },
        ABT::Abs(_, body) => collect_refs(body, deep, out),
    }
}

fn collect_term_refs(t: &Term, deep: bool, out: &mut Vec<String>)
    requires
        if deep {
            term_wf(term_v(*t))
        } else {
            term_cwf(term_v(*t))
        },
    ensures
        strset(final(out)@) == strset(old(out)@) + term_refs(term_v(*t), deep),
    decreases term_size(term_v(*t)),
{
    let ghost tv = term_v(*t);
    let ghost start = strset(out@);
    match t {
        Term::Ref(Reference::DerivedId(Id(hash, i, n))) => {
            assert(tv == TermV::Ref(RefV::Derived(hash.0@, *i, *n)));
            let ghost o = out@;
            out.push(hash.0.clone());
            proof {
                lemma_strset_push(o, hash.0);
            }
            assert(strset(out@) =~= start + term_refs(tv, deep));
        },
        Term::App(a, b) => {
            collect_refs(a, deep, out);
            collect_refs(b, deep, out);
            assert(strset(out@) =~= start + term_refs(tv, deep));
        },
        Term::If(a, b, c) => {
            collect_refs(a, deep, out);
            collect_refs(b, deep, out);
            collect_refs(c, deep, out);
            assert(strset(out@) =~= start + term_refs(tv, deep));
        },
        Term::And(a, b) => {
            collect_refs(a, deep, out);
            collect_refs(b, deep, out);
            assert(strset(out@) =~= start + term_refs(tv, deep));
        },
        Term::Or(a, b) => {
            collect_refs(a, deep, out);
            collect_refs(b, deep, out);
            assert(strset(out@) =~= start + term_refs(tv, deep));
        },
        Term::Ann(a, _) => {
            if deep {
                collect_refs(a, deep, out);
            }
            assert(strset(out@) =~= start + term_refs(tv, deep));
        },
        Term::Let(_, a, b) => {
            if deep {
                collect_refs(a, deep, out);
                collect_refs(b, deep, out);
            }
            assert(strset(out@) =~= start + term_refs(tv, deep));
        },
        Term::Lam(a) => {
            if deep {
                collect_refs(a, deep, out);
            }
            assert(strset(out@) =~= start + term_refs(tv, deep));
        },
        Term::Sequence(terms) => {
            if deep {
                let ghost ts = abts_v(terms@);
                proof {
                    lemma_abts_v(terms@);
                    assert(ts.subrange(0, ts.len() as int) =~= ts);
                }
                let ln = terms.len();
                let mut i: usize = 0;
                while i < ln
                    invariant
                        ln == terms.len(),
                        ts == abts_v(terms@),
                        ts.len() == ln,
                        forall|j: int| 0 <= j < ln ==> #[trigger] ts[j] == abt_v(terms@[j]),
                        tv == term_v(*t),
                        tv == TermV::Sequence(ts),
                        deep,
                        i <= ln,
                        strset(out@) + abts_refs(ts.subrange(i as int, ln as int), deep) == start
                            + abts_refs(ts, deep),
                        abts_wf(ts.subrange(i as int, ln as int)),
                    decreases ln - i,
                {
                    proof {
                        lemma_abts_step(ts, i as int, deep);
                        lemma_abts_size_elem(ts, i as int);
                    }
                    let ghost before = strset(out@);
                    collect_refs(&terms[i], deep, out);
                    assert(strset(out@) + abts_refs(ts.subrange(i + 1, ln as int), deep) =~= before
                        + abts_refs(ts.subrange(i as int, ln as int), deep));
                    i = i + 1;
                }
                proof {
                    assert(ts.subrange(ln as int, ln as int) =~= Seq::<AbtV<TermV>>::empty());
                    assert(abts_refs(ts.subrange(ln as int, ln as int), deep) =~= Set::<
                        Seq<char>,
                    >::empty());
                }
            }
            assert(strset(out@) =~= start + term_refs(tv, deep));
        },
        Term::Match(item, arms) => {
            if deep {
                let ghost cs = cases_v(arms@);
                proof {
                    lemma_cases_v(arms@);
                    assert(cs.subrange(0, cs.len() as int) =~= cs);
                }
                collect_refs(item, deep, out);
                let ghost mid = strset(out@);
                let n = arms.len();
                let mut k: usize = 0;
                while k < n
                    invariant
                        n == arms.len(),
                        cs == cases_v(arms@),
                        cs.len() == n,
                        forall|j: int| 0 <= j < n ==> #[trigger] cs[j] == case_v(arms@[j]),
                        tv == term_v(*t),
                        tv == TermV::Match(Box::new(abt_v(**item)), cs),
                        deep,
                        k <= n,
                        strset(out@) + cases_refs(cs.subrange(k as int, n as int), deep) == mid
                            + cases_refs(cs, deep),
                        cases_wf(cs.subrange(k as int, n as int)),
                    decreases n - k,
                {
                    proof {
                        lemma_cases_step(cs, k as int, deep);
                        lemma_cases_size_elem(cs, k as int);
                    }
                    let ghost before = strset(out@);
                    let MatchCase(_, cond, body) = &arms[k];
                    match cond {
                        Some(cond) => collect_refs(cond, deep, out),
                        None => {},
                    }
                    collect_refs(body, deep, out);
                    assert(strset(out@) + cases_refs(cs.subrange(k + 1, n as int), deep) =~= before
                        + cases_refs(cs.subrange(k as int, n as int), deep));
                    k = k + 1;
                }
                proof {
                    assert(cs.subrange(n as int, n as int) =~= Seq::<CaseV>::empty());
                    assert(cases_refs(cs.subrange(n as int, n as int), deep) =~= Set::<
                        Seq<char>,
                    >::empty());
                    assert(term_refs(tv, deep) == refs(abt_v(**item), deep) + cases_refs(cs, deep));
                    assert(strset(out@) =~= mid + cases_refs(cs, deep));
                }
            }
            assert(strset(out@) =~= start + term_refs(tv, deep));
        },
        _ => {
            assert(strset(out@) =~= start + term_refs(tv, deep));
        },
    }
}

impl Env {
    /// Whether the stored term `t` can be translated.
    fn good_term(t: &ABT<Term>, deep: bool) -> (r: bool)
        ensures
            r == good(abt_v(*t), deep),
    {
        if deep {
            crate::walk::label_count(t).is_some()
        } else {
            crate::walk::cycles_ok(t)
        }
    }

    fn dfs<V>(
        &self,
        h: &str,
        done: &StringHashMap<V>,
        deep: bool,
        visited: &mut StringHashMap<bool>,
        Ghost(fuel): Ghost<nat>,
    ) -> (r: Scan)
        requires
            self.wf(),
            old(visited)@.dom().subset_of(self.source().dom()),
            self.source().dom().difference(old(visited)@.dom()).len() <= fuel,
        ensures
            old(visited)@.dom().subset_of(final(visited)@.dom()),
            final(visited)@.dom().subset_of(self.source().dom()),
            match r {
                Scan::Complete => {
                    &&& (final(visited)@.contains_key(h@) || done@.contains_key(h@))
                    &&& forall|k: Seq<char>|
                        #[trigger] final(visited)@.contains_key(k) && !old(visited)@.contains_key(k)
                            ==> refs(self.source()[k], deep).subset_of(
                            final(visited)@.dom() + done@.dom(),
                        ) && reaches(self.source(), done@.dom(), deep, h@, k) && good(
                            self.source()[k],
                            deep,
                        )
                },
                Scan::Missing(m) => {
                    &&& !self.source().contains_key(m@)
                    &&& !done@.contains_key(m@)
                    &&& reaches(self.source(), done@.dom(), deep, h@, m@)
                },
                Scan::Malformed(m) => {
                    &&& self.source().contains_key(m@)
                    &&& !done@.contains_key(m@)
                    &&& reaches(self.source(), done@.dom(), deep, h@, m@)
                    &&& !good(self.source()[m@], deep)
                },
            },
        decreases fuel,
    {
        let ghost src = self.source();
        if done.contains_key(h) || visited.contains_key(h) {
            return Scan::Complete;
        }
        proof {
            lemma_reaches_self(src, done@.dom(), deep, h@);
        }
        match self.load(h) {
            Fetch::Read(_) => Scan::Missing(h.to_owned()),
            Fetch::Found(t) => {
                if !Self::good_term(&t, deep) {
                    return Scan::Malformed(h.to_owned());
                }
                proof {
                    self.lemma_source_finite();
                    lemma_diff_insert(src.dom(), visited@.dom(), h@);
                }
                visited.insert(h.to_owned(), true);
                assert(visited@.dom() =~= old(visited)@.dom().insert(h@));
                let mut rs: Vec<String> = Vec::new();
                collect_refs(&t, deep, &mut rs);
                assert(strset(rs@) =~= refs(src[h@], deep));
                let mut i: usize = 0;
                while i < rs.len()
                    invariant
                        src == self.source(),
                        self.wf(),
                        src.contains_key(h@),
                        !done@.contains_key(h@),
                        good(src[h@], deep),
                        strset(rs@) == refs(src[h@], deep),
                        i <= rs.len(),
                        old(visited)@.dom().insert(h@).subset_of(visited@.dom()),
                        visited@.dom().subset_of(src.dom()),
                        src.dom().difference(visited@.dom()).len() <= fuel - 1,
                        fuel >= 1,
                        reaches(src, done@.dom(), deep, h@, h@),
                        forall|j: int|
                            0 <= j < i ==> visited@.contains_key((#[trigger] rs@[j])@)
                                || done@.contains_key(rs@[j]@),
                        forall|k: Seq<char>|
                            #[trigger] visited@.contains_key(k) && !old(visited)@.contains_key(k) && k
                                != h@ ==> refs(src[k], deep).subset_of(visited@.dom() + done@.dom())
                                && reaches(src, done@.dom(), deep, h@, k) && good(src[k], deep),
                    decreases rs.len() - i,
                {
                    let ghost v0 = visited@.dom();
                    let ghost r = rs@[i as int]@;
                    proof {
                        assert(strs_v(rs@)[i as int] == r);
                        assert(strset(rs@).contains(r));
                    }
                    let ghost vis_before = visited@;
                    match self.dfs(rs[i].as_str(), done, deep, visited, Ghost((fuel - 1) as nat)) {
                        Scan::Missing(m) => {
                            proof {
                                lemma_reaches_prepend(src, done@.dom(), deep, h@, r, m@);
                            }
                            return Scan::Missing(m);
                        },
                        Scan::Malformed(m) => {
                            proof {
                                lemma_reaches_prepend(src, done@.dom(), deep, h@, r, m@);
                            }
                            return Scan::Malformed(m);
                        },
                        Scan::Complete => {},
                    }
                    proof {
                        self.lemma_source_finite();
                        crate::sets::lemma_diff_mono(src.dom(), v0, visited@.dom());
                        assert forall|k: Seq<char>|
                            #[trigger] visited@.contains_key(k) && !old(visited)@.contains_key(k) && k
                                != h@ implies refs(src[k], deep).subset_of(
                            visited@.dom() + done@.dom(),
                        ) && reaches(src, done@.dom(), deep, h@, k) && good(src[k], deep) by {
                            if !vis_before.contains_key(k) {
                                lemma_reaches_prepend(src, done@.dom(), deep, h@, r, k);
                            }
                        }
                    }
                    i = i + 1;
                }
                proof {
                    assert forall|x: Seq<char>| #[trigger] refs(src[h@], deep).contains(x) implies (
                    visited@.dom() + done@.dom()).contains(x) by {
                        assert(strset(rs@).contains(x));
                        let j = choose|j: int| 0 <= j < strs_v(rs@).len() && strs_v(rs@)[j] == x;
                        assert(rs@[j]@ == x);
                    }
                }
                Scan::Complete
            },
        }
    }

    /// Walks the stored terms that translating `hash` reads, leaving out those
    /// in `done`: `deep` chooses the compiler to IR, otherwise the translation
    /// to Scheme. It names a term that is read and not stored, or a stored
    /// term that cannot be translated, or finds that neither exists.
    pub fn scan<V>(&self, hash: &str, done: &StringHashMap<V>, deep: bool) -> (r: Scan)
        requires
            self.wf(),
        ensures
            (r is Complete) <==> (complete(self.source(), done@.dom(), deep, hash@) && sound(
                self.source(),
                done@.dom(),
                deep,
                hash@,
            )),
            match r {
                Scan::Complete => settled(self.source(), done@.dom(), deep, hash@),
                Scan::Missing(m) => {
                    &&& !self.source().contains_key(m@)
                    &&& !done@.contains_key(m@)
                    &&& reaches(self.source(), done@.dom(), deep, hash@, m@)
                },
                Scan::Malformed(m) => {
                    &&& self.source().contains_key(m@)
                    &&& !done@.contains_key(m@)
                    &&& reaches(self.source(), done@.dom(), deep, hash@, m@)
                    &&& !good(self.source()[m@], deep)
                },
            },
    {
        let mut visited: StringHashMap<bool> = StringHashMap::new();
        proof {
            assert(self.source().dom().difference(visited@.dom()) =~= self.source().dom());
        }
        let r = self.dfs(hash, done, deep, &mut visited, Ghost(self.source().dom().len()));
        proof {
            let src = self.source();
            let t = done@.dom();
            if r is Complete {
                assert(closed(src, visited@.dom(), t, deep));
                lemma_settled(src, t, deep, hash@);
            }
            if let Scan::Missing(m) = &r {
                assert(!complete(src, t, deep, hash@)) by {
                    assert(reaches(src, t, deep, hash@, m@));
                }
            }
            if let Scan::Malformed(m) = &r {
                assert(!sound(src, t, deep, hash@)) by {
                    assert(reaches(src, t, deep, hash@, m@) && src.contains_key(m@));
                }
            }
        }
        r
    }
}

} // verus!
