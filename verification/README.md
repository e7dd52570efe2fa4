# unison_rs

A runtime for Unison code: it keeps a store of terms and types, compiles
terms to a flat list of stack-machine instructions, and translates them to
Scheme (Chicken) expressions. The library is written in Verus and proved
against its contracts.

## Layout

- `src/types.rs`: the term language (binding trees over terms, types and
  patterns); `src/model.rs`: its mathematical views; `src/copy.rs`: deep
  copies proved to keep the view.
- `src/env.rs`: the store. Lookups answer from the caches or name the file to
  read; `store` and `store_type` keep what was read; `scan` walks the terms a
  translation needs and names one that is missing or malformed.
- `src/walk.rs`: what the translations read of a term: sizes, cycles,
  references, labels, and the shape they need.
- `src/ir.rs`: the compiler to instructions, specified by `c_abt` and the
  functions around it; `src/labels.rs`: the proof that every compiled body
  marks each label at most once, jumps only to labels it marks, and pushes only
  anonymous functions that exist; `src/nesting.rs`: that the instructions a
  compilation adds close every scope and stack mark they open;
  `src/fuel.rs`: that compiling does not depend on the fuel that bounds it,
  so that compiling the parts of a term in calls of their own gives what
  compiling the whole gives.
- `src/chicken.rs`: the translation to Scheme, specified by `t_abt` and the
  functions around it; `src/text.rs`: decimal and quoted text.
- `tests/`: tests on concrete terms.
- `app/`: reading files from disk, the loops that read what the library names
  before compiling or translating, and the serialisable form of Scheme
  expressions.

## What is proved

- `Env::store` / `Env::load`: a term stored under a hash is what a lookup of
  it finds; `store_type` / `load_type` likewise for type declarations, and
  `store_term_type` keeps the type read with a term.
- `Env::scan` returns `Complete` exactly when every term the translation
  reaches is stored and has the shape it needs; otherwise it names one that
  is missing or malformed.
- `ABT::to_ir` / `Term::to_ir` append exactly what the spec `c_abt` /
  `c_term` gives. The instructions added mark each label once, jump only
  forward to labels they mark, close every bindings scope and stack mark they
  open, and name a value only right after opening a scope. Bodies compiled
  on the way keep the same properties, and compiled terms are never changed.
- `GlobalEnv::load` returns `None` exactly when every term reached is
  stored; then that term and every term it reaches are compiled, and a
  second load changes nothing. `Some(m)` names a missing term and changes
  nothing.
- `to_chicken` gives exactly what the spec `t_abt` / `t_term` gives.
  `TranslationEnv::load` gives exactly `t_load`: each translated term is
  kept with its type; it succeeds whenever every term reached is stored,
  and then every term reached is translated; a failure names a term that is
  not stored and leaves the placeholder of the requested term, so a later
  load succeeds at once.
- Compiling or translating a term gives what compiling or translating its
  parts in calls of their own gives (`law_app_in_parts`, `law_let_in_parts`,
  `law_abs_in_parts`, `law_two_in_parts`, `law_abs_in_parts_c`), and a
  failed part stops the translation with nothing translated after it.
- `TranslationEnv::add_fn` returns the first anonymous function equal to
  the translation, or adds it at the end: no two are ever equal.
- `Chicken::to_string` and `TranslationEnv::to_string` give the text of an
  expression and of a definition exactly.
