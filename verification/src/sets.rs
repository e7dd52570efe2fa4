//! Counting what is left to do.

use vstd::prelude::*;
use vstd::set_lib::lemma_len_subset;

verus! {

/// Taking away more leaves less.
pub proof fn lemma_diff_mono<A>(vs: Set<A>, t1: Set<A>, t2: Set<A>)
    requires
        vs.finite(),
        t1.subset_of(t2),
    ensures
        vs.difference(t2).len() <= vs.difference(t1).len(),
{
    lemma_len_subset(vs.difference(t2), vs.difference(t1));
}

/// Taking away one more member leaves one less.
pub proof fn lemma_diff_insert<A>(vs: Set<A>, t: Set<A>, h: A)
    requires
        vs.finite(),
        vs.contains(h),
        !t.contains(h),
    ensures
        vs.difference(t.insert(h)).len() + 1 == vs.difference(t).len(),
        vs.difference(t).len() >= 1,
{
    assert(vs.difference(t.insert(h)) =~= vs.difference(t).remove(h));
    assert(vs.difference(t).contains(h));
}

} // verus!
