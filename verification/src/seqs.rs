//! Small facts about mapped sequences.
//!
//! The containers of this crate are vectors of owned values whose abstract
//! views are the element views, so their operations have to be carried
//! through `Seq::map_values`.

use vstd::prelude::*;

verus! {

/// The views of a run of owned strings.
pub open spec fn string_views(s: Seq<String>) -> Seq<Seq<char>> {
    s.map_values(|x: String| x@)
}

/// Mapping commutes with appending one element.
pub proof fn lemma_map_values_push<A, B>(s: Seq<A>, f: spec_fn(A) -> B, x: A)
    ensures
        s.push(x).map_values(f) =~= s.map_values(f).push(f(x)),
{
}

/// Mapping commutes with inserting one element.
pub proof fn lemma_map_values_insert<A, B>(s: Seq<A>, f: spec_fn(A) -> B, i: int, x: A)
    requires
        0 <= i <= s.len(),
    ensures
        s.insert(i, x).map_values(f) =~= s.map_values(f).insert(i, f(x)),
{
}

/// Mapping commutes with removing one element.
pub proof fn lemma_map_values_remove<A, B>(s: Seq<A>, f: spec_fn(A) -> B, i: int)
    requires
        0 <= i < s.len(),
    ensures
        s.remove(i).map_values(f) =~= s.map_values(f).remove(i),
{
}

/// Mapping commutes with taking a subrange.
pub proof fn lemma_map_values_subrange<A, B>(s: Seq<A>, f: spec_fn(A) -> B, i: int, j: int)
    requires
        0 <= i <= j <= s.len(),
    ensures
        s.subrange(i, j).map_values(f) =~= s.map_values(f).subrange(i, j),
{
}

/// A prefix one longer is the prefix plus the next element.
pub proof fn lemma_take_succ<A>(s: Seq<A>, i: int)
    requires
        0 <= i < s.len(),
    ensures
        s.take(i + 1) =~= s.take(i).push(s[i]),
{
}

} // verus!
