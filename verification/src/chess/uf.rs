//! Trusted bindings to the `reunion` union-find crate.
//!
//! The structure is modelled by the set of pairs ever passed to `union`:
//! `uf_pairs` names that set, each wrapper states how its call changes or
//! reads it, and nothing else about the crate is assumed.

use vstd::prelude::*;

use crate::chess::link::joined;
use reunion::UnionFindTrait;

verus! {

#[verifier::external_type_specification]
#[verifier::external_body]
#[verifier::reject_recursive_types(T)]
pub struct ExUnionFind<T: core::hash::Hash + Eq + Clone>(reunion::UnionFind<T>);

/// The pairs of elements that have been passed to `union` so far.
pub uninterp spec fn uf_pairs(uf: reunion::UnionFind<usize>) -> Set<(int, int)>;

/// One recorded union, read in either orientation.
pub open spec fn rel_step(rel: Set<(int, int)>) -> spec_fn(int, int) -> bool {
    |a: int, b: int| rel.contains((a, b)) || rel.contains((b, a))
}

/// `x` occurs in some recorded pair.
pub open spec fn rel_member(rel: Set<(int, int)>, x: int) -> bool {
    exists|p: (int, int)| #[trigger] rel.contains(p) && (p.0 == x || p.1 == x)
}

/// Relies on reunion::UnionFind::new: a fresh structure has no recorded
/// unions.
#[verifier::external_body]
pub(crate) fn uf_new() -> (uf: reunion::UnionFind<usize>)
    ensures
        uf_pairs(uf) == Set::<(int, int)>::empty(),
{
    reunion::UnionFind::new()
}

/// Relies on reunion::UnionFindTrait::union: the call records one more
/// pair, and merges the classes of its two arguments accordingly.
#[verifier::external_body]
pub(crate) fn uf_union(uf: &mut reunion::UnionFind<usize>, a: usize, b: usize)
    ensures
        uf_pairs(*final(uf)) == uf_pairs(*old(uf)).insert((a as int, b as int)),
{
    uf.union(a, b);
}

/// Relies on reunion::UnionFindTrait::subsets: every element that occurs in
/// a recorded pair is listed exactly once, and two elements share a group
/// exactly when the recorded pairs join them.  The order of the groups, and
/// of the elements inside one, is arbitrary.
#[verifier::external_body]
pub(crate) fn uf_groups(uf: reunion::UnionFind<usize>) -> (r: Vec<Vec<usize>>)
    ensures
        forall|i: int, k: int|
            0 <= i < r@.len() && 0 <= k < r@[i]@.len() ==> rel_member(
                uf_pairs(uf),
                #[trigger] r@[i]@[k] as int,
            ),
        forall|x: usize|
            rel_member(uf_pairs(uf), x as int) ==> exists|i: int, k: int|
                0 <= i < r@.len() && 0 <= k < r@[i]@.len() && r@[i]@[k] == x,
        forall|i1: int, k1: int, i2: int, k2: int|
            #![trigger r@[i1]@[k1], r@[i2]@[k2]]
            0 <= i1 < r@.len() && 0 <= k1 < r@[i1]@.len() && 0 <= i2 < r@.len() && 0 <= k2
                < r@[i2]@.len() && r@[i1]@[k1] == r@[i2]@[k2] ==> i1 == i2 && k1 == k2,
        forall|i: int, k1: int, k2: int|
            #![trigger r@[i]@[k1], r@[i]@[k2]]
            0 <= i < r@.len() && 0 <= k1 < r@[i]@.len() && 0 <= k2 < r@[i]@.len() ==> joined(
                rel_step(uf_pairs(uf)),
                r@[i]@[k1] as int,
                r@[i]@[k2] as int,
            ),
        forall|i1: int, k1: int, i2: int, k2: int|
            #![trigger r@[i1]@[k1], r@[i2]@[k2]]
            0 <= i1 < r@.len() && 0 <= k1 < r@[i1]@.len() && 0 <= i2 < r@.len() && 0 <= k2
                < r@[i2]@.len() && joined(
                rel_step(uf_pairs(uf)),
                r@[i1]@[k1] as int,
                r@[i2]@[k2] as int,
            ) ==> i1 == i2,
{
    let mut u = uf;
    u.subsets().into_iter().map(|s| s.into_iter().collect()).collect()
}

} // verus!
