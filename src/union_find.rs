//! The disjoint sets of the `disjoint-sets` crate, as the Kruskal generator
//! uses them.
use disjoint_sets::UnionFind;
use vstd::prelude::*;

verus! {

/// Disjoint sets of the elements `0..n`. Verus does not take a declaration
/// of `UnionFind` (its element bound is a trait of that crate), so it is held
/// here, out of Verus's sight, and read through `set_roots`.
#[verifier::external_body]
pub struct DisjointSets {
    sets: UnionFind<usize>,
}

/// The representative of each element's set, by element.
pub uninterp spec fn set_roots(u: DisjointSets) -> Seq<usize>;

/// `new` arises from `old` by giving every element represented by `from` the
/// representative `to`.
pub open spec fn relabeled(old: Seq<usize>, new: Seq<usize>, from: usize, to: usize) -> bool {
    &&& new.len() == old.len()
    &&& forall|i: int|
        0 <= i < old.len() ==> #[trigger] new[i] == if old[i] == from {
            to
        } else {
            old[i]
        }
}

/// Relies on `UnionFind::new`: `size` elements, each alone in its set and
/// its own representative.
#[verifier::external_body]
pub(crate) fn union_find_new(size: usize) -> (u: DisjointSets)
    ensures
        set_roots(u) == Seq::new(size as nat, |i: int| i as usize),
{
    DisjointSets { sets: UnionFind::new(size) }
}

/// Relies on `UnionFind::equiv`: the two elements have the same
/// representative. It indexes its vector, so both must be elements.
#[verifier::external_body]
pub(crate) fn union_find_equiv(u: &DisjointSets, a: usize, b: usize) -> (r: bool)
    requires
        a < set_roots(*u).len(),
        b < set_roots(*u).len(),
    ensures
        r == (set_roots(*u)[a as int] == set_roots(*u)[b as int]),
{
    u.sets.equiv(a, b)
}

/// Relies on `UnionFind::union`: when the representatives differ, the one
/// of lower rank is linked under the other, so the members of one set take the
/// other's representative; the result says whether the sets differed. It
/// indexes its vectors, so both must be elements.
#[verifier::external_body]
pub(crate) fn union_find_union(u: &mut DisjointSets, a: usize, b: usize) -> (r: bool)
    requires
        a < set_roots(*old(u)).len(),
        b < set_roots(*old(u)).len(),
    ensures
        r == (set_roots(*old(u))[a as int] != set_roots(*old(u))[b as int]),
        !r ==> set_roots(*final(u)) == set_roots(*old(u)),
        r ==> relabeled(
            set_roots(*old(u)),
            set_roots(*final(u)),
            set_roots(*old(u))[a as int],
            set_roots(*old(u))[b as int],
        ) || relabeled(
            set_roots(*old(u)),
            set_roots(*final(u)),
            set_roots(*old(u))[b as int],
            set_roots(*old(u))[a as int],
        ),
{
    u.sets.union(a, b)
}

} // verus!
