//! The library's laws, stated and proved in one place.
//!
//! Each law here is proved from the public contracts of the build and
//! traversal functions, so a reader can see what the library guarantees
//! without reconstructing it from the individual `ensures` clauses.

use vstd::prelude::*;
use crate::aabb::AABB;
use crate::bvh::{join_all, lemma_order_facts, range_order, subtree, Node, BVH};
use crate::intersect::ray_hits;
use crate::ray::Ray;

verus! {

/// Coverage: in a well-formed tree over `n` objects, every object index
/// below `n` appears in exactly one leaf, and no other index appears at all.
///
/// The leaves' object indices, read in depth-first order, are the tree's
/// `order` sequence, so the law is stated over its multiset.
pub proof fn lemma_coverage(t: BVH, bounds: Seq<AABB>, oi: usize)
    requires
        t.wf(bounds),
        bounds.len() > 0,
        bounds.len() <= usize::MAX,
    ensures
        t.order@.to_multiset().count(oi) == if (oi as int) < bounds.len() {
            1int
        } else {
            0int
        },
{
    broadcast use vstd::seq_lib::group_to_multiset_ensures;

    let r = range_order(bounds.len());
    lemma_order_facts(t.order@, bounds.len());
    if (oi as int) < bounds.len() {
        assert(r[oi as int] == oi);
        assert(r.contains(oi));
        assert(r.no_duplicates()) by {
            assert forall|i: int, j: int|
                0 <= i < r.len() && 0 <= j < r.len() && i != j implies r[i] != r[j] by {
                assert(r[i] == i as usize);
                assert(r[j] == j as usize);
            }
        }
        r.lemma_multiset_has_no_duplicates();
        assert(r.to_multiset().count(oi) == 1);
    } else {
        if r.contains(oi) {
            let j = choose|j: int| 0 <= j < r.len() && r[j] == oi;
            assert(false);
        }
        assert(r.to_multiset().count(oi) == 0);
    }
}

/// Bound tightness: every internal node of a well-formed subtree caches, for
/// each child, exactly the recomputed tight union of the bounds of the
/// objects in that child's subtree.
pub proof fn lemma_bound_tightness(
    arena: Seq<Node>,
    bounds: Seq<AABB>,
    i: int,
    parent: int,
    depth: int,
    objs: Seq<usize>,
)
    requires
        subtree(arena, bounds, i, parent, depth, objs),
        arena[i] is Internal,
    ensures
        exists|lobjs: Seq<usize>, robjs: Seq<usize>|
            {
                &&& objs == lobjs + robjs
                &&& lobjs.len() >= 1
                &&& robjs.len() >= 1
                &&& arena[i]->Internal_left_bound == join_all(bounds, lobjs)
                &&& arena[i]->Internal_right_bound == join_all(bounds, robjs)
                &&& subtree(arena, bounds, arena[i]->Internal_left_index as int, i, depth + 1, lobjs)
                &&& subtree(
                    arena,
                    bounds,
                    arena[i]->Internal_right_index as int,
                    i,
                    depth + 1,
                    robjs,
                )
            },
{
    let li = arena[i]->Internal_left_index;
    let ri = arena[i]->Internal_right_index;
    let (lobjs, robjs) = choose|lobjs: Seq<usize>, robjs: Seq<usize>|
        {
            &&& lobjs.len() >= 1
            &&& robjs.len() >= 1
            &&& objs == lobjs + robjs
            &&& arena[i]->Internal_left_bound == join_all(bounds, lobjs)
            &&& arena[i]->Internal_right_bound == join_all(bounds, robjs)
            &&& subtree(arena, bounds, li as int, i, depth + 1, lobjs)
            &&& subtree(arena, bounds, ri as int, i, depth + 1, robjs)
        };
    assert(objs == lobjs + robjs && subtree(arena, bounds, li as int, i, depth + 1, lobjs)
        && subtree(arena, bounds, ri as int, i, depth + 1, robjs));
}

/// No false negatives: a ray that truly hits some object's bound finds that
/// object's index in the traversal result.
///
/// The premise is exactly what `traverse` (recursive or flat) ensures of its
/// result.
pub proof fn lemma_no_false_negatives(result: Seq<usize>, bounds: Seq<AABB>, ray: Ray, oi: usize)
    requires
        forall|x: usize|
            #[trigger] result.contains(x) <==> (x as int) < bounds.len() && ray_hits(
                bounds[x as int],
                ray,
            ),
        (oi as int) < bounds.len(),
        ray_hits(bounds[oi as int], ray),
    ensures
        result.contains(oi),
{
}

/// Flatten equivalence: the recursive and the flattened traversal return the
/// same candidates, as sets, for every ray.
///
/// The premises are exactly what the two `traverse` functions ensure of
/// their results against the same objects.
pub proof fn lemma_flatten_equivalence(
    r1: Seq<usize>,
    r2: Seq<usize>,
    bounds: Seq<AABB>,
    ray: Ray,
)
    requires
        forall|x: usize|
            #[trigger] r1.contains(x) <==> (x as int) < bounds.len() && ray_hits(
                bounds[x as int],
                ray,
            ),
        forall|x: usize|
            #[trigger] r2.contains(x) <==> (x as int) < bounds.len() && ray_hits(
                bounds[x as int],
                ray,
            ),
    ensures
        r1.to_set() == r2.to_set(),
{
    assert(r1.to_set() =~= r2.to_set()) by {
        assert forall|x: usize| r1.to_set().contains(x) <==> r2.to_set().contains(x) by {
            assert(r1.to_set().contains(x) == r1.contains(x));
            assert(r2.to_set().contains(x) == r2.contains(x));
        }
    }
}

/// Degenerate input: with no objects, traversal returns the empty result for
/// any query.  The premise is `traverse`'s postcondition with an empty
/// object set.
pub proof fn lemma_degenerate_empty(result: Seq<usize>, bounds: Seq<AABB>, ray: Ray)
    requires
        bounds.len() == 0,
        forall|x: usize|
            #[trigger] result.contains(x) <==> (x as int) < bounds.len() && ray_hits(
                bounds[x as int],
                ray,
            ),
    ensures
        result == Seq::<usize>::empty(),
{
    if result.len() > 0 {
        assert(result.contains(result[0]));
    }
    assert(result =~= Seq::<usize>::empty());
}

/// Degenerate input: with exactly one object, traversal returns `[0]` when
/// the ray hits that object's bound and the empty result otherwise.  The
/// premises are `traverse`'s postconditions with a one-object set.
pub proof fn lemma_degenerate_single(result: Seq<usize>, bounds: Seq<AABB>, ray: Ray)
    requires
        bounds.len() == 1,
        forall|x: usize|
            #[trigger] result.contains(x) <==> (x as int) < bounds.len() && ray_hits(
                bounds[x as int],
                ray,
            ),
        result.no_duplicates(),
    ensures
        result == if ray_hits(bounds[0], ray) {
            seq![0usize]
        } else {
            Seq::<usize>::empty()
        },
{
    if ray_hits(bounds[0], ray) {
        assert(result.contains(0usize));
        let j = choose|j: int| 0 <= j < result.len() && result[j] == 0usize;
        assert forall|k: int| 0 <= k < result.len() implies result[k] == 0usize by {
            assert(result.contains(result[k]));
        }
        assert(result.len() == 1) by {
            if result.len() > 1 {
                assert(result[0] == 0usize && result[1] == 0usize);
            }
        }
        assert(result =~= seq![0usize]);
    } else {
        if result.len() > 0 {
            assert(result.contains(result[0]));
            assert((result[0] as int) < 1 && ray_hits(bounds[result[0] as int], ray));
            assert(result[0] == 0usize);
        }
        assert(result =~= Seq::<usize>::empty());
    }
}

} // verus!
