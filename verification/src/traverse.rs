//! Depth-first, bound-pruned traversal of the hierarchy.
//!
//! The traversal answers "which objects could this ray intersect?": it
//! returns every object index whose own bound the ray hits, each exactly
//! once, and no other.  Internal nodes are pruned through their cached child
//! bounds; because each cached bound is the tight union of its subtree's
//! object bounds, pruning never loses a candidate.  Precise shape
//! intersection is the caller's job: the result is a set of candidates, and
//! false positives at the shape level are expected.

use vstd::prelude::*;
use crate::aabb::Bounded;
use crate::bvh::{
    bounds_of, hit_indices, join_all, lemma_filter_contains_iff, lemma_filter_no_duplicates,
    lemma_hit_indices_concat, lemma_join_all_in_range, lemma_miss_all, lemma_order_facts,
    lemma_subtree_valid_idxs, subtree, valid_bounds, Node, BVH,
};
use crate::intersect::ray_hits;
use crate::ray::Ray;

verus! {

/// Visits the subtree rooted at `i`, appending to `out` the index of every
/// object in it whose bound the ray hits, in depth-first order.
fn traverse_rec<T: Bounded>(
    nodes: &Vec<Node>,
    i: usize,
    ray: &Ray,
    objects: &Vec<T>,
    par: Ghost<int>,
    dep: Ghost<int>,
    objs: Ghost<Seq<usize>>,
    out: &mut Vec<usize>,
)
    requires
        subtree(nodes@, bounds_of(objects@), i as int, par@, dep@, objs@),
        ray.in_range(),
        forall|k: int| 0 <= k < objects@.len() ==> (#[trigger] objects@[k].bound()).in_range(),
    ensures
        final(out)@ == old(out)@ + hit_indices(bounds_of(objects@), *ray, objs@),
    decreases nodes@.len() - i,
{
    let ghost bounds = bounds_of(objects@);
    let ghost p = |o: usize| ray_hits(bounds[o as int], *ray);
    proof {
        assert(valid_bounds(bounds));
    }
    let node = nodes[i];
    match node {
        Node::Leaf { object_index, .. } => {
            let o = object_index;
            proof {
                assert(objs@ == seq![o]);
                assert(bounds[o as int] == objects@[o as int].bound());
            }
            let hit = objects[o].aabb().does_intersect(ray);
            proof {
                assert(hit_indices(bounds, *ray, seq![o]) == if p(o) {
                    seq![o]
                } else {
                    Seq::<usize>::empty()
                }) by {
                    reveal_with_fuel(Seq::filter, 2);
                    assert(seq![o].drop_last() =~= Seq::<usize>::empty());
                }
            }
            if hit {
                out.push(o);
                proof {
                    assert(old(out)@.push(o) =~= old(out)@ + seq![o]);
                }
            } else {
                proof {
                    assert(old(out)@ =~= old(out)@ + Seq::<usize>::empty());
                }
            }
        },
        Node::Internal { left_index, left_bound, right_index, right_bound, .. } => {
            let ghost (lobjs, robjs) = choose|lobjs: Seq<usize>, robjs: Seq<usize>|
                {
                    &&& lobjs.len() >= 1
                    &&& robjs.len() >= 1
                    &&& objs@ == lobjs + robjs
                    &&& left_bound == join_all(bounds, lobjs)
                    &&& right_bound == join_all(bounds, robjs)
                    &&& subtree(nodes@, bounds, left_index as int, i as int, dep@ + 1, lobjs)
                    &&& subtree(nodes@, bounds, right_index as int, i as int, dep@ + 1, robjs)
                };
            proof {
                lemma_subtree_valid_idxs(nodes@, bounds, left_index as int, i as int, dep@ + 1, lobjs);
                lemma_subtree_valid_idxs(
                    nodes@,
                    bounds,
                    right_index as int,
                    i as int,
                    dep@ + 1,
                    robjs,
                );
                lemma_join_all_in_range(bounds, lobjs);
                lemma_join_all_in_range(bounds, robjs);
            }
            let ghost mid = out@ + hit_indices(bounds, *ray, lobjs);
            if left_bound.does_intersect(ray) {
                traverse_rec(
                    nodes,
                    left_index,
                    ray,
                    objects,
                    Ghost(i as int),
                    Ghost(dep@ + 1),
                    Ghost(lobjs),
                    out,
                );
            } else {
                proof {
                    lemma_miss_all(bounds, lobjs, *ray);
                    assert(out@ =~= mid);
                }
            }
            if right_bound.does_intersect(ray) {
                traverse_rec(
                    nodes,
                    right_index,
                    ray,
                    objects,
                    Ghost(i as int),
                    Ghost(dep@ + 1),
                    Ghost(robjs),
                    out,
                );
            } else {
                proof {
                    lemma_miss_all(bounds, robjs, *ray);
                    assert(out@ =~= mid + hit_indices(bounds, *ray, robjs));
                }
            }
            proof {
                lemma_hit_indices_concat(bounds, *ray, lobjs, robjs);
                assert(out@ =~= old(out)@ + hit_indices(bounds, *ray, objs@));
            }
        },
    }
}

impl BVH {
    /// Returns the indices of the objects whose bound the ray hits: every
    /// such index exactly once, in some order, and no other index.
    ///
    /// The tree must be well formed for the objects' current bounds — that
    /// is, the objects' bounds must be what they were when the tree was
    /// built.  An empty tree yields an empty result for any ray.
    pub fn traverse<T: Bounded>(&self, ray: &Ray, objects: &Vec<T>) -> (r: Vec<usize>)
        requires
            self.wf(bounds_of(objects@)),
            ray.in_range(),
            forall|k: int| 0 <= k < objects@.len() ==> (#[trigger] objects@[k].bound()).in_range(),
        ensures
            forall|oi: usize|
                #[trigger] r@.contains(oi) <==> (oi as int) < objects@.len() && ray_hits(
                    objects@[oi as int].bound(),
                    *ray,
                ),
            r@.no_duplicates(),
    {
        let ghost bounds = bounds_of(objects@);
        let ghost p = |o: usize| ray_hits(bounds[o as int], *ray);
        let mut out: Vec<usize> = Vec::new();
        let n = objects.len();
        proof {
            assert(n == objects@.len());
        }
        if self.nodes.len() == 0 {
            proof {
                assert(bounds.len() == 0);
            }
            return out;
        }
        proof {
            assert(bounds.len() > 0);
            lemma_order_facts(self.order@, bounds.len());
        }
        traverse_rec(
            &self.nodes,
            0,
            ray,
            objects,
            Ghost(0),
            Ghost(0),
            Ghost(self.order@),
            &mut out,
        );
        proof {
            assert(out@ == hit_indices(bounds, *ray, self.order@));
            lemma_filter_no_duplicates(self.order@, p);
            assert forall|oi: usize|
                #[trigger] out@.contains(oi) <==> (oi as int) < objects@.len() && ray_hits(
                    objects@[oi as int].bound(),
                    *ray,
                ) by {
                lemma_filter_contains_iff(self.order@, p, oi);
                if (oi as int) < objects@.len() {
                    assert(bounds[oi as int] == objects@[oi as int].bound());
                    assert(self.order@.contains(oi));
                }
            }
        }
        out
    }
}

} // verus!
