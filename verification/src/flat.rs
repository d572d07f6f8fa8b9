//! The flattened hierarchy: stackless traversal over a linear array.
//!
//! Flattening appends the nodes of the tree in pre-order.  Each flat node
//! carries a bound, either an object index (leaf) or none (internal), and an
//! `exit_offset`: the array position one past its whole subtree, where a
//! scan must continue when the bound test fails.  Traversal is then a single
//! forward scan with conditional jumps — no recursion and no stack — and is
//! proved to produce exactly the candidates of the recursive traversal.

use vstd::prelude::*;
use crate::aabb::{AABB, Bounded};
use crate::bvh::{
    bounds_of, hit_indices, join_all, lemma_filter_contains_iff, lemma_filter_no_duplicates,
    lemma_hit_indices_concat, lemma_join_all_concat, lemma_join_all_in_range, lemma_miss_all,
    lemma_order_facts, lemma_subtree_valid_idxs, range_order, subtree, valid_bounds, valid_idxs,
    Node, BVH,
};
use crate::intersect::ray_hits;
use crate::ray::Ray;

verus! {

/// One node of the flattened hierarchy.
#[derive(Clone, Copy, Debug, PartialEq, Eq)]
pub struct FlatNode {
    /// The bound to test the query against: the object's own bound at a
    /// leaf, the subtree's union bound at an internal node.
    pub bound: AABB,
    /// The object index at a leaf; `None` at an internal node.
    pub object_index: Option<usize>,
    /// The array position to jump to when the bound test fails: one past
    /// this node's whole subtree.
    pub exit_offset: usize,
}

/// A flattened hierarchy, with the (ghost) object order of its leaves.
pub struct FlatBVH {
    /// The flat node array, in pre-order.
    pub nodes: Vec<FlatNode>,
    /// The object indices of the leaves in depth-first order.
    pub order: Ghost<Seq<usize>>,
}

/// The flat nodes `[s, e)` are the pre-order layout of a well-formed subtree
/// whose leaves carry exactly the object indices `objs`, in order.
pub open spec fn flat_subtree(
    flat: Seq<FlatNode>,
    bounds: Seq<AABB>,
    s: int,
    e: int,
    objs: Seq<usize>,
) -> bool
    decreases objs.len(),
{
    &&& 0 <= s < e <= flat.len()
    &&& objs.len() >= 1
    &&& match flat[s].object_index {
        Some(o) => {
            &&& e == s + 1
            &&& objs == seq![o]
            &&& (o as int) < bounds.len()
            &&& flat[s].bound == bounds[o as int]
            &&& flat[s].exit_offset as int == e
        },
        None => {
            &&& flat[s].bound == join_all(bounds, objs)
            &&& flat[s].exit_offset as int == e
            &&& exists|lobjs: Seq<usize>, robjs: Seq<usize>|
                {
                    &&& lobjs.len() >= 1
                    &&& robjs.len() >= 1
                    &&& objs == lobjs + robjs
                    &&& flat_subtree(flat, bounds, s + 1, s + 2 * lobjs.len(), lobjs)
                    &&& flat_subtree(flat, bounds, s + 2 * lobjs.len(), e, robjs)
                }
        },
    }
}

/// Every exit offset jumps strictly forward and lands within the array.
pub open spec fn wf_flat(flat: Seq<FlatNode>) -> bool {
    forall|k: int|
        0 <= k < flat.len() ==> k < (#[trigger] flat[k]).exit_offset <= flat.len()
}

/// What the stackless scan starting at position `c` appends: test the bound;
/// on a hit emit the leaf payload, if any, and step forward; on a miss jump
/// to the exit offset.
pub open spec fn flat_scan(flat: Seq<FlatNode>, ray: Ray, c: int) -> Seq<usize>
    decreases flat.len() - c
        when 0 <= c && wf_flat(flat)
{
    if c >= flat.len() {
        Seq::<usize>::empty()
    } else if ray_hits(flat[c].bound, ray) {
        (match flat[c].object_index {
            Some(o) => seq![o],
            None => Seq::<usize>::empty(),
        }) + flat_scan(flat, ray, c + 1)
    } else {
        flat_scan(flat, ray, flat[c].exit_offset as int)
    }
}

impl FlatBVH {
    /// The flat hierarchy is well formed for the given object bounds.
    pub open spec fn wf(self, bounds: Seq<AABB>) -> bool {
        if bounds.len() == 0 {
            self.nodes@.len() == 0
        } else {
            &&& flat_subtree(self.nodes@, bounds, 0, self.nodes@.len() as int, self.order@)
            &&& self.order@.to_multiset() == range_order(bounds.len()).to_multiset()
        }
    }
}

/// Within a flat subtree every exit offset jumps strictly forward and stays
/// inside the subtree, and every stored bound is in range.
pub proof fn lemma_flat_subtree_wf(
    flat: Seq<FlatNode>,
    bounds: Seq<AABB>,
    s: int,
    e: int,
    objs: Seq<usize>,
)
    requires
        flat_subtree(flat, bounds, s, e, objs),
        valid_bounds(bounds),
        valid_idxs(bounds, objs),
    ensures
        forall|k: int|
            s <= k < e ==> k < (#[trigger] flat[k]).exit_offset <= e && flat[k].bound.in_range(),
    decreases objs.len(),
{
    match flat[s].object_index {
        Some(o) => {},
        None => {
            let (lobjs, robjs) = choose|lobjs: Seq<usize>, robjs: Seq<usize>|
                {
                    &&& lobjs.len() >= 1
                    &&& robjs.len() >= 1
                    &&& objs == lobjs + robjs
                    &&& flat_subtree(flat, bounds, s + 1, s + 2 * lobjs.len(), lobjs)
                    &&& flat_subtree(flat, bounds, s + 2 * lobjs.len(), e, robjs)
                };
            let m = s + 2 * lobjs.len();
            assert forall|k: int| 0 <= k < lobjs.len() implies (#[trigger] lobjs[k]) < bounds.len() by {
                assert(lobjs[k] == objs[k]);
            }
            assert forall|k: int| 0 <= k < robjs.len() implies (#[trigger] robjs[k]) < bounds.len() by {
                assert(robjs[k] == objs[k + lobjs.len()]);
            }
            lemma_flat_subtree_wf(flat, bounds, s + 1, m, lobjs);
            lemma_flat_subtree_wf(flat, bounds, m, e, robjs);
            lemma_join_all_in_range(bounds, objs);
        },
    }
}

/// A flat subtree only reads its own segment, so it survives appends and
/// updates outside `[s, e)`.
pub proof fn lemma_flat_subtree_frame(
    flat1: Seq<FlatNode>,
    flat2: Seq<FlatNode>,
    bounds: Seq<AABB>,
    s: int,
    e: int,
    objs: Seq<usize>,
)
    requires
        flat_subtree(flat1, bounds, s, e, objs),
        flat1.len() <= flat2.len(),
        forall|k: int| s <= k < e ==> flat2[k] == flat1[k],
    ensures
        flat_subtree(flat2, bounds, s, e, objs),
    decreases objs.len(),
{
    match flat1[s].object_index {
        Some(o) => {},
        None => {
            let (lobjs, robjs) = choose|lobjs: Seq<usize>, robjs: Seq<usize>|
                {
                    &&& lobjs.len() >= 1
                    &&& robjs.len() >= 1
                    &&& objs == lobjs + robjs
                    &&& flat_subtree(flat1, bounds, s + 1, s + 2 * lobjs.len(), lobjs)
                    &&& flat_subtree(flat1, bounds, s + 2 * lobjs.len(), e, robjs)
                };
            let m = s + 2 * lobjs.len();
            lemma_flat_subtree_frame(flat1, flat2, bounds, s + 1, m, lobjs);
            lemma_flat_subtree_frame(flat1, flat2, bounds, m, e, robjs);
        },
    }
}

/// The scan of a flat subtree's segment emits exactly the subtree's hit
/// candidates, then continues past the segment.
pub proof fn lemma_scan_subtree(
    flat: Seq<FlatNode>,
    bounds: Seq<AABB>,
    ray: Ray,
    s: int,
    e: int,
    objs: Seq<usize>,
)
    requires
        flat_subtree(flat, bounds, s, e, objs),
        wf_flat(flat),
    ensures
        flat_scan(flat, ray, s) == hit_indices(bounds, ray, objs) + flat_scan(flat, ray, e),
    decreases objs.len(),
{
    match flat[s].object_index {
        Some(o) => {
            assert(hit_indices(bounds, ray, seq![o]) == if ray_hits(bounds[o as int], ray) {
                seq![o]
            } else {
                Seq::<usize>::empty()
            }) by {
                reveal_with_fuel(Seq::filter, 2);
                assert(seq![o].drop_last() =~= Seq::<usize>::empty());
            }
            if ray_hits(flat[s].bound, ray) {
                assert(flat_scan(flat, ray, s) =~= seq![o] + flat_scan(flat, ray, e));
            } else {
                assert(flat_scan(flat, ray, s) == flat_scan(flat, ray, e));
                assert(flat_scan(flat, ray, s) =~= hit_indices(bounds, ray, objs) + flat_scan(
                    flat,
                    ray,
                    e,
                ));
            }
        },
        None => {
            let (lobjs, robjs) = choose|lobjs: Seq<usize>, robjs: Seq<usize>|
                {
                    &&& lobjs.len() >= 1
                    &&& robjs.len() >= 1
                    &&& objs == lobjs + robjs
                    &&& flat_subtree(flat, bounds, s + 1, s + 2 * lobjs.len(), lobjs)
                    &&& flat_subtree(flat, bounds, s + 2 * lobjs.len(), e, robjs)
                };
            let m = s + 2 * lobjs.len();
            lemma_hit_indices_concat(bounds, ray, lobjs, robjs);
            if ray_hits(flat[s].bound, ray) {
                lemma_scan_subtree(flat, bounds, ray, s + 1, m, lobjs);
                lemma_scan_subtree(flat, bounds, ray, m, e, robjs);
                assert(flat_scan(flat, ray, s) == Seq::<usize>::empty() + flat_scan(
                    flat,
                    ray,
                    s + 1,
                ));
                assert(flat_scan(flat, ray, s) =~= hit_indices(bounds, ray, objs) + flat_scan(
                    flat,
                    ray,
                    e,
                ));
            } else {
                lemma_miss_all(bounds, objs, ray);
                assert(flat_scan(flat, ray, s) == flat_scan(flat, ray, e));
                assert(flat_scan(flat, ray, s) =~= hit_indices(bounds, ray, objs) + flat_scan(
                    flat,
                    ray,
                    e,
                ));
            }
        },
    }
}

/// Flattens the subtree rooted at `i` onto the end of `out`, in pre-order.
fn flatten_rec<T: Bounded>(
    nodes: &Vec<Node>,
    i: usize,
    objects: &Vec<T>,
    par: Ghost<int>,
    dep: Ghost<int>,
    objs: Ghost<Seq<usize>>,
    out: &mut Vec<FlatNode>,
)
    requires
        subtree(nodes@, bounds_of(objects@), i as int, par@, dep@, objs@),
        forall|k: int| 0 <= k < objects@.len() ==> (#[trigger] objects@[k].bound()).in_range(),
        old(out)@.len() + 2 * objs@.len() <= usize::MAX,
    ensures
        final(out)@.len() == old(out)@.len() + 2 * objs@.len() - 1,
        forall|k: int| 0 <= k < old(out)@.len() ==> final(out)@[k] == old(out)@[k],
        flat_subtree(
            final(out)@,
            bounds_of(objects@),
            old(out)@.len() as int,
            final(out)@.len() as int,
            objs@,
        ),
    decreases nodes@.len() - i,
{
    let ghost bounds = bounds_of(objects@);
    let my = out.len();
    let node = nodes[i];
    match node {
        Node::Leaf { object_index, .. } => {
            let o = object_index;
            proof {
                assert(objs@ == seq![o]);
                assert(bounds[o as int] == objects@[o as int].bound());
            }
            out.push(FlatNode { bound: objects[o].aabb(), object_index: Some(o), exit_offset: my + 1 });
        },
        Node::Internal { left_index, left_bound, right_index, right_bound, .. } => {
            let ghost (lobjs, robjs) = choose|lobjs: Seq<usize>, robjs: Seq<usize>|
                {
                    &&& lobjs.len() >= 1
                    &&& robjs.len() >= 1
                    &&& objs@ == lobjs + robjs
                    &&& left_bound == join_all(bounds, lobjs)
                    &&& right_bound == join_all(bounds, robjs)
                    &&& subtree(nodes@, bounds, left_index as int, i as int, dep@ + 1, lobjs)
                    &&& subtree(nodes@, bounds, right_index as int, i as int, dep@ + 1, robjs)
                };
            proof {
                assert(valid_bounds(bounds));
                lemma_subtree_valid_idxs(nodes@, bounds, left_index as int, i as int, dep@ + 1, lobjs);
                lemma_subtree_valid_idxs(
                    nodes@,
                    bounds,
                    right_index as int,
                    i as int,
                    dep@ + 1,
                    robjs,
                );
                lemma_join_all_concat(bounds, lobjs, robjs);
            }
            let b = left_bound.join(&right_bound);
            out.push(FlatNode { bound: b, object_index: None, exit_offset: 0 });
            flatten_rec(nodes, left_index, objects, Ghost(i as int), Ghost(dep@ + 1), Ghost(lobjs), out);
            let ghost f2 = out@;
            let ghost m = out@.len() as int;
            flatten_rec(nodes, right_index, objects, Ghost(i as int), Ghost(dep@ + 1), Ghost(robjs), out);
            let ghost f3 = out@;
            let e = out.len();
            out[my] = FlatNode { bound: b, object_index: None, exit_offset: e };
            proof {
                let f4 = out@;
                lemma_flat_subtree_frame(f2, f3, bounds, my + 1, m, lobjs);
                lemma_flat_subtree_frame(f3, f4, bounds, my + 1, m, lobjs);
                lemma_flat_subtree_frame(f3, f4, bounds, m, e as int, robjs);
                assert(f4[my as int].object_index is None);
                assert(flat_subtree(f4, bounds, my as int, e as int, objs@));
            }
        },
    }
}

impl BVH {
    /// Produces the flattened form of this hierarchy: the same tree, laid
    /// out in pre-order with exit offsets, traversed by
    /// [`FlatBVH::traverse`] with the same result as [`BVH::traverse`].
    ///
    /// As with every query, the objects' bounds must be what they were when
    /// the tree was built.
    pub fn flatten<T: Bounded>(&self, objects: &Vec<T>) -> (r: FlatBVH)
        requires
            self.wf(bounds_of(objects@)),
            forall|k: int| 0 <= k < objects@.len() ==> (#[trigger] objects@[k].bound()).in_range(),
            2 * objects@.len() <= usize::MAX,
        ensures
            r.wf(bounds_of(objects@)),
            r.order == self.order,
    {
        let ghost bounds = bounds_of(objects@);
        let mut out: Vec<FlatNode> = Vec::new();
        if self.nodes.len() == 0 {
            proof {
                assert(bounds.len() == 0);
            }
            return FlatBVH { nodes: out, order: self.order };
        }
        proof {
            assert(bounds.len() > 0);
            lemma_order_facts(self.order@, bounds.len());
        }
        flatten_rec(&self.nodes, 0, objects, Ghost(0), Ghost(0), Ghost(self.order@), &mut out);
        FlatBVH { nodes: out, order: self.order }
    }
}

impl FlatBVH {
    /// Returns the indices of the objects whose bound the ray hits — every
    /// such index exactly once, in some order, and no other index — by a
    /// single forward scan with conditional jumps: no recursion, no stack.
    ///
    /// The result is exactly that of [`BVH::traverse`] on the tree this flat
    /// form was produced from.
    pub fn traverse<T: Bounded>(&self, ray: &Ray, objects: &Vec<T>) -> (r: Vec<usize>)
        requires
            self.wf(bounds_of(objects@)),
            ray.in_range(),
            forall|k: int| 0 <= k < objects@.len() ==> (#[trigger] objects@[k].bound()).in_range(),
        ensures
            forall|oi: usize|
                #[trigger] r@.contains(oi) <==> (oi as int) < objects@.len() && ray_hits(
                    objects@[oi as int].bound(),
                    *ray,
                ),
            r@.no_duplicates(),
    {
        let ghost bounds = bounds_of(objects@);
        let ghost p = |o: usize| ray_hits(bounds[o as int], *ray);
        let ghost flat = self.nodes@;
        let mut out: Vec<usize> = Vec::new();
        let n = objects.len();
        proof {
            assert(n == objects@.len());
        }
        if self.nodes.len() == 0 {
            proof {
                assert(bounds.len() == 0);
            }
            return out;
        }
        proof {
            assert(bounds.len() > 0);
            lemma_order_facts(self.order@, bounds.len());
            assert(valid_bounds(bounds));
            lemma_flat_subtree_wf(flat, bounds, 0, flat.len() as int, self.order@);
            assert(wf_flat(flat));
            lemma_scan_subtree(flat, bounds, *ray, 0, flat.len() as int, self.order@);
            assert(flat_scan(flat, *ray, flat.len() as int) =~= Seq::<usize>::empty());
            assert(flat_scan(flat, *ray, 0) =~= hit_indices(bounds, *ray, self.order@));
        }
        let mut c: usize = 0;
        while c < self.nodes.len()
            invariant
                0 <= c <= flat.len(),
                flat == self.nodes@,
                wf_flat(flat),
                ray.in_range(),
                forall|k: int|
                    0 <= k < flat.len() ==> (#[trigger] flat[k]).bound.in_range(),
                out@ + flat_scan(flat, *ray, c as int) == flat_scan(flat, *ray, 0),
            decreases flat.len() - c,
        {
            let node = self.nodes[c];
            if node.bound.does_intersect(ray) {
                if let Some(o) = node.object_index {
                    out.push(o);
                    proof {
                        assert(out@ + flat_scan(flat, *ray, c + 1) =~= flat_scan(flat, *ray, 0));
                    }
                } else {
                    proof {
                        assert(out@ + (Seq::<usize>::empty() + flat_scan(flat, *ray, c + 1))
                            =~= out@ + flat_scan(flat, *ray, c + 1));
                    }
                }
                c = c + 1;
            } else {
                c = node.exit_offset;
            }
        }
        proof {
            assert(c == flat.len());
            assert(flat_scan(flat, *ray, c as int) =~= Seq::<usize>::empty());
            assert(out@ =~= flat_scan(flat, *ray, 0));
            assert(out@ == hit_indices(bounds, *ray, self.order@));
            lemma_filter_no_duplicates(self.order@, p);
            assert forall|oi: usize|
                #[trigger] out@.contains(oi) <==> (oi as int) < objects@.len() && ray_hits(
                    objects@[oi as int].bound(),
                    *ray,
                ) by {
                lemma_filter_contains_iff(self.order@, p, oi);
                if (oi as int) < objects@.len() {
                    assert(bounds[oi as int] == objects@[oi as int].bound());
                    assert(self.order@.contains(oi));
                }
            }
        }
        out
    }
}

} // verus!
