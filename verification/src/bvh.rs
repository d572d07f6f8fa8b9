//! The node data model of the hierarchy and its well-formedness.
//!
//! Nodes live in a single growable array (the arena) and refer to one
//! another by index, so the tree has no pointer structure.  The predicate
//! [`subtree`] captures everything the queries rely on: each internal node
//! caches the tight union bound of each child's objects, every internal node
//! has exactly two children, depths and parent links are consistent, and the
//! object indices of the leaves, read off in depth-first order, form the
//! sequence the predicate is stated over.

use vstd::prelude::*;
use crate::aabb::{empty_box, AABB, Bounded};
use crate::intersect::{lemma_hits_monotone, ray_hits};
use crate::ray::Ray;

verus! {

/// One node of the hierarchy.
///
/// A `Leaf` represents exactly one object, stored by its index into the
/// caller's object slice.  An `Internal` node represents the union of its
/// two children and caches each child's bound, so a traversal can prune a
/// whole subtree without reading the child node.
#[derive(Clone, Copy, Debug, PartialEq, Eq, Structural)]
pub enum Node {
    Leaf { parent_index: usize, depth: usize, object_index: usize },
    Internal {
        parent_index: usize,
        depth: usize,
        left_index: usize,
        left_bound: AABB,
        right_index: usize,
        right_bound: AABB,
    },
}

/// A bounding volume hierarchy: an arena of [`Node`]s, with node 0 the root,
/// plus the (ghost) sequence of object indices at its leaves in depth-first
/// order.
///
/// The arena is produced by one build call and read-only thereafter; to
/// reflect a changed object set, rebuild.  The cached bounds describe the
/// objects as they were when the tree was built: mutating an object's
/// geometry afterwards silently desynchronises them, which is why every
/// query requires [`BVH::wf`] against the current object bounds.
pub struct BVH {
    /// The node arena.  Node 0 is the root of a non-empty tree.
    pub nodes: Vec<Node>,
    /// The object indices of the leaves in depth-first order.
    pub order: Ghost<Seq<usize>>,
}

/// Every box in `bounds` lies within the coordinate range the crate works
/// with.
pub open spec fn valid_bounds(bounds: Seq<AABB>) -> bool {
    forall|j: int| 0 <= j < bounds.len() ==> (#[trigger] bounds[j]).in_range()
}

/// Every element of `idxs` indexes into `bounds`.
pub open spec fn valid_idxs(bounds: Seq<AABB>, idxs: Seq<usize>) -> bool {
    forall|k: int| 0 <= k < idxs.len() ==> (#[trigger] idxs[k]) < bounds.len()
}

/// The bounds reported by a sequence of bounded objects.
pub open spec fn bounds_of<T: Bounded>(objects: Seq<T>) -> Seq<AABB> {
    objects.map_values(|t: T| t.bound())
}

/// The sequence `0, 1, ..., n - 1`.
pub open spec fn range_order(n: nat) -> Seq<usize> {
    Seq::new(n, |i: int| i as usize)
}

/// The union bound of the objects listed in `idxs`.
pub open spec fn join_all(bounds: Seq<AABB>, idxs: Seq<usize>) -> AABB
    decreases idxs.len(),
{
    if idxs.len() == 0 {
        empty_box()
    } else {
        join_all(bounds, idxs.drop_last()).join_spec(bounds[idxs.last() as int])
    }
}

/// The elements of `idxs` whose bound the ray hits, in order.
pub open spec fn hit_indices(bounds: Seq<AABB>, ray: Ray, idxs: Seq<usize>) -> Seq<usize> {
    idxs.filter(|o: usize| ray_hits(bounds[o as int], ray))
}

/// The node at `i` roots a well-formed subtree whose leaves carry exactly
/// the object indices `objs`, in depth-first order.
///
/// The predicate demands the full shape of the data model: one object per
/// leaf, two children per internal node, cached child bounds equal to the
/// recomputed tight union of the child's objects, correct depth and parent
/// links, and child indices strictly greater than the node's own index.
pub open spec fn subtree(
    arena: Seq<Node>,
    bounds: Seq<AABB>,
    i: int,
    parent: int,
    depth: int,
    objs: Seq<usize>,
) -> bool
    decreases objs.len(),
{
    &&& 0 <= i < arena.len()
    &&& objs.len() >= 1
    &&& match arena[i] {
        Node::Leaf { parent_index, depth: d, object_index } => {
            &&& parent_index as int == parent
            &&& d as int == depth
            &&& objs == seq![object_index]
            &&& (object_index as int) < bounds.len()
        },
        Node::Internal { parent_index, depth: d, left_index, left_bound, right_index, right_bound } => {
            &&& parent_index as int == parent
            &&& d as int == depth
            &&& i < left_index as int
            &&& i < right_index as int
            &&& exists|lobjs: Seq<usize>, robjs: Seq<usize>|
                {
                    &&& lobjs.len() >= 1
                    &&& robjs.len() >= 1
                    &&& objs == lobjs + robjs
                    &&& left_bound == join_all(bounds, lobjs)
                    &&& right_bound == join_all(bounds, robjs)
                    &&& subtree(arena, bounds, left_index as int, i, depth + 1, lobjs)
                    &&& subtree(arena, bounds, right_index as int, i, depth + 1, robjs)
                }
        },
    }
}

impl BVH {
    /// The hierarchy is well formed for the given object bounds.
    ///
    /// This is the contract between building and querying: it holds of a
    /// freshly built tree and keeps holding exactly as long as the objects'
    /// bounds stay what they were at build time.
    pub open spec fn wf(self, bounds: Seq<AABB>) -> bool {
        if bounds.len() == 0 {
            self.nodes@.len() == 0
        } else {
            &&& subtree(self.nodes@, bounds, 0, 0, 0, self.order@)
            &&& self.order@.to_multiset() == range_order(bounds.len()).to_multiset()
        }
    }
}

/// The union bound stays within the coordinate range.
pub proof fn lemma_join_all_in_range(bounds: Seq<AABB>, idxs: Seq<usize>)
    requires
        valid_bounds(bounds),
        valid_idxs(bounds, idxs),
    ensures
        join_all(bounds, idxs).in_range(),
    decreases idxs.len(),
{
    if idxs.len() > 0 {
        lemma_join_all_in_range(bounds, idxs.drop_last());
    }
}

/// Each listed object's bound lies inside the union bound.
pub proof fn lemma_join_all_member_inside(bounds: Seq<AABB>, idxs: Seq<usize>, k: int)
    requires
        0 <= k < idxs.len(),
    ensures
        bounds[idxs[k] as int].inside(join_all(bounds, idxs)),
    decreases idxs.len(),
{
    if k == idxs.len() - 1 {
    } else {
        lemma_join_all_member_inside(bounds, idxs.drop_last(), k);
    }
}

/// The union bound of a concatenation is the join of the union bounds.
pub proof fn lemma_join_all_concat(bounds: Seq<AABB>, a: Seq<usize>, b: Seq<usize>)
    requires
        valid_bounds(bounds),
        valid_idxs(bounds, a),
        valid_idxs(bounds, b),
    ensures
        join_all(bounds, a + b) == join_all(bounds, a).join_spec(join_all(bounds, b)),
    decreases b.len(),
{
    if b.len() == 0 {
        assert(a + b =~= a);
        lemma_join_all_in_range(bounds, a);
        assert(join_all(bounds, a).join_spec(empty_box()) =~= join_all(bounds, a));
    } else {
        assert(valid_idxs(bounds, b.drop_last()));
        assert((a + b).drop_last() =~= a + b.drop_last());
        assert((a + b).last() == b.last());
        lemma_join_all_concat(bounds, a, b.drop_last());
    }
}

/// Filtering a sequence by a predicate and by its complement splits the
/// union bound into a join of the two sides' union bounds.
pub proof fn lemma_join_all_filter_split(
    bounds: Seq<AABB>,
    s: Seq<usize>,
    p: spec_fn(usize) -> bool,
    q: spec_fn(usize) -> bool,
)
    requires
        valid_bounds(bounds),
        valid_idxs(bounds, s),
        forall|x: usize| #[trigger] q(x) == !p(x),
    ensures
        join_all(bounds, s) == join_all(bounds, s.filter(p)).join_spec(
            join_all(bounds, s.filter(q)),
        ),
    decreases s.len(),
{
    reveal(Seq::filter);
    let jp = join_all(bounds, s.filter(p));
    let jq = join_all(bounds, s.filter(q));
    if s.len() == 0 {
        assert(s.filter(p) =~= Seq::<usize>::empty());
        assert(s.filter(q) =~= Seq::<usize>::empty());
        assert(empty_box().join_spec(empty_box()) =~= empty_box());
    } else {
        let t = s.drop_last();
        let x = s.last();
        assert(valid_idxs(bounds, t));
        lemma_join_all_filter_split(bounds, t, p, q);
        lemma_filter_valid_idxs(bounds, t, p);
        lemma_filter_valid_idxs(bounds, t, q);
        lemma_join_all_in_range(bounds, t.filter(p));
        lemma_join_all_in_range(bounds, t.filter(q));
        assert(bounds[x as int].in_range());
        if p(x) {
            assert(s.filter(p) == t.filter(p).push(x));
            assert(s.filter(q) == t.filter(q));
            assert(s.filter(p).drop_last() =~= t.filter(p));
            assert(jp == join_all(bounds, t.filter(p)).join_spec(bounds[x as int]));
            // joining x onto the left side commutes with the outer join
            assert(jp.join_spec(jq) =~= (join_all(bounds, t.filter(p)).join_spec(
                join_all(bounds, t.filter(q)),
            )).join_spec(bounds[x as int]));
        } else {
            assert(q(x));
            assert(s.filter(q) == t.filter(q).push(x));
            assert(s.filter(p) == t.filter(p));
            assert(s.filter(q).drop_last() =~= t.filter(q));
            assert(jq == join_all(bounds, t.filter(q)).join_spec(bounds[x as int]));
            assert(jp.join_spec(jq) =~= (join_all(bounds, t.filter(p)).join_spec(
                join_all(bounds, t.filter(q)),
            )).join_spec(bounds[x as int]));
        }
    }
}

/// Every object index a subtree's leaves carry indexes into the bounds.
pub proof fn lemma_subtree_valid_idxs(
    arena: Seq<Node>,
    bounds: Seq<AABB>,
    i: int,
    parent: int,
    depth: int,
    objs: Seq<usize>,
)
    requires
        subtree(arena, bounds, i, parent, depth, objs),
    ensures
        valid_idxs(bounds, objs),
    decreases objs.len(),
{
    match arena[i] {
        Node::Leaf { .. } => {},
        Node::Internal { left_index, right_index, .. } => {
            let (lobjs, robjs) = choose|lobjs: Seq<usize>, robjs: Seq<usize>|
                {
                    &&& lobjs.len() >= 1
                    &&& robjs.len() >= 1
                    &&& objs == lobjs + robjs
                    &&& arena[i]->Internal_left_bound == join_all(bounds, lobjs)
                    &&& arena[i]->Internal_right_bound == join_all(bounds, robjs)
                    &&& subtree(arena, bounds, left_index as int, i, depth + 1, lobjs)
                    &&& subtree(arena, bounds, right_index as int, i, depth + 1, robjs)
                };
            lemma_subtree_valid_idxs(arena, bounds, left_index as int, i, depth + 1, lobjs);
            lemma_subtree_valid_idxs(arena, bounds, right_index as int, i, depth + 1, robjs);
            assert forall|k: int| 0 <= k < objs.len() implies (#[trigger] objs[k]) < bounds.len() by {
                if k < lobjs.len() {
                    assert(objs[k] == lobjs[k]);
                } else {
                    assert(objs[k] == robjs[k - lobjs.len()]);
                }
            }
        },
    }
}

/// A filtered index sequence still indexes into the same bounds.
pub proof fn lemma_filter_valid_idxs(bounds: Seq<AABB>, s: Seq<usize>, p: spec_fn(usize) -> bool)
    requires
        valid_idxs(bounds, s),
    ensures
        valid_idxs(bounds, s.filter(p)),
{
    lemma_filter_subset(s, p);
    let f = s.filter(p);
    assert forall|k: int| 0 <= k < f.len() implies (#[trigger] f[k]) < bounds.len() by {
        assert(f.contains(f[k]));
        assert(s.contains(f[k]));
        let j = choose|j: int| 0 <= j < s.len() && s[j] == f[k];
        assert(s[j] < bounds.len());
    }
}

/// A subtree predicate only reads arena entries at and after its root, so it
/// survives appends and updates before the root.
pub proof fn lemma_subtree_frame(
    arena1: Seq<Node>,
    arena2: Seq<Node>,
    bounds: Seq<AABB>,
    i: int,
    parent: int,
    depth: int,
    objs: Seq<usize>,
)
    requires
        subtree(arena1, bounds, i, parent, depth, objs),
        arena1.len() <= arena2.len(),
        forall|k: int| i <= k < arena1.len() ==> arena2[k] == arena1[k],
    ensures
        subtree(arena2, bounds, i, parent, depth, objs),
    decreases objs.len(),
{
    match arena1[i] {
        Node::Leaf { .. } => {},
        Node::Internal { left_index, right_index, .. } => {
            let (lobjs, robjs) = choose|lobjs: Seq<usize>, robjs: Seq<usize>|
                {
                    &&& lobjs.len() >= 1
                    &&& robjs.len() >= 1
                    &&& objs == lobjs + robjs
                    &&& arena1[i]->Internal_left_bound == join_all(bounds, lobjs)
                    &&& arena1[i]->Internal_right_bound == join_all(bounds, robjs)
                    &&& subtree(arena1, bounds, left_index as int, i, depth + 1, lobjs)
                    &&& subtree(arena1, bounds, right_index as int, i, depth + 1, robjs)
                };
            lemma_subtree_frame(arena1, arena2, bounds, left_index as int, i, depth + 1, lobjs);
            lemma_subtree_frame(arena1, arena2, bounds, right_index as int, i, depth + 1, robjs);
        },
    }
}

/// Everything a filtered sequence holds came from the original sequence.
pub proof fn lemma_filter_subset<A>(s: Seq<A>, p: spec_fn(A) -> bool)
    ensures
        forall|x: A| #[trigger] s.filter(p).contains(x) ==> s.contains(x),
    decreases s.len(),
{
    reveal(Seq::filter);
    if s.len() > 0 {
        let t = s.drop_last();
        lemma_filter_subset(t, p);
        assert forall|x: A| #[trigger] s.filter(p).contains(x) implies s.contains(x) by {
            if t.filter(p).contains(x) {
                assert(s.contains(x)) by {
                    let k = choose|k: int| 0 <= k < t.len() && t[k] == x;
                    assert(s[k] == x);
                }
            } else {
                assert(x == s.last());
            }
        }
    }
}

/// Filtering a sequence without duplicates gives a sequence without
/// duplicates.
pub proof fn lemma_filter_no_duplicates<A>(s: Seq<A>, p: spec_fn(A) -> bool)
    requires
        s.no_duplicates(),
    ensures
        s.filter(p).no_duplicates(),
    decreases s.len(),
{
    reveal(Seq::filter);
    if s.len() > 0 {
        let t = s.drop_last();
        assert(t.no_duplicates());
        lemma_filter_no_duplicates(t, p);
        if p(s.last()) {
            assert(s.filter(p) == t.filter(p).push(s.last()));
            lemma_filter_subset(t, p);
            assert(!t.contains(s.last()));
            assert(!t.filter(p).contains(s.last()));
            assert(s.filter(p).no_duplicates()) by {
                let f = t.filter(p).push(s.last());
                assert forall|a: int, b: int|
                    0 <= a < f.len() && 0 <= b < f.len() && a != b implies f[a] != f[b] by {
                    if a < f.len() - 1 && b < f.len() - 1 {
                    } else {
                        let c = if a < b { a } else { b };
                        assert(t.filter(p).contains(f[c])) by {
                            assert(t.filter(p)[c] == f[c]);
                        }
                    }
                }
            }
        } else {
            assert(s.filter(p) == t.filter(p));
        }
    }
}

/// A sequence none of whose elements satisfies the predicate filters to the
/// empty sequence.
pub proof fn lemma_filter_empty<A>(s: Seq<A>, p: spec_fn(A) -> bool)
    requires
        forall|k: int| 0 <= k < s.len() ==> !p(#[trigger] s[k]),
    ensures
        s.filter(p) == Seq::<A>::empty(),
    decreases s.len(),
{
    reveal(Seq::filter);
    if s.len() == 0 {
        assert(s.filter(p) =~= Seq::<A>::empty());
    } else {
        let t = s.drop_last();
        assert(forall|k: int| 0 <= k < t.len() ==> !p(#[trigger] t[k]));
        lemma_filter_empty(t, p);
        assert(!p(s.last()));
        assert(s.filter(p) == t.filter(p));
    }
}

/// An element is in the filtered sequence exactly when it is in the
/// original sequence and satisfies the predicate.
pub proof fn lemma_filter_contains_iff<A>(s: Seq<A>, p: spec_fn(A) -> bool, x: A)
    ensures
        s.filter(p).contains(x) <==> s.contains(x) && p(x),
{
    lemma_filter_subset(s, p);
    if s.filter(p).contains(x) {
        let k = choose|k: int| 0 <= k < s.filter(p).len() && s.filter(p)[k] == x;
        s.lemma_filter_pred(p, k);
    }
    if s.contains(x) && p(x) {
        let k = choose|k: int| 0 <= k < s.len() && s[k] == x;
        s.lemma_filter_contains(p, k);
    }
}

/// Splitting a sequence into a filter and its complement preserves the
/// multiset of elements.
pub proof fn lemma_filter_complement_multiset<A>(
    s: Seq<A>,
    p: spec_fn(A) -> bool,
    q: spec_fn(A) -> bool,
)
    requires
        forall|x: A| #[trigger] q(x) == !p(x),
    ensures
        s.filter(p).to_multiset().add(s.filter(q).to_multiset()) == s.to_multiset(),
        s.filter(p).len() + s.filter(q).len() == s.len(),
    decreases s.len(),
{
    reveal(Seq::filter);
    broadcast use vstd::seq_lib::group_to_multiset_ensures;

    if s.len() == 0 {
        assert(s.filter(p) =~= Seq::<A>::empty());
        assert(s.filter(q) =~= Seq::<A>::empty());
        assert(s.filter(p).to_multiset().add(s.filter(q).to_multiset()) =~= s.to_multiset());
    } else {
        let t = s.drop_last();
        let x = s.last();
        lemma_filter_complement_multiset(t, p, q);
        assert(t.push(x) =~= s);
        if p(x) {
            assert(s.filter(p) == t.filter(p).push(x));
            assert(s.filter(q) == t.filter(q));
            assert(s.filter(p).to_multiset() =~= t.filter(p).to_multiset().insert(x));
            assert(s.to_multiset() =~= t.to_multiset().insert(x));
            assert(s.filter(p).to_multiset().add(s.filter(q).to_multiset()) =~= s.to_multiset());
        } else {
            assert(q(x));
            assert(s.filter(q) == t.filter(q).push(x));
            assert(s.filter(p) == t.filter(p));
            assert(s.filter(q).to_multiset() =~= t.filter(q).to_multiset().insert(x));
            assert(s.to_multiset() =~= t.to_multiset().insert(x));
            assert(s.filter(p).to_multiset().add(s.filter(q).to_multiset()) =~= s.to_multiset());
        }
    }
}

/// The facts queries need about a well-formed tree's leaf order: it lists
/// every object index below `n` exactly once.
pub proof fn lemma_order_facts(order: Seq<usize>, n: nat)
    requires
        n <= usize::MAX,
        order.to_multiset() == range_order(n).to_multiset(),
    ensures
        order.len() == n,
        order.no_duplicates(),
        forall|oi: usize| oi < n ==> order.contains(oi),
        forall|k: int| 0 <= k < order.len() ==> (#[trigger] order[k]) < n,
{
    broadcast use vstd::seq_lib::group_to_multiset_ensures;

    let r = range_order(n);
    assert(r.len() == n);
    assert(order.len() == order.to_multiset().len());
    assert(r.len() == r.to_multiset().len());
    assert(order.len() == n);
    assert(r.no_duplicates()) by {
        assert forall|i: int, j: int|
            0 <= i < r.len() && 0 <= j < r.len() && i != j implies r[i] != r[j] by {
            assert(r[i] == i as usize);
            assert(r[j] == j as usize);
        }
    }
    r.lemma_multiset_has_no_duplicates();
    order.lemma_multiset_has_no_duplicates_conv();
    assert forall|oi: usize| oi < n implies order.contains(oi) by {
        assert(r[oi as int] == oi);
        assert(r.contains(oi));
        assert(order.to_multiset().count(oi) > 0);
    }
    assert forall|k: int| 0 <= k < order.len() implies (#[trigger] order[k]) < n by {
        assert(order.contains(order[k]));
        assert(r.to_multiset().count(order[k]) > 0);
        assert(r.contains(order[k]));
        let j = choose|j: int| 0 <= j < r.len() && r[j] == order[k];
    }
}

/// If the ray misses the union bound of a set of objects, it misses every
/// one of their bounds: pruning a subtree loses no candidate.
pub proof fn lemma_miss_all(bounds: Seq<AABB>, idxs: Seq<usize>, ray: Ray)
    requires
        !ray_hits(join_all(bounds, idxs), ray),
    ensures
        hit_indices(bounds, ray, idxs) == Seq::<usize>::empty(),
{
    let p = |o: usize| ray_hits(bounds[o as int], ray);
    assert forall|k: int| 0 <= k < idxs.len() implies !p(#[trigger] idxs[k]) by {
        lemma_join_all_member_inside(bounds, idxs, k);
        if ray_hits(bounds[idxs[k] as int], ray) {
            lemma_hits_monotone(bounds[idxs[k] as int], join_all(bounds, idxs), ray);
        }
    }
    lemma_filter_empty(idxs, p);
}

/// The candidates of a concatenation are the candidates of the parts, in
/// order.
pub proof fn lemma_hit_indices_concat(bounds: Seq<AABB>, ray: Ray, a: Seq<usize>, b: Seq<usize>)
    ensures
        hit_indices(bounds, ray, a + b) == hit_indices(bounds, ray, a) + hit_indices(
            bounds,
            ray,
            b,
        ),
{
    let p = |o: usize| ray_hits(bounds[o as int], ray);
    Seq::filter_distributes_over_add(a, b, p);
}

} // verus!
