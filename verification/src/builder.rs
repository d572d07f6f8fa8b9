//! Construction of the hierarchy.
//!
//! The builder recursively partitions the object index set.  At each step it
//! takes the axis along which the union bound extends the most (ties prefer
//! `X`, then `Y`, then `Z`), sorts the objects into equal-width buckets by
//! centroid along that axis, and evaluates every bucket boundary as a split
//! by the surface-area heuristic `left_count * left_area + right_count *
//! right_area`, breaking cost ties towards the most balanced split and
//! remaining ties towards the lowest boundary.  When every centroid
//! coincides, it falls back to splitting the index set in half by count, so
//! both sides are always non-empty and construction always makes progress.
//!
//! Because every quantity involved is an exact integer, the whole choice is
//! mirrored by spec functions, and [`BVH::build_with_buckets`] promises to
//! return exactly [`build_spec`]: construction is deterministic and
//! reproducible.

use vstd::prelude::*;
use vstd::arithmetic::div_mod::{lemma_div_multiples_vanish, lemma_div_pos_is_pos};
use vstd::seq_lib::lemma_multiset_commutative;
use crate::aabb::{lemma_extent_product_bounded, AABB, Bounded};
use crate::axis::Axis;
use crate::bvh::{
    bounds_of, join_all, lemma_filter_complement_multiset, lemma_filter_contains_iff,
    lemma_filter_valid_idxs, lemma_join_all_concat, lemma_join_all_filter_split,
    lemma_join_all_in_range, lemma_subtree_frame, range_order, subtree, valid_bounds, valid_idxs,
    Node, BVH,
};
use crate::MAX_COORD;

verus! {

/// Twice the centroid of object `o` along `axis`: the binning key.
pub open spec fn ckey(bounds: Seq<AABB>, o: usize, axis: Axis) -> int {
    bounds[o as int].centroid2_spec(axis)
}

/// The least binning key among the listed objects.
pub open spec fn cmin(bounds: Seq<AABB>, idxs: Seq<usize>, axis: Axis) -> int
    decreases idxs.len(),
{
    if idxs.len() == 0 {
        3 * MAX_COORD
    } else {
        let m = cmin(bounds, idxs.drop_last(), axis);
        let c = ckey(bounds, idxs.last(), axis);
        if c <= m {
            c
        } else {
            m
        }
    }
}

/// The greatest binning key among the listed objects.
pub open spec fn cmax(bounds: Seq<AABB>, idxs: Seq<usize>, axis: Axis) -> int
    decreases idxs.len(),
{
    if idxs.len() == 0 {
        -3 * MAX_COORD
    } else {
        let m = cmax(bounds, idxs.drop_last(), axis);
        let c = ckey(bounds, idxs.last(), axis);
        if c >= m {
            c
        } else {
            m
        }
    }
}

/// The bucket, out of `nb` equal-width buckets spanning `[lo, hi]`, that the
/// key `c` falls in; the closing key `hi` goes to the last bucket.
pub open spec fn bucket_of(c: int, lo: int, hi: int, nb: int) -> int {
    let raw = ((c - lo) * nb) / (hi - lo);
    if raw >= nb {
        nb - 1
    } else {
        raw
    }
}

/// The objects a split at bucket boundary `s` sends to the left child.
pub open spec fn in_left(
    bounds: Seq<AABB>,
    axis: Axis,
    lo: int,
    hi: int,
    nb: int,
    s: int,
) -> spec_fn(usize) -> bool {
    |o: usize| bucket_of(ckey(bounds, o, axis), lo, hi, nb) < s
}

/// The objects a split at bucket boundary `s` sends to the right child.
pub open spec fn in_right(
    bounds: Seq<AABB>,
    axis: Axis,
    lo: int,
    hi: int,
    nb: int,
    s: int,
) -> spec_fn(usize) -> bool {
    |o: usize| !(bucket_of(ckey(bounds, o, axis), lo, hi, nb) < s)
}

/// The left part of the candidate split at boundary `s`, in input order.
pub open spec fn left_part(
    bounds: Seq<AABB>,
    idxs: Seq<usize>,
    axis: Axis,
    lo: int,
    hi: int,
    nb: int,
    s: int,
) -> Seq<usize> {
    idxs.filter(in_left(bounds, axis, lo, hi, nb, s))
}

/// The right part of the candidate split at boundary `s`, in input order.
pub open spec fn right_part(
    bounds: Seq<AABB>,
    idxs: Seq<usize>,
    axis: Axis,
    lo: int,
    hi: int,
    nb: int,
    s: int,
) -> Seq<usize> {
    idxs.filter(in_right(bounds, axis, lo, hi, nb, s))
}

/// The surface-area-heuristic cost of the candidate split at boundary `s`:
/// objects on each side times that side's union surface area.
pub open spec fn split_cost(
    bounds: Seq<AABB>,
    idxs: Seq<usize>,
    axis: Axis,
    lo: int,
    hi: int,
    nb: int,
    s: int,
) -> int {
    let l = left_part(bounds, idxs, axis, lo, hi, nb, s);
    let r = right_part(bounds, idxs, axis, lo, hi, nb, s);
    l.len() * join_all(bounds, l).surface_area_spec() + r.len() * join_all(
        bounds,
        r,
    ).surface_area_spec()
}

/// How unbalanced the candidate split at boundary `s` is: the absolute
/// difference between twice the left count and the total count.
pub open spec fn split_balance(
    bounds: Seq<AABB>,
    idxs: Seq<usize>,
    axis: Axis,
    lo: int,
    hi: int,
    nb: int,
    s: int,
) -> int {
    let l = left_part(bounds, idxs, axis, lo, hi, nb, s);
    let d = 2 * l.len() - idxs.len();
    if d < 0 {
        -d
    } else {
        d
    }
}

/// Candidate `a` beats candidate `b`: strictly cheaper, or equally cheap and
/// strictly more balanced.
pub open spec fn better_split(
    bounds: Seq<AABB>,
    idxs: Seq<usize>,
    axis: Axis,
    lo: int,
    hi: int,
    nb: int,
    a: int,
    b: int,
) -> bool {
    ||| split_cost(bounds, idxs, axis, lo, hi, nb, a) < split_cost(bounds, idxs, axis, lo, hi, nb, b)
    ||| (split_cost(bounds, idxs, axis, lo, hi, nb, a) == split_cost(bounds, idxs, axis, lo, hi, nb, b)
        && split_balance(bounds, idxs, axis, lo, hi, nb, a) < split_balance(
        bounds,
        idxs,
        axis,
        lo,
        hi,
        nb,
        b,
    ))
}

/// The best boundary among `1 .. s`: lowest cost, ties to the most balanced,
/// remaining ties to the lowest boundary.
pub open spec fn best_split_upto(
    bounds: Seq<AABB>,
    idxs: Seq<usize>,
    axis: Axis,
    lo: int,
    hi: int,
    nb: int,
    s: int,
) -> int
    decreases s,
{
    if s <= 2 {
        1
    } else {
        let prev = best_split_upto(bounds, idxs, axis, lo, hi, nb, s - 1);
        if better_split(bounds, idxs, axis, lo, hi, nb, s - 1, prev) {
            s - 1
        } else {
            prev
        }
    }
}

/// The partition the builder uses for a set of two or more objects.
///
/// Along the dominant axis of the union bound, the surface-area-heuristic
/// split at the best bucket boundary; when every centroid coincides, the
/// median count split.  (The guard on the heuristic branch never fires — the
/// extreme buckets are always occupied — but keeps the definition total.)
pub open spec fn split_spec(bounds: Seq<AABB>, idxs: Seq<usize>, nb: int) -> (Seq<usize>, Seq<
    usize,
>) {
    let half = idxs.len() as int / 2;
    let axis = join_all(bounds, idxs).largest_axis_spec();
    let lo = cmin(bounds, idxs, axis);
    let hi = cmax(bounds, idxs, axis);
    if lo == hi {
        (idxs.take(half), idxs.skip(half))
    } else {
        let s = best_split_upto(bounds, idxs, axis, lo, hi, nb, nb);
        let l = left_part(bounds, idxs, axis, lo, hi, nb, s);
        let r = right_part(bounds, idxs, axis, lo, hi, nb, s);
        if l.len() == 0 || r.len() == 0 || l.len() + r.len() != idxs.len() {
            (idxs.take(half), idxs.skip(half))
        } else {
            (l, r)
        }
    }
}

/// The node an internal position holds while its children are being built.
pub open spec fn placeholder_node(parent: int, depth: int) -> Node {
    Node::Leaf { parent_index: parent as usize, depth: depth as usize, object_index: 0 }
}

/// The arena produced by building the subtree over `idxs` at the end of
/// `arena`: the exact mirror of the executable construction.
pub open spec fn build_rec_spec(
    bounds: Seq<AABB>,
    idxs: Seq<usize>,
    parent: int,
    depth: int,
    nb: int,
    arena: Seq<Node>,
) -> Seq<Node>
    decreases idxs.len(),
{
    if idxs.len() <= 1 {
        arena.push(
            Node::Leaf {
                parent_index: parent as usize,
                depth: depth as usize,
                object_index: if idxs.len() == 1 {
                    idxs[0]
                } else {
                    0
                },
            },
        )
    } else {
        let my = arena.len() as int;
        let pair = split_spec(bounds, idxs, nb);
        let arena1 = arena.push(placeholder_node(parent, depth));
        let arena2 = build_rec_spec(bounds, pair.0, my, depth + 1, nb, arena1);
        let arena3 = build_rec_spec(bounds, pair.1, my, depth + 1, nb, arena2);
        arena3.update(
            my,
            Node::Internal {
                parent_index: parent as usize,
                depth: depth as usize,
                left_index: (my + 1) as usize,
                left_bound: join_all(bounds, pair.0),
                right_index: arena2.len() as usize,
                right_bound: join_all(bounds, pair.1),
            },
        )
    }
}

/// The arena of the whole hierarchy built over `bounds`: empty for no
/// objects, else the recursive construction over the identity index order,
/// rooted at node 0.
pub open spec fn build_spec(bounds: Seq<AABB>, nb: int) -> Seq<Node> {
    if bounds.len() == 0 {
        Seq::<Node>::empty()
    } else {
        build_rec_spec(bounds, range_order(bounds.len()), 0, 0, nb, Seq::<Node>::empty())
    }
}

/// Building is deterministic: two trees built from the same bounds with the
/// same bucket count are structurally identical, node for node.
pub proof fn lemma_build_deterministic(a: BVH, b: BVH, bounds: Seq<AABB>, nb: int)
    requires
        a.nodes@ == build_spec(bounds, nb),
        b.nodes@ == build_spec(bounds, nb),
    ensures
        a.nodes@ == b.nodes@,
{
}

/// Every listed key lies between the extent's ends, and both ends are
/// attained by some listed object.
proof fn lemma_extent_attained(bounds: Seq<AABB>, idxs: Seq<usize>, axis: Axis)
    requires
        valid_bounds(bounds),
        valid_idxs(bounds, idxs),
        idxs.len() >= 1,
    ensures
        forall|k: int|
            0 <= k < idxs.len() ==> cmin(bounds, idxs, axis) <= #[trigger] ckey(
                bounds,
                idxs[k],
                axis,
            ) <= cmax(bounds, idxs, axis),
        exists|k: int|
            0 <= k < idxs.len() && ckey(bounds, idxs[k], axis) == cmin(bounds, idxs, axis),
        exists|k: int|
            0 <= k < idxs.len() && ckey(bounds, idxs[k], axis) == cmax(bounds, idxs, axis),
        -2 * MAX_COORD <= cmin(bounds, idxs, axis) <= cmax(bounds, idxs, axis) <= 2 * MAX_COORD,
    decreases idxs.len(),
{
    let t = idxs.drop_last();
    let c = ckey(bounds, idxs.last(), axis);
    assert(bounds[idxs.last() as int].in_range());
    assert(-2 * MAX_COORD <= c <= 2 * MAX_COORD);
    if idxs.len() == 1 {
        assert(cmin(bounds, idxs, axis) == c);
        assert(cmax(bounds, idxs, axis) == c);
        assert(ckey(bounds, idxs[0], axis) == c);
    } else {
        assert(valid_idxs(bounds, t));
        lemma_extent_attained(bounds, t, axis);
        assert forall|k: int|
            0 <= k < idxs.len() implies cmin(bounds, idxs, axis) <= #[trigger] ckey(
            bounds,
            idxs[k],
            axis,
        ) <= cmax(bounds, idxs, axis) by {
            if k < idxs.len() - 1 {
                assert(t[k] == idxs[k]);
                assert(cmin(bounds, t, axis) <= ckey(bounds, t[k], axis) <= cmax(bounds, t, axis));
            }
        }
        if c <= cmin(bounds, t, axis) {
            assert(ckey(bounds, idxs[idxs.len() - 1], axis) == cmin(bounds, idxs, axis));
        } else {
            let k = choose|k: int|
                0 <= k < t.len() && ckey(bounds, t[k], axis) == cmin(bounds, t, axis);
            assert(ckey(bounds, idxs[k], axis) == cmin(bounds, idxs, axis));
        }
        if c >= cmax(bounds, t, axis) {
            assert(ckey(bounds, idxs[idxs.len() - 1], axis) == cmax(bounds, idxs, axis));
        } else {
            let k = choose|k: int|
                0 <= k < t.len() && ckey(bounds, t[k], axis) == cmax(bounds, t, axis);
            assert(ckey(bounds, idxs[k], axis) == cmax(bounds, idxs, axis));
        }
    }
}

/// A key within the extent lands in a bucket between 0 and `nb - 1`.
proof fn lemma_bucket_range(c: int, lo: int, hi: int, nb: int)
    requires
        lo <= c <= hi,
        lo < hi,
        2 <= nb,
    ensures
        0 <= bucket_of(c, lo, hi, nb) < nb,
{
    assert((c - lo) * nb >= 0) by (nonlinear_arith)
        requires
            c >= lo,
            nb >= 2,
    ;
    lemma_div_pos_is_pos((c - lo) * nb, hi - lo);
}

/// The lowest key lands in bucket 0.
proof fn lemma_bucket_lo(lo: int, hi: int, nb: int)
    requires
        lo < hi,
        2 <= nb,
    ensures
        bucket_of(lo, lo, hi, nb) == 0,
{
    assert((lo - lo) * nb == 0);
    assert(0int / (hi - lo) == 0) by {
        vstd::arithmetic::div_mod::lemma_div_of0(hi - lo);
    }
}

/// The highest key lands in the last bucket.
proof fn lemma_bucket_hi(lo: int, hi: int, nb: int)
    requires
        lo < hi,
        2 <= nb,
    ensures
        bucket_of(hi, lo, hi, nb) == nb - 1,
{
    lemma_div_multiples_vanish(nb, hi - lo);
}

/// The surface area of an in-range box is bounded.
proof fn lemma_area_bounded(b: AABB)
    requires
        b.in_range(),
    ensures
        -24 * MAX_COORD * MAX_COORD <= b.surface_area_spec() <= 24 * MAX_COORD * MAX_COORD,
{
    lemma_extent_product_bounded(b.max.x - b.min.x, b.max.y - b.min.y);
    lemma_extent_product_bounded(b.max.x - b.min.x, b.max.z - b.min.z);
    lemma_extent_product_bounded(b.max.y - b.min.y, b.max.z - b.min.z);
}

/// One side's cost term stays well within `i128`.
proof fn lemma_cost_term_bounded(cnt: int, area: int)
    requires
        0 <= cnt < 0x1_0000_0000,
        -24 * MAX_COORD * MAX_COORD <= area <= 24 * MAX_COORD * MAX_COORD,
    ensures
        -0x1_0000_0000 * 24 * MAX_COORD * MAX_COORD <= cnt * area <= 0x1_0000_0000 * 24 * MAX_COORD
            * MAX_COORD,
{
    assert(-0x1_0000_0000 * 24 * MAX_COORD * MAX_COORD <= cnt * area <= 0x1_0000_0000 * 24
        * MAX_COORD * MAX_COORD) by (nonlinear_arith)
        requires
            0 <= cnt < 0x1_0000_0000,
            -24 * MAX_COORD * MAX_COORD <= area <= 24 * MAX_COORD * MAX_COORD,
    ;
}

/// Unfolding one step of `filter` along a growing prefix.
proof fn lemma_filter_take_step<A>(s: Seq<A>, p: spec_fn(A) -> bool, j: int)
    requires
        0 <= j < s.len(),
    ensures
        s.take(j + 1).filter(p) == if p(s[j]) {
            s.take(j).filter(p).push(s[j])
        } else {
            s.take(j).filter(p)
        },
{
    reveal(Seq::filter);
    assert(s.take(j + 1).drop_last() =~= s.take(j));
    assert(s.take(j + 1).last() == s[j]);
}

/// The union bound of the objects up to `j`, extended by object `j`.
proof fn lemma_join_all_take_step(bounds: Seq<AABB>, idxs: Seq<usize>, j: int)
    requires
        0 <= j < idxs.len(),
    ensures
        join_all(bounds, idxs.take(j + 1)) == join_all(bounds, idxs.take(j)).join_spec(
            bounds[idxs[j] as int],
        ),
{
    assert(idxs.take(j + 1).drop_last() =~= idxs.take(j));
    assert(idxs.take(j + 1).last() == idxs[j]);
}

/// The extent of the keys up to `j`, extended by object `j`.
proof fn lemma_extent_take_step(bounds: Seq<AABB>, idxs: Seq<usize>, axis: Axis, j: int)
    requires
        0 <= j < idxs.len(),
    ensures
        cmin(bounds, idxs.take(j + 1), axis) == if ckey(bounds, idxs[j], axis) <= cmin(
            bounds,
            idxs.take(j),
            axis,
        ) {
            ckey(bounds, idxs[j], axis)
        } else {
            cmin(bounds, idxs.take(j), axis)
        },
        cmax(bounds, idxs.take(j + 1), axis) == if ckey(bounds, idxs[j], axis) >= cmax(
            bounds,
            idxs.take(j),
            axis,
        ) {
            ckey(bounds, idxs[j], axis)
        } else {
            cmax(bounds, idxs.take(j), axis)
        },
{
    assert(idxs.take(j + 1).drop_last() =~= idxs.take(j));
    assert(idxs.take(j + 1).last() == idxs[j]);
}

/// Computes the union bound of the listed objects.
#[verifier::loop_isolation(false)]
fn union_of(bounds: &Vec<AABB>, idxs: &Vec<usize>) -> (ub: AABB)
    requires
        valid_idxs(bounds@, idxs@),
    ensures
        ub == join_all(bounds@, idxs@),
{
    let mut ub = AABB::empty();
    let mut j: usize = 0;
    while j < idxs.len()
        invariant
            0 <= j <= idxs.len(),
            ub == join_all(bounds@, idxs@.take(j as int)),
        decreases idxs.len() - j,
    {
        proof {
            lemma_join_all_take_step(bounds@, idxs@, j as int);
        }
        ub = ub.join(&bounds[idxs[j]]);
        j += 1;
    }
    proof {
        assert(idxs@.take(idxs@.len() as int) =~= idxs@);
    }
    ub
}

/// Computes the least and greatest binning key along `axis`.
#[verifier::loop_isolation(false)]
fn extent_of(bounds: &Vec<AABB>, idxs: &Vec<usize>, axis: Axis) -> (r: (i64, i64))
    requires
        valid_bounds(bounds@),
        valid_idxs(bounds@, idxs@),
    ensures
        r.0 as int == cmin(bounds@, idxs@, axis),
        r.1 as int == cmax(bounds@, idxs@, axis),
{
    let mut lo: i64 = 3 * MAX_COORD;
    let mut hi: i64 = -3 * MAX_COORD;
    let mut j: usize = 0;
    while j < idxs.len()
        invariant
            0 <= j <= idxs.len(),
            lo as int == cmin(bounds@, idxs@.take(j as int), axis),
            hi as int == cmax(bounds@, idxs@.take(j as int), axis),
        decreases idxs.len() - j,
    {
        proof {
            lemma_extent_take_step(bounds@, idxs@, axis, j as int);
            assert(bounds@[idxs@[j as int] as int].in_range());
        }
        let b = &bounds[idxs[j]];
        let c = b.min.axis(axis) + b.max.axis(axis);
        if c <= lo {
            lo = c;
        }
        if c >= hi {
            hi = c;
        }
        j += 1;
    }
    proof {
        assert(idxs@.take(idxs@.len() as int) =~= idxs@);
    }
    (lo, hi)
}

/// The bucket the key `c` falls in.
fn bucket_idx(c: i64, lo: i64, hi: i64, nb: usize) -> (b: usize)
    requires
        lo <= c <= hi,
        lo < hi,
        -2 * MAX_COORD <= lo,
        hi <= 2 * MAX_COORD,
        2 <= nb <= 64,
    ensures
        b as int == bucket_of(c as int, lo as int, hi as int, nb as int),
        b < nb,
{
    proof {
        lemma_bucket_range(c as int, lo as int, hi as int, nb as int);
        assert((c - lo) * nb <= 256 * MAX_COORD) by (nonlinear_arith)
            requires
                0 <= c - lo <= 4 * MAX_COORD,
                0 <= nb <= 64,
        ;
    }
    let raw = (((c - lo) as u64) * (nb as u64)) / ((hi - lo) as u64);
    if raw >= nb as u64 {
        nb - 1
    } else {
        raw as usize
    }
}

/// Counts the two sides of the candidate split at boundary `s` and computes
/// its heuristic cost and balance.
#[verifier::loop_isolation(false)]
fn eval_split(
    bounds: &Vec<AABB>,
    idxs: &Vec<usize>,
    axis: Axis,
    lo: i64,
    hi: i64,
    nb: usize,
    s: usize,
) -> (r: (i128, i64))
    requires
        valid_bounds(bounds@),
        valid_idxs(bounds@, idxs@),
        idxs@.len() >= 1,
        idxs@.len() <= bounds@.len(),
        bounds@.len() < 0x1_0000_0000,
        lo as int == cmin(bounds@, idxs@, axis),
        hi as int == cmax(bounds@, idxs@, axis),
        lo < hi,
        2 <= nb <= 64,
        1 <= s < nb,
    ensures
        r.0 as int == split_cost(bounds@, idxs@, axis, lo as int, hi as int, nb as int, s as int),
        r.1 as int == split_balance(
            bounds@,
            idxs@,
            axis,
            lo as int,
            hi as int,
            nb as int,
            s as int,
        ),
{
    let ghost p = in_left(bounds@, axis, lo as int, hi as int, nb as int, s as int);
    let ghost q = in_right(bounds@, axis, lo as int, hi as int, nb as int, s as int);
    proof {
        lemma_extent_attained(bounds@, idxs@, axis);
    }
    let mut lcnt: usize = 0;
    let mut rcnt: usize = 0;
    let mut lbox = AABB::empty();
    let mut rbox = AABB::empty();
    let mut j: usize = 0;
    while j < idxs.len()
        invariant
            j <= idxs.len(),
            lcnt + rcnt == j,
            lcnt as int == idxs@.take(j as int).filter(p).len(),
            rcnt as int == idxs@.take(j as int).filter(q).len(),
            lbox == join_all(bounds@, idxs@.take(j as int).filter(p)),
            rbox == join_all(bounds@, idxs@.take(j as int).filter(q)),
        decreases idxs@.len() - j,
    {
        let o = idxs[j];
        let b = &bounds[o];
        let c = b.min.axis(axis) + b.max.axis(axis);
        proof {
            assert(ckey(bounds@, o, axis) == c as int);
            lemma_filter_take_step(idxs@, p, j as int);
            lemma_filter_take_step(idxs@, q, j as int);
        }
        let bk = bucket_idx(c, lo, hi, nb);
        if bk < s {
            proof {
                assert(p(o));
                assert(!q(o));
                let f = idxs@.take(j as int).filter(p);
                assert(f.push(o).drop_last() =~= f);
                assert(f.push(o).last() == o);
            }
            lbox = lbox.join(b);
            lcnt += 1;
        } else {
            proof {
                assert(!p(o));
                assert(q(o));
                let f = idxs@.take(j as int).filter(q);
                assert(f.push(o).drop_last() =~= f);
                assert(f.push(o).last() == o);
            }
            rbox = rbox.join(b);
            rcnt += 1;
        }
        j += 1;
    }
    proof {
        assert(idxs@.take(idxs@.len() as int) =~= idxs@);
        lemma_filter_valid_idxs(bounds@, idxs@, p);
        lemma_filter_valid_idxs(bounds@, idxs@, q);
        lemma_join_all_in_range(bounds@, idxs@.filter(p));
        lemma_join_all_in_range(bounds@, idxs@.filter(q));
        lemma_area_bounded(lbox);
        lemma_area_bounded(rbox);
        lemma_cost_term_bounded(lcnt as int, lbox.surface_area_spec());
        lemma_cost_term_bounded(rcnt as int, rbox.surface_area_spec());
    }
    let la = lbox.surface_area();
    let ra = rbox.surface_area();
    let cost = (lcnt as i128) * la + (rcnt as i128) * ra;
    let bal_d = 2 * (lcnt as i64) - (idxs.len() as i64);
    let bal = if bal_d < 0 {
        -bal_d
    } else {
        bal_d
    };
    (cost, bal)
}

/// Chooses the bucket boundary with the best heuristic cost, breaking ties
/// towards balance, then towards the lowest boundary.
#[verifier::loop_isolation(false)]
fn choose_split(
    bounds: &Vec<AABB>,
    idxs: &Vec<usize>,
    axis: Axis,
    lo: i64,
    hi: i64,
    nb: usize,
) -> (s: usize)
    requires
        valid_bounds(bounds@),
        valid_idxs(bounds@, idxs@),
        idxs@.len() >= 1,
        idxs@.len() <= bounds@.len(),
        bounds@.len() < 0x1_0000_0000,
        lo as int == cmin(bounds@, idxs@, axis),
        hi as int == cmax(bounds@, idxs@, axis),
        lo < hi,
        2 <= nb <= 64,
    ensures
        1 <= s < nb,
        s as int == best_split_upto(
            bounds@,
            idxs@,
            axis,
            lo as int,
            hi as int,
            nb as int,
            nb as int,
        ),
{
    let first = eval_split(bounds, idxs, axis, lo, hi, nb, 1);
    let mut bc: i128 = first.0;
    let mut bb: i64 = first.1;
    let mut best: usize = 1;
    let mut cand: usize = 2;
    while cand < nb
        invariant
            2 <= cand <= nb,
            1 <= best < cand,
            best as int == best_split_upto(
                bounds@,
                idxs@,
                axis,
                lo as int,
                hi as int,
                nb as int,
                cand as int,
            ),
            bc as int == split_cost(
                bounds@,
                idxs@,
                axis,
                lo as int,
                hi as int,
                nb as int,
                best as int,
            ),
            bb as int == split_balance(
                bounds@,
                idxs@,
                axis,
                lo as int,
                hi as int,
                nb as int,
                best as int,
            ),
        decreases nb - cand,
    {
        let r = eval_split(bounds, idxs, axis, lo, hi, nb, cand);
        if r.0 < bc || (r.0 == bc && r.1 < bb) {
            best = cand;
            bc = r.0;
            bb = r.1;
        }
        cand += 1;
    }
    best
}

/// Splits the listed objects at bucket boundary `s`, keeping input order on
/// both sides.
#[verifier::loop_isolation(false)]
fn partition_by_bucket(
    bounds: &Vec<AABB>,
    idxs: &Vec<usize>,
    axis: Axis,
    lo: i64,
    hi: i64,
    nb: usize,
    s: usize,
) -> (r: (Vec<usize>, Vec<usize>))
    requires
        valid_bounds(bounds@),
        valid_idxs(bounds@, idxs@),
        idxs@.len() >= 1,
        lo as int == cmin(bounds@, idxs@, axis),
        hi as int == cmax(bounds@, idxs@, axis),
        lo < hi,
        2 <= nb <= 64,
        1 <= s < nb,
    ensures
        r.0@ == left_part(bounds@, idxs@, axis, lo as int, hi as int, nb as int, s as int),
        r.1@ == right_part(bounds@, idxs@, axis, lo as int, hi as int, nb as int, s as int),
{
    let ghost p = in_left(bounds@, axis, lo as int, hi as int, nb as int, s as int);
    let ghost q = in_right(bounds@, axis, lo as int, hi as int, nb as int, s as int);
    proof {
        lemma_extent_attained(bounds@, idxs@, axis);
    }
    let mut lvec: Vec<usize> = Vec::new();
    let mut rvec: Vec<usize> = Vec::new();
    let mut j: usize = 0;
    while j < idxs.len()
        invariant
            j <= idxs.len(),
            lvec@ == idxs@.take(j as int).filter(p),
            rvec@ == idxs@.take(j as int).filter(q),
        decreases idxs@.len() - j,
    {
        let o = idxs[j];
        let b = &bounds[o];
        let c = b.min.axis(axis) + b.max.axis(axis);
        proof {
            assert(ckey(bounds@, o, axis) == c as int);
            lemma_filter_take_step(idxs@, p, j as int);
            lemma_filter_take_step(idxs@, q, j as int);
        }
        let bk = bucket_idx(c, lo, hi, nb);
        if bk < s {
            proof {
                assert(p(o));
                assert(!q(o));
            }
            lvec.push(o);
        } else {
            proof {
                assert(!p(o));
                assert(q(o));
            }
            rvec.push(o);
        }
        j += 1;
    }
    proof {
        assert(idxs@.take(idxs@.len() as int) =~= idxs@);
    }
    (lvec, rvec)
}

/// Splits the listed objects in half by count, keeping input order.
#[verifier::loop_isolation(false)]
fn split_half(idxs: &Vec<usize>) -> (r: (Vec<usize>, Vec<usize>))
    requires
        idxs@.len() >= 2,
    ensures
        r.0@ == idxs@.take(idxs@.len() as int / 2),
        r.1@ == idxs@.skip(idxs@.len() as int / 2),
{
    let half = idxs.len() / 2;
    let mut lvec: Vec<usize> = Vec::new();
    let mut rvec: Vec<usize> = Vec::new();
    let mut k: usize = 0;
    while k < half
        invariant
            k <= half,
            half == idxs@.len() as int / 2,
            lvec@ == idxs@.take(k as int),
        decreases half - k,
    {
        proof {
            assert(idxs@.take(k + 1 as int) =~= idxs@.take(k as int).push(idxs@[k as int]));
        }
        lvec.push(idxs[k]);
        k += 1;
    }
    let mut m: usize = half;
    while m < idxs.len()
        invariant
            half <= m <= idxs@.len(),
            rvec@ == idxs@.subrange(half as int, m as int),
        decreases idxs@.len() - m,
    {
        proof {
            assert(idxs@.subrange(half as int, m + 1 as int) =~= idxs@.subrange(
                half as int,
                m as int,
            ).push(idxs@[m as int]));
        }
        rvec.push(idxs[m]);
        m += 1;
    }
    proof {
        assert(idxs@.subrange(half as int, idxs@.len() as int) =~= idxs@.skip(half as int));
    }
    (lvec, rvec)
}

/// Splits a set of two or more objects into the two non-empty parts the
/// heuristic chooses, exactly as [`split_spec`] describes.
fn split_indices(bounds: &Vec<AABB>, idxs: &Vec<usize>, nb: usize) -> (r: (Vec<usize>, Vec<usize>))
    requires
        valid_bounds(bounds@),
        valid_idxs(bounds@, idxs@),
        idxs@.len() >= 2,
        idxs@.len() <= bounds@.len(),
        bounds@.len() < 0x1_0000_0000,
        2 <= nb <= 64,
    ensures
        (r.0@, r.1@) == split_spec(bounds@, idxs@, nb as int),
        r.0@.len() >= 1,
        r.1@.len() >= 1,
        r.0@.len() + r.1@.len() == idxs@.len(),
        r.0@.to_multiset().add(r.1@.to_multiset()) == idxs@.to_multiset(),
        valid_idxs(bounds@, r.0@),
        valid_idxs(bounds@, r.1@),
        join_all(bounds@, idxs@) == join_all(bounds@, r.0@).join_spec(join_all(bounds@, r.1@)),
{
    let ghost half = idxs@.len() as int / 2;
    let ub = union_of(bounds, idxs);
    proof {
        lemma_join_all_in_range(bounds@, idxs@);
    }
    let axis = ub.largest_axis();
    let e = extent_of(bounds, idxs, axis);
    let lo = e.0;
    let hi = e.1;
    proof {
        lemma_extent_attained(bounds@, idxs@, axis);
    }
    if lo == hi {
        let r = split_half(idxs);
        proof {
            assert(idxs@ =~= r.0@ + r.1@);
            lemma_multiset_commutative(r.0@, r.1@);
            assert(valid_idxs(bounds@, r.0@));
            assert(valid_idxs(bounds@, r.1@));
            lemma_join_all_concat(bounds@, r.0@, r.1@);
        }
        r
    } else {
        let s = choose_split(bounds, idxs, axis, lo, hi, nb);
        let r = partition_by_bucket(bounds, idxs, axis, lo, hi, nb, s);
        proof {
            let ghost p = in_left(bounds@, axis, lo as int, hi as int, nb as int, s as int);
            let ghost q = in_right(bounds@, axis, lo as int, hi as int, nb as int, s as int);
            // the extreme buckets are occupied, so neither side is empty
            let kl = choose|k: int|
                0 <= k < idxs@.len() && ckey(bounds@, idxs@[k], axis) == cmin(bounds@, idxs@, axis);
            let kh = choose|k: int|
                0 <= k < idxs@.len() && ckey(bounds@, idxs@[k], axis) == cmax(bounds@, idxs@, axis);
            lemma_bucket_lo(lo as int, hi as int, nb as int);
            lemma_bucket_hi(lo as int, hi as int, nb as int);
            assert(p(idxs@[kl]));
            assert(q(idxs@[kh]));
            assert(idxs@.contains(idxs@[kl]));
            assert(idxs@.contains(idxs@[kh]));
            lemma_filter_contains_iff(idxs@, p, idxs@[kl]);
            lemma_filter_contains_iff(idxs@, q, idxs@[kh]);
            assert(r.0@.len() >= 1);
            assert(r.1@.len() >= 1);
            assert(forall|x: usize| #[trigger] q(x) == !p(x));
            lemma_filter_complement_multiset(idxs@, p, q);
            lemma_filter_valid_idxs(bounds@, idxs@, p);
            lemma_filter_valid_idxs(bounds@, idxs@, q);
            lemma_join_all_filter_split(bounds@, idxs@, p, q);
        }
        r
    }
}

/// Builds the subtree over `idxs` at the end of the arena.
///
/// Returns the subtree's root index (always the first node appended: the
/// construction is pre-order) and, as ghost information, the object indices
/// of the subtree's leaves in depth-first order.
fn build_rec(
    bounds: &Vec<AABB>,
    idxs: Vec<usize>,
    parent: usize,
    depth: usize,
    nb: usize,
    nodes: &mut Vec<Node>,
) -> (res: (usize, Ghost<Seq<usize>>))
    requires
        valid_bounds(bounds@),
        valid_idxs(bounds@, idxs@),
        idxs@.len() >= 1,
        depth + idxs@.len() <= bounds@.len(),
        bounds@.len() < 0x1_0000_0000,
        2 <= nb <= 64,
    ensures
        final(nodes)@ == build_rec_spec(
            bounds@,
            idxs@,
            parent as int,
            depth as int,
            nb as int,
            old(nodes)@,
        ),
        res.0 == old(nodes)@.len(),
        final(nodes)@.len() == old(nodes)@.len() + 2 * idxs@.len() - 1,
        forall|k: int| 0 <= k < old(nodes)@.len() ==> final(nodes)@[k] == old(nodes)@[k],
        subtree(final(nodes)@, bounds@, res.0 as int, parent as int, depth as int, res.1@),
        res.1@.to_multiset() == idxs@.to_multiset(),
        join_all(bounds@, res.1@) == join_all(bounds@, idxs@),
        valid_idxs(bounds@, res.1@),
    decreases idxs@.len(),
{
    let my = nodes.len();
    if idxs.len() == 1 {
        let node = Node::Leaf { parent_index: parent, depth, object_index: idxs[0] };
        nodes.push(node);
        proof {
            assert(idxs@ =~= seq![idxs@[0]]);
        }
        (my, Ghost(idxs@))
    } else {
        nodes.push(Node::Leaf { parent_index: parent, depth, object_index: 0 });
        let pair = split_indices(bounds, &idxs, nb);
        let lvec = pair.0;
        let rvec = pair.1;
        let lb = union_of(bounds, &lvec);
        let rb = union_of(bounds, &rvec);
        let left = build_rec(bounds, lvec, my, depth + 1, nb, nodes);
        let ghost a2 = nodes@;
        let li = left.0;
        let ghost lord = left.1@;
        let right = build_rec(bounds, rvec, my, depth + 1, nb, nodes);
        let ghost a3 = nodes@;
        let ri = right.0;
        let ghost rord = right.1@;
        let node = Node::Internal {
            parent_index: parent,
            depth,
            left_index: li,
            left_bound: lb,
            right_index: ri,
            right_bound: rb,
        };
        nodes[my] = node;
        proof {
            broadcast use vstd::seq_lib::group_to_multiset_ensures;

            let a4 = nodes@;
            // the two subtrees are untouched by the later writes
            lemma_subtree_frame(a2, a3, bounds@, li as int, my as int, depth + 1, lord);
            lemma_subtree_frame(a3, a4, bounds@, li as int, my as int, depth + 1, lord);
            lemma_subtree_frame(a3, a4, bounds@, ri as int, my as int, depth + 1, rord);
            assert(lord.len() >= 1);
            assert(rord.len() >= 1);
            assert(a4[my as int] == node);
            assert(subtree(a4, bounds@, my as int, parent as int, depth as int, lord + rord));
            lemma_multiset_commutative(lord, rord);
            lemma_multiset_commutative(lvec@, rvec@);
            lemma_join_all_concat(bounds@, lord, rord);
            assert(valid_idxs(bounds@, lord + rord)) by {
                assert forall|k: int|
                    0 <= k < (lord + rord).len() implies ((lord + rord)[k]) < bounds@.len() by {
                    if k < lord.len() {
                        assert((lord + rord)[k] == lord[k]);
                    } else {
                        assert((lord + rord)[k] == rord[k - lord.len()]);
                    }
                }
            }
        }
        (my, Ghost(lord + rord))
    }
}

impl BVH {
    /// Builds a hierarchy over the given objects with the given number of
    /// surface-area-heuristic buckets.
    ///
    /// The resulting tree is well formed for the objects' current bounds,
    /// and is exactly the tree [`build_spec`] describes: building twice from
    /// the same input yields structurally identical trees.
    ///
    /// The objects are referred to by their index in `objects`; the caller
    /// must keep their bounds unchanged for as long as the tree is queried,
    /// or rebuild.
    pub fn build_with_buckets<T: Bounded>(objects: &Vec<T>, nb: usize) -> (r: BVH)
        requires
            forall|i: int|
                0 <= i < objects@.len() ==> (#[trigger] objects@[i].bound()).in_range(),
            objects@.len() < 0x1_0000_0000,
            2 <= nb <= 64,
        ensures
            r.wf(bounds_of(objects@)),
            r.nodes@ == build_spec(bounds_of(objects@), nb as int),
    {
        let ghost bspec = bounds_of(objects@);
        let n = objects.len();
        let mut bounds: Vec<AABB> = Vec::new();
        let mut i: usize = 0;
        while i < n
            invariant
                i <= n,
                n == objects@.len(),
                bounds@.len() == i,
                forall|k: int| 0 <= k < i ==> bounds@[k] == objects@[k].bound(),
                forall|k: int|
                    0 <= k < objects@.len() ==> (#[trigger] objects@[k].bound()).in_range(),
            decreases n - i,
        {
            bounds.push(objects[i].aabb());
            i += 1;
        }
        proof {
            assert(bounds@ =~= bspec);
        }
        if n == 0 {
            return BVH { nodes: Vec::new(), order: Ghost(Seq::empty()) };
        }
        let mut idxs: Vec<usize> = Vec::new();
        let mut k: usize = 0;
        while k < n
            invariant
                k <= n,
                idxs@.len() == k,
                forall|j: int| 0 <= j < k ==> idxs@[j] == j as usize,
            decreases n - k,
        {
            idxs.push(k);
            k += 1;
        }
        proof {
            assert(idxs@ =~= range_order(n as nat));
            assert(valid_idxs(bounds@, idxs@));
            assert(valid_bounds(bounds@));
        }
        let mut nodes: Vec<Node> = Vec::new();
        let res = build_rec(&bounds, idxs, 0, 0, nb, &mut nodes);
        proof {
            assert(res.0 == 0);
        }
        BVH { nodes, order: Ghost(res.1@) }
    }

    /// Builds a hierarchy over the given objects with the default number of
    /// surface-area-heuristic buckets.
    pub fn build<T: Bounded>(objects: &Vec<T>) -> (r: BVH)
        requires
            forall|i: int|
                0 <= i < objects@.len() ==> (#[trigger] objects@[i].bound()).in_range(),
            objects@.len() < 0x1_0000_0000,
        ensures
            r.wf(bounds_of(objects@)),
            r.nodes@ == build_spec(bounds_of(objects@), DEFAULT_BUCKETS as int),
    {
        BVH::build_with_buckets(objects, DEFAULT_BUCKETS)
    }
}

/// The default number of surface-area-heuristic buckets.
pub const DEFAULT_BUCKETS: usize = 8;

} // verus!
