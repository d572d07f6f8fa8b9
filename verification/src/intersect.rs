//! The exact ray-box intersection test.
//!
//! A ray hits a box exactly when some positive parameter `t` places
//! `origin + t * direction` inside the box.  Over integer coordinates the
//! relevant parameters are rational, so the specification quantifies over a
//! fraction `num / den` and states each per-axis slab condition multiplied
//! through by the (positive) denominator.  The executable test compares the
//! per-axis entry and exit fractions by cross-multiplication and is proved
//! to agree with that specification exactly — including the rejection of
//! boxes that lie entirely behind the ray origin.

use vstd::prelude::*;
use crate::aabb::{lemma_extent_product_bounded, AABB};
use crate::ray::Ray;
use crate::MAX_COORD;

verus! {

/// The point `o + (num/den) * d` lies between `mn` and `mx`, stated with the
/// positive denominator multiplied through.
pub open spec fn axis_ok(mn: int, mx: int, o: int, d: int, num: int, den: int) -> bool {
    den * mn <= den * o + num * d <= den * mx
}

/// The ray parameter `num / den` places the ray inside the box on every axis.
pub open spec fn slab_ok(b: AABB, r: Ray, num: int, den: int) -> bool {
    &&& axis_ok(b.min.x as int, b.max.x as int, r.origin.x as int, r.direction.x as int, num, den)
    &&& axis_ok(b.min.y as int, b.max.y as int, r.origin.y as int, r.direction.y as int, num, den)
    &&& axis_ok(b.min.z as int, b.max.z as int, r.origin.z as int, r.direction.z as int, num, den)
}

/// The ray truly meets the box: for some positive rational parameter
/// `t = num / den`, the point `origin + t * direction` lies inside the box.
pub open spec fn ray_hits(b: AABB, r: Ray) -> bool {
    exists|num: int, den: int| den > 0 && num > 0 && slab_ok(b, r, num, den)
}

/// Entry value of the slab interval for one axis, scaled by [`slab_den`].
pub open spec fn slab_entry(mn: int, mx: int, o: int, d: int) -> int {
    if d > 0 {
        mn - o
    } else {
        o - mx
    }
}

/// Exit value of the slab interval for one axis, scaled by [`slab_den`].
pub open spec fn slab_exit(mn: int, mx: int, o: int, d: int) -> int {
    if d > 0 {
        mx - o
    } else {
        o - mn
    }
}

/// The positive common denominator of [`slab_entry`] and [`slab_exit`].
pub open spec fn slab_den(d: int) -> int {
    if d > 0 {
        d
    } else {
        -d
    }
}

/// On an axis the ray does not move along, the slab condition reduces to the
/// origin lying between the planes.
proof fn lemma_zero_axis_cond(mn: int, mx: int, o: int, num: int, den: int)
    requires
        den > 0,
        mn <= o <= mx,
    ensures
        axis_ok(mn, mx, o, 0, num, den),
{
    assert(den * mn <= den * o <= den * mx) by (nonlinear_arith)
        requires
            den > 0,
            mn <= o <= mx,
    ;
}

/// On an axis the ray does not move along, an origin outside the planes
/// misses for every ray parameter.
proof fn lemma_zero_axis_miss(mn: int, mx: int, o: int, num: int, den: int)
    requires
        den > 0,
        o < mn || o > mx,
    ensures
        !axis_ok(mn, mx, o, 0, num, den),
{
    assert(!(den * mn <= den * o <= den * mx)) by (nonlinear_arith)
        requires
            den > 0,
            o < mn || o > mx,
    ;
}

/// The slab condition for one moving axis, translated to the entry and exit
/// fractions: `entry/slab_den <= num/den <= exit/slab_den`.
proof fn lemma_axis_cond_to_frac(mn: int, mx: int, o: int, d: int, num: int, den: int)
    requires
        d != 0,
        den > 0,
        axis_ok(mn, mx, o, d, num, den),
    ensures
        slab_entry(mn, mx, o, d) * den <= num * slab_den(d),
        num * slab_den(d) <= slab_exit(mn, mx, o, d) * den,
{
    assert(slab_entry(mn, mx, o, d) * den <= num * slab_den(d) && num * slab_den(d) <= slab_exit(
        mn,
        mx,
        o,
        d,
    ) * den) by (nonlinear_arith)
        requires
            d != 0,
            den > 0,
            den * mn <= den * o + num * d <= den * mx,
    ;
}

/// The converse of [`lemma_axis_cond_to_frac`].
proof fn lemma_frac_to_axis_cond(mn: int, mx: int, o: int, d: int, num: int, den: int)
    requires
        d != 0,
        den > 0,
        slab_entry(mn, mx, o, d) * den <= num * slab_den(d),
        num * slab_den(d) <= slab_exit(mn, mx, o, d) * den,
    ensures
        axis_ok(mn, mx, o, d, num, den),
{
    assert(den * mn <= den * o + num * d <= den * mx) by (nonlinear_arith)
        requires
            d != 0,
            den > 0,
            slab_entry(mn, mx, o, d) * den <= num * slab_den(d),
            num * slab_den(d) <= slab_exit(mn, mx, o, d) * den,
    ;
}

/// A slab whose exit is not ahead of the origin misses for every positive
/// ray parameter.
proof fn lemma_exit_behind_miss(mn: int, mx: int, o: int, d: int, num: int, den: int)
    requires
        d != 0,
        den > 0,
        num > 0,
        slab_exit(mn, mx, o, d) <= 0,
    ensures
        !axis_ok(mn, mx, o, d, num, den),
{
    if axis_ok(mn, mx, o, d, num, den) {
        lemma_axis_cond_to_frac(mn, mx, o, d, num, den);
        assert(false) by (nonlinear_arith)
            requires
                den > 0,
                num > 0,
                slab_den(d) > 0,
                slab_exit(mn, mx, o, d) <= 0,
                num * slab_den(d) <= slab_exit(mn, mx, o, d) * den,
        ;
    }
}

/// When one axis's entry fraction exceeds another axis's exit fraction, no
/// single ray parameter satisfies both slabs.
proof fn lemma_pair_miss(
    mna: int,
    mxa: int,
    oa: int,
    da: int,
    mnb: int,
    mxb: int,
    ob: int,
    db: int,
    num: int,
    den: int,
)
    requires
        da != 0,
        db != 0,
        den > 0,
        num > 0,
        slab_entry(mna, mxa, oa, da) * slab_den(db) > slab_exit(mnb, mxb, ob, db) * slab_den(da),
    ensures
        !(axis_ok(mna, mxa, oa, da, num, den) && axis_ok(mnb, mxb, ob, db, num, den)),
{
    if axis_ok(mna, mxa, oa, da, num, den) && axis_ok(mnb, mxb, ob, db, num, den) {
        lemma_axis_cond_to_frac(mna, mxa, oa, da, num, den);
        lemma_axis_cond_to_frac(mnb, mxb, ob, db, num, den);
        let ea = slab_entry(mna, mxa, oa, da);
        let xb = slab_exit(mnb, mxb, ob, db);
        let dna = slab_den(da);
        let dnb = slab_den(db);
        assert(false) by (nonlinear_arith)
            requires
                den > 0,
                dna > 0,
                dnb > 0,
                ea * den <= num * dna,
                num * dnb <= xb * den,
                ea * dnb > xb * dna,
        ;
    }
}

/// Comparison of fractions with positive denominators is transitive.
proof fn lemma_frac_le_trans(an: int, ad: int, bn: int, bd: int, cn: int, cd: int)
    requires
        ad > 0,
        bd > 0,
        cd > 0,
        an * bd <= bn * ad,
        bn * cd <= cn * bd,
    ensures
        an * cd <= cn * ad,
{
    assert(an * cd <= cn * ad) by (nonlinear_arith)
        requires
            ad > 0,
            bd > 0,
            cd > 0,
            an * bd <= bn * ad,
            bn * cd <= cn * bd,
    ;
}

/// A hit of an inner box is a hit of every box containing it: the same ray
/// parameter works, because the outer planes lie further out on every axis.
pub proof fn lemma_hits_monotone(inner: AABB, outer: AABB, r: Ray)
    requires
        inner.inside(outer),
        ray_hits(inner, r),
    ensures
        ray_hits(outer, r),
{
    let (num, den) = choose|num: int, den: int|
        den > 0 && num > 0 && slab_ok(inner, r, num, den);
    assert(slab_ok(outer, r, num, den)) by {
        lemma_axis_widen(
            inner.min.x as int,
            inner.max.x as int,
            outer.min.x as int,
            outer.max.x as int,
            r.origin.x as int,
            r.direction.x as int,
            num,
            den,
        );
        lemma_axis_widen(
            inner.min.y as int,
            inner.max.y as int,
            outer.min.y as int,
            outer.max.y as int,
            r.origin.y as int,
            r.direction.y as int,
            num,
            den,
        );
        lemma_axis_widen(
            inner.min.z as int,
            inner.max.z as int,
            outer.min.z as int,
            outer.max.z as int,
            r.origin.z as int,
            r.direction.z as int,
            num,
            den,
        );
    }
}

/// Widening a slab keeps a satisfied slab condition satisfied.
proof fn lemma_axis_widen(
    mn1: int,
    mx1: int,
    mn2: int,
    mx2: int,
    o: int,
    d: int,
    num: int,
    den: int,
)
    requires
        den > 0,
        mn2 <= mn1,
        mx1 <= mx2,
        axis_ok(mn1, mx1, o, d, num, den),
    ensures
        axis_ok(mn2, mx2, o, d, num, den),
{
    assert(den * mn2 <= den * mn1 && den * mx1 <= den * mx2) by (nonlinear_arith)
        requires
            den > 0,
            mn2 <= mn1,
            mx1 <= mx2,
    ;
}

/// Cross-multiplied comparison of an entry fraction with an exit fraction.
fn entry_exceeds_exit(ea: i64, dna: i64, xb: i64, dnb: i64) -> (r: bool)
    requires
        -2 * MAX_COORD <= ea <= 2 * MAX_COORD,
        -2 * MAX_COORD <= xb <= 2 * MAX_COORD,
        0 < dna <= MAX_COORD,
        0 < dnb <= MAX_COORD,
    ensures
        r == (ea * dnb > xb * dna),
{
    proof {
        lemma_extent_product_bounded(ea as int, dnb as int);
        lemma_extent_product_bounded(xb as int, dna as int);
    }
    ea * dnb > xb * dna
}

impl AABB {
    /// Tests the intersection of a [`Ray`] with this [`AABB`] by the slab
    /// method, comparing the per-axis entry and exit fractions exactly by
    /// cross-multiplication.
    ///
    /// Returns true exactly when some positive ray parameter places the ray
    /// inside the box; in particular a box lying entirely behind the ray
    /// origin is rejected even though its slab overlap is non-empty.
    pub fn does_intersect(&self, ray: &Ray) -> (r: bool)
        requires
            self.in_range(),
            ray.in_range(),
        ensures
            r == ray_hits(*self, *ray),
    {
        let b = *self;
        let (px, ex, xx, dnx): (bool, i64, i64, i64) = if ray.direction.x > 0 {
            (true, b.min.x - ray.origin.x, b.max.x - ray.origin.x, ray.direction.x)
        } else if ray.direction.x < 0 {
            (true, ray.origin.x - b.max.x, ray.origin.x - b.min.x, -ray.direction.x)
        } else {
            if ray.origin.x < b.min.x || ray.origin.x > b.max.x {
                proof {
                    assert forall|num: int, den: int| !(den > 0 && num > 0 && slab_ok(b, *ray, num, den)) by {
                        if den > 0 && num > 0 {
                            lemma_zero_axis_miss(
                                b.min.x as int,
                                b.max.x as int,
                                ray.origin.x as int,
                                num,
                                den,
                            );
                        }
                    }
                }
                return false;
            }
            (false, 0, 1, 1)
        };
        let (py, ey, xy, dny): (bool, i64, i64, i64) = if ray.direction.y > 0 {
            (true, b.min.y - ray.origin.y, b.max.y - ray.origin.y, ray.direction.y)
        } else if ray.direction.y < 0 {
            (true, ray.origin.y - b.max.y, ray.origin.y - b.min.y, -ray.direction.y)
        } else {
            if ray.origin.y < b.min.y || ray.origin.y > b.max.y {
                proof {
                    assert forall|num: int, den: int| !(den > 0 && num > 0 && slab_ok(b, *ray, num, den)) by {
                        if den > 0 && num > 0 {
                            lemma_zero_axis_miss(
                                b.min.y as int,
                                b.max.y as int,
                                ray.origin.y as int,
                                num,
                                den,
                            );
                        }
                    }
                }
                return false;
            }
            (false, 0, 1, 1)
        };
        let (pz, ez, xz, dnz): (bool, i64, i64, i64) = if ray.direction.z > 0 {
            (true, b.min.z - ray.origin.z, b.max.z - ray.origin.z, ray.direction.z)
        } else if ray.direction.z < 0 {
            (true, ray.origin.z - b.max.z, ray.origin.z - b.min.z, -ray.direction.z)
        } else {
            if ray.origin.z < b.min.z || ray.origin.z > b.max.z {
                proof {
                    assert forall|num: int, den: int| !(den > 0 && num > 0 && slab_ok(b, *ray, num, den)) by {
                        if den > 0 && num > 0 {
                            lemma_zero_axis_miss(
                                b.min.z as int,
                                b.max.z as int,
                                ray.origin.z as int,
                                num,
                                den,
                            );
                        }
                    }
                }
                return false;
            }
            (false, 0, 1, 1)
        };
        // every exit must lie ahead of the origin
        if px && xx <= 0 {
            proof {
                assert forall|num: int, den: int| !(den > 0 && num > 0 && slab_ok(b, *ray, num, den)) by {
                    if den > 0 && num > 0 {
                        lemma_exit_behind_miss(
                            b.min.x as int,
                            b.max.x as int,
                            ray.origin.x as int,
                            ray.direction.x as int,
                            num,
                            den,
                        );
                    }
                }
            }
            return false;
        }
        if py && xy <= 0 {
            proof {
                assert forall|num: int, den: int| !(den > 0 && num > 0 && slab_ok(b, *ray, num, den)) by {
                    if den > 0 && num > 0 {
                        lemma_exit_behind_miss(
                            b.min.y as int,
                            b.max.y as int,
                            ray.origin.y as int,
                            ray.direction.y as int,
                            num,
                            den,
                        );
                    }
                }
            }
            return false;
        }
        if pz && xz <= 0 {
            proof {
                assert forall|num: int, den: int| !(den > 0 && num > 0 && slab_ok(b, *ray, num, den)) by {
                    if den > 0 && num > 0 {
                        lemma_exit_behind_miss(
                            b.min.z as int,
                            b.max.z as int,
                            ray.origin.z as int,
                            ray.direction.z as int,
                            num,
                            den,
                        );
                    }
                }
            }
            return false;
        }
        // every entry must be at most every exit
        let ghost bx = (b.min.x as int, b.max.x as int, ray.origin.x as int, ray.direction.x as int);
        let ghost by_ = (b.min.y as int, b.max.y as int, ray.origin.y as int, ray.direction.y as int);
        let ghost bz = (b.min.z as int, b.max.z as int, ray.origin.z as int, ray.direction.z as int);
        if px && entry_exceeds_exit(ex, dnx, xx, dnx) {
            proof {
                miss_by_pair(b, *ray, bx, bx);
            }
            return false;
        }
        if px && py && entry_exceeds_exit(ex, dnx, xy, dny) {
            proof {
                miss_by_pair(b, *ray, bx, by_);
            }
            return false;
        }
        if px && pz && entry_exceeds_exit(ex, dnx, xz, dnz) {
            proof {
                miss_by_pair(b, *ray, bx, bz);
            }
            return false;
        }
        if py && px && entry_exceeds_exit(ey, dny, xx, dnx) {
            proof {
                miss_by_pair(b, *ray, by_, bx);
            }
            return false;
        }
        if py && entry_exceeds_exit(ey, dny, xy, dny) {
            proof {
                miss_by_pair(b, *ray, by_, by_);
            }
            return false;
        }
        if py && pz && entry_exceeds_exit(ey, dny, xz, dnz) {
            proof {
                miss_by_pair(b, *ray, by_, bz);
            }
            return false;
        }
        if pz && px && entry_exceeds_exit(ez, dnz, xx, dnx) {
            proof {
                miss_by_pair(b, *ray, bz, bx);
            }
            return false;
        }
        if pz && py && entry_exceeds_exit(ez, dnz, xy, dny) {
            proof {
                miss_by_pair(b, *ray, bz, by_);
            }
            return false;
        }
        if pz && entry_exceeds_exit(ez, dnz, xz, dnz) {
            proof {
                miss_by_pair(b, *ray, bz, bz);
            }
            return false;
        }
        proof {
            hit_witness(
                b,
                *ray,
                px,
                py,
                pz,
                ex as int,
                xx as int,
                dnx as int,
                ey as int,
                xy as int,
                dny as int,
                ez as int,
                xz as int,
                dnz as int,
            );
        }
        true
    }
}

/// One axis pair with entry past exit rules out every ray parameter.
proof fn miss_by_pair(b: AABB, r: Ray, a: (int, int, int, int), c: (int, int, int, int))
    requires
        a.3 != 0,
        c.3 != 0,
        slab_entry(a.0, a.1, a.2, a.3) * slab_den(c.3) > slab_exit(c.0, c.1, c.2, c.3) * slab_den(
            a.3,
        ),
        (a == (b.min.x as int, b.max.x as int, r.origin.x as int, r.direction.x as int)) || (a == (
            b.min.y as int,
            b.max.y as int,
            r.origin.y as int,
            r.direction.y as int,
        )) || (a == (b.min.z as int, b.max.z as int, r.origin.z as int, r.direction.z as int)),
        (c == (b.min.x as int, b.max.x as int, r.origin.x as int, r.direction.x as int)) || (c == (
            b.min.y as int,
            b.max.y as int,
            r.origin.y as int,
            r.direction.y as int,
        )) || (c == (b.min.z as int, b.max.z as int, r.origin.z as int, r.direction.z as int)),
    ensures
        !ray_hits(b, r),
{
    assert forall|num: int, den: int| !(den > 0 && num > 0 && slab_ok(b, r, num, den)) by {
        if den > 0 && num > 0 {
            lemma_pair_miss(a.0, a.1, a.2, a.3, c.0, c.1, c.2, c.3, num, den);
        }
    }
}

/// From all the executable checks passing, build the positive rational
/// parameter that witnesses the hit: the smallest exit fraction among the
/// moving axes, or `1` when the ray does not move at all.
proof fn hit_witness(
    b: AABB,
    r: Ray,
    px: bool,
    py: bool,
    pz: bool,
    ex: int,
    xx: int,
    dnx: int,
    ey: int,
    xy: int,
    dny: int,
    ez: int,
    xz: int,
    dnz: int,
)
    requires
        px == (r.direction.x != 0),
        py == (r.direction.y != 0),
        pz == (r.direction.z != 0),
        px ==> ex == slab_entry(b.min.x as int, b.max.x as int, r.origin.x as int, r.direction.x as int)
            && xx == slab_exit(b.min.x as int, b.max.x as int, r.origin.x as int, r.direction.x as int)
            && dnx == slab_den(r.direction.x as int),
        py ==> ey == slab_entry(b.min.y as int, b.max.y as int, r.origin.y as int, r.direction.y as int)
            && xy == slab_exit(b.min.y as int, b.max.y as int, r.origin.y as int, r.direction.y as int)
            && dny == slab_den(r.direction.y as int),
        pz ==> ez == slab_entry(b.min.z as int, b.max.z as int, r.origin.z as int, r.direction.z as int)
            && xz == slab_exit(b.min.z as int, b.max.z as int, r.origin.z as int, r.direction.z as int)
            && dnz == slab_den(r.direction.z as int),
        !px ==> b.min.x <= r.origin.x <= b.max.x,
        !py ==> b.min.y <= r.origin.y <= b.max.y,
        !pz ==> b.min.z <= r.origin.z <= b.max.z,
        dnx > 0,
        dny > 0,
        dnz > 0,
        px ==> xx > 0,
        py ==> xy > 0,
        pz ==> xz > 0,
        px ==> ex * dnx <= xx * dnx,
        px && py ==> ex * dny <= xy * dnx && ey * dnx <= xx * dny,
        px && pz ==> ex * dnz <= xz * dnx && ez * dnx <= xx * dnz,
        py ==> ey * dny <= xy * dny,
        py && pz ==> ey * dnz <= xz * dny && ez * dny <= xy * dnz,
        pz ==> ez * dnz <= xz * dnz,
    ensures
        ray_hits(b, r),
{
    // the chosen parameter: the smallest exit fraction among the moving axes
    let use_x = px && (!py || xx * dny <= xy * dnx) && (!pz || xx * dnz <= xz * dnx);
    let use_y = !use_x && py && (!pz || xy * dnz <= xz * dny);
    let use_z = !use_x && !use_y && pz;
    let (num, den): (int, int) = if use_x {
        (xx, dnx)
    } else if use_y {
        (xy, dny)
    } else if use_z {
        (xz, dnz)
    } else {
        (1, 1)
    };
    // the chosen fraction is at most every present exit fraction
    if use_y && px {
        // not use_x: some exit fraction is below xx
        if py && xy * dnx < xx * dny {
            assert(num * dnx <= xx * den);
        } else {
            assert(pz && xz * dnx < xx * dnz);
            lemma_frac_le_trans(xy, dny, xz, dnz, xx, dnx);
        }
    }
    if use_z {
        if px {
            if py && xy * dnx < xx * dny {
                // not use_y, so xz < xy <= ... ; xz <= xx via xy
                assert(xz * dny < xy * dnz);
                lemma_frac_le_trans(xz, dnz, xy, dny, xx, dnx);
            } else {
                assert(pz && xz * dnx < xx * dnz);
            }
        }
        if py {
            assert(xz * dny <= xy * dnz);
        }
    }
    assert(num > 0 && den > 0);
    assert(px ==> num * dnx <= xx * den);
    assert(py ==> num * dny <= xy * den);
    assert(pz ==> num * dnz <= xz * den);
    // every present entry fraction is at most the chosen fraction
    assert(px ==> ex * den <= num * dnx);
    assert(py ==> ey * den <= num * dny);
    assert(pz ==> ez * den <= num * dnz);
    // assemble the slab condition axis by axis
    if px {
        lemma_frac_to_axis_cond(
            b.min.x as int,
            b.max.x as int,
            r.origin.x as int,
            r.direction.x as int,
            num,
            den,
        );
    } else {
        lemma_zero_axis_cond(b.min.x as int, b.max.x as int, r.origin.x as int, num, den);
    }
    if py {
        lemma_frac_to_axis_cond(
            b.min.y as int,
            b.max.y as int,
            r.origin.y as int,
            r.direction.y as int,
            num,
            den,
        );
    } else {
        lemma_zero_axis_cond(b.min.y as int, b.max.y as int, r.origin.y as int, num, den);
    }
    if pz {
        lemma_frac_to_axis_cond(
            b.min.z as int,
            b.max.z as int,
            r.origin.z as int,
            r.direction.z as int,
            num,
            den,
        );
    } else {
        lemma_zero_axis_cond(b.min.z as int, b.max.z as int, r.origin.z as int, num, den);
    }
    assert(slab_ok(b, r, num, den));
}

/// The outcome of a parametric ray cast against a box: the exact entry
/// parameter `t_num / t_den` at which the ray first reaches the box's
/// interior, or a miss.
#[derive(Clone, Copy, Debug, PartialEq, Eq, Structural)]
pub enum RaycastResult {
    Hit { t_num: i64, t_den: i64 },
    Miss,
}

/// The point `o + (num/den) * d` lies strictly between `mn` and `mx`.
pub open spec fn axis_strict(mn: int, mx: int, o: int, d: int, num: int, den: int) -> bool {
    den * mn < den * o + num * d < den * mx
}

/// The ray parameter `num / den` places the ray strictly inside the box on
/// every axis.
pub open spec fn slab_strict(b: AABB, r: Ray, num: int, den: int) -> bool {
    &&& axis_strict(b.min.x as int, b.max.x as int, r.origin.x as int, r.direction.x as int, num, den)
    &&& axis_strict(b.min.y as int, b.max.y as int, r.origin.y as int, r.direction.y as int, num, den)
    &&& axis_strict(b.min.z as int, b.max.z as int, r.origin.z as int, r.direction.z as int, num, den)
}

/// The ray passes through the box's interior ahead of its origin: some
/// positive rational parameter lands strictly inside on every axis.
pub open spec fn ray_enters(b: AABB, r: Ray) -> bool {
    exists|num: int, den: int| den > 0 && num > 0 && slab_strict(b, r, num, den)
}

/// `num / den` is the greatest slab entry among the axes the ray moves
/// along: the parameter at which the ray first reaches the box.
pub open spec fn is_latest_entry(b: AABB, r: Ray, num: int, den: int) -> bool {
    let ex = slab_entry(b.min.x as int, b.max.x as int, r.origin.x as int, r.direction.x as int);
    let ey = slab_entry(b.min.y as int, b.max.y as int, r.origin.y as int, r.direction.y as int);
    let ez = slab_entry(b.min.z as int, b.max.z as int, r.origin.z as int, r.direction.z as int);
    let dnx = slab_den(r.direction.x as int);
    let dny = slab_den(r.direction.y as int);
    let dnz = slab_den(r.direction.z as int);
    &&& den > 0
    &&& (r.direction.x != 0 ==> ex * den <= num * dnx)
    &&& (r.direction.y != 0 ==> ey * den <= num * dny)
    &&& (r.direction.z != 0 ==> ez * den <= num * dnz)
    &&& {
        ||| (r.direction.x != 0 && ex * den == num * dnx)
        ||| (r.direction.y != 0 && ey * den == num * dny)
        ||| (r.direction.z != 0 && ez * den == num * dnz)
    }
}

/// On an axis the ray does not move along, an origin on or outside the
/// planes rules out every strictly interior parameter.
proof fn lemma_zero_axis_strict_miss(mn: int, mx: int, o: int, num: int, den: int)
    requires
        den > 0,
        o <= mn || o >= mx,
    ensures
        !axis_strict(mn, mx, o, 0, num, den),
{
    assert(!(den * mn < den * o < den * mx)) by (nonlinear_arith)
        requires
            den > 0,
            o <= mn || o >= mx,
    ;
}

/// On an axis the ray does not move along, a strictly interior origin
/// satisfies the strict slab condition for every parameter.
proof fn lemma_zero_axis_strict_cond(mn: int, mx: int, o: int, num: int, den: int)
    requires
        den > 0,
        mn < o < mx,
    ensures
        axis_strict(mn, mx, o, 0, num, den),
{
    assert(den * mn < den * o < den * mx) by (nonlinear_arith)
        requires
            den > 0,
            mn < o < mx,
    ;
}

/// The strict slab condition for one moving axis, translated to the entry
/// and exit fractions.
proof fn lemma_axis_strict_to_frac(mn: int, mx: int, o: int, d: int, num: int, den: int)
    requires
        d != 0,
        den > 0,
        axis_strict(mn, mx, o, d, num, den),
    ensures
        slab_entry(mn, mx, o, d) * den < num * slab_den(d),
        num * slab_den(d) < slab_exit(mn, mx, o, d) * den,
{
    assert(slab_entry(mn, mx, o, d) * den < num * slab_den(d) && num * slab_den(d) < slab_exit(
        mn,
        mx,
        o,
        d,
    ) * den) by (nonlinear_arith)
        requires
            d != 0,
            den > 0,
            den * mn < den * o + num * d < den * mx,
    ;
}

/// The converse of [`lemma_axis_strict_to_frac`].
proof fn lemma_frac_to_axis_strict(mn: int, mx: int, o: int, d: int, num: int, den: int)
    requires
        d != 0,
        den > 0,
        slab_entry(mn, mx, o, d) * den < num * slab_den(d),
        num * slab_den(d) < slab_exit(mn, mx, o, d) * den,
    ensures
        axis_strict(mn, mx, o, d, num, den),
{
    assert(den * mn < den * o + num * d < den * mx) by (nonlinear_arith)
        requires
            d != 0,
            den > 0,
            slab_entry(mn, mx, o, d) * den < num * slab_den(d),
            num * slab_den(d) < slab_exit(mn, mx, o, d) * den,
    ;
}

/// A slab whose exit is not strictly ahead of the origin admits no strictly
/// interior positive parameter.
proof fn lemma_exit_behind_strict_miss(mn: int, mx: int, o: int, d: int, num: int, den: int)
    requires
        d != 0,
        den > 0,
        num > 0,
        slab_exit(mn, mx, o, d) <= 0,
    ensures
        !axis_strict(mn, mx, o, d, num, den),
{
    if axis_strict(mn, mx, o, d, num, den) {
        lemma_axis_strict_to_frac(mn, mx, o, d, num, den);
        assert(false) by (nonlinear_arith)
            requires
                den > 0,
                num > 0,
                slab_den(d) > 0,
                slab_exit(mn, mx, o, d) <= 0,
                num * slab_den(d) < slab_exit(mn, mx, o, d) * den,
        ;
    }
}

/// When one axis's entry fraction is at least another axis's exit fraction,
/// no parameter is strictly inside both slabs.
proof fn lemma_pair_strict_miss(
    mna: int,
    mxa: int,
    oa: int,
    da: int,
    mnb: int,
    mxb: int,
    ob: int,
    db: int,
    num: int,
    den: int,
)
    requires
        da != 0,
        db != 0,
        den > 0,
        num > 0,
        slab_entry(mna, mxa, oa, da) * slab_den(db) >= slab_exit(mnb, mxb, ob, db) * slab_den(da),
    ensures
        !(axis_strict(mna, mxa, oa, da, num, den) && axis_strict(mnb, mxb, ob, db, num, den)),
{
    if axis_strict(mna, mxa, oa, da, num, den) && axis_strict(mnb, mxb, ob, db, num, den) {
        lemma_axis_strict_to_frac(mna, mxa, oa, da, num, den);
        lemma_axis_strict_to_frac(mnb, mxb, ob, db, num, den);
        let ea = slab_entry(mna, mxa, oa, da);
        let xb = slab_exit(mnb, mxb, ob, db);
        let dna = slab_den(da);
        let dnb = slab_den(db);
        assert(false) by (nonlinear_arith)
            requires
                den > 0,
                dna > 0,
                dnb > 0,
                ea * den < num * dna,
                num * dnb < xb * den,
                ea * dnb >= xb * dna,
        ;
    }
}

/// From `a <= b` and `b < c` on fractions with positive denominators,
/// `a < c`.
proof fn lemma_frac_le_lt_trans(an: int, ad: int, bn: int, bd: int, cn: int, cd: int)
    requires
        ad > 0,
        bd > 0,
        cd > 0,
        an * bd <= bn * ad,
        bn * cd < cn * bd,
    ensures
        an * cd < cn * ad,
{
    assert(an * cd < cn * ad) by (nonlinear_arith)
        requires
            ad > 0,
            bd > 0,
            cd > 0,
            an * bd <= bn * ad,
            bn * cd < cn * bd,
    ;
}

/// From `a < b` and `b <= c` on fractions with positive denominators,
/// `a < c`.
proof fn lemma_frac_lt_le_trans(an: int, ad: int, bn: int, bd: int, cn: int, cd: int)
    requires
        ad > 0,
        bd > 0,
        cd > 0,
        an * bd < bn * ad,
        bn * cd <= cn * bd,
    ensures
        an * cd < cn * ad,
{
    assert(an * cd < cn * ad) by (nonlinear_arith)
        requires
            ad > 0,
            bd > 0,
            cd > 0,
            an * bd < bn * ad,
            bn * cd <= cn * bd,
    ;
}

/// From `a == b` and `b < c` on fractions with positive denominators,
/// `a < c`.
proof fn lemma_frac_eq_lt(an: int, ad: int, bn: int, bd: int, cn: int, cd: int)
    requires
        ad > 0,
        bd > 0,
        cd > 0,
        an * bd == bn * ad,
        bn * cd < cn * bd,
    ensures
        an * cd < cn * ad,
{
    assert(an * cd < cn * ad) by (nonlinear_arith)
        requires
            ad > 0,
            bd > 0,
            cd > 0,
            an * bd == bn * ad,
            bn * cd < cn * bd,
    ;
}

/// From all the executable checks passing, build the positive rational
/// parameter that witnesses the strictly interior hit: just past the larger
/// of the latest entry and zero, but before the earliest exit.
proof fn enter_witness(
    b: AABB,
    r: Ray,
    px: bool,
    py: bool,
    pz: bool,
    ex: int,
    xx: int,
    dnx: int,
    ey: int,
    xy: int,
    dny: int,
    ez: int,
    xz: int,
    dnz: int,
    en: int,
    ed: int,
)
    requires
        px == (r.direction.x != 0),
        py == (r.direction.y != 0),
        pz == (r.direction.z != 0),
        px || py || pz,
        px ==> ex == slab_entry(b.min.x as int, b.max.x as int, r.origin.x as int, r.direction.x as int)
            && xx == slab_exit(b.min.x as int, b.max.x as int, r.origin.x as int, r.direction.x as int)
            && dnx == slab_den(r.direction.x as int),
        py ==> ey == slab_entry(b.min.y as int, b.max.y as int, r.origin.y as int, r.direction.y as int)
            && xy == slab_exit(b.min.y as int, b.max.y as int, r.origin.y as int, r.direction.y as int)
            && dny == slab_den(r.direction.y as int),
        pz ==> ez == slab_entry(b.min.z as int, b.max.z as int, r.origin.z as int, r.direction.z as int)
            && xz == slab_exit(b.min.z as int, b.max.z as int, r.origin.z as int, r.direction.z as int)
            && dnz == slab_den(r.direction.z as int),
        !px ==> b.min.x < r.origin.x < b.max.x,
        !py ==> b.min.y < r.origin.y < b.max.y,
        !pz ==> b.min.z < r.origin.z < b.max.z,
        dnx > 0,
        dny > 0,
        dnz > 0,
        ed > 0,
        px ==> xx > 0,
        py ==> xy > 0,
        pz ==> xz > 0,
        px ==> ex * dnx < xx * dnx,
        px && py ==> ex * dny < xy * dnx && ey * dnx < xx * dny,
        px && pz ==> ex * dnz < xz * dnx && ez * dnx < xx * dnz,
        py ==> ey * dny < xy * dny,
        py && pz ==> ey * dnz < xz * dny && ez * dny < xy * dnz,
        pz ==> ez * dnz < xz * dnz,
        px ==> ex * ed <= en * dnx,
        py ==> ey * ed <= en * dny,
        pz ==> ez * ed <= en * dnz,
        (px && ex * ed == en * dnx) || (py && ey * ed == en * dny) || (pz && ez * ed == en * dnz),
    ensures
        ray_enters(b, r),
{
    // the earliest exit fraction among the moving axes
    let use_x = px && (!py || xx * dny <= xy * dnx) && (!pz || xx * dnz <= xz * dnx);
    let use_y = !use_x && py && (!pz || xy * dnz <= xz * dny);
    let use_z = !use_x && !use_y && pz;
    let (xn, xd): (int, int) = if use_x {
        (xx, dnx)
    } else if use_y {
        (xy, dny)
    } else {
        (xz, dnz)
    };
    assert(use_x || use_y || use_z);
    // the chosen exit fraction is positive and at most every present exit
    if use_y && px {
        if py && xy * dnx < xx * dny {
            assert(xn * dnx <= xx * xd);
        } else {
            assert(pz && xz * dnx < xx * dnz);
            lemma_frac_le_trans(xy, dny, xz, dnz, xx, dnx);
        }
    }
    if use_z {
        if px {
            if py && xy * dnx < xx * dny {
                assert(xz * dny < xy * dnz);
                lemma_frac_le_trans(xz, dnz, xy, dny, xx, dnx);
            } else {
                assert(pz && xz * dnx < xx * dnz);
            }
        }
        if py {
            assert(xz * dny <= xy * dnz);
        }
    }
    assert(xn > 0 && xd > 0);
    assert(px ==> xn * dnx <= xx * xd);
    assert(py ==> xn * dny <= xy * xd);
    assert(pz ==> xn * dnz <= xz * xd);
    // the latest entry lies strictly before the earliest exit
    assert(en * xd < xn * ed) by {
        if px && ex * ed == en * dnx {
            assert(ex * xd < xn * dnx);
            lemma_frac_eq_lt(en, ed, ex, dnx, xn, xd);
        } else if py && ey * ed == en * dny {
            assert(ey * xd < xn * dny);
            lemma_frac_eq_lt(en, ed, ey, dny, xn, xd);
        } else {
            assert(pz && ez * ed == en * dnz);
            assert(ez * xd < xn * dnz);
            lemma_frac_eq_lt(en, ed, ez, dnz, xn, xd);
        }
    }
    // pick the parameter: past the latest entry and past zero, before the
    // earliest exit
    let (num, den): (int, int) = if en <= 0 {
        (xn, 2 * xd)
    } else {
        (en * xd + xn * ed, 2 * ed * xd)
    };
    assert(num > 0 && den > 0) by (nonlinear_arith)
        requires
            xn > 0,
            xd > 0,
            ed > 0,
            en <= 0 ==> (num == xn && den == 2 * xd),
            en > 0 ==> (num == en * xd + xn * ed && den == 2 * ed * xd),
    ;
    // the parameter lies strictly past every present entry
    assert(px ==> ex * den < num * dnx) by (nonlinear_arith)
        requires
            px ==> ex * ed <= en * dnx,
            xn > 0,
            xd > 0,
            ed > 0,
            dnx > 0,
            en * xd < xn * ed,
            en <= 0 ==> (num == xn && den == 2 * xd),
            en > 0 ==> (num == en * xd + xn * ed && den == 2 * ed * xd),
    ;
    assert(py ==> ey * den < num * dny) by (nonlinear_arith)
        requires
            py ==> ey * ed <= en * dny,
            xn > 0,
            xd > 0,
            ed > 0,
            dny > 0,
            en * xd < xn * ed,
            en <= 0 ==> (num == xn && den == 2 * xd),
            en > 0 ==> (num == en * xd + xn * ed && den == 2 * ed * xd),
    ;
    assert(pz ==> ez * den < num * dnz) by (nonlinear_arith)
        requires
            pz ==> ez * ed <= en * dnz,
            xn > 0,
            xd > 0,
            ed > 0,
            dnz > 0,
            en * xd < xn * ed,
            en <= 0 ==> (num == xn && den == 2 * xd),
            en > 0 ==> (num == en * xd + xn * ed && den == 2 * ed * xd),
    ;
    // and strictly before every present exit
    assert(px ==> num * dnx < xx * den) by (nonlinear_arith)
        requires
            px ==> xn * dnx <= xx * xd,
            px ==> xx > 0,
            xn > 0,
            xd > 0,
            ed > 0,
            dnx > 0,
            en * xd < xn * ed,
            en <= 0 ==> (num == xn && den == 2 * xd),
            en > 0 ==> (num == en * xd + xn * ed && den == 2 * ed * xd),
    ;
    assert(py ==> num * dny < xy * den) by (nonlinear_arith)
        requires
            py ==> xn * dny <= xy * xd,
            py ==> xy > 0,
            xn > 0,
            xd > 0,
            ed > 0,
            dny > 0,
            en * xd < xn * ed,
            en <= 0 ==> (num == xn && den == 2 * xd),
            en > 0 ==> (num == en * xd + xn * ed && den == 2 * ed * xd),
    ;
    assert(pz ==> num * dnz < xz * den) by (nonlinear_arith)
        requires
            pz ==> xn * dnz <= xz * xd,
            pz ==> xz > 0,
            xn > 0,
            xd > 0,
            ed > 0,
            dnz > 0,
            en * xd < xn * ed,
            en <= 0 ==> (num == xn && den == 2 * xd),
            en > 0 ==> (num == en * xd + xn * ed && den == 2 * ed * xd),
    ;
    // assemble the strict slab condition axis by axis
    if px {
        lemma_frac_to_axis_strict(
            b.min.x as int,
            b.max.x as int,
            r.origin.x as int,
            r.direction.x as int,
            num,
            den,
        );
    } else {
        lemma_zero_axis_strict_cond(b.min.x as int, b.max.x as int, r.origin.x as int, num, den);
    }
    if py {
        lemma_frac_to_axis_strict(
            b.min.y as int,
            b.max.y as int,
            r.origin.y as int,
            r.direction.y as int,
            num,
            den,
        );
    } else {
        lemma_zero_axis_strict_cond(b.min.y as int, b.max.y as int, r.origin.y as int, num, den);
    }
    if pz {
        lemma_frac_to_axis_strict(
            b.min.z as int,
            b.max.z as int,
            r.origin.z as int,
            r.direction.z as int,
            num,
            den,
        );
    } else {
        lemma_zero_axis_strict_cond(b.min.z as int, b.max.z as int, r.origin.z as int, num, den);
    }
    assert(slab_strict(b, r, num, den));
}

/// Cross-multiplied strict comparison of two fractions.
fn frac_gt(an: i64, ad: i64, bn: i64, bd: i64) -> (r: bool)
    requires
        -2 * MAX_COORD <= an <= 2 * MAX_COORD,
        -2 * MAX_COORD <= bn <= 2 * MAX_COORD,
        0 < ad <= MAX_COORD,
        0 < bd <= MAX_COORD,
    ensures
        r == (an * bd > bn * ad),
{
    proof {
        lemma_extent_product_bounded(an as int, bd as int);
        lemma_extent_product_bounded(bn as int, ad as int);
    }
    an * bd > bn * ad
}

/// One axis pair whose entry is not strictly before the other's exit rules
/// out every strictly interior ray parameter.
proof fn miss_by_pair_strict(b: AABB, r: Ray, a: (int, int, int, int), c: (int, int, int, int))
    requires
        a.3 != 0,
        c.3 != 0,
        slab_entry(a.0, a.1, a.2, a.3) * slab_den(c.3) >= slab_exit(c.0, c.1, c.2, c.3) * slab_den(
            a.3,
        ),
        (a == (b.min.x as int, b.max.x as int, r.origin.x as int, r.direction.x as int)) || (a == (
            b.min.y as int,
            b.max.y as int,
            r.origin.y as int,
            r.direction.y as int,
        )) || (a == (b.min.z as int, b.max.z as int, r.origin.z as int, r.direction.z as int)),
        (c == (b.min.x as int, b.max.x as int, r.origin.x as int, r.direction.x as int)) || (c == (
            b.min.y as int,
            b.max.y as int,
            r.origin.y as int,
            r.direction.y as int,
        )) || (c == (b.min.z as int, b.max.z as int, r.origin.z as int, r.direction.z as int)),
    ensures
        !ray_enters(b, r),
{
    assert forall|num: int, den: int| !(den > 0 && num > 0 && slab_strict(b, r, num, den)) by {
        if den > 0 && num > 0 {
            lemma_pair_strict_miss(a.0, a.1, a.2, a.3, c.0, c.1, c.2, c.3, num, den);
        }
    }
}

impl AABB {
    /// Casts a [`Ray`] against this [`AABB`] and returns the exact entry
    /// parameter — the fraction `t_num / t_den`, with `t_den > 0`, that is
    /// the greatest per-axis slab entry — or a miss.
    ///
    /// A hit is reported exactly when the ray passes through the box's
    /// interior ahead of its origin; grazing contact with a face does not
    /// count, a box behind the origin does not count, and a ray with a zero
    /// direction has no parametric entry and always misses.  The returned
    /// entry parameter may be negative: that reports an origin inside the
    /// box.
    pub fn intersection(&self, ray: &Ray) -> (r: RaycastResult)
        requires
            self.in_range(),
            ray.in_range(),
        ensures
            (r is Hit) <==> ((ray.direction.x != 0 || ray.direction.y != 0 || ray.direction.z != 0)
                && ray_enters(*self, *ray)),
            r matches RaycastResult::Hit { t_num, t_den } ==> is_latest_entry(
                *self,
                *ray,
                t_num as int,
                t_den as int,
            ),
    {
        let b = *self;
        let (px, ex, xx, dnx): (bool, i64, i64, i64) = if ray.direction.x > 0 {
            (true, b.min.x - ray.origin.x, b.max.x - ray.origin.x, ray.direction.x)
        } else if ray.direction.x < 0 {
            (true, ray.origin.x - b.max.x, ray.origin.x - b.min.x, -ray.direction.x)
        } else {
            if ray.origin.x <= b.min.x || ray.origin.x >= b.max.x {
                proof {
                    assert forall|num: int, den: int| !(den > 0 && num > 0 && slab_strict(b, *ray, num, den)) by {
                        if den > 0 && num > 0 {
                            lemma_zero_axis_strict_miss(
                                b.min.x as int,
                                b.max.x as int,
                                ray.origin.x as int,
                                num,
                                den,
                            );
                        }
                    }
                }
                return RaycastResult::Miss;
            }
            (false, 0, 1, 1)
        };
        let (py, ey, xy, dny): (bool, i64, i64, i64) = if ray.direction.y > 0 {
            (true, b.min.y - ray.origin.y, b.max.y - ray.origin.y, ray.direction.y)
        } else if ray.direction.y < 0 {
            (true, ray.origin.y - b.max.y, ray.origin.y - b.min.y, -ray.direction.y)
        } else {
            if ray.origin.y <= b.min.y || ray.origin.y >= b.max.y {
                proof {
                    assert forall|num: int, den: int| !(den > 0 && num > 0 && slab_strict(b, *ray, num, den)) by {
                        if den > 0 && num > 0 {
                            lemma_zero_axis_strict_miss(
                                b.min.y as int,
                                b.max.y as int,
                                ray.origin.y as int,
                                num,
                                den,
                            );
                        }
                    }
                }
                return RaycastResult::Miss;
            }
            (false, 0, 1, 1)
        };
        let (pz, ez, xz, dnz): (bool, i64, i64, i64) = if ray.direction.z > 0 {
            (true, b.min.z - ray.origin.z, b.max.z - ray.origin.z, ray.direction.z)
        } else if ray.direction.z < 0 {
            (true, ray.origin.z - b.max.z, ray.origin.z - b.min.z, -ray.direction.z)
        } else {
            if ray.origin.z <= b.min.z || ray.origin.z >= b.max.z {
                proof {
                    assert forall|num: int, den: int| !(den > 0 && num > 0 && slab_strict(b, *ray, num, den)) by {
                        if den > 0 && num > 0 {
                            lemma_zero_axis_strict_miss(
                                b.min.z as int,
                                b.max.z as int,
                                ray.origin.z as int,
                                num,
                                den,
                            );
                        }
                    }
                }
                return RaycastResult::Miss;
            }
            (false, 0, 1, 1)
        };
        // a ray that does not move has no parametric entry
        if !px && !py && !pz {
            return RaycastResult::Miss;
        }
        // every exit must lie strictly ahead of the origin
        if px && xx <= 0 {
            proof {
                assert forall|num: int, den: int| !(den > 0 && num > 0 && slab_strict(b, *ray, num, den)) by {
                    if den > 0 && num > 0 {
                        lemma_exit_behind_strict_miss(
                            b.min.x as int,
                            b.max.x as int,
                            ray.origin.x as int,
                            ray.direction.x as int,
                            num,
                            den,
                        );
                    }
                }
            }
            return RaycastResult::Miss;
        }
        if py && xy <= 0 {
            proof {
                assert forall|num: int, den: int| !(den > 0 && num > 0 && slab_strict(b, *ray, num, den)) by {
                    if den > 0 && num > 0 {
                        lemma_exit_behind_strict_miss(
                            b.min.y as int,
                            b.max.y as int,
                            ray.origin.y as int,
                            ray.direction.y as int,
                            num,
                            den,
                        );
                    }
                }
            }
            return RaycastResult::Miss;
        }
        if pz && xz <= 0 {
            proof {
                assert forall|num: int, den: int| !(den > 0 && num > 0 && slab_strict(b, *ray, num, den)) by {
                    if den > 0 && num > 0 {
                        lemma_exit_behind_strict_miss(
                            b.min.z as int,
                            b.max.z as int,
                            ray.origin.z as int,
                            ray.direction.z as int,
                            num,
                            den,
                        );
                    }
                }
            }
            return RaycastResult::Miss;
        }
        // every entry must be strictly before every exit
        let ghost bx = (b.min.x as int, b.max.x as int, ray.origin.x as int, ray.direction.x as int);
        let ghost by_ = (b.min.y as int, b.max.y as int, ray.origin.y as int, ray.direction.y as int);
        let ghost bz = (b.min.z as int, b.max.z as int, ray.origin.z as int, ray.direction.z as int);
        if px && !frac_gt(xx, dnx, ex, dnx) {
            proof {
                miss_by_pair_strict(b, *ray, bx, bx);
            }
            return RaycastResult::Miss;
        }
        if px && py && !frac_gt(xy, dny, ex, dnx) {
            proof {
                miss_by_pair_strict(b, *ray, bx, by_);
            }
            return RaycastResult::Miss;
        }
        if px && pz && !frac_gt(xz, dnz, ex, dnx) {
            proof {
                miss_by_pair_strict(b, *ray, bx, bz);
            }
            return RaycastResult::Miss;
        }
        if py && px && !frac_gt(xx, dnx, ey, dny) {
            proof {
                miss_by_pair_strict(b, *ray, by_, bx);
            }
            return RaycastResult::Miss;
        }
        if py && !frac_gt(xy, dny, ey, dny) {
            proof {
                miss_by_pair_strict(b, *ray, by_, by_);
            }
            return RaycastResult::Miss;
        }
        if py && pz && !frac_gt(xz, dnz, ey, dny) {
            proof {
                miss_by_pair_strict(b, *ray, by_, bz);
            }
            return RaycastResult::Miss;
        }
        if pz && px && !frac_gt(xx, dnx, ez, dnz) {
            proof {
                miss_by_pair_strict(b, *ray, bz, bx);
            }
            return RaycastResult::Miss;
        }
        if pz && py && !frac_gt(xy, dny, ez, dnz) {
            proof {
                miss_by_pair_strict(b, *ray, bz, by_);
            }
            return RaycastResult::Miss;
        }
        if pz && !frac_gt(xz, dnz, ez, dnz) {
            proof {
                miss_by_pair_strict(b, *ray, bz, bz);
            }
            return RaycastResult::Miss;
        }
        // the latest entry among the moving axes
        let mut en: i64 = 0;
        let mut ed: i64 = 1;
        if px {
            en = ex;
            ed = dnx;
        }
        let ghost en1 = en as int;
        let ghost ed1 = ed as int;
        if py && (!px || frac_gt(ey, dny, en, ed)) {
            en = ey;
            ed = dny;
        }
        proof {
            assert(px ==> ex * (ed as int) <= (en as int) * dnx);
            assert(py ==> ey * (ed as int) <= (en as int) * dny);
        }
        let ghost en2 = en as int;
        let ghost ed2 = ed as int;
        if pz && ((!px && !py) || frac_gt(ez, dnz, en, ed)) {
            en = ez;
            ed = dnz;
            proof {
                if px {
                    lemma_frac_le_lt_trans(ex as int, dnx as int, en2, ed2, ez as int, dnz as int);
                }
                if py {
                    lemma_frac_le_lt_trans(ey as int, dny as int, en2, ed2, ez as int, dnz as int);
                }
            }
        }
        proof {
            assert(px ==> ex * (ed as int) <= (en as int) * dnx);
            assert(py ==> ey * (ed as int) <= (en as int) * dny);
            assert(pz ==> ez * (ed as int) <= (en as int) * dnz);
            enter_witness(
                b,
                *ray,
                px,
                py,
                pz,
                ex as int,
                xx as int,
                dnx as int,
                ey as int,
                xy as int,
                dny as int,
                ez as int,
                xz as int,
                dnz as int,
                en as int,
                ed as int,
            );
        }
        RaycastResult::Hit { t_num: en, t_den: ed }
    }
}

} // verus!
