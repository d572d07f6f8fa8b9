use bvh::aabb::{Bounded, AABB};
use bvh::axis::Axis;
use bvh::vector::Point3;
use bvh::MAX_COORD;

fn p(x: i64, y: i64, z: i64) -> Point3 {
    Point3::new(x, y, z)
}

#[test]
fn with_bounds_keeps_corners() {
    let aabb = AABB::with_bounds(p(-1, -2, -3), p(1, 2, 3));
    assert_eq!(aabb.min, p(-1, -2, -3));
    assert_eq!(aabb.max, p(1, 2, 3));
}

#[test]
fn empty_contains_nothing() {
    let aabb = AABB::empty();
    assert!(!aabb.contains(&p(0, 0, 0)));
    assert!(!aabb.contains(&p(MAX_COORD, MAX_COORD, MAX_COORD)));
    assert!(!aabb.contains(&p(-MAX_COORD, 0, 17)));
}

#[test]
fn default_is_empty() {
    let aabb: AABB = Default::default();
    assert!(!aabb.contains(&p(0, 0, 0)));
    assert_eq!(aabb.min, AABB::empty().min);
    assert_eq!(aabb.max, AABB::empty().max);
}

#[test]
fn contains_classifies_points() {
    let aabb = AABB::with_bounds(p(-1, -1, -1), p(1, 1, 1));
    assert!(aabb.contains(&p(0, 0, 0)));
    assert!(aabb.contains(&p(1, 1, 1)));
    assert!(aabb.contains(&p(-1, -1, -1)));
    assert!(!aabb.contains(&p(1, -2, 4)));
    assert!(!aabb.contains(&p(2, 0, 0)));
}

#[test]
fn approx_contains_widens_by_epsilon() {
    let aabb = AABB::with_bounds(p(-10, -10, -10), p(10, 10, 10));
    assert!(aabb.approx_contains_eps(&p(11, -11, 10), 2));
    assert!(!aabb.approx_contains_eps(&p(12, 0, 0), 2));
    assert!(!aabb.approx_contains_eps(&p(0, -20, 0), 2));
}

#[test]
fn join_is_the_convex_hull() {
    let a = AABB::with_bounds(p(-101, 0, 0), p(-100, 1, 1));
    let b = AABB::with_bounds(p(100, 0, 0), p(101, 1, 1));
    let joint = a.join(&b);
    assert_eq!(joint.min, p(-101, 0, 0));
    assert_eq!(joint.max, p(101, 1, 1));
    assert!(joint.contains(&p(0, 0, 0)));
    assert!(joint.contains(&p(-100, 1, 0)));
    assert!(joint.contains(&p(100, 0, 1)));
}

#[test]
fn join_with_empty_is_identity() {
    let a = AABB::with_bounds(p(-3, 4, -5), p(6, 7, 8));
    let j = AABB::empty().join(&a);
    assert_eq!(j.min, a.min);
    assert_eq!(j.max, a.max);
    let k = a.join(&AABB::empty());
    assert_eq!(k.min, a.min);
    assert_eq!(k.max, a.max);
}

#[test]
fn grow_covers_the_point() {
    let aabb = AABB::empty();
    assert!(!aabb.contains(&p(0, 0, 0)));
    let grown = aabb.grow(&p(0, 0, 0));
    assert!(grown.contains(&p(0, 0, 0)));
    let grown2 = grown.grow(&p(2, 2, 2));
    assert!(grown2.contains(&p(2, 2, 2)));
    assert!(grown2.contains(&p(1, 1, 1)));
    assert!(!grown2.contains(&p(3, 3, 3)));
}

#[test]
fn join_bounded_covers_the_other() {
    let aabb = AABB::empty();
    let other = AABB::with_bounds(p(0, 0, 0), p(1, 1, 1));
    let joined = aabb.join_bounded(&other);
    assert!(joined.contains(&other.center()));
}

#[test]
fn size_center_of_a_cube() {
    let aabb = AABB::with_bounds(p(41, 41, 41), p(43, 43, 43));
    let size = aabb.size();
    assert!(size.x == 2 && size.y == 2 && size.z == 2);
    let center = aabb.center();
    assert!(center.x == 42 && center.y == 42 && center.z == 42);
}

#[test]
fn surface_area_and_volume_of_a_cube() {
    let aabb = AABB::with_bounds(p(41, 41, 41), p(43, 43, 43));
    assert_eq!(aabb.surface_area(), 24);
    assert_eq!(aabb.volume(), 8);
}

#[test]
fn surface_area_of_a_slab() {
    let aabb = AABB::with_bounds(p(0, 0, 0), p(10, 2, 1));
    // 2 * (10*2 + 10*1 + 2*1)
    assert_eq!(aabb.surface_area(), 64);
    assert_eq!(aabb.volume(), 20);
}

#[test]
fn largest_axis_prefers_x_then_y_then_z() {
    let wide = AABB::with_bounds(p(-100, 0, 0), p(100, 0, 0));
    assert!(wide.largest_axis() == Axis::X);
    let tall = AABB::with_bounds(p(0, -100, 0), p(1, 100, 1));
    assert!(tall.largest_axis() == Axis::Y);
    let deep = AABB::with_bounds(p(0, 0, -100), p(1, 1, 100));
    assert!(deep.largest_axis() == Axis::Z);
    // ties prefer the earlier axis
    let cube = AABB::with_bounds(p(0, 0, 0), p(1, 1, 1));
    assert!(cube.largest_axis() == Axis::X);
    let yz_tie = AABB::with_bounds(p(0, 0, 0), p(1, 2, 2));
    assert!(yz_tie.largest_axis() == Axis::Y);
}

#[test]
fn aabb_is_bounded_by_itself() {
    let aabb = AABB::empty().grow(&p(3, 4, 5)).grow(&p(17, 18, 19));
    let again = aabb.aabb();
    assert_eq!(again.min, aabb.min);
    assert_eq!(again.max, aabb.max);
}

#[test]
fn point_is_bounded_by_a_degenerate_box() {
    let point = p(3, 4, 5);
    let aabb = point.aabb();
    assert!(aabb.contains(&point));
    assert_eq!(aabb.min, point);
    assert_eq!(aabb.max, point);
}
