use bvh::aabb::AABB;
use bvh::intersect::RaycastResult;
use bvh::ray::Ray;
use bvh::vector::{Point3, Vector3};

fn cube() -> AABB {
    AABB::with_bounds(Point3::new(-1, -1, -1), Point3::new(1, 1, 1))
}

fn ray(ox: i64, oy: i64, oz: i64, dx: i64, dy: i64, dz: i64) -> Ray {
    Ray::new(Point3::new(ox, oy, oz), Vector3::new(dx, dy, dz))
}

#[test]
fn ray_through_the_middle_hits() {
    assert!(cube().does_intersect(&ray(-5, 0, 0, 1, 0, 0)));
    assert!(cube().does_intersect(&ray(0, 5, 0, 0, -1, 0)));
    assert!(cube().does_intersect(&ray(0, 0, -9, 0, 0, 2)));
}

#[test]
fn ray_pointing_away_misses() {
    assert!(!cube().does_intersect(&ray(-5, 0, 0, -1, 0, 0)));
    assert!(!cube().does_intersect(&ray(0, 5, 0, 0, 1, 0)));
}

#[test]
fn box_entirely_behind_the_origin_misses() {
    // the slab overlap is non-empty but lies at negative parameters
    assert!(!cube().does_intersect(&ray(5, 0, 0, 1, 0, 0)));
}

#[test]
fn exit_exactly_at_the_origin_misses() {
    // origin on the far face, moving away: the exit parameter is zero
    assert!(!cube().does_intersect(&ray(1, 0, 0, 1, 0, 0)));
}

#[test]
fn entry_exactly_at_the_origin_hits() {
    // origin on the near face, moving in: positive parameters are inside
    assert!(cube().does_intersect(&ray(-1, 0, 0, 1, 0, 0)));
}

#[test]
fn origin_inside_the_box_hits() {
    assert!(cube().does_intersect(&ray(0, 0, 0, 1, 1, 1)));
    assert!(cube().does_intersect(&ray(0, 0, 0, -3, 2, 0)));
}

#[test]
fn grazing_the_edge_hits() {
    // runs along the top face: touching counts as intersecting
    assert!(cube().does_intersect(&ray(-5, 1, 0, 1, 0, 0)));
}

#[test]
fn parallel_ray_outside_the_slab_misses() {
    assert!(!cube().does_intersect(&ray(-5, 2, 0, 1, 0, 0)));
    assert!(!cube().does_intersect(&ray(-5, 0, -2, 1, 0, 0)));
}

#[test]
fn diagonal_ray_between_boxes_misses() {
    // passes the corner region without entering
    assert!(!cube().does_intersect(&ray(-3, 3, 0, 1, 1, 0)));
    // and a diagonal that does enter
    assert!(cube().does_intersect(&ray(-3, -3, 0, 1, 1, 0)));
}

#[test]
fn intersection_reports_the_entry_parameter() {
    // the near face lies four units ahead
    assert_eq!(
        cube().intersection(&ray(-5, 0, 0, 1, 0, 0)),
        RaycastResult::Hit { t_num: 4, t_den: 1 }
    );
    // with a faster direction the parameter is the exact fraction 4/2
    assert_eq!(
        cube().intersection(&ray(-5, 0, 0, 2, 0, 0)),
        RaycastResult::Hit { t_num: 4, t_den: 2 }
    );
}

#[test]
fn intersection_from_inside_has_a_negative_entry() {
    assert_eq!(
        cube().intersection(&ray(0, 0, 0, 1, 0, 0)),
        RaycastResult::Hit { t_num: -1, t_den: 1 }
    );
}

#[test]
fn intersection_takes_the_latest_entry_across_axes() {
    let b = AABB::with_bounds(Point3::new(2, 6, -1), Point3::new(10, 12, 1));
    // x is entered at parameter 2, y at parameter 3: the box itself at 3
    let r = ray(0, 0, 0, 1, 2, 0);
    assert_eq!(b.intersection(&r), RaycastResult::Hit { t_num: 6, t_den: 2 });
}

#[test]
fn intersection_misses_behind_and_on_grazing_contact() {
    // entirely behind the origin
    assert_eq!(cube().intersection(&ray(5, 0, 0, 1, 0, 0)), RaycastResult::Miss);
    // grazing along the top face: no interior is entered
    assert_eq!(cube().intersection(&ray(-5, 1, 0, 1, 0, 0)), RaycastResult::Miss);
    // a zero direction has no parametric entry
    assert_eq!(cube().intersection(&ray(0, 0, 0, 0, 0, 0)), RaycastResult::Miss);
    // while the boolean test accepts touching and the motionless inside ray
    assert!(cube().does_intersect(&ray(-5, 1, 0, 1, 0, 0)));
    assert!(cube().does_intersect(&ray(0, 0, 0, 0, 0, 0)));
}

#[test]
fn empty_box_is_never_hit() {
    let empty = AABB::empty();
    assert!(!empty.does_intersect(&ray(0, 0, 0, 1, 0, 0)));
    assert!(!empty.does_intersect(&ray(-5, 3, 2, 2, -1, 1)));
}

#[test]
fn skewed_directions_are_exact() {
    let b = AABB::with_bounds(Point3::new(10, 10, 0), Point3::new(12, 12, 0));
    // from the origin, direction (5,5,0) passes through the corner band
    assert!(b.does_intersect(&ray(0, 0, 0, 5, 5, 0)));
    // direction (6,5,0) still touches the corner at parameter 2 exactly
    assert!(b.does_intersect(&ray(0, 0, 0, 6, 5, 0)));
    // direction (7,5,0) leaves the two slabs' parameter ranges disjoint
    assert!(!b.does_intersect(&ray(0, 0, 0, 7, 5, 0)));
}
