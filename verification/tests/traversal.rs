use bvh::aabb::AABB;
use bvh::bvh::BVH;
use bvh::ray::Ray;
use bvh::vector::{Point3, Vector3};

fn boxes_on_a_line() -> Vec<AABB> {
    // three unit cubes (at doubled, half-unit coordinates) centred at
    // (-10,0,0), (0,0,0) and (10,0,0)
    vec![
        AABB::with_bounds(Point3::new(-21, -1, -1), Point3::new(-19, 1, 1)),
        AABB::with_bounds(Point3::new(-1, -1, -1), Point3::new(1, 1, 1)),
        AABB::with_bounds(Point3::new(19, -1, -1), Point3::new(21, 1, 1)),
    ]
}

fn ray(ox: i64, oy: i64, oz: i64, dx: i64, dy: i64, dz: i64) -> Ray {
    Ray::new(Point3::new(ox, oy, oz), Vector3::new(dx, dy, dz))
}

fn sorted(mut v: Vec<usize>) -> Vec<usize> {
    v.sort();
    v
}

#[test]
fn upward_ray_finds_only_the_first_cube() {
    let objects = boxes_on_a_line();
    let tree = BVH::build(&objects);
    let hits = tree.traverse(&ray(-20, -10, 0, 0, 1, 0), &objects);
    assert_eq!(sorted(hits), vec![0]);
}

#[test]
fn axis_ray_passes_through_all_three_cubes() {
    let objects = boxes_on_a_line();
    let tree = BVH::build(&objects);
    let hits = tree.traverse(&ray(-40, 0, 0, 1, 0, 0), &objects);
    assert_eq!(sorted(hits), vec![0, 1, 2]);
}

#[test]
fn downward_ray_finds_only_the_middle_cube() {
    let objects = boxes_on_a_line();
    let tree = BVH::build(&objects);
    let hits = tree.traverse(&ray(0, 20, 0, 0, -1, 0), &objects);
    assert_eq!(sorted(hits), vec![1]);
}

#[test]
fn ray_missing_everything_returns_nothing() {
    let objects = boxes_on_a_line();
    let tree = BVH::build(&objects);
    let hits = tree.traverse(&ray(-40, 100, 0, 1, 0, 0), &objects);
    assert!(hits.is_empty());
}

#[test]
fn ray_behind_all_cubes_returns_nothing() {
    let objects = boxes_on_a_line();
    let tree = BVH::build(&objects);
    // pointing away from every cube
    let hits = tree.traverse(&ray(40, 0, 0, 1, 0, 0), &objects);
    assert!(hits.is_empty());
}

#[test]
fn empty_tree_traverses_to_nothing() {
    let objects: Vec<AABB> = Vec::new();
    let tree = BVH::build(&objects);
    let hits = tree.traverse(&ray(0, 0, 0, 1, 0, 0), &objects);
    assert!(hits.is_empty());
}

#[test]
fn single_leaf_tree_is_hit_or_missed() {
    let objects = vec![AABB::with_bounds(Point3::new(-1, -1, -1), Point3::new(1, 1, 1))];
    let tree = BVH::build(&objects);
    assert_eq!(tree.traverse(&ray(-5, 0, 0, 1, 0, 0), &objects), vec![0]);
    assert!(tree.traverse(&ray(-5, 5, 0, 1, 0, 0), &objects).is_empty());
}

#[test]
fn overlapping_objects_are_each_reported_once() {
    let cube = AABB::with_bounds(Point3::new(-1, -1, -1), Point3::new(1, 1, 1));
    let objects = vec![cube, cube, cube, cube];
    let tree = BVH::build(&objects);
    let hits = tree.traverse(&ray(-5, 0, 0, 1, 0, 0), &objects);
    assert_eq!(sorted(hits), vec![0, 1, 2, 3]);
}

#[test]
fn candidates_match_a_direct_scan() {
    let mut objects: Vec<AABB> = Vec::new();
    for i in 0..20i64 {
        let x = (i * 29) % 71 - 35;
        let y = (i * 17) % 41 - 20;
        let z = (i * 7) % 23 - 11;
        objects.push(AABB::with_bounds(
            Point3::new(x, y, z),
            Point3::new(x + 2, y + 3, z + 1),
        ));
    }
    let tree = BVH::build(&objects);
    let rays = [
        ray(-50, 0, 0, 1, 0, 0),
        ray(0, 50, 0, 0, -1, 0),
        ray(0, 0, 0, 3, 1, -2),
        ray(10, -30, 5, -1, 2, 0),
    ];
    for r in rays {
        let got = sorted(tree.traverse(&r, &objects));
        let expected: Vec<usize> =
            (0..objects.len()).filter(|&i| objects[i].does_intersect(&r)).collect();
        assert_eq!(got, expected);
    }
}
