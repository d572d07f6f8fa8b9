use bvh::aabb::AABB;
use bvh::bvh::BVH;
use bvh::ray::Ray;
use bvh::vector::{Point3, Vector3};

fn boxes_on_a_line() -> Vec<AABB> {
    vec![
        AABB::with_bounds(Point3::new(-21, -1, -1), Point3::new(-19, 1, 1)),
        AABB::with_bounds(Point3::new(-1, -1, -1), Point3::new(1, 1, 1)),
        AABB::with_bounds(Point3::new(19, -1, -1), Point3::new(21, 1, 1)),
    ]
}

fn ray(ox: i64, oy: i64, oz: i64, dx: i64, dy: i64, dz: i64) -> Ray {
    Ray::new(Point3::new(ox, oy, oz), Vector3::new(dx, dy, dz))
}

fn sorted(mut v: Vec<usize>) -> Vec<usize> {
    v.sort();
    v
}

#[test]
fn flat_form_has_one_node_per_tree_node() {
    let objects = boxes_on_a_line();
    let tree = BVH::build(&objects);
    let flat = tree.flatten(&objects);
    assert_eq!(flat.nodes.len(), tree.nodes.len());
}

#[test]
fn exit_offsets_jump_strictly_forward() {
    let objects = boxes_on_a_line();
    let flat = BVH::build(&objects).flatten(&objects);
    for (k, node) in flat.nodes.iter().enumerate() {
        assert!(node.exit_offset > k);
        assert!(node.exit_offset <= flat.nodes.len());
    }
    // the root's exit is one past the end of the array
    assert_eq!(flat.nodes[0].exit_offset, flat.nodes.len());
}

#[test]
fn flat_traversal_equals_recursive_traversal() {
    let objects = boxes_on_a_line();
    let tree = BVH::build(&objects);
    let flat = tree.flatten(&objects);
    let rays = [
        ray(-20, -10, 0, 0, 1, 0),
        ray(-40, 0, 0, 1, 0, 0),
        ray(0, 20, 0, 0, -1, 0),
        ray(-40, 100, 0, 1, 0, 0),
        ray(0, 0, 0, 1, 1, 1),
    ];
    for r in rays {
        assert_eq!(
            sorted(tree.traverse(&r, &objects)),
            sorted(flat.traverse(&r, &objects))
        );
    }
}

#[test]
fn flat_traversal_equivalence_on_a_cloud() {
    let mut objects: Vec<AABB> = Vec::new();
    for i in 0..30i64 {
        let x = (i * 43) % 97 - 48;
        let y = (i * 19) % 67 - 33;
        let z = (i * 31) % 59 - 29;
        objects.push(AABB::with_bounds(
            Point3::new(x, y, z),
            Point3::new(x + 3, y + 2, z + 4),
        ));
    }
    let tree = BVH::build(&objects);
    let flat = tree.flatten(&objects);
    let rays = [
        ray(-60, 0, 0, 2, 0, 1),
        ray(0, -60, 10, 0, 1, 0),
        ray(5, 5, -60, -1, -1, 3),
        ray(0, 0, 0, 7, -3, 2),
    ];
    for r in rays {
        assert_eq!(
            sorted(tree.traverse(&r, &objects)),
            sorted(flat.traverse(&r, &objects))
        );
    }
}

#[test]
fn flat_empty_tree_traverses_to_nothing() {
    let objects: Vec<AABB> = Vec::new();
    let flat = BVH::build(&objects).flatten(&objects);
    assert_eq!(flat.nodes.len(), 0);
    assert!(flat.traverse(&ray(0, 0, 0, 1, 0, 0), &objects).is_empty());
}

#[test]
fn flat_single_leaf_carries_the_object() {
    let objects = vec![AABB::with_bounds(Point3::new(-1, -1, -1), Point3::new(1, 1, 1))];
    let flat = BVH::build(&objects).flatten(&objects);
    assert_eq!(flat.nodes.len(), 1);
    assert_eq!(flat.nodes[0].object_index, Some(0));
    assert_eq!(flat.nodes[0].bound, objects[0]);
    assert_eq!(flat.traverse(&ray(-5, 0, 0, 1, 0, 0), &objects), vec![0]);
    assert!(flat.traverse(&ray(-5, 5, 0, 1, 0, 0), &objects).is_empty());
}

#[test]
fn flat_leaves_carry_object_bounds() {
    let objects = boxes_on_a_line();
    let flat = BVH::build(&objects).flatten(&objects);
    for node in &flat.nodes {
        if let Some(o) = node.object_index {
            assert_eq!(node.bound, objects[o]);
        }
    }
}
