use bvh::aabb::AABB;
use bvh::bvh::{Node, BVH};
use bvh::vector::Point3;

fn boxes_on_a_line() -> Vec<AABB> {
    // three unit cubes (at doubled, half-unit coordinates) centred on the x axis
    vec![
        AABB::with_bounds(Point3::new(-21, -1, -1), Point3::new(-19, 1, 1)),
        AABB::with_bounds(Point3::new(-1, -1, -1), Point3::new(1, 1, 1)),
        AABB::with_bounds(Point3::new(19, -1, -1), Point3::new(21, 1, 1)),
    ]
}

fn leaf_objects(tree: &BVH) -> Vec<usize> {
    let mut found: Vec<usize> = Vec::new();
    for node in &tree.nodes {
        if let Node::Leaf { object_index, .. } = node {
            found.push(*object_index);
        }
    }
    found.sort();
    found
}

#[test]
fn empty_input_builds_an_empty_tree() {
    let objects: Vec<AABB> = Vec::new();
    let tree = BVH::build(&objects);
    assert_eq!(tree.nodes.len(), 0);
}

#[test]
fn single_object_builds_a_leaf_root() {
    let objects = vec![AABB::with_bounds(Point3::new(0, 0, 0), Point3::new(1, 1, 1))];
    let tree = BVH::build(&objects);
    assert_eq!(tree.nodes.len(), 1);
    assert_eq!(
        tree.nodes[0],
        Node::Leaf { parent_index: 0, depth: 0, object_index: 0 }
    );
}

#[test]
fn three_objects_build_a_full_binary_tree() {
    let objects = boxes_on_a_line();
    let tree = BVH::build(&objects);
    // a full binary tree with 3 leaves has 5 nodes, the root at index 0
    assert_eq!(tree.nodes.len(), 5);
    assert!(matches!(tree.nodes[0], Node::Internal { .. }));
    if let Node::Internal { parent_index, depth, left_index, right_index, .. } = tree.nodes[0] {
        assert_eq!(parent_index, 0);
        assert_eq!(depth, 0);
        assert!(left_index > 0 && right_index > 0);
    }
}

#[test]
fn two_objects_split_by_position_not_input_order() {
    let near = AABB::with_bounds(Point3::new(-21, -1, -1), Point3::new(-19, 1, 1));
    let far = AABB::with_bounds(Point3::new(19, -1, -1), Point3::new(21, 1, 1));
    // whatever the input order, the left child holds the box with the lower
    // centroid along the dominant axis
    let tree_a = BVH::build(&vec![near, far]);
    assert_eq!(
        tree_a.nodes[1],
        Node::Leaf { parent_index: 0, depth: 1, object_index: 0 }
    );
    assert_eq!(
        tree_a.nodes[2],
        Node::Leaf { parent_index: 0, depth: 1, object_index: 1 }
    );
    let tree_b = BVH::build(&vec![far, near]);
    assert_eq!(
        tree_b.nodes[1],
        Node::Leaf { parent_index: 0, depth: 1, object_index: 1 }
    );
    assert_eq!(
        tree_b.nodes[2],
        Node::Leaf { parent_index: 0, depth: 1, object_index: 0 }
    );
    if let Node::Internal { left_bound, right_bound, .. } = tree_b.nodes[0] {
        assert_eq!(left_bound, near);
        assert_eq!(right_bound, far);
    }
}

#[test]
fn every_object_appears_in_exactly_one_leaf() {
    let objects = boxes_on_a_line();
    let tree = BVH::build(&objects);
    assert_eq!(leaf_objects(&tree), vec![0, 1, 2]);
}

#[test]
fn coverage_holds_for_many_identical_boxes() {
    // duplicate centroids force the median-count fallback
    let cube = AABB::with_bounds(Point3::new(0, 0, 0), Point3::new(2, 2, 2));
    let objects = vec![cube; 7];
    let tree = BVH::build(&objects);
    assert_eq!(tree.nodes.len(), 13);
    assert_eq!(leaf_objects(&tree), vec![0, 1, 2, 3, 4, 5, 6]);
}

#[test]
fn cached_bounds_are_tight_unions() {
    let objects = boxes_on_a_line();
    let tree = BVH::build(&objects);

    // recompute each subtree's union bottom-up and compare with the cache
    fn union_of(tree: &BVH, objects: &Vec<AABB>, i: usize) -> AABB {
        match tree.nodes[i] {
            Node::Leaf { object_index, .. } => objects[object_index],
            Node::Internal { left_index, right_index, .. } => {
                union_of(tree, objects, left_index).join(&union_of(tree, objects, right_index))
            }
        }
    }
    for i in 0..tree.nodes.len() {
        if let Node::Internal { left_index, left_bound, right_index, right_bound, .. } =
            tree.nodes[i]
        {
            let lu = union_of(&tree, &objects, left_index);
            let ru = union_of(&tree, &objects, right_index);
            assert_eq!(left_bound, lu);
            assert_eq!(right_bound, ru);
        }
    }
}

#[test]
fn depths_and_parents_are_consistent() {
    let objects = boxes_on_a_line();
    let tree = BVH::build(&objects);
    for i in 0..tree.nodes.len() {
        if let Node::Internal { left_index, right_index, depth, .. } = tree.nodes[i] {
            for child in [left_index, right_index] {
                let (p, d) = match tree.nodes[child] {
                    Node::Leaf { parent_index, depth, .. } => (parent_index, depth),
                    Node::Internal { parent_index, depth, .. } => (parent_index, depth),
                };
                assert_eq!(p, i);
                assert_eq!(d, depth + 1);
            }
        }
    }
}

#[test]
fn building_twice_gives_identical_trees() {
    let objects = boxes_on_a_line();
    let first = BVH::build(&objects);
    let second = BVH::build(&objects);
    assert_eq!(first.nodes, second.nodes);
}

#[test]
fn default_bucket_count_matches_explicit() {
    let objects = boxes_on_a_line();
    let a = BVH::build(&objects);
    let b = BVH::build_with_buckets(&objects, bvh::builder::DEFAULT_BUCKETS);
    assert_eq!(a.nodes, b.nodes);
}

#[test]
fn other_bucket_counts_still_cover_everything() {
    let objects = boxes_on_a_line();
    for nb in [2, 3, 12, 64] {
        let tree = BVH::build_with_buckets(&objects, nb);
        assert_eq!(tree.nodes.len(), 5);
        assert_eq!(leaf_objects(&tree), vec![0, 1, 2]);
    }
}

#[test]
fn building_a_spread_cloud_keeps_coverage() {
    let mut objects: Vec<AABB> = Vec::new();
    for i in 0..25i64 {
        let x = (i * 37) % 101 - 50;
        let y = (i * 61) % 89 - 44;
        let z = (i * 13) % 53 - 26;
        objects.push(AABB::with_bounds(
            Point3::new(x, y, z),
            Point3::new(x + 1 + i % 3, y + 1, z + 2),
        ));
    }
    let tree = BVH::build(&objects);
    assert_eq!(tree.nodes.len(), 2 * objects.len() - 1);
    let expected: Vec<usize> = (0..objects.len()).collect();
    assert_eq!(leaf_objects(&tree), expected);
}
