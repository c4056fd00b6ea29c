use octree_index::{NodeState, Octree, Vec3, GRAY, UNIT};

/// 0.9 in the fixed-point scale.
const NINE_TENTHS: i64 = 9 * UNIT / 10;

fn origin() -> Vec3 {
    Vec3::new(0, 0, 0)
}

/// A flat position buffer with six scalars per point: position, then a
/// color placeholder.
fn buffer_of(points: &[(i64, i64, i64)]) -> Vec<i64> {
    let mut buf = Vec::new();
    for &(x, y, z) in points {
        buf.extend_from_slice(&[x, y, z, 0, 0, 0]);
    }
    buf
}

fn sorted(mut v: Vec<usize>) -> Vec<usize> {
    v.sort();
    v
}

#[test]
fn new_tree_is_an_empty_leaf() {
    let t = Octree::new(origin(), 2 * UNIT);
    match &t.state {
        NodeState::Leaf { point_indices } => assert!(point_indices.is_empty()),
        NodeState::Internal { .. } => panic!("a fresh tree must be a leaf"),
    }
    assert_eq!(t.get_num_cubes(), 1);
}

#[test]
fn small_root_stores_directly_and_never_subdivides() {
    let mut t = Octree::new(origin(), UNIT);
    t.insert(4, Vec3::new(100, -100, 0));
    t.insert(5, Vec3::new(-3, 7, 9));
    match &t.state {
        NodeState::Leaf { point_indices } => assert_eq!(point_indices, &vec![4, 5]),
        NodeState::Internal { .. } => panic!("a region at the threshold must stay a leaf"),
    }
    assert_eq!(t.get_num_cubes(), 1);
}

#[test]
fn scenario_single_insert_routes_to_positive_octant() {
    // Root of edge 2.0 over the origin; one point in the all-positive corner.
    let mut t = Octree::new(origin(), 2 * UNIT);
    t.insert(0, Vec3::new(NINE_TENTHS, NINE_TENTHS, NINE_TENTHS));
    match &t.state {
        NodeState::Internal { children } => {
            assert_eq!(children.len(), 8);
            for (k, child) in children.iter().enumerate() {
                assert_eq!(child.size, UNIT);
                match &child.state {
                    NodeState::Leaf { point_indices } => {
                        if k == 7 {
                            assert_eq!(point_indices, &vec![0]);
                        } else {
                            assert!(point_indices.is_empty());
                        }
                    },
                    NodeState::Internal { .. } => panic!("children of size 1.0 must be leaves"),
                }
            }
            // child 7 is the all-positive octant
            assert_eq!(children[7].center, Vec3::new(UNIT / 2, UNIT / 2, UNIT / 2));
        },
        NodeState::Leaf { .. } => panic!("an oversized root must subdivide on first insert"),
    }
    assert_eq!(t.get_num_cubes(), 9);
}

#[test]
fn scenario_opposite_octants_and_sphere_queries() {
    let mut t = Octree::new(origin(), 2 * UNIT);
    t.insert(0, Vec3::new(NINE_TENTHS, NINE_TENTHS, NINE_TENTHS));
    t.insert(1, Vec3::new(-NINE_TENTHS, -NINE_TENTHS, -NINE_TENTHS));
    match &t.state {
        NodeState::Internal { children } => {
            match &children[7].state {
                NodeState::Leaf { point_indices } => assert_eq!(point_indices, &vec![0]),
                _ => panic!("expected a leaf"),
            }
            match &children[0].state {
                NodeState::Leaf { point_indices } => assert_eq!(point_indices, &vec![1]),
                _ => panic!("expected a leaf"),
            }
        },
        NodeState::Leaf { .. } => panic!("expected a subdivided root"),
    }
    let buf = buffer_of(&[
        (NINE_TENTHS, NINE_TENTHS, NINE_TENTHS),
        (-NINE_TENTHS, -NINE_TENTHS, -NINE_TENTHS),
    ]);
    let wide = t.query_sphere(&origin(), 3 * UNIT, &buf);
    assert_eq!(sorted(wide), vec![0, 1]);
    let narrow = t.query_sphere(&origin(), UNIT / 10, &buf);
    assert!(narrow.is_empty());
}

#[test]
fn ties_route_to_the_negative_octant() {
    let mut t = Octree::new(origin(), 2 * UNIT);
    // exactly on all three center planes: strict greater-than fails, so
    // the point lands in the all-negative child
    t.insert(3, origin());
    match &t.state {
        NodeState::Internal { children } => match &children[0].state {
            NodeState::Leaf { point_indices } => assert_eq!(point_indices, &vec![3]),
            _ => panic!("expected a leaf"),
        },
        NodeState::Leaf { .. } => panic!("expected a subdivided root"),
    }
}

#[test]
fn deep_subdivision_halves_until_the_threshold() {
    // Edge 4.0 needs two rounds of halving before a leaf can store.
    let mut t = Octree::new(origin(), 4 * UNIT);
    t.insert(0, Vec3::new(UNIT / 2, UNIT / 2, UNIT / 2));
    // root + 8 children + 8 grandchildren of the touched child
    assert_eq!(t.get_num_cubes(), 17);
    match &t.state {
        NodeState::Internal { children } => {
            assert_eq!(children[7].size, 2 * UNIT);
            match &children[7].state {
                NodeState::Internal { children: grand } => {
                    assert_eq!(grand[0].size, UNIT);
                    match &grand[0].state {
                        NodeState::Leaf { point_indices } => {
                            assert_eq!(point_indices, &vec![0]);
                        },
                        _ => panic!("expected a leaf at the threshold"),
                    }
                },
                _ => panic!("the touched child must subdivide in turn"),
            }
        },
        NodeState::Leaf { .. } => panic!("expected a subdivided root"),
    }
}

#[test]
fn points_in_the_same_octant_share_a_leaf() {
    let mut t = Octree::new(origin(), 2 * UNIT);
    t.insert(0, Vec3::new(NINE_TENTHS, NINE_TENTHS, NINE_TENTHS));
    t.insert(1, Vec3::new(UNIT / 4, UNIT / 3, UNIT / 2));
    match &t.state {
        NodeState::Internal { children } => match &children[7].state {
            NodeState::Leaf { point_indices } => {
                assert_eq!(point_indices, &vec![0, 1]);
            },
            _ => panic!("expected a leaf"),
        },
        NodeState::Leaf { .. } => panic!("expected a subdivided root"),
    }
    assert_eq!(t.get_num_cubes(), 9);
}

#[test]
fn emission_of_a_single_leaf() {
    let t = Octree::new(Vec3::new(UNIT, 0, -UNIT), UNIT);
    let mut vertices = Vec::new();
    t.get_vertices(&mut vertices);
    // 36 vertices of 6 scalars
    assert_eq!(vertices.len(), 216);
    let h = UNIT / 2;
    // first vertex: bottom-left of the front (+z) face, then the color
    assert_eq!(&vertices[0..6], &[UNIT - h, -h, -UNIT + h, GRAY, GRAY, GRAY]);
    // every vertex carries the fixed mid-gray color
    for v in vertices.chunks(6) {
        assert_eq!(&v[3..6], &[GRAY, GRAY, GRAY]);
    }
}

#[test]
fn emission_length_counts_one_cube_per_leaf() {
    let mut t = Octree::new(origin(), 2 * UNIT);
    t.insert(0, Vec3::new(NINE_TENTHS, NINE_TENTHS, NINE_TENTHS));
    let mut vertices = Vec::new();
    t.get_vertices(&mut vertices);
    // eight leaves emit; the internal root emits nothing of its own
    assert_eq!(vertices.len(), 8 * 36 * 6);
}

#[test]
fn emission_is_deterministic_across_builds() {
    let build = || {
        let mut t = Octree::new(origin(), 2 * UNIT);
        t.insert(0, Vec3::new(NINE_TENTHS, NINE_TENTHS, NINE_TENTHS));
        t.insert(1, Vec3::new(-NINE_TENTHS, NINE_TENTHS, -NINE_TENTHS));
        t.insert(2, Vec3::new(1, -1, 1));
        let mut vertices = Vec::new();
        t.get_vertices(&mut vertices);
        vertices
    };
    assert_eq!(build(), build());
}

#[test]
fn emission_appends_after_existing_scalars() {
    let t = Octree::new(origin(), UNIT);
    let mut vertices = vec![7, 8, 9];
    t.get_vertices(&mut vertices);
    assert_eq!(vertices.len(), 3 + 216);
    assert_eq!(&vertices[0..3], &[7, 8, 9]);
}

#[test]
fn covering_query_returns_every_index_exactly_once() {
    let points = [
        (NINE_TENTHS, NINE_TENTHS, NINE_TENTHS),
        (-NINE_TENTHS, -NINE_TENTHS, NINE_TENTHS),
        (100, -200, 300),
        (-UNIT / 2, UNIT / 2, -UNIT / 2),
        (0, 0, 0),
    ];
    let mut t = Octree::new(origin(), 2 * UNIT);
    for (i, &(x, y, z)) in points.iter().enumerate() {
        t.insert(i, Vec3::new(x, y, z));
    }
    let buf = buffer_of(&points);
    let found = t.query_sphere(&origin(), 4 * UNIT, &buf);
    assert_eq!(sorted(found), vec![0, 1, 2, 3, 4]);
}

#[test]
fn zero_radius_query_on_an_exact_position() {
    let p = (NINE_TENTHS, -NINE_TENTHS, NINE_TENTHS);
    let mut t = Octree::new(origin(), 2 * UNIT);
    t.insert(0, Vec3::new(p.0, p.1, p.2));
    let buf = buffer_of(&[p]);
    let found = t.query_sphere(&Vec3::new(p.0, p.1, p.2), 0, &buf);
    assert_eq!(found, vec![0]);
}

#[test]
fn query_misses_points_outside_the_radius() {
    let points = [(NINE_TENTHS, 0, 0), (-NINE_TENTHS, 0, 0)];
    let mut t = Octree::new(origin(), 2 * UNIT);
    t.insert(0, Vec3::new(points[0].0, points[0].1, points[0].2));
    t.insert(1, Vec3::new(points[1].0, points[1].1, points[1].2));
    let buf = buffer_of(&points);
    // a sphere hugging point 0 only
    let found = t.query_sphere(&Vec3::new(NINE_TENTHS, 0, 0), UNIT / 10, &buf);
    assert_eq!(found, vec![0]);
}

#[test]
fn boundary_distance_is_inclusive() {
    let points = [(UNIT / 2, 0, 0)];
    let mut t = Octree::new(origin(), 2 * UNIT);
    t.insert(0, Vec3::new(UNIT / 2, 0, 0));
    let buf = buffer_of(&points);
    // distance from the origin is exactly the radius
    let found = t.query_sphere(&origin(), UNIT / 2, &buf);
    assert_eq!(found, vec![0]);
}

#[test]
fn duplicate_indices_are_kept_as_given() {
    let mut t = Octree::new(origin(), UNIT);
    t.insert(2, Vec3::new(5, 5, 5));
    t.insert(2, Vec3::new(5, 5, 5));
    match &t.state {
        NodeState::Leaf { point_indices } => assert_eq!(point_indices, &vec![2, 2]),
        _ => panic!("expected a leaf"),
    }
}

#[test]
fn out_of_cube_point_is_routed_but_lost_to_pruning() {
    // far outside the root cube on the positive side: the sign tests all
    // pass, so it lands in the all-positive octant anyway
    let far = 10 * UNIT;
    let mut t = Octree::new(origin(), 2 * UNIT);
    t.insert(9, Vec3::new(far, far, far));
    assert_eq!(t.get_num_cubes(), 9);
    match &t.state {
        NodeState::Internal { children } => match &children[7].state {
            NodeState::Leaf { point_indices } => assert_eq!(point_indices, &vec![9]),
            _ => panic!("expected a leaf"),
        },
        NodeState::Leaf { .. } => panic!("expected a subdivided root"),
    }
    let mut buf = vec![0; 10 * 6];
    buf[9 * 6] = far;
    buf[9 * 6 + 1] = far;
    buf[9 * 6 + 2] = far;
    // a tight sphere around the stored position cannot reach the root
    // cube, so the whole tree is pruned: the out-of-cube point is lost
    let tight = t.query_sphere(&Vec3::new(far, far, far), UNIT, &buf);
    assert!(tight.is_empty());
    // a sphere that reaches the leaf's cube still finds it
    let wide = t.query_sphere(&Vec3::new(far, far, far), 20 * UNIT, &buf);
    assert_eq!(wide, vec![9]);
}
