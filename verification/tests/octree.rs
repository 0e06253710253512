use rusty_potree_converter::model::bounds::{find_bounds, Bounds};
use rusty_potree_converter::model::node::{empty_child_node_array, Node};
use rusty_potree_converter::model::vector3::{Vector3, MAX_COORDINATE};
use rusty_potree_converter::potree::{integer_root, BuildError, Potree};

fn pseudo_random_points(count: usize, mx: u64, my: u64, mz: u64) -> Vec<Vector3> {
    let mut state: u64 = 0x2545_F491_4F6C_DD1D;
    let mut next = move |modulus: u64| {
        state = state.wrapping_mul(6364136223846793005).wrapping_add(1442695040888963407);
        ((state >> 33) % modulus) as i64
    };
    let mut points = Vec::new();
    for _ in 0..count {
        points.push(Vector3 { x: next(mx), y: next(my), z: next(mz) });
    }
    points
}

fn stored_points(node: &Node) -> usize {
    let mut count = node.points().len();
    for child in node.children.iter() {
        if let Some(child) = child {
            count += stored_points(child);
        }
    }
    count
}

fn counted_points(node: &Node) -> usize {
    let mut count = node.num_points();
    for child in node.children.iter() {
        if let Some(child) = child {
            count += counted_points(child);
        }
    }
    count
}

fn deepest_level(node: &Node) -> usize {
    let mut level = node.level();
    for child in node.children.iter() {
        if let Some(child) = child {
            level = level.max(deepest_level(child));
        }
    }
    level
}

#[test]
fn empty_input_is_rejected() {
    let result = Potree::new(Vec::new(), 10);
    assert!(matches!(result, Err(BuildError::EmptyInput)));
}

#[test]
fn coordinate_out_of_range_is_rejected() {
    let points = vec![
        Vector3 { x: 0, y: 0, z: 0 },
        Vector3 { x: MAX_COORDINATE + 1, y: 0, z: 0 },
    ];
    assert!(matches!(Potree::new(points, 10), Err(BuildError::CoordinateOutOfRange)));
    let points = vec![Vector3 { x: 0, y: -MAX_COORDINATE - 1, z: 0 }];
    assert!(matches!(Potree::new(points, 10), Err(BuildError::CoordinateOutOfRange)));
    let points = vec![Vector3 { x: MAX_COORDINATE, y: -MAX_COORDINATE, z: 0 }];
    assert!(Potree::new(points, 10).is_ok());
}

#[test]
fn single_point_below_the_limit_stays_in_the_root_leaf() {
    let tree = Potree::new(vec![Vector3 { x: 5, y: 6, z: 7 }], 2).unwrap();
    assert_eq!(tree.root().name(), "r");
    assert!(tree.root().is_leaf_node());
    assert_eq!(tree.root().level(), 0);
    assert_eq!(tree.root().num_points(), 1);
    assert_eq!(tree.root().initial_store, vec![Vector3 { x: 5, y: 6, z: 7 }]);
    assert_eq!(tree.size(), 1);
}

#[test]
fn single_point_at_the_limit_splits_the_root() {
    let tree = Potree::new(vec![Vector3 { x: 5, y: 6, z: 7 }], 1).unwrap();
    assert_eq!(tree.root().name(), "r");
    assert!(!tree.root().is_leaf_node());
    assert_eq!(tree.root().num_points(), 1);
    assert!(tree.root().initial_store.is_empty());
    assert_eq!(tree.root().points(), vec![Vector3 { x: 5, y: 6, z: 7 }]);
    let children: Vec<usize> =
        (0..8).filter(|i| tree.root().children[*i].is_some()).collect();
    assert_eq!(children, vec![7]);
    let child = tree.root().children[7].as_ref().unwrap();
    assert_eq!(child.name(), "r7");
    assert!(child.is_leaf_node());
    assert_eq!(child.num_points(), 0);
}

#[test]
fn limit_zero_splits_like_limit_one() {
    let tree = Potree::new(vec![Vector3 { x: 1, y: 2, z: 3 }], 0).unwrap();
    assert!(!tree.root().is_leaf_node());
    assert_eq!(counted_points(tree.root()), 1);
}

#[test]
fn derived_numbers_of_a_box() {
    let points = vec![
        Vector3 { x: 0, y: 0, z: 0 },
        Vector3 { x: 1_000_000, y: 1_000_000, z: 100_000 },
    ];
    let tree = Potree::new(points, 10).unwrap();
    assert_eq!(tree.bounds(), Bounds::new(1_000_000, 1_000_000, 100_000, 0, 0, 0));
    assert_eq!(tree.cubic_bounds(), Bounds::new(1_000_000, 1_000_000, 1_000_000, 0, 0, 0));
    assert_eq!(tree.squared_diagonal(), 3_000_000_000_000);
    assert_eq!(tree.squared_spacing(), 75_000_000);
    assert_eq!(tree.spacing(), 8660);
    assert_eq!(tree.scale(), 10);
    assert_eq!(tree.size(), 2);
    assert_eq!(tree.root().bounds, tree.cubic_bounds());
    assert_eq!(tree.root().squared_spacing, 75_000_000);
}

#[test]
fn scale_follows_the_diagonal() {
    let small = Potree::new(
        vec![Vector3 { x: 0, y: 0, z: 0 }, Vector3 { x: 5_773, y: 0, z: 0 }],
        10,
    )
    .unwrap();
    assert_eq!(small.squared_diagonal(), 3 * 5_773 * 5_773);
    assert_eq!(small.scale(), 1);
    let medium = Potree::new(
        vec![Vector3 { x: 0, y: 0, z: 0 }, Vector3 { x: 5_774, y: 0, z: 0 }],
        10,
    )
    .unwrap();
    assert_eq!(medium.scale(), 10);
    let still_medium = Potree::new(
        vec![Vector3 { x: 0, y: 0, z: 0 }, Vector3 { x: 5_773_502_691, y: 0, z: 0 }],
        10,
    )
    .unwrap();
    assert_eq!(still_medium.scale(), 10);
    let coarse = Potree::new(
        vec![Vector3 { x: 0, y: 0, z: 0 }, Vector3 { x: 5_773_502_692, y: 0, z: 0 }],
        10,
    )
    .unwrap();
    assert_eq!(coarse.scale(), 100);
}

#[test]
fn integer_root_rounds_down() {
    assert_eq!(integer_root(0), 0);
    assert_eq!(integer_root(1), 1);
    assert_eq!(integer_root(3), 1);
    assert_eq!(integer_root(4), 2);
    assert_eq!(integer_root(74_995_600), 8660);
    assert_eq!(integer_root(75_012_920), 8660);
    assert_eq!(integer_root(75_012_921), 8661);
    assert_eq!(integer_root((1u128 << 96) - 1), (1u64 << 48) - 1);
}

#[test]
fn uniform_cloud_splits_the_root_and_keeps_every_point() {
    let points = pseudo_random_points(10_000, 1_000_000, 1_000_000, 100_000);
    let tree = Potree::new(points, 1_000).unwrap();
    assert!(!tree.root().is_leaf_node());
    assert_eq!(stored_points(tree.root()), 10_000);
    assert_eq!(counted_points(tree.root()), 10_000);
    assert_eq!(tree.size(), 10_000);
}

#[test]
fn sparse_cloud_stays_shallow() {
    let mut points = Vec::new();
    for x in 0..11 {
        for y in 0..11 {
            for z in 0..11 {
                points.push(Vector3 { x: x * 100_000, y: y * 100_000, z: z * 100_000 });
            }
        }
    }
    let tree = Potree::new(points, 100).unwrap();
    assert_eq!(tree.spacing(), 8660);
    assert_eq!(tree.root().num_points(), 1331);
    assert_eq!(deepest_level(tree.root()), 1);
    assert_eq!(counted_points(tree.root()), 1331);
}

#[test]
fn points_at_the_spacing_are_kept_and_closer_ones_handed_down() {
    let far = Vector3 { x: 1_000_000, y: 1_000_000, z: 1_000_000 };
    let first = Vector3 { x: 0, y: 0, z: 0 };
    let on_the_boundary = Vector3 { x: 8660, y: 0, z: 0 };
    let mut root = Node::new(
        Vec::new(),
        8660 * 8660,
        Bounds::new(1_000_000, 1_000_000, 1_000_000, 0, 0, 0),
        empty_child_node_array(),
        1,
    );
    root.add_point(first);
    root.add_point(far);
    root.add_point(on_the_boundary);
    assert_eq!(root.num_points(), 3);
    assert_eq!(root.grid[0][0], vec![first, on_the_boundary]);
    root.add_point(Vector3 { x: 8659, y: 0, z: 0 });
    assert_eq!(root.num_points(), 3);
    let child = root.children[0].as_ref().unwrap();
    assert_eq!(child.name(), "r0");
    assert_eq!(child.squared_spacing, (8660 * 8660 + 3) / 4);
    assert_eq!(child.points(), vec![Vector3 { x: 8659, y: 0, z: 0 }]);
    assert_eq!(counted_points(&root), 4);
}

#[test]
fn a_leaf_splits_when_its_buffer_reaches_the_limit() {
    let mut root = Node::new(
        Vec::new(),
        100,
        Bounds::new(1_000, 1_000, 1_000, 0, 0, 0),
        empty_child_node_array(),
        3,
    );
    root.add_point(Vector3 { x: 1, y: 1, z: 1 });
    root.add_point(Vector3 { x: 2, y: 2, z: 2 });
    assert!(root.is_leaf_node());
    assert_eq!(root.num_points(), 2);
    root.add_point(Vector3 { x: 900, y: 100, z: 600 });
    assert!(!root.is_leaf_node());
    assert!(root.initial_store.is_empty());
    assert!(root.children[5].is_some());
    assert_eq!(root.grid[0][0], vec![Vector3 { x: 1, y: 1, z: 1 }]);
    assert_eq!(root.grid[5][4], vec![Vector3 { x: 900, y: 100, z: 600 }]);
    let child = root.children[0].as_ref().unwrap();
    assert_eq!(child.initial_store, vec![Vector3 { x: 2, y: 2, z: 2 }]);
    assert_eq!(root.points(), vec![Vector3 { x: 1, y: 1, z: 1 }, Vector3 { x: 900, y: 100, z: 600 }]);
    assert_eq!(counted_points(&root), 3);
}

#[test]
fn bounds_are_the_least_box() {
    let points = vec![
        Vector3 { x: 3, y: -7, z: 10 },
        Vector3 { x: -2, y: 5, z: 11 },
        Vector3 { x: 0, y: 0, z: -4 },
    ];
    let bounds = find_bounds(&points);
    assert_eq!(bounds, Bounds::new(3, 5, 11, -2, -7, -4));
    assert_eq!((bounds.size_x, bounds.size_y, bounds.size_z), (5, 12, 15));
    let cube = bounds.cubic();
    assert_eq!(cube, Bounds::new(13, 8, 11, -2, -7, -4));
    assert_eq!((cube.size_x, cube.size_y, cube.size_z), (15, 15, 15));
}

#[test]
fn child_cells_tile_the_cell() {
    let node = Node::new(
        Vec::new(),
        1,
        Bounds::new(11, 20, 7, 0, 10, -2),
        empty_child_node_array(),
        1,
    );
    let mut volume = 0;
    for index in 0..8 {
        let cell = node.compute_child_bounds(index);
        assert!(cell.lx >= 0 && cell.ux <= 11);
        assert!(cell.ly >= 10 && cell.uy <= 20);
        assert!(cell.lz >= -2 && cell.uz <= 7);
        assert_eq!(cell.lx == 0, index & 4 == 0);
        assert_eq!(cell.ly == 10, index & 2 == 0);
        assert_eq!(cell.lz == -2, index & 1 == 0);
        assert_eq!(cell.ux == 11, index & 4 != 0);
        volume += cell.size_x * cell.size_y * cell.size_z;
    }
    assert_eq!(volume, 11 * 10 * 9);
    assert_eq!(node.compute_child_bounds(0), Bounds::new(5, 15, 2, 0, 10, -2));
    assert_eq!(node.compute_child_bounds(7), Bounds::new(11, 20, 7, 5, 15, 2));
    let bounds = Bounds::new(11, 20, 7, 0, 10, -2);
    assert_eq!(Node::find_grid_index(&Vector3 { x: 4, y: 15, z: 1 }, &bounds), 2);
    assert_eq!(Node::find_grid_index(&Vector3 { x: 5, y: 14, z: 2 }, &bounds), 5);
}

#[test]
fn distance_test_is_strict() {
    let a = Vector3 { x: 0, y: 0, z: 0 };
    let b = Vector3 { x: 3, y: 4, z: 12 };
    assert!(!Node::within_distance(&a, &b, 169));
    assert!(Node::within_distance(&a, &b, 170));
    assert!(!Node::within_distance(&a, &a, 0));
    let low = Vector3 { x: -MAX_COORDINATE, y: -MAX_COORDINATE, z: -MAX_COORDINATE };
    let high = Vector3 { x: MAX_COORDINATE, y: MAX_COORDINATE, z: MAX_COORDINATE };
    assert!(Node::within_distance(&low, &high, 3 * (1u128 << 108) + 1));
    assert!(!Node::within_distance(&low, &high, 3 * (1u128 << 108)));
}

#[test]
fn vector_basics() {
    assert_eq!(Vector3::empty(), Vector3 { x: 0, y: 0, z: 0 });
    assert_eq!(Vector3 { x: 1, y: -2, z: 3 }.to_array(), [1, -2, 3]);
    assert!(Vector3 { x: MAX_COORDINATE, y: 0, z: 0 }.is_in_range());
    assert!(!Vector3 { x: 0, y: 0, z: MAX_COORDINATE + 1 }.is_in_range());
}

#[test]
fn vector_arithmetic_is_componentwise() {
    let a = Vector3 { x: 1, y: -2, z: 3 };
    let b = Vector3 { x: 10, y: 20, z: -30 };
    assert_eq!(a + b, Vector3 { x: 11, y: 18, z: -27 });
    assert_eq!(a - b, Vector3 { x: -9, y: -22, z: 33 });
    assert_eq!(a * b, Vector3 { x: 10, y: -40, z: -90 });
    assert_eq!(a * 4, Vector3 { x: 4, y: -8, z: 12 });
    assert_eq!(a + 5, Vector3 { x: 6, y: 3, z: 8 });
}
