use hexsphere::chunk_index::{ancestor, contains_index, same_index, starts_with};
use hexsphere::grid::{distance_squared_of, offset_squared_of, Center, Position, UNIT};
use hexsphere::octree::{Octree, Point};

fn origin() -> Position {
    Position { x: 0, y: 0, z: 0 }
}

/// Point `i` of `n` on a Fibonacci spiral over the unit sphere.
fn sphere_point(i: u32, n: u32) -> Position {
    let phi = std::f64::consts::PI * (5.0f64.sqrt() - 1.0);
    let y = 1.0 - (i as f64 / (n as f64 - 1.0)) * 2.0;
    let radius = (1.0 - y * y).sqrt();
    let theta = phi * i as f64;
    let scale = UNIT as f64;
    Position {
        x: (theta.cos() * radius * scale).round() as i32,
        y: (y * scale).round() as i32,
        z: (theta.sin() * radius * scale).round() as i32,
    }
}

fn sphere_tree(n: u32, capacity: usize) -> Octree {
    let mut tree = Octree::new(capacity, origin(), UNIT, 0, vec![]);
    for i in 0..n {
        tree.insert(Point { position: sphere_point(i, n), value: i as usize });
    }
    tree
}

#[test]
fn new_tree_is_an_empty_leaf() {
    let tree = Octree::new(16, origin(), UNIT, 0, vec![]);
    assert_eq!(tree.cells(), Vec::<usize>::new());
    assert_eq!(tree.height, 0);
    assert_eq!(tree.depth, 0);
    assert_eq!(tree.children.len(), 8);
    assert!(tree.points.is_some());
}

#[test]
fn pos_to_child_reads_one_bit_per_axis() {
    let tree = Octree::new(16, origin(), UNIT, 0, vec![]);
    assert_eq!(tree.pos_to_child(Position { x: -1, y: -1, z: -1 }), 0);
    assert_eq!(tree.pos_to_child(Position { x: 0, y: -1, z: -1 }), 1);
    assert_eq!(tree.pos_to_child(Position { x: -1, y: 0, z: -1 }), 2);
    assert_eq!(tree.pos_to_child(Position { x: -1, y: -1, z: 0 }), 4);
    assert_eq!(tree.pos_to_child(Position { x: 5, y: 5, z: 5 }), 7);
}

#[test]
fn leaf_keeps_one_point_more_than_its_capacity() {
    let mut tree = Octree::new(2, origin(), UNIT, 0, vec![]);
    for i in 0..3 {
        tree.insert(Point { position: Position { x: 10 * i, y: 0, z: 0 }, value: i as usize });
    }
    assert!(tree.points.is_some());
    assert_eq!(tree.cells(), vec![0, 1, 2]);
    assert_eq!(tree.height, 0);
}

#[test]
fn overflowing_leaf_hands_all_its_points_down() {
    let mut tree = Octree::new(2, origin(), UNIT, 0, vec![]);
    tree.insert(Point { position: Position { x: 10, y: 10, z: 10 }, value: 0 });
    tree.insert(Point { position: Position { x: -10, y: -10, z: -10 }, value: 1 });
    tree.insert(Point { position: Position { x: 10, y: 10, z: 10 }, value: 2 });
    tree.insert(Point { position: Position { x: -10, y: 10, z: 10 }, value: 3 });
    assert!(tree.points.is_none());
    assert_eq!(tree.height, 1);
    // Octant 0 first, then 6, then 7; within 7 the order of arrival.
    assert_eq!(tree.cells(), vec![1, 3, 0, 2]);
    let child = tree.children[7].as_ref().unwrap();
    assert_eq!(child.octree_index, vec![7u8]);
    assert_eq!(child.depth, 1);
    assert_eq!(child.half_width, UNIT / 2);
    assert_eq!(child.center.x, (UNIT / 2) as i64);
    let low = tree.children[0].as_ref().unwrap();
    assert_eq!(low.center.z, -((UNIT / 2) as i64));
}

#[test]
fn node_that_cannot_split_keeps_every_point() {
    let mut tree = Octree::new(1, origin(), 1, 0, vec![]);
    for i in 0..10 {
        tree.insert(Point { position: origin(), value: i });
    }
    assert!(tree.points.is_some());
    assert_eq!(tree.cells().len(), 10);
}

#[test]
fn cells_for_index_finds_realized_regions_only() {
    let mut tree = Octree::new(2, origin(), UNIT, 0, vec![]);
    tree.insert(Point { position: Position { x: 10, y: 10, z: 10 }, value: 0 });
    tree.insert(Point { position: Position { x: -10, y: -10, z: -10 }, value: 1 });
    tree.insert(Point { position: Position { x: 10, y: 10, z: 10 }, value: 2 });
    tree.insert(Point { position: Position { x: -10, y: 10, z: 10 }, value: 3 });
    assert_eq!(tree.get_cells_for_index(&[]), Some(vec![1, 3, 0, 2]));
    assert_eq!(tree.get_cells_for_index(&[7]), Some(vec![0, 2]));
    assert_eq!(tree.get_cells_for_index(&[0]), Some(vec![1]));
    assert_eq!(tree.get_cells_for_index(&[3]), None);
    assert_eq!(tree.get_cells_for_index(&[9]), None);
    assert_eq!(tree.get_cells_for_index(&[7, 0]), None);
}

#[test]
fn chunk_indices_cover_every_point_once() {
    let tree = sphere_tree(1000, 16);
    let target = Position { x: 300_000, y: -700_000, z: UNIT as i32 };
    for detail in [0u32, UNIT / 4, UNIT, 4 * UNIT] {
        let indices = tree.get_chunk_indices(target, detail);
        let mut seen = vec![false; 1000];
        let mut total = 0;
        for index in &indices {
            for cell in tree.get_cells_for_index(index).unwrap() {
                assert!(!seen[cell]);
                seen[cell] = true;
                total += 1;
            }
        }
        assert_eq!(total, 1000);
    }
}

#[test]
fn chunk_indices_end_to_end() {
    let tree = sphere_tree(1000, 16);
    let target = Position { x: 0, y: 0, z: UNIT as i32 };
    let deepest = |indices: &Vec<Vec<u8>>, near: bool| {
        indices.iter().filter(|i| (i[0] >= 4) == near).map(|i| i.len()).max().unwrap()
    };

    // A coarse view shows the surface as one region.
    let coarse = tree.get_chunk_indices(target, 4 * UNIT);
    assert_eq!(coarse, vec![Vec::<u8>::new()]);

    // A fine one goes deeper near the target and stays shallow on the far
    // side.
    let fine = tree.get_chunk_indices(target, UNIT / 4);
    assert!(fine.len() > 8);
    assert!(deepest(&fine, true) > deepest(&fine, false));
    assert_eq!(deepest(&fine, false), 1);

    // With no radius at all every leaf is a region.
    let leaves = tree.get_chunk_indices(target, 0);
    assert!(fine.len() < leaves.len());
    assert!(deepest(&leaves, false) > 1);

    for indices in [&leaves, &fine, &coarse] {
        for a in indices.iter() {
            for b in indices.iter() {
                assert!(a == b || !b.starts_with(a));
            }
        }
        let mut cells: Vec<usize> =
            indices.iter().flat_map(|i| tree.get_cells_for_index(i).unwrap()).collect();
        cells.sort();
        assert_eq!(cells, (0..1000).collect::<Vec<usize>>());
    }
}

#[test]
fn chunks_are_the_cells_of_the_chosen_regions() {
    let tree = sphere_tree(1000, 16);
    let target = Position { x: 0, y: 0, z: UNIT as i32 };
    let indices = tree.get_chunk_indices(target, UNIT / 8);
    let chunks = tree.get_chunks(target, UNIT / 8);
    assert_eq!(chunks.len(), indices.len());
    for (index, chunk) in indices.iter().zip(chunks.iter()) {
        assert_eq!(tree.get_cells_for_index(index).as_ref(), Some(chunk));
    }
}

#[test]
fn larger_detail_radius_chooses_coarser_regions() {
    let tree = sphere_tree(1000, 16);
    let target = Position { x: 0, y: 0, z: UNIT as i32 };
    let mut last = usize::MAX;
    for detail in [0u32, UNIT / 8, UNIT / 4, UNIT / 2, UNIT, 2 * UNIT, 64 * UNIT] {
        let count = tree.get_chunk_indices(target, detail).len();
        assert!(count <= last);
        last = count;
    }
    assert_eq!(last, 1);
}

#[test]
fn node_is_coarse_enough_from_one_tenth_of_a_step_below_its_height() {
    // Height 1: one step is the whole half-width, and level 0 is reached
    // at a tenth of it.
    let mut tree = Octree::new(0, origin(), 1000, 0, vec![]);
    tree.insert(Point { position: Position { x: 1, y: 1, z: 1 }, value: 0 });
    tree.insert(Point { position: Position { x: -1, y: 1, z: 1 }, value: 1 });
    assert_eq!(tree.height, 1);
    // At the centre the distance is 0, whatever the radius.
    assert!(!tree.is_coarse_enough(origin(), u32::MAX));
    // At distance 100 a radius of one unit is enough.
    let far = Position { x: 100, y: 0, z: 0 };
    assert!(tree.is_coarse_enough(far, UNIT));
    assert!(!tree.is_coarse_enough(far, UNIT - 1));
    // At distance 50 it takes two units.
    let nearer = Position { x: 0, y: -50, z: 0 };
    assert!(tree.is_coarse_enough(nearer, 2 * UNIT));
    assert!(!tree.is_coarse_enough(nearer, 2 * UNIT - 1));
    // The distance is the straight one.
    assert!(tree.is_coarse_enough(Position { x: 60, y: 80, z: 0 }, UNIT));
    assert!(!tree.is_coarse_enough(Position { x: 60, y: 79, z: 0 }, UNIT));
    assert!(tree.is_coarse_enough(Position { x: -60, y: 0, z: -80 }, UNIT));
    // A leaf always stands for itself.
    let leaf = Octree::new(4, origin(), 1000, 0, vec![]);
    assert!(leaf.is_coarse_enough(origin(), 0));
}

#[test]
fn deeper_node_needs_more_distance() {
    // Height 2: a step is half the half-width, and the node stands for
    // itself from one step and a tenth.
    let mut tree = Octree::new(0, origin(), 1000, 0, vec![]);
    for (i, x) in [400, 900, -600].into_iter().enumerate() {
        tree.insert(Point { position: Position { x, y: 600, z: 600 }, value: i });
    }
    assert_eq!(tree.height, 2);
    assert!(tree.is_coarse_enough(Position { x: 550, y: 0, z: 0 }, UNIT));
    assert!(!tree.is_coarse_enough(Position { x: 549, y: 0, z: 0 }, UNIT));
    assert_eq!(tree.get_chunk_indices(Position { x: 550, y: 0, z: 0 }, UNIT), vec![Vec::<u8>::new()]);
    // From the centre, the children are looked at; both are far enough.
    assert_eq!(tree.get_chunk_indices(origin(), UNIT), vec![vec![6u8], vec![7u8]]);
    // A small radius brings the target near enough to split the child it
    // lies in; the other child is a leaf.
    assert_eq!(
        tree.get_chunk_indices(Position { x: 500, y: 500, z: 500 }, UNIT / 20),
        vec![vec![6u8], vec![7u8, 6], vec![7u8, 7]]
    );
}

#[test]
fn distances_on_the_grid() {
    let center = Center { x: 10, y: 0, z: -10 };
    assert_eq!(offset_squared_of(Position { x: 13, y: -4, z: -10 }, center), 25);
    assert_eq!(
        offset_squared_of(
            Position { x: i32::MIN, y: 0, z: 0 },
            Center { x: 0x2_0000_0000, y: 0, z: 0 }
        ),
        0x2_8000_0000u128 * 0x2_8000_0000u128
    );
    assert_eq!(
        distance_squared_of(Position { x: 1, y: 2, z: 3 }, Position { x: -1, y: 0, z: 0 }),
        17
    );
    assert_eq!(
        distance_squared_of(
            Position { x: i32::MAX, y: i32::MAX, z: i32::MAX },
            Position { x: i32::MIN, y: i32::MIN, z: i32::MIN }
        ),
        3 * 0xffff_ffffu128 * 0xffff_ffffu128
    );
}

#[test]
fn identifiers_and_their_prefixes() {
    assert!(same_index(&[1, 2], &[1, 2]));
    assert!(!same_index(&[1, 2], &[1, 3]));
    assert!(!same_index(&[1, 2], &[1]));
    assert!(starts_with(&[1, 2, 3], &[1, 2]));
    assert!(starts_with(&[1, 2], &[]));
    assert!(!starts_with(&[1, 2], &[2]));
    assert!(!starts_with(&[1], &[1, 2]));
    assert_eq!(ancestor(&[4, 5, 6], 2), vec![4u8, 5]);
    assert_eq!(ancestor(&[4, 5, 6], 0), Vec::<u8>::new());
    let list = vec![vec![1u8], vec![2, 3]];
    assert!(contains_index(&list, &[2, 3]));
    assert!(!contains_index(&list, &[2]));
}
