use hexsphere::chunk_index::is_before;
use hexsphere::chunking::{ChunkManager, BACKLOG_STEP};
use hexsphere::geometry_data::GeometryData;
use hexsphere::grid::{Position, UNIT};
use hexsphere::helpers::{ordered_2tuple, ordered_3tuple};
use hexsphere::index_map::{IndexMap, IndexSet};

fn manager(n: i32) -> ChunkManager {
    let normals: Vec<Position> = (0..n)
        .map(|i| Position {
            x: ((i * 37) % 200 - 100) * 10_000,
            y: ((i * 53) % 200 - 100) * 10_000,
            z: ((i * 71) % 200 - 100) * 10_000,
        })
        .collect();
    ChunkManager::new(GeometryData {
        vertices: Vec::new(),
        faces: Vec::new(),
        cells: (0..n).map(|_| Vec::new()).collect(),
        cell_neighbors: (0..n).map(|_| Default::default()).collect(),
        cell_normals: normals,
    })
}

fn up() -> Position {
    Position { x: 0, y: 0, z: UNIT as i32 }
}

#[test]
fn new_manager_knows_no_chunk() {
    let m = manager(500);
    assert_eq!(m.octree.capacity, 128);
    assert_eq!(m.octree.cells().len(), 500);
    assert_eq!((m.pov.x, m.pov.y, m.pov.z), (0, 0, 0));
    assert!(m.chunk_data.keys.is_empty());
    assert!(m.active_requests.is_empty());
    assert!(m.active_chunks.is_empty());
}

#[test]
fn sighting_asks_for_every_needed_region_once() {
    let mut m = manager(500);
    let needed = m.octree.get_chunk_indices(up(), UNIT);
    assert_eq!(needed, vec![Vec::<u8>::new()]);
    let requests = m.update_pov(up());
    assert_eq!(requests, needed);
    assert_eq!(m.active_chunks.0.keys, needed);
    assert_eq!(m.active_requests.0.keys, needed);
    assert_eq!((m.pov.x, m.pov.y, m.pov.z), (0, 0, UNIT as i32));

    // The same point of view once more changes nothing.
    assert!(m.update_pov(up()).is_empty());

    // Another one asks only for what is not asked for yet.
    let side = Position { x: UNIT as i32, y: 0, z: 0 };
    let needed_side = m.octree.get_chunk_indices(side, UNIT);
    let requests = m.update_pov(side);
    for r in &requests {
        assert!(needed_side.contains(r) && !needed.contains(r));
    }
    for n in &needed_side {
        assert!(needed.contains(n) || requests.contains(n));
    }
    assert_eq!(m.active_chunks.0.keys, needed_side);
}

#[test]
fn small_move_of_the_point_of_view_is_skipped() {
    let mut m = manager(500);
    let first = m.update_pov(up());
    assert!(!first.is_empty());
    m.process_chunk_response(first[0].clone(), vec![1], 1);
    let asked = m.active_requests.0.keys.clone();
    let active = m.active_chunks.0.keys.clone();
    let known = m.chunk_data.keys.clone();

    // A few grid steps are no movement: 10485 steps are less than a
    // hundredth of a unit, 10486 are not.
    for near in [
        Position { x: 3, y: -4, z: UNIT as i32 + 5 },
        Position { x: 10_485, y: 0, z: UNIT as i32 },
        up(),
    ] {
        assert!(m.update_pov(near).is_empty());
        assert_eq!((m.pov.x, m.pov.y, m.pov.z), (0, 0, UNIT as i32));
        assert_eq!(m.active_requests.0.keys, asked);
        assert_eq!(m.active_chunks.0.keys, active);
        assert_eq!(m.chunk_data.keys, known);
    }

    let moved = Position { x: 10_486, y: 0, z: UNIT as i32 };
    m.update_pov(moved);
    assert_eq!((m.pov.x, m.pov.y, m.pov.z), (10_486, 0, UNIT as i32));
    // What has a mesh or is asked for is not asked for again.
    assert!(m.update_pov(Position { x: 0, y: UNIT as i32, z: 0 }).is_empty());
}

#[test]
fn response_is_stored_once() {
    let mut m = manager(500);
    let requests = m.update_pov(up());
    let index = requests[0].clone();
    assert!(m.wants_response(&index));
    m.process_chunk_response(index.clone(), vec![1, 2, 3], 10);
    assert!(!m.active_requests.contains(&index));
    let data = m.chunk_data.get(&index).unwrap();
    assert_eq!((data.mesh_handle, data.entity), (Some(10), None));
    assert_eq!(data.cells, Some(vec![1, 2, 3]));
    assert!(!m.wants_response(&index));
    m.process_chunk_response(index.clone(), vec![9], 11);
    let data = m.chunk_data.get(&index).unwrap();
    assert_eq!(data.mesh_handle, Some(10));
    assert_eq!(data.cells, Some(vec![1, 2, 3]));
    // A region with a mesh is not asked for again.
    let side = Position { x: UNIT as i32, y: 0, z: 0 };
    assert!(!m.update_pov(side).contains(&index));
    assert_eq!(m.pov.x, UNIT as i32);
}

#[test]
fn backlog_moves_chunks_on_and_off_the_screen() {
    let mut m = manager(10);
    let first = vec![1u8];
    let second = vec![2u8];
    m.active_chunks.insert(first.clone());
    m.active_chunks.insert(second.clone());
    m.active_requests.insert(second.clone());
    m.process_chunk_response(first.clone(), vec![1], 10);

    // Nothing has a mesh but `first`.
    let (leaving, coming) = m.process_chunk_backlog();
    assert!(leaving.is_empty());
    assert_eq!(coming, vec![first.clone()]);
    m.bind_entity(&first, 1000);
    assert_eq!(m.chunk_data.get(&first).unwrap().entity, Some(1000));
    let (_, coming) = m.process_chunk_backlog();
    assert!(coming.is_empty());

    // A region that is not known is left alone.
    m.bind_entity(&[200, 200], 5);
    assert!(m.chunk_data.get(&[200, 200]).is_none());

    // Make `first` obsolete: it stays while geometry is asked for.
    m.active_chunks = IndexSet::new();
    m.active_chunks.insert(second.clone());
    let (leaving, _) = m.process_chunk_backlog();
    assert!(leaving.is_empty());
    m.process_chunk_response(second.clone(), vec![], 0);
    let (leaving, coming) = m.process_chunk_backlog();
    assert_eq!(leaving, vec![(first.clone(), 1000)]);
    assert_eq!(coming, vec![second.clone()]);
    assert_eq!(m.chunk_data.get(&first).unwrap().entity, None);
}

#[test]
fn backlog_moves_ten_chunks_at_most() {
    let mut m = manager(10);
    let all: Vec<Vec<u8>> = (0..25u8).map(|i| vec![i]).collect();
    for (i, index) in all.iter().enumerate() {
        m.process_chunk_response(index.clone(), vec![i], i as u64);
        m.active_chunks.insert(index.clone());
    }
    let (leaving, coming) = m.process_chunk_backlog();
    assert!(leaving.is_empty());
    assert_eq!(coming, all[..BACKLOG_STEP].to_vec());
    for index in &all {
        m.bind_entity(index, 7);
    }
    m.active_chunks = IndexSet::new();
    let (leaving, coming) = m.process_chunk_backlog();
    assert!(coming.is_empty());
    assert_eq!(leaving.len(), BACKLOG_STEP);
    assert_eq!(leaving[0], (vec![0u8], 7));
    let (leaving, _) = m.process_chunk_backlog();
    assert_eq!(leaving[0], (vec![10u8], 7));
}

#[test]
fn cleanup_forgets_what_is_not_on_screen() {
    let mut m = manager(10);
    m.process_chunk_response(vec![1], vec![1], 1);
    m.process_chunk_response(vec![2], vec![2], 2);
    m.process_chunk_response(vec![3], vec![3], 3);
    m.bind_entity(&[2], 20);
    m.cleanup_old_handles();
    assert_eq!(m.chunk_data.keys, vec![vec![2u8]]);
    assert_eq!(m.chunk_data.get(&[2]).unwrap().mesh_handle, Some(2));
}

#[test]
fn ordered_pair_has_the_greater_value_first() {
    assert_eq!(ordered_2tuple(3usize, 5usize), (5, 3));
    assert_eq!(ordered_2tuple(5usize, 3usize), (5, 3));
    assert_eq!(ordered_2tuple(4u8, 4u8), (4, 4));
    assert_eq!(ordered_2tuple('a', 'b'), ('b', 'a'));
}

#[test]
fn ordered_triple_rises() {
    for t in [(1, 2, 3), (1, 3, 2), (2, 1, 3), (2, 3, 1), (3, 1, 2), (3, 2, 1)] {
        assert_eq!(ordered_3tuple(t), (1, 2, 3));
    }
    assert_eq!(ordered_3tuple((2u8, 1, 2)), (1, 2, 2));
    assert_eq!(ordered_3tuple((7i64, 7, 7)), (7, 7, 7));
}

#[test]
fn index_map_keeps_its_keys_in_rising_order() {
    let mut map: IndexMap<u32> = IndexMap::new();
    assert_eq!(map.len(), 0);
    map.insert(vec![2], 20);
    map.insert(vec![1], 10);
    map.insert(vec![2], 21);
    assert_eq!(map.len(), 2);
    assert_eq!(map.keys, vec![vec![1u8], vec![2u8]]);
    assert_eq!(map.values, vec![10, 21]);
    assert_eq!(map.get(&[2]), Some(&21));
    assert_eq!(map.get(&[3]), None);
    assert_eq!(map.position(&[1]), Some(0));
    assert!(map.contains_key(&[1]) && !map.contains_key(&[]));
    // A region stands before the regions inside it, and selectors count
    // from the first.
    map.insert(vec![1, 7], 17);
    map.insert(vec![], 0);
    map.insert(vec![1, 0, 9], 109);
    map.insert(vec![0, 200], 200);
    assert_eq!(
        map.keys,
        vec![vec![], vec![0, 200], vec![1], vec![1, 0, 9], vec![1, 7], vec![2]]
    );
    assert_eq!(map.values, vec![0, 200, 10, 109, 17, 21]);
    let mut sorted = map.keys.clone();
    sorted.sort();
    assert_eq!(map.keys, sorted);
    assert_eq!(map.remove(&[1]), Some(10));
    assert_eq!(map.remove(&[1]), None);
    assert_eq!(map.keys, vec![vec![], vec![0, 200], vec![1, 0, 9], vec![1, 7], vec![2]]);
    assert_eq!(map.values, vec![0, 200, 109, 17, 21]);
}

#[test]
fn identifiers_in_rising_order() {
    assert!(is_before(&[], &[0]));
    assert!(is_before(&[1], &[1, 0]));
    assert!(is_before(&[1, 255], &[2]));
    assert!(is_before(&[1, 2, 3], &[1, 3]));
    assert!(!is_before(&[1, 0], &[1]));
    assert!(!is_before(&[1, 2], &[1, 2]));
    assert!(!is_before(&[], &[]));
    assert!(!is_before(&[3], &[2, 9]));
}

#[test]
fn backlog_takes_chunks_by_rising_identifier() {
    let mut m = manager(10);
    // 25 chunks on screen, made known in falling order.
    for i in (0..25u8).rev() {
        m.process_chunk_response(vec![i], vec![], i as u64);
        m.bind_entity(&[i], 100 + i as u64);
    }
    let (leaving, _) = m.process_chunk_backlog();
    let expected: Vec<(Vec<u8>, u64)> = (0..10u8).map(|i| (vec![i], 100 + i as u64)).collect();
    assert_eq!(leaving, expected);
    // Those that are to come are taken in rising order as well.
    for i in (0..25u8).rev() {
        m.active_chunks.insert(vec![i]);
    }
    let (leaving, coming) = m.process_chunk_backlog();
    assert!(leaving.is_empty());
    assert_eq!(coming, (0..10u8).map(|i| vec![i]).collect::<Vec<_>>());
}

#[test]
fn index_set_holds_each_identifier_once() {
    let mut set = IndexSet::new();
    assert!(set.is_empty());
    set.insert(vec![1, 2]);
    set.insert(vec![1, 2]);
    set.insert(vec![]);
    assert!(set.contains(&[1, 2]) && set.contains(&[]) && !set.contains(&[1]));
    assert_eq!(set.0.keys.len(), 2);
    set.remove(&[1, 2]);
    assert!(!set.contains(&[1, 2]) && !set.is_empty());
}
