use hexsphere::chunk_storage::{
    calculate_povs, dependents, despawn_chunks, generate_meshes, poll_mesh_tasks,
    spawn_ready_chunks, Body, Chunk, ChunkRef, ChunkRefs, ChunkStorage, AwaitingDeletion,
    DETAIL_TOLERANCE, MAX_BUILDS, POV,
};
use hexsphere::geometry_data::GeometryData;
use hexsphere::grid::{Position, UNIT};

fn state(refs: &ChunkRefs, index: &[u8]) -> Option<(bool, bool, bool, bool)> {
    refs.get(index).map(|r| {
        let (cleanup, chunk) = match r {
            ChunkRef::Active(c) => (false, c),
            ChunkRef::Cleanup(c, _) => (true, c),
        };
        (cleanup, chunk.needs_mesh, chunk.generating, chunk.has_mesh)
    })
}

fn waits_for(refs: &ChunkRefs, index: &[u8]) -> Vec<Vec<u8>> {
    match refs.get(index) {
        Some(ChunkRef::Cleanup(_, AwaitingDeletion(pending))) => pending.clone(),
        _ => Vec::new(),
    }
}

/// Runs one build for `index` to its end and lets the chunk show it.
fn give_mesh(refs: &mut ChunkRefs, storage: &mut ChunkStorage, index: &[u8], mesh: u64) {
    let started = generate_meshes(refs, storage, 0);
    assert!(started.iter().any(|i| i.as_slice() == index));
    assert!(poll_mesh_tasks(refs, storage, index, Some((vec![7], mesh))));
    let ready = spawn_ready_chunks(refs, storage);
    assert!(ready.contains(&(index.to_vec(), mesh)));
}

#[test]
fn needed_region_gets_a_chunk_in_want_of_a_mesh() {
    let mut refs = ChunkRefs::new();
    let changes = refs.recompute(&vec![vec![1u8]]);
    assert_eq!(changes.spawned, vec![vec![1u8]]);
    assert!(changes.reinstated.is_empty());
    assert!(changes.retired.is_empty());
    assert_eq!(state(&refs, &[1]), Some((false, true, false, false)));
    assert_eq!(state(&refs, &[2]), None);
}

#[test]
fn obsolete_chunk_waits_for_the_finer_chunks() {
    let mut refs = ChunkRefs::new();
    refs.recompute(&vec![vec![1u8]]);
    let changes = refs.recompute(&vec![vec![1u8, 0], vec![1u8, 1], vec![2u8]]);
    assert_eq!(changes.spawned, vec![vec![1u8, 0], vec![1u8, 1], vec![2u8]]);
    assert_eq!(changes.retired, vec![vec![1u8]]);
    assert_eq!(state(&refs, &[1]), Some((true, false, false, false)));
    assert_eq!(waits_for(&refs, &[1]), vec![vec![1u8, 0], vec![1u8, 1]]);
}

#[test]
fn obsolete_chunk_waits_for_the_nearest_coarser_chunk() {
    let needed = vec![vec![1u8], vec![]];
    assert_eq!(dependents(&[1, 0, 3], &needed), vec![vec![1u8]]);
    assert_eq!(dependents(&[2, 0], &needed), vec![Vec::<u8>::new()]);
    assert_eq!(dependents(&[], &needed), vec![vec![1u8]]);
    let none: Vec<Vec<u8>> = vec![vec![4u8]];
    assert_eq!(dependents(&[1, 0], &none), Vec::<Vec<u8>>::new());
}

#[test]
fn retired_chunk_survives_until_its_dependents_show_meshes() {
    let mut refs = ChunkRefs::new();
    let mut storage = ChunkStorage::new();
    let c = vec![1u8];
    let a = vec![1u8, 0];
    let b = vec![1u8, 1];
    refs.recompute(&vec![c.clone()]);
    give_mesh(&mut refs, &mut storage, &c, 100);
    assert_eq!(state(&refs, &c), Some((false, false, false, true)));

    refs.recompute(&vec![a.clone(), b.clone()]);
    assert_eq!(state(&refs, &c), Some((true, false, false, true)));
    assert_eq!(waits_for(&refs, &c), vec![a.clone(), b.clone()]);
    assert!(despawn_chunks(&mut refs, &mut storage).is_empty());
    assert!(state(&refs, &c).is_some());

    let started = generate_meshes(&mut refs, &storage, 0);
    assert_eq!(started, vec![a.clone(), b.clone()]);
    assert!(poll_mesh_tasks(&mut refs, &mut storage, &a, Some((vec![1], 101))));
    assert_eq!(spawn_ready_chunks(&mut refs, &mut storage), vec![(a.clone(), 101)]);
    assert!(despawn_chunks(&mut refs, &mut storage).is_empty());
    assert!(state(&refs, &c).is_some());

    assert!(poll_mesh_tasks(&mut refs, &mut storage, &b, Some((vec![2], 102))));
    assert!(despawn_chunks(&mut refs, &mut storage).is_empty());
    assert_eq!(spawn_ready_chunks(&mut refs, &mut storage), vec![(b.clone(), 102)]);
    assert_eq!(despawn_chunks(&mut refs, &mut storage), vec![c.clone()]);
    assert_eq!(state(&refs, &c), None);
    assert_eq!(state(&refs, &a), Some((false, false, false, true)));
    assert_eq!(state(&refs, &b), Some((false, false, false, true)));
}

#[test]
fn retired_chunk_with_nothing_to_wait_for_goes_at_once() {
    let mut refs = ChunkRefs::new();
    let mut storage = ChunkStorage::new();
    refs.recompute(&vec![vec![1u8]]);
    refs.recompute(&vec![vec![2u8]]);
    assert_eq!(waits_for(&refs, &[1]), Vec::<Vec<u8>>::new());
    assert_eq!(despawn_chunks(&mut refs, &mut storage), vec![vec![1u8]]);
    assert_eq!(state(&refs, &[1]), None);
    assert!(state(&refs, &[2]).is_some());
}

#[test]
fn retired_chunk_that_is_needed_again_is_reinstated() {
    let mut refs = ChunkRefs::new();
    let mut storage = ChunkStorage::new();
    let c = vec![1u8];
    refs.recompute(&vec![c.clone()]);
    give_mesh(&mut refs, &mut storage, &c, 5);
    refs.recompute(&vec![vec![1u8, 0]]);
    assert_eq!(state(&refs, &c), Some((true, false, false, true)));
    let changes = refs.recompute(&vec![c.clone()]);
    assert_eq!(changes.reinstated, vec![c.clone()]);
    assert!(changes.spawned.is_empty());
    assert_eq!(changes.retired, vec![vec![1u8, 0]]);
    assert_eq!(state(&refs, &c), Some((false, true, false, true)));
    assert_eq!(waits_for(&refs, &c), Vec::<Vec<u8>>::new());
    let gone = despawn_chunks(&mut refs, &mut storage);
    assert!(!gone.contains(&c));
    assert!(state(&refs, &c).is_some());
    // A chunk that shows a mesh wants none: the next pass clears the flag.
    assert!(generate_meshes(&mut refs, &storage, 0).is_empty());
    assert_eq!(state(&refs, &c), Some((false, false, false, true)));
}

#[test]
fn retiring_gives_up_the_build_in_flight() {
    let mut refs = ChunkRefs::new();
    let mut storage = ChunkStorage::new();
    let c = vec![3u8];
    refs.recompute(&vec![c.clone()]);
    assert_eq!(generate_meshes(&mut refs, &storage, 0), vec![c.clone()]);
    assert_eq!(state(&refs, &c), Some((false, true, true, false)));
    refs.recompute(&vec![vec![4u8]]);
    assert_eq!(state(&refs, &c), Some((true, false, false, false)));
    // The late result is dropped.
    assert!(!poll_mesh_tasks(&mut refs, &mut storage, &c, Some((vec![1], 9))));
    assert!(storage.0.get(&c).is_none());
}

#[test]
fn recompute_with_the_same_regions_changes_nothing() {
    let mut refs = ChunkRefs::new();
    refs.recompute(&vec![vec![1u8]]);
    let needed = vec![vec![1u8, 0], vec![1u8, 1]];
    refs.recompute(&needed);
    let before: Vec<_> = [vec![1u8], vec![1u8, 0], vec![1u8, 1]]
        .iter()
        .map(|i| (state(&refs, i), waits_for(&refs, i)))
        .collect();
    let changes = refs.recompute(&needed);
    assert!(changes.spawned.is_empty());
    assert!(changes.reinstated.is_empty());
    assert!(changes.retired.is_empty());
    let after: Vec<_> = [vec![1u8], vec![1u8, 0], vec![1u8, 1]]
        .iter()
        .map(|i| (state(&refs, i), waits_for(&refs, i)))
        .collect();
    assert_eq!(before, after);
}

#[test]
fn build_that_found_no_cells_leaves_the_chunk_wanting() {
    let mut refs = ChunkRefs::new();
    let mut storage = ChunkStorage::new();
    let c = vec![3u8];
    refs.recompute(&vec![c.clone()]);
    generate_meshes(&mut refs, &storage, 0);
    assert!(!poll_mesh_tasks(&mut refs, &mut storage, &c, None));
    assert_eq!(state(&refs, &c), Some((false, true, false, false)));
    assert!(spawn_ready_chunks(&mut refs, &mut storage).is_empty());
    assert_eq!(generate_meshes(&mut refs, &storage, 0), vec![c.clone()]);
}

#[test]
fn stored_mesh_is_not_built_again() {
    let mut refs = ChunkRefs::new();
    let mut storage = ChunkStorage::new();
    let c = vec![3u8];
    refs.recompute(&vec![c.clone()]);
    generate_meshes(&mut refs, &storage, 0);
    assert!(poll_mesh_tasks(&mut refs, &mut storage, &c, Some((vec![4, 5], 77))));
    let data = storage.0.get(&c).unwrap();
    assert_eq!(data.mesh_handle, Some(77));
    assert_eq!(data.cells, Some(vec![4, 5]));
    assert_eq!(data.entity, None);
    assert!(generate_meshes(&mut refs, &storage, 0).is_empty());
    assert_eq!(spawn_ready_chunks(&mut refs, &mut storage), vec![(c.clone(), 77)]);
    assert!(storage.0.get(&c).is_none());
}

#[test]
fn no_build_starts_above_the_cap() {
    let mut refs = ChunkRefs::new();
    let storage = ChunkStorage::new();
    let needed: Vec<Vec<u8>> = (0..300u32).map(|i| vec![(i / 8) as u8, (i % 8) as u8]).collect();
    refs.recompute(&needed);
    let started = generate_meshes(&mut refs, &storage, 0);
    assert_eq!(started.len(), MAX_BUILDS + 1);
    assert_eq!(started, needed[..MAX_BUILDS + 1].to_vec());
    assert!(generate_meshes(&mut refs, &storage, MAX_BUILDS + 1).is_empty());
    let more = generate_meshes(&mut refs, &storage, MAX_BUILDS);
    assert_eq!(more, vec![needed[MAX_BUILDS + 1].clone()]);
}

#[test]
fn new_chunk_has_no_mesh() {
    let chunk = Chunk::new(vec![1, 2]);
    assert_eq!(chunk.index, vec![1u8, 2]);
    assert!(chunk.needs_mesh && !chunk.generating && !chunk.has_mesh);
}

fn flat_body(n: i32) -> Body {
    let normals: Vec<Position> = (0..n)
        .map(|i| Position { x: (i % 7 - 3) * 100_000, y: (i % 5 - 2) * 150_000, z: (i % 3 - 1) * 300_000 })
        .collect();
    let cells = (0..n).map(|_| Vec::new()).collect();
    let neighbours = (0..n).map(|_| Default::default()).collect();
    Body::new(GeometryData {
        vertices: Vec::new(),
        faces: Vec::new(),
        cells,
        cell_neighbors: neighbours,
        cell_normals: normals,
    })
}

#[test]
fn body_holds_every_cell_once() {
    let body = flat_body(200);
    assert_eq!(body.octree.capacity, 16);
    assert_eq!(body.octree.half_width, UNIT);
    let mut cells = body.octree.cells();
    cells.sort();
    assert_eq!(cells, (0..200).collect::<Vec<usize>>());
}

#[test]
fn unchanged_point_of_view_is_skipped() {
    let body = flat_body(200);
    let mut refs = ChunkRefs::new();
    let mut pov = POV::default();
    assert_eq!((pov.0.x, pov.0.y, pov.0.z, pov.1), (0, 0, 0, 0));
    let seen = POV(Position { x: 0, y: 0, z: UNIT as i32 }, UNIT / 2);
    let first = calculate_povs(&mut pov, seen, &body, &mut refs);
    assert!(!first.spawned.is_empty());
    assert_eq!(first.spawned, body.octree.get_chunk_indices(seen.0, seen.1));
    assert_eq!((pov.0.z, pov.1), (UNIT as i32, UNIT / 2));

    let again = calculate_povs(&mut pov, seen, &body, &mut refs);
    assert!(again.spawned.is_empty() && again.reinstated.is_empty() && again.retired.is_empty());

    let nearby = POV(Position { x: 100, y: -100, z: UNIT as i32 + 100 }, UNIT / 2 + 50);
    assert!(pov.is_unchanged(&nearby));
    let third = calculate_povs(&mut pov, nearby, &body, &mut refs);
    assert!(third.spawned.is_empty() && third.reinstated.is_empty() && third.retired.is_empty());
    assert_eq!((pov.0.x, pov.1), (0, UNIT / 2));
}

#[test]
fn tolerance_of_the_point_of_view() {
    let pov = POV(Position { x: 0, y: 0, z: 0 }, 1000);
    assert!(pov.is_unchanged(&POV(Position { x: 10_485, y: 0, z: 0 }, 1000)));
    assert!(!pov.is_unchanged(&POV(Position { x: 10_486, y: 0, z: 0 }, 1000)));
    assert!(pov.is_unchanged(&POV(Position { x: 0, y: 0, z: 0 }, 1000 + DETAIL_TOLERANCE - 1)));
    assert!(!pov.is_unchanged(&POV(Position { x: 0, y: 0, z: 0 }, 1000 + DETAIL_TOLERANCE)));
    assert!(!pov.is_unchanged(&POV(Position { x: 0, y: 0, z: 0 }, 1000 - DETAIL_TOLERANCE)));
}

#[test]
fn missing_dependent_counts_as_ready() {
    let mut refs = ChunkRefs::new();
    let mut storage = ChunkStorage::new();
    let waiting = |index: Vec<u8>, pending: Vec<Vec<u8>>| {
        ChunkRef::Cleanup(
            Chunk { index, needs_mesh: false, generating: false, has_mesh: true },
            AwaitingDeletion(pending),
        )
    };
    refs.put(waiting(vec![1], vec![vec![9]]));
    refs.put(waiting(vec![2], vec![vec![3]]));
    refs.put(ChunkRef::Active(Chunk::new(vec![3])));
    assert!(refs.is_all_ready(&vec![vec![9], vec![1]]));
    assert!(!refs.is_all_ready(&vec![vec![9], vec![3]]));
    assert_eq!(refs.doomed(), vec![vec![1u8]]);
    assert_eq!(despawn_chunks(&mut refs, &mut storage), vec![vec![1u8]]);
    assert!(refs.get(&[1]).is_none());
    assert!(refs.get(&[2]).is_some());
    // The pass judges by the chunks as they were when it began: a chunk
    // that waits for one that goes in the same pass goes in the next.
    refs.put(waiting(vec![4], vec![vec![5]]));
    refs.put(ChunkRef::Cleanup(
        Chunk { index: vec![5], needs_mesh: false, generating: false, has_mesh: false },
        AwaitingDeletion(vec![]),
    ));
    assert_eq!(despawn_chunks(&mut refs, &mut storage), vec![vec![5u8]]);
    assert_eq!(despawn_chunks(&mut refs, &mut storage), vec![vec![4u8]]);
}
