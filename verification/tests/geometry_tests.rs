use hexsphere::chunk_storage::{Body, ChunkCells, PROXY_LIMIT};
use hexsphere::geometry_data::{mean_of_faces, GeometryData};
use hexsphere::grid::{Position, UNIT};
use std::collections::{BTreeMap, BTreeSet};

fn at(x: i32, y: i32, z: i32) -> Position {
    Position { x, y, z }
}

fn xyz(p: &Position) -> (i32, i32, i32) {
    (p.x, p.y, p.z)
}

/// A square of two triangles, each a cell of its own.
fn square() -> GeometryData {
    GeometryData {
        vertices: vec![at(0, 0, 0), at(10, 0, 0), at(10, 10, 0), at(0, 10, 0)],
        faces: vec![[0, 1, 2], [0, 2, 3]],
        cells: vec![vec![0], vec![1]],
        cell_neighbors: vec![BTreeSet::from([1]), BTreeSet::from([0])],
        cell_normals: vec![at(7, 3, 0), at(3, 7, 0)],
    }
}

/// Three triangles around vertex 0, each a cell of its own.
fn fan() -> GeometryData {
    GeometryData {
        vertices: vec![at(0, 0, 0), at(10, 0, 0), at(-5, 8, 0), at(-5, -8, 0)],
        faces: vec![[0, 1, 2], [0, 2, 3], [0, 3, 1]],
        cells: vec![vec![0], vec![1], vec![2]],
        cell_neighbors: vec![BTreeSet::from([1, 2]), BTreeSet::from([0, 2]), BTreeSet::from([0, 1])],
        cell_normals: vec![at(1, 3, 0), at(-3, 0, 0), at(1, -3, 0)],
    }
}

#[test]
fn sub_geometry_of_one_cell() {
    let (local, map) = square().sub_geometry(&[1]);
    let vertices: Vec<_> = local.vertices.iter().map(xyz).collect();
    assert_eq!(vertices, vec![(0, 0, 0), (10, 10, 0), (0, 10, 0)]);
    assert_eq!(local.faces, vec![[0, 1, 2]]);
    assert_eq!(local.cells, vec![vec![0]]);
    assert_eq!(local.cell_normals.iter().map(xyz).collect::<Vec<_>>(), vec![(3, 7, 0)]);
    assert_eq!(local.cell_neighbors, vec![BTreeSet::new()]);
    assert_eq!(map, BTreeMap::from([(1, 0)]));
}

#[test]
fn sub_geometry_numbers_vertices_as_they_come() {
    let (local, map) = square().sub_geometry(&[1, 0]);
    let vertices: Vec<_> = local.vertices.iter().map(xyz).collect();
    assert_eq!(vertices, vec![(0, 0, 0), (10, 10, 0), (0, 10, 0), (10, 0, 0)]);
    assert_eq!(local.faces, vec![[0, 1, 2], [0, 3, 1]]);
    assert_eq!(local.cells, vec![vec![0], vec![1]]);
    assert_eq!(
        local.cell_normals.iter().map(xyz).collect::<Vec<_>>(),
        vec![(3, 7, 0), (7, 3, 0)]
    );
    assert_eq!(local.cell_neighbors, vec![BTreeSet::from([1]), BTreeSet::from([0])]);
    assert_eq!(map, BTreeMap::from([(0, 1), (1, 0)]));
}

#[test]
fn sub_geometry_keeps_neighbours_inside_only() {
    let (local, map) = fan().sub_geometry(&[2, 0]);
    assert_eq!(map, BTreeMap::from([(0, 1), (2, 0)]));
    assert_eq!(local.cell_neighbors, vec![BTreeSet::from([1]), BTreeSet::from([0])]);
    assert_eq!(local.faces, vec![[0, 1, 2], [0, 2, 3]]);
    let vertices: Vec<_> = local.vertices.iter().map(xyz).collect();
    assert_eq!(vertices, vec![(0, 0, 0), (-5, -8, 0), (10, 0, 0), (-5, 8, 0)]);
}

#[test]
fn sub_geometry_of_nothing_is_empty() {
    let (local, map) = square().sub_geometry(&[]);
    assert!(local.vertices.is_empty() && local.faces.is_empty() && local.cells.is_empty());
    assert!(local.cell_neighbors.is_empty() && local.cell_normals.is_empty());
    assert!(map.is_empty());
}

#[test]
fn duplicate_gives_every_corner_its_own_vertex() {
    let r = square().duplicate();
    let vertices: Vec<_> = r.vertices.iter().map(xyz).collect();
    assert_eq!(
        vertices,
        vec![(0, 0, 0), (10, 0, 0), (10, 10, 0), (0, 0, 0), (10, 10, 0), (0, 10, 0)]
    );
    assert_eq!(r.faces, vec![[0, 1, 2], [3, 4, 5]]);
    assert_eq!(r.cells, vec![vec![0], vec![1]]);
    assert_eq!(r.cell_neighbors, vec![BTreeSet::from([1]), BTreeSet::from([0])]);
    assert_eq!(r.cell_normals.iter().map(xyz).collect::<Vec<_>>(), vec![(7, 3, 0), (3, 7, 0)]);
}

#[test]
fn simplify_fans_out_from_the_apex_over_the_rim() {
    let r = fan().simplify(at(0, 0, 9));
    let vertices: Vec<_> = r.vertices.iter().map(xyz).collect();
    assert_eq!(vertices, vec![(0, 0, 9), (10, 0, 0), (-5, 8, 0), (-5, -8, 0)]);
    assert_eq!(r.faces, vec![[0, 1, 2], [0, 2, 3], [0, 3, 1]]);
    assert_eq!(r.cells, vec![vec![0, 1, 2]]);
    assert_eq!(r.cell_neighbors, vec![BTreeSet::new()]);
    // The centre is the mean of the nine corners of the three faces.
    assert_eq!(r.cell_normals.iter().map(xyz).collect::<Vec<_>>(), vec![(0, 0, 3)]);
}

#[test]
fn mean_of_faces_rounds_down_to_the_grid() {
    let vertices = vec![at(-1, 7, i32::MIN), at(0, 7, i32::MIN), at(0, 8, i32::MIN), at(10, 0, i32::MAX)];
    assert_eq!(xyz(&mean_of_faces(&vertices, &vec![[0, 1, 2]])), (-1, 7, i32::MIN));
    assert_eq!(xyz(&mean_of_faces(&vertices, &vec![[3, 3, 3], [3, 3, 3]])), (10, 0, i32::MAX));
    // (-1 + 0 + 0 + 10 + 10 + 10) / 6 = 29 / 6, (7 + 7 + 8) / 6 = 22 / 6.
    assert_eq!(xyz(&mean_of_faces(&vertices, &vec![[0, 1, 2], [3, 3, 3]])), (4, 3, -1));
    assert_eq!(xyz(&mean_of_faces(&vertices, &vec![])), (0, 0, 0));
}

#[test]
fn simplify_keeps_every_edge_where_no_vertex_is_inside() {
    let r = square().simplify(at(5, 5, 5));
    assert_eq!(r.vertices.len(), 5);
    assert_eq!(
        r.faces,
        vec![[0, 1, 2], [0, 2, 3], [0, 3, 1], [0, 1, 3], [0, 3, 4], [0, 4, 1]]
    );
    assert_eq!(r.cells, vec![vec![0, 1, 2, 3, 4, 5]]);
}

#[test]
fn create_octree_has_room_for_128() {
    let tree = square().create_octree();
    assert_eq!(tree.capacity, 128);
    assert_eq!(tree.half_width, UNIT);
    assert_eq!(tree.cells(), vec![0, 1]);
}

#[test]
fn small_region_is_built_with_corners_of_its_own() {
    let body = Body::new(square());
    assert!(body.prepare_chunk(&[3]).is_none());
    let build = body.prepare_chunk(&[]).unwrap();
    assert_eq!(build.cells, vec![0, 1]);
    assert_eq!(build.local_geometry.vertices.len(), 4);
    let done = build.finish(at(0, 0, 0));
    assert_eq!(done.cells, vec![0, 1]);
    assert_eq!(done.local_geometry.vertices.len(), 6);
    assert_eq!(done.local_geometry.faces, vec![[0, 1, 2], [3, 4, 5]]);
    assert_eq!(done.cells_to_local, BTreeMap::from([(0, 0), (1, 1)]));
    let cells = ChunkCells::new(done);
    assert_eq!(cells.cells, Some(BTreeSet::from([0, 1])));
    assert_eq!(cells.cells_to_local, Some(BTreeMap::from([(0, 0), (1, 1)])));
    assert_eq!(cells.local_geometry.unwrap().faces.len(), 2);
}

/// A strip of `n` triangles, each a cell, all close to the origin.
fn strip(n: usize) -> GeometryData {
    let vertices = (0..n as i32 + 2).map(|i| at(i / 2, i % 2, 0)).collect();
    let faces = (0..n).map(|i| [i, i + 1, i + 2]).collect();
    let cells = (0..n).map(|i| vec![i]).collect();
    let cell_neighbors = (0..n).map(|_| BTreeSet::new()).collect();
    let cell_normals = (0..n).map(|_| at(1, 1, 1)).collect();
    GeometryData { vertices, faces, cells, cell_neighbors, cell_normals }
}

#[test]
fn large_region_is_built_as_one_cell() {
    let n = PROXY_LIMIT + 1;
    let mut geometry = strip(n);
    // Keep all the cells in one leaf.
    geometry.cell_normals = (0..n).map(|_| at(1, 1, 1)).collect();
    let body = Body::new(geometry);
    let mut build = None;
    for index in body.octree.get_chunk_indices(at(0, 0, UNIT as i32), 4 * UNIT) {
        build = body.prepare_chunk(&index);
    }
    let build = build.unwrap();
    assert_eq!(build.cells.len(), n);
    let done = build.finish(at(0, 0, 77));
    assert_eq!(done.local_geometry.cells.len(), 1);
    assert_eq!(xyz(&done.local_geometry.vertices[0]), (0, 0, 77));
    assert_eq!(done.cells_to_local.len(), n);
    assert!(done.cells_to_local.values().all(|&v| v == 0));
}

#[test]
fn region_at_the_limit_is_not_simplified() {
    let body = Body::new(strip(PROXY_LIMIT));
    let build = body.prepare_chunk(&[]);
    if let Some(build) = build {
        if build.cells.len() == PROXY_LIMIT {
            let done = build.finish(at(0, 0, 0));
            assert_eq!(done.local_geometry.cells.len(), PROXY_LIMIT);
            assert_eq!(done.local_geometry.vertices.len(), 3 * PROXY_LIMIT);
        }
    }
}

#[test]
fn building_a_region_twice_gives_the_same_geometry() {
    let body = Body::new(fan());
    let first = body.prepare_chunk(&[]).unwrap().finish(at(1, 2, 3));
    let second = body.prepare_chunk(&[]).unwrap().finish(at(1, 2, 3));
    assert_eq!(first.cells, second.cells);
    assert_eq!(first.cells_to_local, second.cells_to_local);
    let (a, b) = (&first.local_geometry, &second.local_geometry);
    assert_eq!(a.vertices.iter().map(xyz).collect::<Vec<_>>(), b.vertices.iter().map(xyz).collect::<Vec<_>>());
    assert_eq!(a.faces, b.faces);
    assert_eq!(a.cells, b.cells);
    assert_eq!(a.cell_neighbors, b.cell_neighbors);
    assert_eq!(a.cell_normals.iter().map(xyz).collect::<Vec<_>>(), b.cell_normals.iter().map(xyz).collect::<Vec<_>>());
}

#[test]
fn builds_of_different_regions_do_not_touch_each_other() {
    let mut geometry = fan();
    geometry.cell_normals = vec![at(500_000, 500_000, 500_000), at(-500_000, 500_000, 500_000), at(500_000, -500_000, 500_000)];
    let mut tree_cells = Vec::new();
    let body = {
        // A leaf holds one point more than its capacity: make the root split.
        let mut body = Body::new(geometry.clone());
        body.octree = hexsphere::octree::Octree::new(0, at(0, 0, 0), UNIT, 0, vec![]);
        for (i, p) in geometry.cell_normals.iter().enumerate() {
            body.octree.insert(hexsphere::octree::Point { position: *p, value: i });
        }
        tree_cells.extend(body.octree.cells());
        body
    };
    tree_cells.sort();
    assert_eq!(tree_cells, vec![0, 1, 2]);
    let alone = body.prepare_chunk(&[7]).unwrap();
    let other = body.prepare_chunk(&[6]).unwrap();
    let again = body.prepare_chunk(&[7]).unwrap();
    assert_eq!(alone.cells, vec![0]);
    assert_eq!(other.cells, vec![1]);
    assert_eq!(alone.local_geometry.faces, again.local_geometry.faces);
    assert_eq!(alone.cells_to_local, again.cells_to_local);
    assert_eq!(alone.local_geometry.faces, vec![[0, 1, 2]]);
    assert_eq!(other.local_geometry.faces, vec![[0, 1, 2]]);
    assert_eq!(
        other.local_geometry.vertices.iter().map(xyz).collect::<Vec<_>>(),
        vec![(0, 0, 0), (-5, 8, 0), (-5, -8, 0)]
    );
}

#[test]
fn geometry_with_a_stray_index_is_not_well_formed() {
    assert!(square().is_wf());
    assert!(fan().is_wf());
    assert!(GeometryData::default().is_wf());
    let mut g = square();
    g.faces[1][2] = 4;
    assert!(!g.is_wf());
    let mut g = square();
    g.cells[0].push(2);
    assert!(!g.is_wf());
    let mut g = square();
    g.cell_neighbors[1].insert(2);
    assert!(!g.is_wf());
    let mut g = square();
    g.cell_normals.pop();
    assert!(!g.is_wf());
    let mut g = square();
    g.cell_neighbors.push(BTreeSet::new());
    assert!(!g.is_wf());
}
