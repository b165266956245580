use alengine::models_3d::ico_sphere::{mesh_topology, subdivide, BASE_INDEX_COUNT, BASE_VERTEX_COUNT, INDICES, SUBDIVISION_LEVELS};
use alengine::render::geo::{tile_grid_indices, tile_segments};
use alengine::render::grid::segment_indices;

#[test]
fn icosahedron_base_data() {
    assert_eq!(INDICES.len() as u32, BASE_INDEX_COUNT);
    assert!(INDICES.iter().all(|&i| (i as u32) < BASE_VERTEX_COUNT));
    assert_eq!(SUBDIVISION_LEVELS, 3);
}

#[test]
fn three_subdivisions_give_1280_triangles_and_642_vertices() {
    let m = mesh_topology();
    assert_eq!(m.indices.len(), 3840);
    assert_eq!(12 + m.midpoint_parents.len(), 642);
    assert!(m.indices.iter().all(|&i| (i as usize) < 642));
}

#[test]
fn every_new_vertex_joins_two_older_vertices() {
    let m = mesh_topology();
    for (k, &(a, b)) in m.midpoint_parents.iter().enumerate() {
        assert!(a < b);
        assert!((b as usize) < 12 + k);
    }
}

#[test]
fn one_triangle_splits_in_four() {
    let (tris, parents) = subdivide(&vec![0, 1, 2], 3);
    assert_eq!(parents, vec![(0, 1), (1, 2), (0, 2)]);
    assert_eq!(tris, vec![0, 3, 5, 1, 4, 3, 2, 5, 4, 3, 4, 5]);
}

#[test]
fn shared_edges_share_their_midpoint() {
    let (tris, parents) = subdivide(&vec![0, 1, 2, 2, 1, 3], 4);
    assert_eq!(parents, vec![(0, 1), (1, 2), (0, 2), (1, 3), (2, 3)]);
    assert_eq!(tris.len(), 24);
    // Edge (1, 2) is the second edge of the first triangle and the first of the second.
    assert_eq!(tris[4], 5);
    assert_eq!(tris[12 + 1], 5);
}

#[test]
fn trailing_partial_triangle_is_ignored() {
    let (tris, parents) = subdivide(&vec![0, 1, 2, 7], 3);
    assert_eq!(tris.len(), 12);
    assert_eq!(parents.len(), 3);
}

#[test]
fn tile_segments_by_zoom() {
    assert_eq!(tile_segments(0), 16);
    assert_eq!(tile_segments(3), 16);
    assert_eq!(tile_segments(4), 8);
    assert_eq!(tile_segments(18), 8);
}

#[test]
fn tile_grid_of_one_cell() {
    assert_eq!(tile_grid_indices(1), vec![0, 1, 2, 1, 3, 2]);
    assert!(tile_grid_indices(0).is_empty());
}

#[test]
fn tile_grid_of_eight_cells_per_side() {
    let idx = tile_grid_indices(8);
    assert_eq!(idx.len(), 8 * 8 * 6);
    assert_eq!(&idx[0..6], &[0, 1, 9, 1, 10, 9]);
    assert_eq!(&idx[6..12], &[1, 2, 10, 2, 11, 10]);
    assert!(idx.iter().all(|&i| (i as usize) < 81));
}

#[test]
fn segment_indices_pair_consecutive_vertices() {
    assert_eq!(segment_indices(3), vec![0, 1, 2, 3, 4, 5]);
    assert!(segment_indices(0).is_empty());
    assert_eq!(segment_indices(12).len(), 24);
}
