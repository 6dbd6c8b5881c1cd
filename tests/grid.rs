use cell_grid::cell_manager::{ChunkedCellManager, FlatCellManager, GridError, Neighborhood};
use cell_grid::CellManager;

fn quads(v: &[i32]) -> Vec<(i32, i32, i32, i32)> {
    v.chunks(4).map(|c| (c[0], c[1], c[2], c[3])).collect()
}

fn sorted_quads(v: &[i32]) -> Vec<(i32, i32, i32, i32)> {
    let mut q = quads(v);
    q.sort();
    q
}

#[test]
fn set_then_get_inside_window() {
    let mut cm = CellManager::new(10, 10, 1, None).unwrap();
    cm.set_cell(3, -2, 0, 42);
    assert_eq!(cm.get_cell(3, -2, 0), 42);
    cm.set_cell(3, -2, 0, 0);
    assert_eq!(cm.get_cell(3, -2, 0), 0);
}

#[test]
fn set_outside_window_is_dropped() {
    let mut cm = CellManager::new(10, 10, 1, None).unwrap();
    cm.set_cell(100, 0, 0, 9);
    assert_eq!(cm.get_cell(100, 0, 0), 0);
    cm.set_cell(0, 0, 5, 9);
    assert_eq!(cm.get_cell(0, 0, 5), 0);
    assert!(cm.for_each_cell().is_empty());
}

#[test]
fn clear_empties_listing() {
    let mut cm = CellManager::new(10, 10, 2, None).unwrap();
    cm.set_cell(0, 0, 0, 1);
    cm.set_cell(1, 2, 1, 3);
    cm.clear();
    assert!(cm.for_each_cell().is_empty());
    let mut sparse = CellManager::new(3000, 10, 1, Some(8)).unwrap();
    sparse.set_cell(-100, 7, 0, 2);
    sparse.clear();
    assert!(sparse.for_each_cell().is_empty());
}

#[test]
fn round_trip_of_distinct_writes() {
    let writes = vec![(0, 0, 0, 5u32), (-3, 2, 1, 1), (4, -5, 0, 255), (1, 1, 1, 7)];
    for (w, cs) in [(10usize, None), (4000usize, Some(4usize))] {
        let mut cm = CellManager::new(w, 10, 2, cs).unwrap();
        for &(q, r, s, v) in &writes {
            cm.set_cell(q, r, s, v);
        }
        let out = cm.for_each_cell();
        assert_eq!(out.len() / 4, writes.len());
        let mut expected: Vec<(i32, i32, i32, i32)> =
            writes.iter().map(|&(q, r, s, v)| (q, r, s, v as i32)).collect();
        expected.sort();
        assert_eq!(sorted_quads(&out), expected);
    }
}

#[test]
fn dense_listing_is_layer_major() {
    let mut cm = CellManager::new(10, 10, 2, None).unwrap();
    cm.set_cell(2, 1, 1, 4);
    cm.set_cell(-1, 1, 0, 3);
    cm.set_cell(3, -1, 0, 2);
    cm.set_cell(-2, -1, 0, 1);
    assert_eq!(
        quads(&cm.for_each_cell()),
        vec![(-2, -1, 0, 1), (3, -1, 0, 2), (-1, 1, 0, 3), (2, 1, 1, 4)]
    );
}

#[test]
fn switch_to_sparse_and_back_keeps_cells() {
    let mut cm = CellManager::new(10, 10, 1, None).unwrap();
    let cells = [(0, 0, 0, 1u32), (-5, 4, 0, 3), (4, -5, 0, 9)];
    for &(q, r, s, v) in &cells {
        cm.set_cell(q, r, s, v);
    }
    let before = sorted_quads(&cm.for_each_cell());
    cm.resize(3000, 3000, 1).unwrap();
    assert_eq!(sorted_quads(&cm.for_each_cell()), before);
    cm.resize(10, 10, 1).unwrap();
    assert_eq!(sorted_quads(&cm.for_each_cell()), before);
}

#[test]
fn dense_resize_shifts_content_by_origin() {
    // The dense store keeps storage positions: growing from 10 to 20 moves
    // the origin by 5, so a cell at q = 0 appears at q = -5.
    let mut cm = CellManager::new(10, 10, 1, None).unwrap();
    cm.set_cell(0, 0, 0, 6);
    cm.resize(20, 20, 1).unwrap();
    assert_eq!(cm.get_cell(0, 0, 0), 0);
    assert_eq!(cm.get_cell(-5, -5, 0), 6);
    assert_eq!(quads(&cm.for_each_cell()), vec![(-5, -5, 0, 6)]);
}

#[test]
fn sparse_resize_keeps_cells_at_new_depth() {
    let mut cm = CellManager::new(3000, 10, 1, Some(4)).unwrap();
    cm.set_cell(-7, 3, 0, 5);
    cm.resize(3000, 10, 3).unwrap();
    assert_eq!(cm.get_cell(-7, 3, 0), 5);
    cm.set_cell(1, 1, 2, 8);
    assert_eq!(cm.get_cell(1, 1, 2), 8);
    assert_eq!(sorted_quads(&cm.for_each_cell()), vec![(-7, 3, 0, 5), (1, 1, 2, 8)]);
}

#[test]
fn invalid_dimensions_are_refused() {
    assert!(matches!(CellManager::new(0, 10, 1, None), Err(GridError::InvalidDimension)));
    assert!(matches!(CellManager::new(10, 10, 0, None), Err(GridError::InvalidDimension)));
    assert!(matches!(CellManager::new(3000, 10, 1, Some(0)), Err(GridError::InvalidDimension)));
    let mut cm = CellManager::new(10, 10, 1, None).unwrap();
    cm.set_cell(1, 1, 0, 2);
    assert_eq!(cm.resize(0, 10, 1), Err(GridError::InvalidDimension));
    assert_eq!(cm.get_cell(1, 1, 0), 2);
    assert_eq!(cm.get_bounds(), [-5, 4, -5, 4, 0, 0]);
    assert!(matches!(FlatCellManager::new(0, 1, 1), Err(GridError::InvalidDimension)));
    assert!(matches!(ChunkedCellManager::new(4, 0), Err(GridError::InvalidDimension)));
}

#[test]
fn count_equals_sum_over_neighbor_coordinates() {
    let mut cm = CellManager::new(10, 10, 1, None).unwrap();
    cm.change_grid_properties("square".to_string(), "moore".to_string(), 1, "none".to_string());
    cm.set_cell(0, 0, 0, 1);
    cm.set_cell(1, 1, 0, 3);
    cm.set_cell(-1, 0, 0, 255);
    let nb = cm.get_neighbors(0, 1, 0);
    let sum: u32 = nb.chunks(3).map(|c| cm.get_cell(c[0], c[1], c[2])).sum();
    assert_eq!(cm.count_live_neighbors(0, 1, 0), sum);
    assert_eq!(sum, 259);
}

#[test]
fn von_neumann_neighbor_of_origin() {
    let mut cm = CellManager::new(10, 10, 1, None).unwrap();
    cm.change_grid_properties("square".to_string(), "vonNeumann".to_string(), 1, "none".to_string());
    cm.set_cell(0, 0, 0, 1);
    assert_eq!(cm.count_live_neighbors(0, -1, 0), 1);
}

#[test]
fn boundary_ring_on_ten_by_ten() {
    let mut cm = CellManager::new(10, 10, 1, None).unwrap();
    cm.create_boundary();
    for r in -6..=5 {
        assert_eq!(cm.get_cell(-6, r, 0), 255);
        assert_eq!(cm.get_cell(5, r, 0), 255);
    }
    for q in -6..=5 {
        assert_eq!(cm.get_cell(q, -6, 0), 255);
        assert_eq!(cm.get_cell(q, 5, 0), 255);
    }
    assert_eq!(cm.get_cell(0, 0, 0), 0);
    assert_eq!(cm.get_cell(-5, -5, 0), 0);
    assert_eq!(cm.for_each_cell().len() / 4, 44);
}

#[test]
fn boundary_sentinel_dominates_neighbor_sum() {
    let mut cm = CellManager::new(10, 10, 1, None).unwrap();
    cm.create_boundary();
    assert_eq!(cm.count_live_neighbors(-5, 0, 0), 255);
    assert_eq!(cm.count_live_neighbors(-5, -5, 0), 510);
}

#[test]
fn hexagonal_flood_fill_grows_one_ring() {
    let mut cm = CellManager::new(10, 10, 1, None).unwrap();
    cm.change_grid_properties("hexagon".to_string(), "hexagonal".to_string(), 1, "none".to_string());
    cm.set_cell(0, 0, 0, 1);
    cm.floodfill();
    let mut expected = vec![
        (0, 0, 0, 1),
        (-1, 1, 0, 1),
        (1, -1, 0, 1),
        (1, 0, 0, 1),
        (-1, 0, 0, 1),
        (0, 1, 0, 1),
        (0, -1, 0, 1),
    ];
    expected.sort();
    assert_eq!(sorted_quads(&cm.for_each_cell()), expected);
    cm.floodfill();
    let after = cm.for_each_cell().len() / 4;
    assert_eq!(after, 19);
    assert_eq!(cm.get_cell(2, 0, 0), 1);
}

#[test]
fn sparse_negative_coordinates() {
    let mut c = ChunkedCellManager::new(4, 1).unwrap();
    c.set_cell(-1, -1, 0, 7);
    assert_eq!(c.get_cell(-1, -1, 0), 7);
    assert_eq!(c.get_cell(3, 3, 0), 0);
    assert_eq!(c.for_each_cell(), vec![-1, -1, 0, 7]);
    let mut cm = CellManager::new(3000, 3000, 1, Some(4)).unwrap();
    cm.set_cell(-1, -1, 0, 7);
    assert_eq!(cm.get_cell(-1, -1, 0), 7);
    cm.set_cell(i32::MIN, i32::MAX, -5, 3);
    assert_eq!(cm.get_cell(i32::MIN, i32::MAX, -5), 3);
}

#[test]
fn sparse_odd_chunk_side_at_extremes() {
    let mut c = ChunkedCellManager::new(3, 2).unwrap();
    c.set_cell(i32::MAX, i32::MIN, i32::MAX, 1);
    c.set_cell(i32::MIN, i32::MAX, i32::MIN, 2);
    assert_eq!(c.get_cell(i32::MAX, i32::MIN, i32::MAX), 1);
    assert_eq!(
        sorted_quads(&c.for_each_cell()),
        vec![(i32::MIN, i32::MAX, i32::MIN, 2), (i32::MAX, i32::MIN, i32::MAX, 1)]
    );
}

#[test]
fn flat_store_window_and_resize() {
    let mut f = FlatCellManager::new(4, 4, 1).unwrap();
    f.set_cell(-2, -2, 0, 1);
    f.set_cell(1, 1, 0, 2);
    f.set_cell(2, 0, 0, 3);
    assert_eq!(f.get_cell(2, 0, 0), 0);
    assert_eq!(f.for_each_cell(), vec![-2, -2, 0, 1, 1, 1, 0, 2]);
    f.resize(2, 2, 1).unwrap();
    assert_eq!(f.for_each_cell(), vec![-1, -1, 0, 1]);
    f.clear();
    assert!(f.for_each_cell().is_empty());
}

#[test]
fn batch_update_with_and_without_overwrite() {
    let mut cm = CellManager::new(10, 10, 1, None).unwrap();
    cm.batch_update(vec![(0, 0, 0, 4), (1, 0, 0, 5), (50, 0, 0, 6)], None);
    assert_eq!(cm.get_cell(0, 0, 0), 4);
    assert_eq!(cm.get_cell(1, 0, 0), 5);
    cm.batch_update(vec![(0, 0, 0, 4), (2, 2, 0, 5)], Some(9));
    assert_eq!(cm.get_cell(0, 0, 0), 9);
    assert_eq!(cm.get_cell(2, 2, 0), 9);
    assert_eq!(cm.get_cell(1, 0, 0), 5);
}

#[test]
fn bounds_of_grid() {
    let cm = CellManager::new(10, 7, 3, None).unwrap();
    assert_eq!(cm.get_bounds(), [-5, 4, -3, 3, 0, 2]);
}

#[test]
fn random_fill_extremes_and_range() {
    let mut cm = CellManager::new(6, 6, 1, None).unwrap();
    let mut rng = fastrand::Rng::with_seed(7);
    cm.random_fill(&mut rng, 1000);
    assert_eq!(cm.for_each_cell().len() / 4, 36);
    cm.random_fill(&mut rng, 0);
    assert!(cm.for_each_cell().is_empty());
    cm.set_cell(-4, 0, 0, 9);
    cm.random_fill(&mut rng, 500);
    assert_eq!(cm.get_cell(-4, 0, 0), 9);
    for c in quads(&cm.for_each_cell()) {
        if c.0 != -4 {
            assert_eq!(c.3, 1);
        }
    }
    cm.random_cells();
    assert_eq!(cm.get_cell(-4, 0, 0), 9);
}

#[test]
fn square_tables() {
    let vn = Neighborhood::new("square", "vonNeumann", 1);
    assert_eq!(vn.get_neighbor_offsets(0), &[(-1, 0, 0), (0, -1, 0), (0, 1, 0), (1, 0, 0)]);
    let moore = Neighborhood::new("square", "moore", 1);
    assert_eq!(moore.get_neighbor_offsets(0).len(), 8);
    let vn2 = Neighborhood::new("square", "vonNeumann", 2);
    assert_eq!(vn2.get_neighbor_offsets(0).len(), 12);
    let cross = Neighborhood::new("square", "cross", 2);
    assert_eq!(
        cross.get_neighbor_offsets(0),
        &[
            (1, 0, 0),
            (-1, 0, 0),
            (0, 1, 0),
            (0, -1, 0),
            (2, 0, 0),
            (-2, 0, 0),
            (0, 2, 0),
            (0, -2, 0)
        ]
    );
    let star = Neighborhood::new("square", "star", 1);
    assert_eq!(star.get_neighbor_offsets(0).len(), 8);
    let checker = Neighborhood::new("square", "checkerboard", 1);
    assert_eq!(checker.get_neighbor_offsets(0), &[(-1, 0, 0), (0, -1, 0), (0, 1, 0), (1, 0, 0)]);
    let fallback = Neighborhood::new("square", "unknown", 3);
    assert_eq!(fallback.get_neighbor_offsets(0), &[(0, -1, 0), (0, 1, 0)]);
}

#[test]
fn hexagon_tables() {
    let hex = Neighborhood::new("hexagon", "hexagonal", 1);
    assert_eq!(
        hex.get_neighbor_offsets(0),
        &[(-1, 1, 0), (1, -1, 0), (1, 0, 0), (-1, 0, 0), (0, 1, 0), (0, -1, 0)]
    );
    let tripod = Neighborhood::new("hexagon", "tripod", 2);
    assert_eq!(
        tripod.get_neighbor_offsets(0),
        &[(1, 0, 0), (0, -1, 0), (-1, 1, 0), (2, 0, 0), (0, -2, 0), (-2, 2, 0)]
    );
    let asterix = Neighborhood::new("hexagon", "asterix", 1);
    assert_eq!(asterix.get_neighbor_offsets(0).len(), 12);
    assert_eq!(asterix.get_neighbor_offsets(0)[6], (-2, 2, 0));
    let fallback = Neighborhood::new("hexagon", "other", 1);
    assert_eq!(fallback.get_neighbor_offsets(0), &[(0, 1, 0)]);
}

#[test]
fn layered_tables_select_by_layer() {
    let tri = Neighborhood::new("triangle", "vonNeumann", 1);
    assert_eq!(tri.adj_neighbors.len(), 2);
    assert_eq!(tri.get_neighbor_offsets(0), &[(0, 0, 1), (0, 1, 1), (-1, 0, 1)]);
    assert_eq!(tri.get_neighbor_offsets(1), &[(0, 0, -1), (0, -1, -1), (1, 0, -1)]);
    assert_eq!(tri.get_neighbor_offsets(-1), tri.get_neighbor_offsets(1));
    assert_eq!(tri.get_neighbor_offsets(4), tri.get_neighbor_offsets(0));
    let moore = Neighborhood::new("triangle", "moore", 1);
    assert_eq!(moore.get_neighbor_offsets(0).len(), 18);
    assert_eq!(moore.get_neighbor_offsets(1)[0], (-1, -1, -1));
    let bio = Neighborhood::new("triangle", "biohazard", 1);
    assert_eq!(bio.get_neighbor_offsets(0).len(), 9);
    let qbert = Neighborhood::new("rhombus", "Qbert", 1);
    assert_eq!(qbert.adj_neighbors.len(), 3);
    assert_eq!(qbert.get_neighbor_offsets(5)[0], (0, 0, -1));
    assert_eq!(qbert.get_neighbor_offsets(5)[1], (0, 0, -2));
    let unknown = Neighborhood::new("torus", "any", 1);
    assert_eq!(unknown.get_neighbor_offsets(3), &[(0, 0, 0)]);
    let tri_other = Neighborhood::new("triangle", "nothing", 1);
    assert_eq!(tri_other.get_neighbor_offsets(1), &[(0, 0, 0)]);
}

#[test]
fn neighbor_coordinates_wrap_at_i32_edges() {
    let n = Neighborhood::new("square", "cross", 1);
    let out = n.get_neighbors(i32::MAX, 0, 0);
    assert_eq!(out[0], i32::MIN);
    assert_eq!(out[3], i32::MAX - 1);
    let mut m = n;
    m.change_cell_properties("hexagon", "tripod", 1);
    assert_eq!(m.get_neighbors(0, 0, 0), vec![1, 0, 0, 0, -1, 0, -1, 1, 0]);
}

#[test]
fn chunk_side_is_checked_for_dense_grids_too() {
    assert!(matches!(CellManager::new(10, 10, 1, Some(0)), Err(GridError::InvalidDimension)));
    let mut cm = CellManager::new(10, 10, 1, Some(4)).unwrap();
    cm.set_cell(2, 2, 0, 3);
    cm.resize(3000, 10, 1).unwrap();
    assert_eq!(cm.get_cell(2, 2, 0), 3);
}

#[test]
fn fill_row_from_draws_is_exact() {
    let mut cm = CellManager::new(4, 5, 2, None).unwrap();
    cm.set_cell(0, 0, 0, 9);
    cm.set_cell(1, -2, 1, 7);
    // row q = 1, layer 1, r from -2 to 2
    cm.fill_row_from_draws(1, 1, &vec![999, 10, 500, 0, 499], 500);
    assert_eq!(cm.get_cell(1, -2, 1), 0);
    assert_eq!(cm.get_cell(1, -1, 1), 1);
    assert_eq!(cm.get_cell(1, 0, 1), 0);
    assert_eq!(cm.get_cell(1, 1, 1), 1);
    assert_eq!(cm.get_cell(1, 2, 1), 1);
    assert_eq!(cm.get_cell(0, 0, 0), 9);
    assert_eq!(cm.for_each_cell().len() / 4, 4);
}

#[test]
fn sparse_listing_groups_cells_by_chunk() {
    let mut c = ChunkedCellManager::new(2, 1).unwrap();
    c.set_cell(5, 5, 0, 1);
    c.set_cell(0, 1, 0, 2);
    c.set_cell(4, 4, 0, 3);
    c.set_cell(1, 0, 0, 4);
    c.set_cell(5, 4, 0, 5);
    // chunks in order of first write: (2,2,0) then (0,0,0); inside a chunk by ly, then lx
    assert_eq!(
        quads(&c.for_each_cell()),
        vec![(4, 4, 0, 3), (5, 4, 0, 5), (5, 5, 0, 1), (1, 0, 0, 4), (0, 1, 0, 2)]
    );
}
