use orion::input::{handle_cursor_lock, movement_axes, CursorGrabMode, CursorOptions, MovementKeys};
use orion::render_views::{camera_driver_step, windows_to_clear, CameraTarget, RootViewState};
use orion::sdf::{SDFSubtraction, SDFUnion};
use orion::surface_nets::{
    calculate_smooth_vertex, collect_quad_indices, extract_surface_nets, generate_indices, generate_vertices,
    EdgeCrossing,
};
use orion::voxels::{ChunkCoord, OrionVoxelGrid, VoxelConfig};

fn origin() -> ChunkCoord {
    ChunkCoord { x: 0, y: 0, z: 0 }
}

fn single_voxel_grid() -> OrionVoxelGrid<bool> {
    OrionVoxelGrid::new(3, origin(), |x, y, z| x == 1 && y == 1 && z == 1)
}

#[test]
fn density_index_matches_ndshape_example() {
    let grid = OrionVoxelGrid { coord: origin(), shape: [5, 6, 7], data: (0u32..210).collect() };
    assert_eq!(grid.get_density([1, 2, 3]), 101);
    assert_eq!(grid.get_density([0, 0, 0]), 0);
    assert_eq!(grid.get_density([4, 5, 6]), 209);
    assert_eq!(grid.get_density([4, 0, 0]), 4);
    assert_eq!(grid.get_density([0, 1, 0]), 5);
    assert_eq!(grid.get_density([0, 0, 1]), 30);
}

#[test]
fn vertex_table_covers_every_cell() {
    // The table of vertex numbers has one slot per cell of [0, 2]^3; a
    // single inside voxel at the far corner is reached only through it.
    let grid = OrionVoxelGrid::new(4, origin(), |x, y, z| x == 2 && y == 2 && z == 2);
    let config = VoxelConfig { array_size: 2, grid_size: 1.0f32 };
    let (vertices, indices) = extract_surface_nets(&grid, &config);
    assert_eq!(vertices.len(), 8);
    assert_eq!(vertices[7].cell, [2, 2, 2]);
    assert_eq!(indices.len(), 36);
    assert!(indices.iter().all(|&i| i < 8));
}

#[test]
fn new_grid_stores_samples_x_outermost() {
    let grid = OrionVoxelGrid::new(3, ChunkCoord { x: 1, y: -2, z: 3 }, |x, y, z| x * 100 + y * 10 + z);
    assert_eq!(grid.shape, [3, 3, 3]);
    assert_eq!(grid.coord, ChunkCoord { x: 1, y: -2, z: 3 });
    assert_eq!(grid.data.len(), 27);
    assert_eq!(grid.data[0], 0);
    assert_eq!(grid.data[1], 1);
    assert_eq!(grid.data[3], 10);
    assert_eq!(grid.data[9], 100);
    assert_eq!(grid.data[26], 222);
}

#[test]
fn get_density_reads_transposed_sample() {
    let grid = OrionVoxelGrid::new(3, origin(), |x, y, z| x * 100 + y * 10 + z);
    // The sample taken at (z, y, x) is read back at (x, y, z).
    assert_eq!(grid.get_density([2, 0, 1]), 102);
    assert_eq!(grid.get_density([0, 1, 2]), 210);
    assert_eq!(grid.get_density([1, 1, 1]), 111);
    assert_eq!(grid.get_density([2, 2, 2]), 222);
}

#[test]
fn empty_grid_has_no_samples() {
    let grid = OrionVoxelGrid::new(0, origin(), |_x, _y, _z| 1.5f32);
    assert_eq!(grid.shape, [0, 0, 0]);
    assert!(grid.data.is_empty());
}

#[test]
fn cell_without_surface_has_no_vertex() {
    let all_outside = OrionVoxelGrid::new(3, origin(), |_x, _y, _z| false);
    assert!(calculate_smooth_vertex(&all_outside, 0, 0, 0).is_none());
    let all_inside = OrionVoxelGrid::new(3, origin(), |_x, _y, _z| true);
    assert!(calculate_smooth_vertex(&all_inside, 1, 1, 1).is_none());
}

#[test]
fn cell_with_one_inside_corner_crosses_three_edges() {
    let grid = single_voxel_grid();
    // Cell (1, 1, 1) has its corner (0, 0, 0) inside.
    let crossings = calculate_smooth_vertex(&grid, 1, 1, 1).unwrap();
    assert_eq!(
        crossings,
        vec![
            EdgeCrossing { axis: 0, u: 0, v: 0 },
            EdgeCrossing { axis: 1, u: 0, v: 0 },
            EdgeCrossing { axis: 2, u: 0, v: 0 },
        ]
    );
    // Cell (0, 0, 0) has its corner (1, 1, 1) inside.
    let crossings = calculate_smooth_vertex(&grid, 0, 0, 0).unwrap();
    assert_eq!(
        crossings,
        vec![
            EdgeCrossing { axis: 0, u: 1, v: 1 },
            EdgeCrossing { axis: 1, u: 1, v: 1 },
            EdgeCrossing { axis: 2, u: 1, v: 1 },
        ]
    );
}

#[test]
fn half_inside_cell_crosses_four_edges() {
    // Voxels with x == 0 are inside: the four x edges cross.
    let grid = OrionVoxelGrid::new(3, origin(), |x, _y, _z| x == 0);
    // get_density reads the sample of (z, y, x), so inside is z == 0 there.
    let crossings = calculate_smooth_vertex(&grid, 0, 0, 0).unwrap();
    assert_eq!(
        crossings,
        vec![
            EdgeCrossing { axis: 2, u: 0, v: 0 },
            EdgeCrossing { axis: 2, u: 0, v: 1 },
            EdgeCrossing { axis: 2, u: 1, v: 0 },
            EdgeCrossing { axis: 2, u: 1, v: 1 },
        ]
    );
}

#[test]
fn vertices_are_numbered_in_cell_order() {
    let grid = single_voxel_grid();
    let mut vertex_indices = vec![-1i32; 8];
    let vertices = generate_vertices(&grid, 1, [2, 2, 2], &mut vertex_indices);
    assert_eq!(vertices.len(), 8);
    let cells: Vec<[u32; 3]> = vertices.iter().map(|v| v.cell).collect();
    assert_eq!(
        cells,
        vec![[0, 0, 0], [0, 0, 1], [0, 1, 0], [0, 1, 1], [1, 0, 0], [1, 0, 1], [1, 1, 0], [1, 1, 1]]
    );
    // Cell (x, y, z) sits at x + 2 y + 4 z.
    assert_eq!(vertex_indices, vec![0, 4, 2, 6, 1, 5, 3, 7]);
}

#[test]
fn vertices_leave_other_slots_alone() {
    // Only voxel (0, 0, 0) is inside: only cell (0, 0, 0) of [0, 1]^3 holds it.
    let grid = OrionVoxelGrid::new(3, origin(), |x, y, z| x == 0 && y == 0 && z == 0);
    let mut vertex_indices = vec![-7i32; 8];
    let vertices = generate_vertices(&grid, 1, [2, 2, 2], &mut vertex_indices);
    assert_eq!(vertices.len(), 1);
    assert_eq!(vertices[0].cell, [0, 0, 0]);
    assert_eq!(vertex_indices, vec![0, -7, -7, -7, -7, -7, -7, -7]);
}

#[test]
fn quad_with_missing_cell_adds_nothing() {
    let vertex_indices = vec![0i32, 1, 2, 3, 4, 5, 6, 7];
    let mut indices = vec![99u32];
    // Along y from voxel (0, 1, 1) the cells reach x = -1.
    collect_quad_indices(0, 1, 1, 1, false, [2, 2, 2], &vertex_indices, &mut indices);
    assert_eq!(indices, vec![99]);
    // A cell without a vertex stops the quad too.
    let mut holes = vertex_indices.clone();
    holes[1] = -1;
    collect_quad_indices(1, 1, 1, 0, false, [2, 2, 2], &holes, &mut indices);
    assert_eq!(indices, vec![99]);
}

#[test]
fn quad_winding_follows_inside() {
    let vertex_indices = vec![10i32, 11, 12, 13, 14, 15, 16, 17];
    let mut outside = Vec::new();
    collect_quad_indices(1, 1, 1, 0, false, [2, 2, 2], &vertex_indices, &mut outside);
    // cells (1,1,1), (1,1,0), (1,0,0), (1,0,1) sit at 7, 3, 1, 5
    assert_eq!(outside, vec![17, 13, 11, 17, 11, 15]);
    let mut inside = Vec::new();
    collect_quad_indices(1, 1, 1, 0, true, [2, 2, 2], &vertex_indices, &mut inside);
    assert_eq!(inside, vec![17, 11, 13, 17, 15, 11]);
    // Any axis index past 1 is the z axis.
    let mut z_axis = Vec::new();
    collect_quad_indices(1, 1, 1, 7, false, [2, 2, 2], &vertex_indices, &mut z_axis);
    // cells (1,1,1), (1,0,1), (0,0,1), (0,1,1) sit at 7, 5, 4, 6
    assert_eq!(z_axis, vec![17, 15, 14, 17, 14, 16]);
}

#[test]
fn indices_of_single_voxel() {
    let grid = single_voxel_grid();
    let mut vertex_indices = vec![-1i32; 8];
    let _vertices = generate_vertices(&grid, 1, [2, 2, 2], &mut vertex_indices);
    let indices = generate_indices(&grid, 1, [2, 2, 2], &vertex_indices);
    assert_eq!(
        indices,
        vec![
            3, 2, 0, 3, 0, 1, // voxel (0, 1, 1) along x
            5, 1, 0, 5, 0, 4, // voxel (1, 0, 1) along y
            6, 4, 0, 6, 0, 2, // voxel (1, 1, 0) along z
            7, 4, 6, 7, 5, 4, // voxel (1, 1, 1) along x
            7, 2, 3, 7, 6, 2, // voxel (1, 1, 1) along y
            7, 1, 5, 7, 3, 1, // voxel (1, 1, 1) along z
        ]
    );
}

#[test]
fn surface_nets_of_single_voxel() {
    let grid = single_voxel_grid();
    let config = VoxelConfig { array_size: 1, grid_size: 1.0f32 };
    let (vertices, indices) = extract_surface_nets(&grid, &config);
    assert_eq!(vertices.len(), 8);
    assert_eq!(indices.len(), 36);
    assert_eq!(&indices[0..6], &[3, 2, 0, 3, 0, 1]);
    assert!(vertices.iter().all(|v| v.crossings.len() == 3));
}

#[test]
fn surface_nets_laws_on_a_ball() {
    let n = 8u32;
    let grid = OrionVoxelGrid::new(n, origin(), |x, y, z| {
        let dx = x as i32 - 3;
        let dy = y as i32 - 4;
        let dz = z as i32 - 3;
        dx * dx + dy * dy + dz * dz <= 5
    });
    let config = VoxelConfig { array_size: 6, grid_size: 2.0f32 };
    let (vertices, indices) = extract_surface_nets(&grid, &config);
    assert!(!vertices.is_empty());
    assert_eq!(indices.len() % 3, 0);
    assert!(indices.iter().all(|&i| (i as usize) < vertices.len()));
    assert!(vertices.iter().all(|v| !v.crossings.is_empty()));
    // Vertices come in cell order, x outermost.
    for pair in vertices.windows(2) {
        assert!(pair[0].cell < pair[1].cell);
    }
}

#[test]
fn surface_nets_of_empty_space() {
    let grid = OrionVoxelGrid::new(4, origin(), |_x, _y, _z| false);
    let config = VoxelConfig { array_size: 2, grid_size: 1.0f32 };
    let (vertices, indices) = extract_surface_nets(&grid, &config);
    assert!(vertices.is_empty());
    assert!(indices.is_empty());
}

#[test]
fn cursor_locks_on_click_and_frees_on_escape() {
    let mut cursor = CursorOptions { grab_mode: CursorGrabMode::Free, visible: true };
    handle_cursor_lock(&mut cursor, true, false);
    assert_eq!(cursor, CursorOptions { grab_mode: CursorGrabMode::Locked, visible: false });
    handle_cursor_lock(&mut cursor, false, false);
    assert_eq!(cursor, CursorOptions { grab_mode: CursorGrabMode::Locked, visible: false });
    handle_cursor_lock(&mut cursor, false, true);
    assert_eq!(cursor, CursorOptions { grab_mode: CursorGrabMode::Free, visible: true });
}

#[test]
fn escape_wins_over_click() {
    let mut cursor = CursorOptions { grab_mode: CursorGrabMode::Confined, visible: false };
    handle_cursor_lock(&mut cursor, true, true);
    assert_eq!(cursor, CursorOptions { grab_mode: CursorGrabMode::Free, visible: true });
}

#[test]
fn movement_keys_cancel_in_pairs() {
    let none = MovementKeys { forward: false, back: false, left: false, right: false, up: false, down: false };
    let axes = movement_axes(none);
    assert_eq!((axes.forward, axes.right, axes.up), (0, 0, 0));
    let all = MovementKeys { forward: true, back: true, left: true, right: true, up: true, down: true };
    let axes = movement_axes(all);
    assert_eq!((axes.forward, axes.right, axes.up), (0, 0, 0));
    let some = MovementKeys { forward: true, back: false, left: true, right: false, up: false, down: true };
    let axes = movement_axes(some);
    assert_eq!((axes.forward, axes.right, axes.up), (1, -1, -1));
}

#[test]
fn camera_views_are_run_or_skipped() {
    let mut windows = Vec::new();
    let shown = RootViewState::Camera {
        entity: 7,
        target: Some(CameraTarget::Window { window: 100, physical_size: Some((800, 600)) }),
    };
    assert_eq!(camera_driver_step(&mut windows, shown), Some(7));
    assert_eq!(windows, vec![100]);
    // A second camera on the same window records it once.
    let again = RootViewState::Camera {
        entity: 8,
        target: Some(CameraTarget::Window { window: 100, physical_size: Some((800, 600)) }),
    };
    assert_eq!(camera_driver_step(&mut windows, again), Some(8));
    assert_eq!(windows, vec![100]);
    let minimized = RootViewState::Camera {
        entity: 9,
        target: Some(CameraTarget::Window { window: 101, physical_size: Some((0, 600)) }),
    };
    assert_eq!(camera_driver_step(&mut windows, minimized), None);
    let missing_window = RootViewState::Camera {
        entity: 10,
        target: Some(CameraTarget::Window { window: 102, physical_size: None }),
    };
    assert_eq!(camera_driver_step(&mut windows, missing_window), None);
    let image = RootViewState::Camera { entity: 11, target: Some(CameraTarget::NotWindow) };
    assert_eq!(camera_driver_step(&mut windows, image), Some(11));
    let unextracted = RootViewState::Camera { entity: 12, target: None };
    assert_eq!(camera_driver_step(&mut windows, unextracted), None);
    let auxiliary = RootViewState::Auxiliary { entity: 13, registered: true };
    assert_eq!(camera_driver_step(&mut windows, auxiliary), Some(13));
    let gone = RootViewState::Auxiliary { entity: 14, registered: false };
    assert_eq!(camera_driver_step(&mut windows, gone), None);
    assert_eq!(windows, vec![100]);
}

#[test]
fn uncovered_windows_are_cleared() {
    let camera_windows = vec![100u64, 300];
    let windows = vec![(100u64, true), (200, true), (300, true), (400, false), (500, true)];
    assert_eq!(windows_to_clear(&camera_windows, &windows), vec![200, 500]);
    assert_eq!(windows_to_clear(&camera_windows, &Vec::new()), Vec::<u64>::new());
}

#[test]
fn csg_nodes_hold_their_operands() {
    let union = SDFUnion::new(1u8, "b");
    assert_eq!(union.shape_a, 1);
    assert_eq!(union.shape_b, "b");
    let subtraction = SDFSubtraction::new([1.0f32, 2.0], 3i64);
    assert_eq!(subtraction.shape_a, [1.0, 2.0]);
    assert_eq!(subtraction.shape_b, 3);
}

#[test]
fn flipped_flags_reverse_every_triangle() {
    let grid = single_voxel_grid();
    let flipped = OrionVoxelGrid {
        coord: grid.coord,
        shape: grid.shape,
        data: grid.data.iter().map(|inside| !inside).collect(),
    };
    let config = VoxelConfig { array_size: 1, grid_size: 1.0f32 };
    let (vertices, indices) = extract_surface_nets(&grid, &config);
    let (flipped_vertices, flipped_indices) = extract_surface_nets(&flipped, &config);
    assert_eq!(vertices.len(), flipped_vertices.len());
    for (v, w) in vertices.iter().zip(flipped_vertices.iter()) {
        assert_eq!(v.cell, w.cell);
        assert_eq!(v.crossings, w.crossings);
    }
    assert_eq!(indices.len(), flipped_indices.len());
    for t in 0..indices.len() / 3 {
        assert_eq!(flipped_indices[3 * t], indices[3 * t]);
        assert_eq!(flipped_indices[3 * t + 1], indices[3 * t + 2]);
        assert_eq!(flipped_indices[3 * t + 2], indices[3 * t + 1]);
    }
    assert_eq!(&flipped_indices[0..6], &[3, 0, 2, 3, 1, 0]);
}

#[test]
fn triangles_join_three_different_vertices() {
    let grid = OrionVoxelGrid::new(8, origin(), |x, y, z| (x + 2 * y + 3 * z) % 5 < 2);
    let config = VoxelConfig { array_size: 6, grid_size: 1.0f32 };
    let (vertices, indices) = extract_surface_nets(&grid, &config);
    assert!(!indices.is_empty());
    assert_eq!(indices.len() % 6, 0);
    for triangle in indices.chunks(3) {
        assert!(triangle[0] != triangle[1] && triangle[0] != triangle[2] && triangle[1] != triangle[2]);
        assert!(triangle.iter().all(|&i| (i as usize) < vertices.len()));
    }
}
