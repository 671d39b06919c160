use starsurge::{Position, TerrainSize};

#[test]
fn terrain_size_holds_width_and_height() {
    let size = TerrainSize::new(4, 2);
    assert_eq!((size.width, size.height), (4, 2));
    assert_eq!(TerrainSize::square(3), TerrainSize::new(3, 3));
    assert_eq!(TerrainSize::default(), TerrainSize::new(0, 0));
}

#[test]
fn terrain_counts_quads_and_vertices() {
    let size = TerrainSize::new(4, 2);
    assert_eq!(size.num_quads(), 8);
    assert_eq!(size.num_vertices(), 15);
    assert_eq!(TerrainSize::default().num_quads(), 0);
    assert_eq!(TerrainSize::default().num_vertices(), 1);
    assert_eq!(TerrainSize::square(255).num_vertices(), 65536);
}

#[test]
fn vertices_are_numbered_row_by_row() {
    let size = TerrainSize::new(4, 2);
    assert_eq!(size.vertex_index(0, 0), Some(0));
    assert_eq!(size.vertex_index(4, 0), Some(4));
    assert_eq!(size.vertex_index(0, 1), Some(5));
    assert_eq!(size.vertex_index(3, 2), Some(13));
    assert_eq!(size.vertex_index(4, 2), Some(14));
}

#[test]
fn vertex_beyond_the_last_has_no_number() {
    let size = TerrainSize::new(4, 2);
    assert_eq!(size.vertex_index(5, 2), None);
    assert_eq!(size.vertex_index(0, 3), None);
    assert_eq!(size.vertex_index(usize::MAX, usize::MAX), None);
    // A column beyond the last counts on into the next row.
    assert_eq!(size.vertex_index(5, 0), Some(5));
    assert_eq!(TerrainSize::new(usize::MAX, 0).vertex_index(0, 0), None);
}

#[test]
fn centre_of_the_grid_is_the_middle_quad() {
    let size = TerrainSize::new(4, 2);
    assert_eq!(size.quad_of(&Position::new(0, 0, 0)), Some((2, 1)));
    assert_eq!(size.quad_of(&Position::new(-2, -1, 0)), Some((0, 0)));
    assert_eq!(size.quad_of(&Position::new(1, 0, 3)), Some((3, 1)));
    let odd = TerrainSize::new(5, 5);
    assert_eq!(odd.quad_of(&Position::new(0, 0, 0)), Some((2, 2)));
    assert_eq!(odd.quad_of(&Position::new(2, 2, 0)), Some((4, 4)));
}

#[test]
fn cells_off_the_terrain_have_no_quad() {
    let size = TerrainSize::new(4, 2);
    assert_eq!(size.quad_of(&Position::new(2, 0, 0)), None);
    assert_eq!(size.quad_of(&Position::new(0, 1, 0)), None);
    assert_eq!(size.quad_of(&Position::new(-3, 0, 0)), None);
    assert_eq!(size.quad_of(&Position::new(0, -2, 0)), None);
    assert_eq!(size.quad_of(&Position::new(i32::MIN, i32::MAX, 0)), None);
    assert_eq!(TerrainSize::default().quad_of(&Position::new(0, 0, 0)), None);
}

#[test]
fn mesh_has_two_triangles_for_each_quad() {
    let indices = TerrainSize::new(2, 1).mesh_indices();
    assert_eq!(indices, vec![0, 3, 4, 0, 4, 1, 1, 4, 5, 1, 5, 2]);
}

#[test]
fn mesh_goes_quad_by_quad_and_row_by_row() {
    let indices = TerrainSize::new(4, 2).mesh_indices();
    assert_eq!(indices.len(), 48);
    assert_eq!(&indices[0..6], &[0, 5, 6, 0, 6, 1]);
    assert_eq!(&indices[18..24], &[3, 8, 9, 3, 9, 4]);
    assert_eq!(&indices[24..30], &[5, 10, 11, 5, 11, 6]);
    assert_eq!(&indices[42..48], &[8, 13, 14, 8, 14, 9]);
}

#[test]
fn terrain_without_quads_has_no_mesh() {
    assert!(TerrainSize::default().mesh_indices().is_empty());
    assert!(TerrainSize::new(7, 0).mesh_indices().is_empty());
    assert!(TerrainSize::new(0, 7).mesh_indices().is_empty());
}
