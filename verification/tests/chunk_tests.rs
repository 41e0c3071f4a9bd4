use voxel_world::chunk::Chunk;
use voxel_world::fixed::Fx;
use voxel_world::object::{InstancesMesh, InstancesMeshError, Pos3, Rgba};

fn pos(x: i32, y: i32, z: i32) -> Pos3 {
    Pos3 { x, y, z }
}

fn red() -> Rgba {
    Rgba { r: 255, g: 0, b: 0, a: 255 }
}

fn cell_index(x: usize, y: usize, z: usize) -> usize {
    x + y * 16 + z * 4096
}

#[test]
fn instances_mesh_rejects_empty_geometry() {
    assert!(matches!(
        InstancesMesh::new(0, 36),
        Err(InstancesMeshError::EmptyVertices)
    ));
    assert!(matches!(
        InstancesMesh::new(24, 0),
        Err(InstancesMeshError::EmptyIndices)
    ));
    let mesh = InstancesMesh::new(24, 36).unwrap();
    assert!(mesh.is_empty());
}

#[test]
fn place_sets_neighbor_masks_bidirectionally() {
    let mut c = Chunk::new(0, 0);
    c.push_cube(pos(1, 1, 1), red());
    c.push_cube(pos(2, 1, 1), red());
    let left = c.cells[cell_index(1, 1, 1)].unwrap();
    let right = c.cells[cell_index(2, 1, 1)].unwrap();
    assert!(left.sides_present.east);
    assert!(right.sides_present.west);
    assert!(!left.sides_present.west);
    assert!(!left.sides_present.top);
    assert!(!right.sides_present.east);
}

#[test]
fn remove_clears_neighbor_masks() {
    let mut c = Chunk::new(0, 0);
    c.push_cube(pos(1, 1, 1), red());
    c.push_cube(pos(2, 1, 1), red());
    c.push_cube(pos(1, 2, 1), red());
    c.remove_cube(pos(1, 1, 1));
    let right = c.cells[cell_index(2, 1, 1)].unwrap();
    let above = c.cells[cell_index(1, 2, 1)].unwrap();
    assert!(!right.sides_present.west);
    assert!(!above.sides_present.bottom);
    assert!(c.cells[cell_index(1, 1, 1)].is_none());
}

#[test]
fn place_then_remove_restores_surroundings() {
    let mut c = Chunk::new(0, 0);
    c.push_cube(pos(0, 1, 0), red());
    c.push_cube(pos(2, 1, 0), red());
    let before_left = c.cells[cell_index(0, 1, 0)].unwrap();
    let before_right = c.cells[cell_index(2, 1, 0)].unwrap();
    c.push_cube(pos(1, 1, 0), red());
    assert!(c.cells[cell_index(0, 1, 0)].unwrap().sides_present.east);
    assert!(c.cells[cell_index(2, 1, 0)].unwrap().sides_present.west);
    c.remove_cube(pos(1, 1, 0));
    assert_eq!(c.cells[cell_index(0, 1, 0)].unwrap(), before_left);
    assert_eq!(c.cells[cell_index(2, 1, 0)].unwrap(), before_right);
    assert!(c.cells[cell_index(1, 1, 0)].is_none());
}

#[test]
fn enclosed_voxel_is_not_meshed() {
    let mut c = Chunk::new(0, 0);
    let center = pos(8, 8, 8);
    c.push_cube(center, red());
    c.push_cube(pos(8, 9, 8), red());
    c.push_cube(pos(8, 7, 8), red());
    c.push_cube(pos(9, 8, 8), red());
    c.push_cube(pos(7, 8, 8), red());
    c.push_cube(pos(8, 8, 9), red());
    c.push_cube(pos(8, 8, 7), red());
    let mesh = c.mesh();
    assert_eq!(mesh.instances().len(), 6);
    assert!(mesh.instances().iter().all(|i| i.translation != center));
}

#[test]
fn boundary_voxel_stays_visible() {
    let mut c = Chunk::new(0, 0);
    // a corner voxel keeps its outward sides open even when every
    // in-chunk neighbor is occupied
    c.push_cube(pos(0, 0, 0), red());
    c.push_cube(pos(1, 0, 0), red());
    c.push_cube(pos(0, 1, 0), red());
    c.push_cube(pos(0, 0, 1), red());
    let mesh = c.mesh();
    assert!(mesh.instances().iter().any(|i| i.translation == pos(0, 0, 0)));
}

#[test]
fn mesh_reflects_removal_after_rebuild() {
    let mut c = Chunk::new(0, 0);
    c.push_cube(pos(3, 0, 3), red());
    assert_eq!(c.mesh().instances().len(), 1);
    c.remove_cube(pos(3, 0, 3));
    assert_eq!(c.mesh().instances().len(), 0);
}

#[test]
fn cubes_lists_occupied_positions_in_storage_order() {
    let mut c = Chunk::new(16, 0);
    c.push_cube(pos(18, 0, 0), red());
    c.push_cube(pos(17, 1, 0), red());
    c.push_cube(pos(16, 0, 1), red());
    // storage order is x, then y, then z
    let cubes = c.cubes();
    assert_eq!(cubes, vec![pos(18, 0, 0), pos(17, 1, 0), pos(16, 0, 1)]);
}

#[test]
fn cubes_around_filters_by_euclidean_distance() {
    let mut c = Chunk::new(0, 0);
    c.push_cube(pos(0, 0, 0), red());
    c.push_cube(pos(2, 0, 0), red());
    c.push_cube(pos(5, 0, 0), red());
    let within = c.cubes_around(pos(0, 0, 0), Fx { raw: 5 * 65536 / 2 });
    assert_eq!(within, vec![pos(0, 0, 0), pos(2, 0, 0)]);
    let none = c.cubes_around(pos(0, 0, 0), Fx { raw: -65536 });
    assert!(none.is_empty());
}

#[test]
fn in_chunk_pos_validates_the_footprint() {
    let c = Chunk::new(16, 0);
    assert_eq!(c.start(), (16, 0));
    assert_eq!(c.in_chunk_pos(pos(16, 0, 0)), Some(pos(0, 0, 0)));
    assert_eq!(c.in_chunk_pos(pos(31, 255, 15)), Some(pos(15, 255, 15)));
    assert_eq!(c.in_chunk_pos(pos(15, 0, 0)), None);
    assert_eq!(c.in_chunk_pos(pos(32, 0, 0)), None);
    assert_eq!(c.in_chunk_pos(pos(16, 256, 0)), None);
    assert_eq!(c.in_chunk_pos(pos(16, -1, 0)), None);
}

#[test]
fn fx_from_int_scales_by_the_fixed_point_unit() {
    assert_eq!(Fx::from_int(3).raw, 3 * 65536);
    assert_eq!(Fx::from_int(-2).raw, -2 * 65536);
}
