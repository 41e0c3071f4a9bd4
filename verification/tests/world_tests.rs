use voxel_world::fixed::{Fx, Fx3};
use voxel_world::object::{Pos3, Rgba, Vec3i};
use voxel_world::world::World;

fn pos(x: i32, y: i32, z: i32) -> Pos3 {
    Pos3 { x, y, z }
}

fn grass() -> Rgba {
    Rgba { r: 40, g: 200, b: 40, a: 255 }
}

fn fx3(x: i64, y: i64, z: i64) -> Fx3 {
    Fx3 { x: Fx { raw: x }, y: Fx { raw: y }, z: Fx { raw: z } }
}

const HALF: i64 = 32768;
const ONE: i64 = 65536;

#[test]
fn fill_region_populates_a_full_column() {
    let mut w = World::new();
    let replaced = w.create_chunk(0, 5, 0, grass());
    assert!(!replaced);
    let chunks = w.chunks();
    assert_eq!(chunks.len(), 1);
    assert_eq!(chunks[0].cubes().len(), 16 * 5 * 16);
}

#[test]
fn fill_region_mesh_hides_interior_voxels() {
    let mut w = World::new();
    w.create_chunk(0, 5, 0, grass());
    let mesh = w.mesh();
    // interior cells (14 x 3 x 14 of them) are fully enclosed and hidden
    assert_eq!(mesh.instances().len(), 16 * 5 * 16 - 14 * 3 * 14);
    assert!(mesh.instances().len() < 16 * 5 * 16);
    // the top layer and the boundary layers are present
    assert!(mesh.instances().iter().any(|i| i.translation == pos(3, 4, 3)));
    assert!(mesh.instances().iter().any(|i| i.translation == pos(0, 2, 5)));
    // an interior voxel is not
    assert!(mesh.instances().iter().all(|i| i.translation != pos(3, 2, 3)));
}

#[test]
fn fill_region_twice_reports_the_duplicate_once_per_call() {
    let mut w = World::new();
    assert!(!w.create_chunk(0, 5, 0, grass()));
    assert!(w.create_chunk(0, 5, 0, grass()));
    assert!(w.create_chunk(3, 2, 7, grass()));
    assert!(!w.create_chunk(16, 5, 0, grass()));
    assert_eq!(w.chunks().len(), 2);
}

#[test]
fn ray_finds_voxel_along_x_axis() {
    let mut w = World::new();
    w.push_cube(pos(3, 0, 0), grass());
    let origin = fx3(HALF, HALF, HALF);
    let dir = fx3(ONE, 0, 0);
    let res = w.cube_looking_at(&origin, &dir, Fx::from_int(3));
    let hit = res.result_cube.expect("voxel within radius");
    assert_eq!(hit.cube, pos(3, 0, 0));
    assert_eq!(hit.direction, Vec3i { x: -1, y: 0, z: 0 });
    assert_eq!(res.path, vec![pos(0, 0, 0), pos(1, 0, 0), pos(2, 0, 0), pos(3, 0, 0)]);
}

#[test]
fn ray_misses_voxel_outside_radius() {
    let mut w = World::new();
    w.push_cube(pos(3, 0, 0), grass());
    let origin = fx3(HALF, HALF, HALF);
    let dir = fx3(ONE, 0, 0);
    let res = w.cube_looking_at(&origin, &dir, Fx::from_int(2));
    assert!(res.result_cube.is_none());
    assert_eq!(res.path, vec![pos(0, 0, 0), pos(1, 0, 0), pos(2, 0, 0)]);
}

#[test]
fn ray_crosses_the_chunk_boundary() {
    let mut w = World::new();
    // chunk (0, 0) resident and empty, chunk (16, 0) holds the voxel
    w.create_chunk(0, 0, 0, grass());
    w.push_cube(pos(16, 0, 0), grass());
    let origin = fx3(10 * ONE, 0, 0);
    let dir = fx3(ONE, 0, 0);
    let res = w.cube_looking_at(&origin, &dir, Fx::from_int(10));
    let hit = res.result_cube.expect("voxel across the boundary");
    assert_eq!(hit.cube, pos(16, 0, 0));
    assert_eq!(hit.direction, Vec3i { x: -1, y: 0, z: 0 });
}

#[test]
fn ray_starting_inside_a_voxel_reports_zero_direction() {
    let mut w = World::new();
    w.push_cube(pos(0, 0, 0), grass());
    let res = w.cube_looking_at(&fx3(6554, 0, 0), &fx3(ONE, 0, 0), Fx::from_int(2));
    let hit = res.result_cube.expect("standing in the voxel");
    assert_eq!(hit.cube, pos(0, 0, 0));
    assert_eq!(hit.direction, Vec3i { x: 0, y: 0, z: 0 });
}

#[test]
fn diagonal_ray_prefers_y_on_exact_ties() {
    let mut w = World::new();
    w.push_cube(pos(0, 1, 0), grass());
    w.push_cube(pos(1, 0, 0), grass());
    let res = w.cube_looking_at(&fx3(0, 0, 0), &fx3(ONE, ONE, 0), Fx::from_int(4));
    let hit = res.result_cube.expect("a voxel on the diagonal");
    assert_eq!(hit.cube, pos(0, 1, 0));
}

#[test]
fn placement_targets_the_cell_the_ray_came_from() {
    let mut w = World::new();
    w.push_cube(pos(3, 0, 0), grass());
    let res = w.cube_looking_at(&fx3(HALF, HALF, HALF), &fx3(ONE, 0, 0), Fx::from_int(5));
    let hit = res.result_cube.unwrap();
    assert_eq!(hit.placement_target(), pos(2, 0, 0));
}

#[test]
fn place_then_remove_leaves_the_world_empty() {
    let mut w = World::new();
    w.push_cube(pos(7, 3, 7), grass());
    assert!(w.occ_query(pos(7, 3, 7)));
    w.remove_cube(pos(7, 3, 7));
    assert!(!w.occ_query(pos(7, 3, 7)));
    assert_eq!(w.mesh().instances().len(), 0);
}

#[test]
fn removing_from_unresident_space_creates_the_chunk() {
    let mut w = World::new();
    w.remove_cube(pos(5, 0, 5));
    assert_eq!(w.chunks().len(), 1);
    assert!(!w.occ_query(pos(5, 0, 5)));
}

#[test]
fn negative_coordinates_round_to_the_floor_chunk() {
    let mut w = World::new();
    w.push_cube(pos(-1, 0, -17), grass());
    assert_eq!(w.chunks()[0].start(), (-16, -32));
    assert!(w.occ_query(pos(-1, 0, -17)));
    assert!(!w.occ_query(pos(-1, 1, -17)));
}

#[test]
fn mesh_is_cached_until_the_next_edit() {
    let mut w = World::new();
    w.create_chunk(0, 1, 0, grass());
    let first = w.mesh().instances().len();
    assert_eq!(w.mesh().instances().len(), first);
    w.push_cube(pos(40, 0, 40), grass());
    assert_eq!(w.mesh().instances().len(), first + 1);
}

#[test]
fn chunks_around_collects_the_square_of_keys() {
    let mut w = World::new();
    w.create_chunk(0, 1, 0, grass());
    w.create_chunk(32, 1, 0, grass());
    let near = w.chunks_around(0, 0, Fx::from_int(16));
    assert_eq!(near, vec![0]);
    let far = w.chunks_around(0, 0, Fx::from_int(32));
    assert_eq!(far, vec![0, 1]);
}

#[test]
fn ray_descends_through_space_above_the_world_column() {
    let mut w = World::new();
    w.create_chunk(0, 256, 0, grass());
    // cells above y = 255 belong to no chunk and count as empty; the walk
    // keeps stepping until it re-enters the column and meets the top layer
    let origin = fx3(13107, 280 * ONE, 13107);
    let res = w.cube_looking_at(&origin, &fx3(0, -ONE, 0), Fx::from_int(100));
    let hit = res.result_cube.expect("the top layer below");
    assert_eq!(hit.cube, pos(0, 255, 0));
    assert_eq!(hit.direction, Vec3i { x: 0, y: 1, z: 0 });
}

#[test]
fn ray_crosses_into_negative_chunks() {
    let mut w = World::new();
    w.create_chunk(0, 0, 0, grass());
    w.push_cube(pos(-3, 0, 0), grass());
    let res = w.cube_looking_at(&fx3(26214, 0, 0), &fx3(-ONE, 0, 0), Fx::from_int(5));
    let hit = res.result_cube.expect("voxel in the negative chunk");
    assert_eq!(hit.cube, pos(-3, 0, 0));
    assert_eq!(hit.direction, Vec3i { x: 1, y: 0, z: 0 });
}

#[test]
fn mesh_instances_carry_the_placed_colors() {
    let mut w = World::new();
    let red = Rgba { r: 255, g: 0, b: 0, a: 255 };
    let blue = Rgba { r: 0, g: 0, b: 255, a: 255 };
    w.push_cube(pos(1, 0, 1), red);
    w.push_cube(pos(2, 0, 1), blue);
    let mesh = w.mesh();
    assert_eq!(mesh.instances().len(), 2);
    let at = |p: Pos3| {
        mesh.instances()
            .iter()
            .find(|i| i.translation == p)
            .expect("instance at the placed cell")
            .color
    };
    assert_eq!(at(pos(1, 0, 1)), red);
    assert_eq!(at(pos(2, 0, 1)), blue);
}

#[test]
fn edits_route_through_chunk_columns_independently() {
    let mut w = World::new();
    w.push_cube(pos(0, 0, 0), grass());
    w.push_cube(pos(16, 0, 0), grass());
    assert_eq!(w.chunks().len(), 2);
    w.remove_cube(pos(0, 0, 0));
    assert!(!w.occ_query(pos(0, 0, 0)));
    assert!(w.occ_query(pos(16, 0, 0)));
}
