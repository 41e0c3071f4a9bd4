//! A fixed-extent 16 x 256 x 16 grid of optional voxels.
//!
//! Each occupied cell carries a six-bit neighbor-presence mask that is kept
//! consistent with actual neighbor occupancy inside the chunk on every edit.
//! Cells at the chunk's outer boundary treat the space beyond the chunk as
//! empty: chunks do not exchange boundary information with their neighbors,
//! so boundary voxels always keep at least one side marked absent.

use vstd::prelude::*;

use crate::fixed::Fx;
use crate::object::{Instance, InstancesMesh, Pos3, Rgba};

verus! {

/// Neighbor directions, in the fixed order TOP, BOTTOM, EAST, WEST, NORTH,
/// SOUTH. Directions `2*k` and `2*k + 1` are opposite to each other.
pub open spec fn dir_dx(d: int) -> int {
    if d == 2 { 1 } else if d == 3 { -1 } else { 0 }
}

pub open spec fn dir_dy(d: int) -> int {
    if d == 0 { 1 } else if d == 1 { -1 } else { 0 }
}

pub open spec fn dir_dz(d: int) -> int {
    if d == 4 { 1 } else if d == 5 { -1 } else { 0 }
}

/// The direction pointing back: TOP pairs with BOTTOM, EAST with WEST,
/// NORTH with SOUTH.
pub open spec fn opposite(d: int) -> int {
    if d % 2 == 0 { d + 1 } else { d - 1 }
}

/// Neighbor presence, one flag per direction.
#[derive(Clone, Copy, PartialEq, Eq, Structural, Debug)]
pub struct Sides {
    pub top: bool,
    pub bottom: bool,
    pub east: bool,
    pub west: bool,
    pub north: bool,
    pub south: bool,
}

impl Sides {
    pub open spec fn side(self, d: int) -> bool {
        if d == 0 {
            self.top
        } else if d == 1 {
            self.bottom
        } else if d == 2 {
            self.east
        } else if d == 3 {
            self.west
        } else if d == 4 {
            self.north
        } else {
            self.south
        }
    }

    /// True when every one of the six neighbors is present: the voxel is
    /// fully enclosed.
    pub open spec fn all(self) -> bool {
        self.top && self.bottom && self.east && self.west && self.north && self.south
    }

    pub fn none() -> (r: Sides)
        ensures
            forall|d: int| 0 <= d < 6 ==> !r.side(d),
    {
        Sides { top: false, bottom: false, east: false, west: false, north: false, south: false }
    }

    /// The same mask with the flag for direction `d` replaced by `v`.
    pub fn with_side(self, d: usize, v: bool) -> (r: Sides)
        requires
            d < 6,
        ensures
            r.side(d as int) == v,
            forall|e: int| 0 <= e < 6 && e != d ==> r.side(e) == self.side(e),
    {
        match d {
            0 => Sides { top: v, ..self },
            1 => Sides { bottom: v, ..self },
            2 => Sides { east: v, ..self },
            3 => Sides { west: v, ..self },
            4 => Sides { north: v, ..self },
            _ => Sides { south: v, ..self },
        }
    }

    /// True only for the fully enclosed mask.
    pub fn is_all(&self) -> (r: bool)
        ensures
            r == self.all(),
    {
        self.top && self.bottom && self.east && self.west && self.north && self.south
    }
}

/// A single colored unit cube together with its neighbor-presence mask.
/// The mask is derived from neighbor occupancy; it is mutated only through
/// the owning chunk's edit operations.
#[derive(Clone, Copy, PartialEq, Eq, Structural, Debug)]
pub struct Voxel {
    pub color: Rgba,
    pub sides_present: Sides,
}

/// Local chunk coordinates are valid on `[0,16) x [0,256) x [0,16)`.
pub open spec fn in_chunk_bounds(x: int, y: int, z: int) -> bool {
    0 <= x < 16 && 0 <= y < 256 && 0 <= z < 16
}

/// Maps local coordinates to the index in the flat cell array.
pub open spec fn cell_index(x: int, y: int, z: int) -> int {
    x + y * 16 + z * 4096
}

/// The local coordinates a flat index decomposes into.
pub open spec fn index_x(i: int) -> int {
    i % 16
}

pub open spec fn index_y(i: int) -> int {
    (i / 16) % 256
}

pub open spec fn index_z(i: int) -> int {
    i / 4096
}

/// Local coordinates and flat indices are in bijection.
pub proof fn lemma_cell_index_bijective()
    ensures
        forall|x: int, y: int, z: int|
            in_chunk_bounds(x, y, z) ==> {
                let i = #[trigger] cell_index(x, y, z);
                0 <= i < 65536 && index_x(i) == x && index_y(i) == y && index_z(i) == z
            },
        forall|i: int|
            0 <= i < 65536 ==> in_chunk_bounds(index_x(i), index_y(i), index_z(i))
                && #[trigger] cell_index(index_x(i), index_y(i), index_z(i)) == i,
{
    assert forall|x: int, y: int, z: int| in_chunk_bounds(x, y, z) implies {
        let i = #[trigger] cell_index(x, y, z);
        0 <= i < 65536 && index_x(i) == x && index_y(i) == y && index_z(i) == z
    } by {
        let i = cell_index(x, y, z);
        assert(0 <= i < 65536) by (nonlinear_arith)
            requires
                i == x + y * 16 + z * 4096,
                0 <= x < 16,
                0 <= y < 256,
                0 <= z < 16,
        ;
        assert(i % 16 == x && (i / 16) % 256 == y && i / 4096 == z) by (nonlinear_arith)
            requires
                i == x + y * 16 + z * 4096,
                0 <= x < 16,
                0 <= y < 256,
                0 <= z < 16,
        ;
    }
    assert forall|i: int| 0 <= i < 65536 implies in_chunk_bounds(index_x(i), index_y(i), index_z(i))
        && #[trigger] cell_index(index_x(i), index_y(i), index_z(i)) == i by {
        assert(0 <= i % 16 < 16 && 0 <= (i / 16) % 256 < 256 && 0 <= i / 4096 < 16
            && i % 16 + ((i / 16) % 256) * 16 + (i / 4096) * 4096 == i) by (nonlinear_arith)
            requires
                0 <= i < 65536,
        ;
    }
}

/// Which voxel is visible: occupied and not fully enclosed by neighbors.
pub open spec fn visible_at(cells: Seq<Option<Voxel>>, i: int) -> bool {
    cells[i] is Some && !cells[i]->Some_0.sides_present.all()
}

/// The instance emitted for flat index `i` of a chunk whose minimum corner
/// is at world coordinates `(sx, 0, sz)`.
pub open spec fn instance_of(cells: Seq<Option<Voxel>>, sx: int, sz: int, i: int) -> Instance {
    Instance {
        color: cells[i]->Some_0.color,
        translation: Pos3 {
            x: (sx + index_x(i)) as i32,
            y: index_y(i) as i32,
            z: (sz + index_z(i)) as i32,
        },
    }
}

/// The instances of all visible voxels among the first `n` cells, in index
/// order.
pub open spec fn visible_upto(cells: Seq<Option<Voxel>>, sx: int, sz: int, n: int) -> Seq<Instance>
    decreases n,
{
    if n <= 0 {
        Seq::empty()
    } else if visible_at(cells, n - 1) {
        visible_upto(cells, sx, sz, n - 1).push(instance_of(cells, sx, sz, n - 1))
    } else {
        visible_upto(cells, sx, sz, n - 1)
    }
}

/// The world position of the cell at flat index `i` of a chunk whose
/// minimum corner is `(sx, 0, sz)`.
pub open spec fn world_pos_of(sx: int, sz: int, i: int) -> Pos3 {
    Pos3 { x: (sx + index_x(i)) as i32, y: index_y(i) as i32, z: (sz + index_z(i)) as i32 }
}

/// The world positions of all occupied cells among the first `n`, in index
/// order.
pub open spec fn occupied_upto(cells: Seq<Option<Voxel>>, sx: int, sz: int, n: int) -> Seq<Pos3>
    decreases n,
{
    if n <= 0 {
        Seq::empty()
    } else if cells[n - 1] is Some {
        occupied_upto(cells, sx, sz, n - 1).push(world_pos_of(sx, sz, n - 1))
    } else {
        occupied_upto(cells, sx, sz, n - 1)
    }
}

/// The full visible-instance list of a chunk's cells.
pub open spec fn visible_instances(cells: Seq<Option<Voxel>>, sx: int, sz: int) -> Seq<Instance> {
    visible_upto(cells, sx, sz, 65536)
}

/// Strict lexicographic order on positions: X first, then Y, then Z.
pub open spec fn lex_lt(a: Pos3, b: Pos3) -> bool {
    a.x < b.x || (a.x == b.x && (a.y < b.y || (a.y == b.y && a.z < b.z)))
}

/// `q` lies within `r_raw / 65536` cells of `pos` by Euclidean distance:
/// the squared cell distance, scaled to squared fixed-point units, is at
/// most the squared radius. A negative radius contains nothing.
pub open spec fn within_radius(pos: Pos3, q: Pos3, r_raw: int) -> bool {
    r_raw >= 0 && ((pos.x - q.x) * (pos.x - q.x) + (pos.y - q.y) * (pos.y - q.y) + (pos.z - q.z) * (
    pos.z - q.z)) * 0x1_0000_0000 <= r_raw * r_raw
}

/// Exec mirror of `within_radius`, in wide integers.
fn within_radius_check(pos: Pos3, q: Pos3, radius: Fx) -> (r: bool)
    ensures
        r == within_radius(pos, q, radius.raw as int),
{
    if radius.raw < 0 {
        return false;
    }
    let dx = pos.x as i128 - q.x as i128;
    let dy = pos.y as i128 - q.y as i128;
    let dz = pos.z as i128 - q.z as i128;
    proof {
        assert(0 <= dx * dx <= 0x1_0000_0000 * 0x1_0000_0000) by (nonlinear_arith)
            requires
                -0x1_0000_0000 <= dx <= 0x1_0000_0000,
        ;
        assert(0 <= dy * dy <= 0x1_0000_0000 * 0x1_0000_0000) by (nonlinear_arith)
            requires
                -0x1_0000_0000 <= dy <= 0x1_0000_0000,
        ;
        assert(0 <= dz * dz <= 0x1_0000_0000 * 0x1_0000_0000) by (nonlinear_arith)
            requires
                -0x1_0000_0000 <= dz <= 0x1_0000_0000,
        ;
        assert(0 <= (radius.raw as i128) * (radius.raw as i128) <= 0x8000_0000_0000_0000
            * 0x8000_0000_0000_0000) by (nonlinear_arith)
            requires
                -0x8000_0000_0000_0000 <= radius.raw as i128 <= 0x8000_0000_0000_0000,
        ;
    }
    let d2 = dx * dx + dy * dy + dz * dz;
    d2 * 0x1_0000_0000 <= (radius.raw as i128) * (radius.raw as i128)
}

/// If `(x, y, z)` is one of the six neighbors of `(cx, cy, cz)`, the
/// direction that reaches it; `-1` otherwise.
pub open spec fn nbr_dir(cx: int, cy: int, cz: int, x: int, y: int, z: int) -> int {
    if x == cx && y == cy + 1 && z == cz {
        0
    } else if x == cx && y == cy - 1 && z == cz {
        1
    } else if x == cx + 1 && y == cy && z == cz {
        2
    } else if x == cx - 1 && y == cy && z == cz {
        3
    } else if x == cx && y == cy && z == cz + 1 {
        4
    } else if x == cx && y == cy && z == cz - 1 {
        5
    } else {
        -1
    }
}

/// The mask flag `d` of occupied cell `(x, y, z)` after the surroundings of
/// `(cx, cy, cz)` were updated: the edited cell's mask is recomputed from
/// its neighbors, each neighbor's flag toward the edited cell now reflects
/// its occupancy, and every other flag is untouched.
pub open spec fn mask_target(
    pre: Chunk,
    post: Chunk,
    cx: int,
    cy: int,
    cz: int,
    x: int,
    y: int,
    z: int,
    d: int,
) -> bool {
    if x == cx && y == cy && z == cz {
        post.occ(x + dir_dx(d), y + dir_dy(d), z + dir_dz(d))
    } else if nbr_dir(cx, cy, cz, x, y, z) >= 0 && d == opposite(nbr_dir(cx, cy, cz, x, y, z)) {
        post.occ(cx, cy, cz)
    } else {
        pre.mask_at(x, y, z).side(d)
    }
}

/// Relates a chunk before and after `update_surroundings(cx, cy, cz)`:
/// occupancy and colors everywhere unchanged, masks rewritten as
/// `mask_target` says.
pub open spec fn surround_post(pre: Chunk, post: Chunk, cx: int, cy: int, cz: int) -> bool {
    &&& post.cells@.len() == 65536
    &&& post.start_x == pre.start_x
    &&& post.start_z == pre.start_z
    &&& post.dirty == pre.dirty
    &&& post.mesh == pre.mesh
    &&& forall|x: int, y: int, z: int|
        in_chunk_bounds(x, y, z) ==> (#[trigger] post.cell(x, y, z) is Some) == pre.cell(
            x,
            y,
            z,
        ) is Some
    &&& forall|x: int, y: int, z: int|
        in_chunk_bounds(x, y, z) && pre.cell(x, y, z) is Some ==> #[trigger] post.color_at(x, y, z)
            == pre.color_at(x, y, z)
    &&& forall|x: int, y: int, z: int, d: int|
        in_chunk_bounds(x, y, z) && 0 <= d < 6 && pre.cell(x, y, z) is Some
            ==> #[trigger] post.mask_at(x, y, z).side(d) == mask_target(
            pre,
            post,
            cx,
            cy,
            cz,
            x,
            y,
            z,
            d,
        )
}

/// Relates a chunk before and after placing a voxel of color `color` at
/// local `(lx, ly, lz)`: the chunk is still well-formed (so every mask is
/// pinned by occupancy), the cell is now occupied with that color, and no
/// other cell's occupancy or color moved.
pub open spec fn place_post(pre: Chunk, post: Chunk, lx: int, ly: int, lz: int, color: Rgba) -> bool {
    &&& post.wf()
    &&& post.start_x == pre.start_x
    &&& post.start_z == pre.start_z
    &&& post.dirty
    &&& post.mesh == pre.mesh
    &&& forall|x: int, y: int, z: int|
        in_chunk_bounds(x, y, z) ==> #[trigger] post.occ(x, y, z) == ((x == lx && y == ly && z
            == lz) || pre.occ(x, y, z))
    &&& forall|x: int, y: int, z: int|
        in_chunk_bounds(x, y, z) && post.occ(x, y, z) ==> #[trigger] post.color_at(x, y, z) == (
        if x == lx && y == ly && z == lz {
            color
        } else {
            pre.color_at(x, y, z)
        })
}

/// Relates a chunk before and after clearing the cell at local
/// `(lx, ly, lz)`; the mirror image of `place_post`.
pub open spec fn remove_post(pre: Chunk, post: Chunk, lx: int, ly: int, lz: int) -> bool {
    &&& post.wf()
    &&& post.start_x == pre.start_x
    &&& post.start_z == pre.start_z
    &&& post.dirty
    &&& post.mesh == pre.mesh
    &&& forall|x: int, y: int, z: int|
        in_chunk_bounds(x, y, z) ==> #[trigger] post.occ(x, y, z) == (!(x == lx && y == ly && z
            == lz) && pre.occ(x, y, z))
    &&& forall|x: int, y: int, z: int|
        in_chunk_bounds(x, y, z) && post.occ(x, y, z) ==> #[trigger] post.color_at(x, y, z)
            == pre.color_at(x, y, z)
}

/// Mask consistency depends only on the cell array, not on the cache or
/// the corner, so it transports between states with equal cells.
pub proof fn lemma_cells_wf_congruent(a: Chunk, b: Chunk)
    requires
        a.cells_wf(),
        b.cells@ == a.cells@,
    ensures
        b.cells_wf(),
{
    assert forall|x: int, y: int, z: int| in_chunk_bounds(x, y, z) implies #[trigger] b.mask_ok_at(
        x,
        y,
        z,
    ) by {
        assert(a.mask_ok_at(x, y, z));
        if b.cell(x, y, z) is Some {
            assert forall|d: int| 0 <= d < 6 implies #[trigger] b.mask_at(x, y, z).side(d) == b.occ(
                x + dir_dx(d),
                y + dir_dy(d),
                z + dir_dz(d),
            ) by {
                assert(a.mask_at(x, y, z).side(d) == a.occ(
                    x + dir_dx(d),
                    y + dir_dy(d),
                    z + dir_dz(d),
                ));
            }
        }
    }
}

/// An edit rewrites one cell and then updates the surroundings; this
/// restores mask consistency across the whole grid.
proof fn lemma_edit_restores_masks(s0: Chunk, s1: Chunk, s2: Chunk, lx: int, ly: int, lz: int)
    requires
        s0.cells_wf(),
        in_chunk_bounds(lx, ly, lz),
        s1.cells@.len() == 65536,
        forall|x: int, y: int, z: int|
            in_chunk_bounds(x, y, z) && !(x == lx && y == ly && z == lz) ==> #[trigger] s1.cell(
                x,
                y,
                z,
            ) == s0.cell(x, y, z),
        surround_post(s1, s2, lx, ly, lz),
    ensures
        s2.cells_wf(),
{
    assert forall|x: int, y: int, z: int| in_chunk_bounds(x, y, z) implies #[trigger] s2.mask_ok_at(
        x,
        y,
        z,
    ) by {
        if s2.cell(x, y, z) is Some {
            assert(s1.cell(x, y, z) is Some);
            assert forall|d: int| 0 <= d < 6 implies #[trigger] s2.mask_at(x, y, z).side(d)
                == s2.occ(x + dir_dx(d), y + dir_dy(d), z + dir_dz(d)) by {
                let nd = nbr_dir(lx, ly, lz, x, y, z);
                assert(s2.mask_at(x, y, z).side(d) == mask_target(s1, s2, lx, ly, lz, x, y, z, d));
                let ax = x + dir_dx(d);
                let ay = y + dir_dy(d);
                let az = z + dir_dz(d);
                if x == lx && y == ly && z == lz {
                    // the edited cell's mask was recomputed in place
                } else if nd >= 0 && d == opposite(nd) {
                    // the flag points back at the edited cell
                    assert(ax == lx && ay == ly && az == lz);
                } else {
                    // an untouched flag of an untouched cell; it still
                    // describes a neighbor other than the edited cell
                    assert(!(ax == lx && ay == ly && az == lz));
                    assert(s0.mask_ok_at(x, y, z));
                    assert(s0.mask_at(x, y, z).side(d) == s0.occ(ax, ay, az));
                    assert(s1.mask_at(x, y, z) == s0.mask_at(x, y, z));
                    if in_chunk_bounds(ax, ay, az) {
                        assert(s1.cell(ax, ay, az) == s0.cell(ax, ay, az));
                        assert(s2.cell(ax, ay, az) is Some == s1.cell(ax, ay, az) is Some);
                    }
                }
            }
        }
    }
}

/// In a mask-consistent chunk, the flag of an occupied cell toward any
/// direction equals the occupancy of the neighbor it points at — and,
/// read from the neighbor's side, an occupied neighbor's flag back toward
/// the cell equals the cell's occupancy. This is what `push_cube` and
/// `remove_cube` maintain: after placing at a position, every occupied
/// neighbor's flag toward it is set; after removing, cleared.
pub proof fn lemma_mask_matches_neighbor_occupancy(c: Chunk, x: int, y: int, z: int, d: int)
    requires
        c.cells_wf(),
        in_chunk_bounds(x, y, z),
        c.occ(x, y, z),
        0 <= d < 6,
    ensures
        c.mask_at(x, y, z).side(d) == c.occ(x + dir_dx(d), y + dir_dy(d), z + dir_dz(d)),
        c.occ(x + dir_dx(d), y + dir_dy(d), z + dir_dz(d)) ==> c.mask_at(
            x + dir_dx(d),
            y + dir_dy(d),
            z + dir_dz(d),
        ).side(opposite(d)) == c.occ(x, y, z),
{
    assert(c.mask_ok_at(x, y, z));
    let nx = x + dir_dx(d);
    let ny = y + dir_dy(d);
    let nz = z + dir_dz(d);
    if c.occ(nx, ny, nz) {
        assert(c.mask_ok_at(nx, ny, nz));
        assert(nx + dir_dx(opposite(d)) == x && ny + dir_dy(opposite(d)) == y && nz + dir_dz(
            opposite(d),
        ) == z);
    }
}

/// Placing a voxel sets every occupied neighbor's flag back toward the
/// placed cell; removing it clears that flag — the flag always equals the
/// edited cell's occupancy afterward.
pub proof fn lemma_edit_flips_neighbor_flags(
    pre: Chunk,
    post: Chunk,
    lx: int,
    ly: int,
    lz: int,
    d: int,
    edit: Option<Rgba>,
)
    requires
        in_chunk_bounds(lx, ly, lz),
        0 <= d < 6,
        match edit {
            Some(color) => place_post(pre, post, lx, ly, lz, color),
            None => remove_post(pre, post, lx, ly, lz),
        },
        post.occ(lx + dir_dx(d), ly + dir_dy(d), lz + dir_dz(d)),
    ensures
        post.mask_at(lx + dir_dx(d), ly + dir_dy(d), lz + dir_dz(d)).side(opposite(d)) == (
        edit is Some),
{
    let nx = lx + dir_dx(d);
    let ny = ly + dir_dy(d);
    let nz = lz + dir_dz(d);
    lemma_mask_matches_neighbor_occupancy(post, nx, ny, nz, opposite(d));
    assert(nx + dir_dx(opposite(d)) == lx && ny + dir_dy(opposite(d)) == ly && nz + dir_dz(
        opposite(d),
    ) == lz);
    assert(post.occ(lx, ly, lz) == (edit is Some));
}

/// Placing a voxel on an empty cell and then removing it restores the
/// chunk's cells exactly: the same occupancy, the same colors, and the
/// same mask on every affected neighbor as before the placement.
pub proof fn lemma_place_then_remove_restores(
    c0: Chunk,
    c1: Chunk,
    c2: Chunk,
    lx: int,
    ly: int,
    lz: int,
    color: Rgba,
)
    requires
        c0.wf(),
        in_chunk_bounds(lx, ly, lz),
        !c0.occ(lx, ly, lz),
        place_post(c0, c1, lx, ly, lz, color),
        remove_post(c1, c2, lx, ly, lz),
    ensures
        c2.cells@ == c0.cells@,
        c2.start_x == c0.start_x,
        c2.start_z == c0.start_z,
{
    lemma_cell_index_bijective();
    assert forall|i: int| 0 <= i < 65536 implies c2.cells@[i] == c0.cells@[i] by {
        let x = index_x(i);
        let y = index_y(i);
        let z = index_z(i);
        assert(cell_index(x, y, z) == i);
        assert(c1.occ(x, y, z) == ((x == lx && y == ly && z == lz) || c0.occ(x, y, z)));
        assert(c2.occ(x, y, z) == (!(x == lx && y == ly && z == lz) && c1.occ(x, y, z)));
        assert(c2.occ(x, y, z) == c0.occ(x, y, z));
        if c0.occ(x, y, z) {
            assert(c2.color_at(x, y, z) == c0.color_at(x, y, z));
            assert forall|d: int| 0 <= d < 6 implies #[trigger] c2.mask_at(x, y, z).side(d)
                == c0.mask_at(x, y, z).side(d) by {
                let nx = x + dir_dx(d);
                let ny = y + dir_dy(d);
                let nz = z + dir_dz(d);
                assert(c0.mask_ok_at(x, y, z));
                assert(c2.mask_ok_at(x, y, z));
                if in_chunk_bounds(nx, ny, nz) {
                    assert(c1.occ(nx, ny, nz) == ((nx == lx && ny == ly && nz == lz) || c0.occ(
                        nx,
                        ny,
                        nz,
                    )));
                    assert(c2.occ(nx, ny, nz) == (!(nx == lx && ny == ly && nz == lz) && c1.occ(
                        nx,
                        ny,
                        nz,
                    )));
                }
            }
            assert(c2.mask_at(x, y, z).side(0) == c0.mask_at(x, y, z).side(0));
            assert(c2.mask_at(x, y, z).side(1) == c0.mask_at(x, y, z).side(1));
            assert(c2.mask_at(x, y, z).side(2) == c0.mask_at(x, y, z).side(2));
            assert(c2.mask_at(x, y, z).side(3) == c0.mask_at(x, y, z).side(3));
            assert(c2.mask_at(x, y, z).side(4) == c0.mask_at(x, y, z).side(4));
            assert(c2.mask_at(x, y, z).side(5) == c0.mask_at(x, y, z).side(5));
            assert(c2.mask_at(x, y, z) == c0.mask_at(x, y, z));
            assert(c2.cell(x, y, z) == c0.cell(x, y, z));
        } else {
            assert(c2.cell(x, y, z) is None && c0.cell(x, y, z) is None);
        }
    }
    assert(c2.cells@ =~= c0.cells@);
}

/// Every entry of the visible-instance list comes from some visible cell:
/// this returns the flat index of the cell that entry `k` was emitted for.
pub proof fn lemma_visible_upto_member(
    cells: Seq<Option<Voxel>>,
    sx: int,
    sz: int,
    n: int,
    k: int,
) -> (i: int)
    requires
        0 <= n <= 65536,
        0 <= k < visible_upto(cells, sx, sz, n).len(),
    ensures
        0 <= i < n,
        visible_at(cells, i),
        visible_upto(cells, sx, sz, n)[k] == instance_of(cells, sx, sz, i),
    decreases n,
{
    let prefix = visible_upto(cells, sx, sz, n - 1);
    if k < prefix.len() {
        let i = lemma_visible_upto_member(cells, sx, sz, n - 1, k);
        assert(visible_upto(cells, sx, sz, n)[k] == prefix[k]);
        i
    } else {
        assert(visible_at(cells, n - 1));
        assert(visible_upto(cells, sx, sz, n)[k] == instance_of(cells, sx, sz, n - 1));
        n - 1
    }
}

/// The visible-instance list of a well-formed chunk never contains an
/// instance at the world position of a fully enclosed voxel. No exception
/// for boundary layers is needed: under the mask invariant a boundary
/// voxel is never fully enclosed (`lemma_boundary_voxel_never_enclosed`).
pub proof fn lemma_enclosed_voxel_not_emitted(c: Chunk, x: int, y: int, z: int)
    requires
        c.wf(),
        in_chunk_bounds(x, y, z),
        c.cell(x, y, z) is Some,
        c.cell(x, y, z)->Some_0.sides_present.all(),
    ensures
        forall|k: int|
            0 <= k < visible_instances(c.cells@, c.start_x as int, c.start_z as int).len()
                ==> #[trigger] visible_instances(c.cells@, c.start_x as int, c.start_z as int)[k].translation
                != (Pos3 { x: (c.start_x as int + x) as i32, y: y as i32, z: (c.start_z as int + z) as i32 }),
{
    lemma_cell_index_bijective();
    let sx = c.start_x as int;
    let sz = c.start_z as int;
    let vis = visible_instances(c.cells@, sx, sz);
    assert forall|k: int| 0 <= k < vis.len() implies #[trigger] vis[k].translation != (Pos3 {
        x: (sx + x) as i32,
        y: y as i32,
        z: (sz + z) as i32,
    }) by {
        let i = lemma_visible_upto_member(c.cells@, sx, sz, 65536, k);
        if vis[k].translation == (Pos3 {
            x: (sx + x) as i32,
            y: y as i32,
            z: (sz + z) as i32,
        }) {
            // world positions determine the cell: the corner is aligned, so
            // the sums below stay within `i32` and the casts are lossless
            assert(sx + 15 < 0x8000_0000int && sz + 15 < 0x8000_0000int);
            assert((sx + index_x(i)) as i32 == sx + index_x(i));
            assert((sx + x) as i32 == sx + x);
            assert((sz + index_z(i)) as i32 == sz + index_z(i));
            assert((sz + z) as i32 == sz + z);
            assert(index_x(i) == x && index_y(i) == y && index_z(i) == z);
            assert(i == cell_index(x, y, z));
            assert(false);
        }
    }
}

/// A voxel on any boundary layer of the chunk always keeps an open side:
/// space beyond the chunk counts as empty, so the enclosed-voxel cull can
/// never hide a boundary voxel.
pub proof fn lemma_boundary_voxel_never_enclosed(c: Chunk, x: int, y: int, z: int)
    requires
        c.cells_wf(),
        in_chunk_bounds(x, y, z),
        c.cell(x, y, z) is Some,
        x == 0 || x == 15 || y == 0 || y == 255 || z == 0 || z == 15,
    ensures
        !c.cell(x, y, z)->Some_0.sides_present.all(),
{
    assert(c.mask_ok_at(x, y, z));
    if x == 0 {
        assert(c.mask_at(x, y, z).side(3) == c.occ(x - 1, y, z));
    } else if x == 15 {
        assert(c.mask_at(x, y, z).side(2) == c.occ(x + 1, y, z));
    } else if y == 0 {
        assert(c.mask_at(x, y, z).side(1) == c.occ(x, y - 1, z));
    } else if y == 255 {
        assert(c.mask_at(x, y, z).side(0) == c.occ(x, y + 1, z));
    } else if z == 0 {
        assert(c.mask_at(x, y, z).side(5) == c.occ(x, y, z - 1));
    } else {
        assert(c.mask_at(x, y, z).side(4) == c.occ(x, y, z + 1));
    }
}

/// A fixed 16 x 256 x 16 grid of optional voxels with a cached list of
/// visible instances. `start_x` and `start_z` are the world coordinates of
/// the chunk's `(0, 0, 0)` corner; the world Y origin is fixed at 0.
pub struct Chunk {
    pub start_x: i32,
    pub start_z: i32,
    pub cells: Vec<Option<Voxel>>,
    pub mesh: InstancesMesh,
    pub dirty: bool,
}

impl Chunk {
    /// The cell at local coordinates `(x, y, z)`.
    pub open spec fn cell(self, x: int, y: int, z: int) -> Option<Voxel> {
        self.cells@[cell_index(x, y, z)]
    }

    /// Occupancy at local coordinates; positions outside the grid count as
    /// empty.
    pub open spec fn occ(self, x: int, y: int, z: int) -> bool {
        in_chunk_bounds(x, y, z) && self.cell(x, y, z) is Some
    }

    pub open spec fn color_at(self, x: int, y: int, z: int) -> Rgba {
        self.cell(x, y, z)->Some_0.color
    }

    pub open spec fn mask_at(self, x: int, y: int, z: int) -> Sides {
        self.cell(x, y, z)->Some_0.sides_present
    }

    /// The mask of an occupied cell records exactly which of its six
    /// neighbors are occupied.
    pub open spec fn mask_ok_at(self, x: int, y: int, z: int) -> bool {
        self.cell(x, y, z) is Some ==> forall|d: int|
            0 <= d < 6 ==> #[trigger] self.mask_at(x, y, z).side(d) == self.occ(
                x + dir_dx(d),
                y + dir_dy(d),
                z + dir_dz(d),
            )
    }

    pub open spec fn cells_wf(self) -> bool {
        &&& self.cells@.len() == 65536
        &&& forall|x: int, y: int, z: int|
            in_chunk_bounds(x, y, z) ==> #[trigger] self.mask_ok_at(x, y, z)
    }

    /// Well-formed: masks consistent, corner aligned to the chunk grid, and
    /// a clean cache holding exactly the visible instances.
    pub open spec fn wf(self) -> bool {
        &&& self.cells_wf()
        &&& self.start_x as int % 16 == 0
        &&& self.start_z as int % 16 == 0
        &&& (!self.dirty ==> self.mesh.instances@ == visible_instances(
            self.cells@,
            self.start_x as int,
            self.start_z as int,
        ))
    }

    /// Local coordinates of a world position relative to this chunk.
    pub open spec fn local_x(self, pos: Pos3) -> int {
        pos.x - self.start_x
    }

    pub open spec fn local_y(self, pos: Pos3) -> int {
        pos.y as int
    }

    pub open spec fn local_z(self, pos: Pos3) -> int {
        pos.z - self.start_z
    }

    /// A fresh, empty, dirty chunk whose corner sits on the chunk grid.
    pub fn new(start_x: i32, start_z: i32) -> (c: Chunk)
        requires
            start_x as int % 16 == 0,
            start_z as int % 16 == 0,
        ensures
            c.wf(),
            c.start_x == start_x,
            c.start_z == start_z,
            c.dirty,
            c.mesh.instances@ =~= Seq::<Instance>::empty(),
            forall|x: int, y: int, z: int| in_chunk_bounds(x, y, z) ==> !c.occ(x, y, z),
    {
        let mut cells: Vec<Option<Voxel>> = Vec::new();
        let mut i: usize = 0;
        while i < 65536
            invariant
                i <= 65536,
                cells@.len() == i,
                forall|j: int| 0 <= j < i ==> cells@[j] is None,
            decreases 65536 - i,
        {
            cells.push(None);
            i = i + 1;
        }
        let c = Chunk {
            start_x,
            start_z,
            cells,
            mesh: InstancesMesh::empty(),
            dirty: true,
        };
        proof {
            assert forall|x: int, y: int, z: int| in_chunk_bounds(x, y, z) implies #[trigger] c.mask_ok_at(x, y, z) by {
                lemma_cell_index_bijective();
            }
        }
        c
    }

    /// Translates a world position into this chunk, validating the range.
    /// Positions outside the footprint yield `None`.
    pub fn in_chunk_pos(&self, pos: Pos3) -> (r: Option<Pos3>)
        ensures
            r matches Some(l) ==> {
                &&& in_chunk_bounds(self.local_x(pos), self.local_y(pos), self.local_z(pos))
                &&& l.x == self.local_x(pos)
                &&& l.y == self.local_y(pos)
                &&& l.z == self.local_z(pos)
            },
            r is None ==> !in_chunk_bounds(self.local_x(pos), self.local_y(pos), self.local_z(pos)),
    {
        let lx: i64 = pos.x as i64 - self.start_x as i64;
        let ly: i64 = pos.y as i64;
        let lz: i64 = pos.z as i64 - self.start_z as i64;
        if 0 <= lx && lx < 16 && 0 <= ly && ly < 256 && 0 <= lz && lz < 16 {
            Some(Pos3 { x: lx as i32, y: ly as i32, z: lz as i32 })
        } else {
            None
        }
    }

    /// If the cell at local `(x, y, z)` is occupied, replaces the single
    /// mask flag for direction `d` by `v`; empty cells and all other cells
    /// stay as they are.
    fn set_mask_flag(&mut self, x: usize, y: usize, z: usize, d: usize, v: bool)
        requires
            old(self).cells@.len() == 65536,
            x < 16,
            y < 256,
            z < 16,
            d < 6,
        ensures
            final(self).cells@.len() == 65536,
            final(self).start_x == old(self).start_x,
            final(self).start_z == old(self).start_z,
            final(self).dirty == old(self).dirty,
            final(self).mesh == old(self).mesh,
            forall|a: int, b: int, c: int|
                in_chunk_bounds(a, b, c) && !(a == x && b == y && c == z)
                    ==> #[trigger] final(self).cell(a, b, c) == old(self).cell(a, b, c),
            old(self).cell(x as int, y as int, z as int) is None ==> final(self).cell(
                x as int,
                y as int,
                z as int,
            ) is None,
            old(self).cell(x as int, y as int, z as int) is Some ==> {
                &&& final(self).cell(x as int, y as int, z as int) is Some
                &&& final(self).color_at(x as int, y as int, z as int) == old(self).color_at(
                    x as int,
                    y as int,
                    z as int,
                )
                &&& final(self).mask_at(x as int, y as int, z as int).side(d as int) == v
                &&& forall|e: int|
                    0 <= e < 6 && e != d ==> final(self).mask_at(x as int, y as int, z as int).side(
                        e,
                    ) == old(self).mask_at(x as int, y as int, z as int).side(e)
            },
    {
        let idx: usize = x + y * 16 + z * 4096;
        match self.cells[idx] {
            Some(v0) => {
                let updated = Voxel {
                    color: v0.color,
                    sides_present: v0.sides_present.with_side(d, v),
                };
                self.cells.set(idx, Some(updated));
            },
            None => {},
        }
        proof {
            lemma_cell_index_bijective();
        }
    }

    /// If the cell at local `(x, y, z)` is occupied, replaces its whole mask
    /// by `m`; empty cells and all other cells stay as they are.
    fn set_mask(&mut self, x: usize, y: usize, z: usize, m: Sides)
        requires
            old(self).cells@.len() == 65536,
            x < 16,
            y < 256,
            z < 16,
        ensures
            final(self).cells@.len() == 65536,
            final(self).start_x == old(self).start_x,
            final(self).start_z == old(self).start_z,
            final(self).dirty == old(self).dirty,
            final(self).mesh == old(self).mesh,
            forall|a: int, b: int, c: int|
                in_chunk_bounds(a, b, c) && !(a == x && b == y && c == z)
                    ==> #[trigger] final(self).cell(a, b, c) == old(self).cell(a, b, c),
            old(self).cell(x as int, y as int, z as int) is None ==> final(self).cell(
                x as int,
                y as int,
                z as int,
            ) is None,
            old(self).cell(x as int, y as int, z as int) is Some ==> {
                &&& final(self).cell(x as int, y as int, z as int) is Some
                &&& final(self).color_at(x as int, y as int, z as int) == old(self).color_at(
                    x as int,
                    y as int,
                    z as int,
                )
                &&& final(self).mask_at(x as int, y as int, z as int) == m
            },
    {
        let idx: usize = x + y * 16 + z * 4096;
        match self.cells[idx] {
            Some(v0) => {
                self.cells.set(idx, Some(Voxel { color: v0.color, sides_present: m }));
            },
            None => {},
        }
        proof {
            lemma_cell_index_bijective();
        }
    }

    /// Recomputes the mask of the cell at local `(cx, cy, cz)` from its
    /// neighbors' occupancy, and rewrites each occupied neighbor's flag
    /// that points back at this cell. Called after an edit writes the cell.
    fn update_surroundings(&mut self, cx: usize, cy: usize, cz: usize)
        requires
            old(self).cells@.len() == 65536,
            cx < 16,
            cy < 256,
            cz < 16,
        ensures
            surround_post(*old(self), *final(self), cx as int, cy as int, cz as int),
    {
        let occ_c = self.occ_local(cx as i64, cy as i64, cz as i64);
        let mut d: usize = 0;
        while d < 6
            invariant
                d <= 6,
                cx < 16,
                cy < 256,
                cz < 16,
                self.cells@.len() == 65536,
                self.start_x == old(self).start_x,
                self.start_z == old(self).start_z,
                self.dirty == old(self).dirty,
                self.mesh == old(self).mesh,
                forall|x: int, y: int, z: int|
                    in_chunk_bounds(x, y, z) ==> (#[trigger] self.cell(x, y, z) is Some) == old(
                        self,
                    ).cell(x, y, z) is Some,
                forall|x: int, y: int, z: int|
                    in_chunk_bounds(x, y, z) && old(self).cell(x, y, z) is Some
                        ==> #[trigger] self.color_at(x, y, z) == old(self).color_at(x, y, z),
                occ_c == self.occ(cx as int, cy as int, cz as int),
                forall|x: int, y: int, z: int, e: int|
                    in_chunk_bounds(x, y, z) && 0 <= e < 6 && old(self).cell(x, y, z) is Some ==> {
                        let nd = nbr_dir(cx as int, cy as int, cz as int, x, y, z);
                        #[trigger] self.mask_at(x, y, z).side(e) == if 0 <= nd < d && e
                            == opposite(nd) {
                            occ_c
                        } else {
                            old(self).mask_at(x, y, z).side(e)
                        }
                    },
            decreases 6 - d,
        {
            let ghost prev = *self;
            let ddx: i64 = if d == 2 { 1 } else if d == 3 { -1 } else { 0 };
            let ddy: i64 = if d == 0 { 1 } else if d == 1 { -1 } else { 0 };
            let ddz: i64 = if d == 4 { 1 } else if d == 5 { -1 } else { 0 };
            let nx: i64 = cx as i64 + ddx;
            let ny: i64 = cy as i64 + ddy;
            let nz: i64 = cz as i64 + ddz;
            let opp: usize = if d % 2 == 0 { d + 1 } else { d - 1 };
            let in_range: bool = 0 <= nx && nx < 16 && 0 <= ny && ny < 256 && 0 <= nz && nz < 16;
            proof {
                assert(ddx == dir_dx(d as int) && ddy == dir_dy(d as int) && ddz == dir_dz(
                    d as int,
                ));
                assert(opp as int == opposite(d as int));
                assert(nbr_dir(cx as int, cy as int, cz as int, nx as int, ny as int, nz as int)
                    == d as int);
            }
            if in_range {
                self.set_mask_flag(nx as usize, ny as usize, nz as usize, opp, occ_c);
            }
            proof {
                assert forall|x: int, y: int, z: int|
                    in_chunk_bounds(x, y, z) && old(self).cell(x, y, z) is Some implies #[trigger] self.color_at(
                    x,
                    y,
                    z,
                ) == old(self).color_at(x, y, z) by {
                    assert(prev.color_at(x, y, z) == old(self).color_at(x, y, z));
                    if !(in_range && x == nx as int && y == ny as int && z == nz as int) {
                        assert(self.cell(x, y, z) == prev.cell(x, y, z));
                    }
                }
                assert forall|x: int, y: int, z: int, e: int|
                    in_chunk_bounds(x, y, z) && 0 <= e < 6 && old(self).cell(x, y, z)
                        is Some implies {
                    let nd = nbr_dir(cx as int, cy as int, cz as int, x, y, z);
                    #[trigger] self.mask_at(x, y, z).side(e) == if 0 <= nd < d + 1 && e == opposite(
                        nd,
                    ) {
                        occ_c
                    } else {
                        old(self).mask_at(x, y, z).side(e)
                    }
                } by {
                    let nd = nbr_dir(cx as int, cy as int, cz as int, x, y, z);
                    assert(prev.mask_at(x, y, z).side(e) == if 0 <= nd < d && e == opposite(nd) {
                        occ_c
                    } else {
                        old(self).mask_at(x, y, z).side(e)
                    });
                    if in_range && x == nx as int && y == ny as int && z == nz as int {
                        assert(nd == d as int);
                    } else {
                        assert(self.cell(x, y, z) == prev.cell(x, y, z));
                        assert(nd != d as int);
                    }
                }
            }
            d = d + 1;
        }
        // the loop above only rewrites neighbor flags; now derive this
        // cell's own mask from its neighbors.
        let s0 = self.occ_local(cx as i64, cy as i64 + 1, cz as i64);
        let s1 = self.occ_local(cx as i64, cy as i64 - 1, cz as i64);
        let s2 = self.occ_local(cx as i64 + 1, cy as i64, cz as i64);
        let s3 = self.occ_local(cx as i64 - 1, cy as i64, cz as i64);
        let s4 = self.occ_local(cx as i64, cy as i64, cz as i64 + 1);
        let s5 = self.occ_local(cx as i64, cy as i64, cz as i64 - 1);
        let ghost mid = *self;
        self.set_mask(cx, cy, cz, Sides { top: s0, bottom: s1, east: s2, west: s3, north: s4, south: s5 });
        proof {
            assert forall|x: int, y: int, z: int|
                in_chunk_bounds(x, y, z) implies (#[trigger] self.cell(x, y, z) is Some) == old(
                self,
            ).cell(x, y, z) is Some by {
                assert(mid.cell(x, y, z) is Some == old(self).cell(x, y, z) is Some);
                if !(x == cx as int && y == cy as int && z == cz as int) {
                    assert(self.cell(x, y, z) == mid.cell(x, y, z));
                }
            }
            assert forall|x: int, y: int, z: int|
                in_chunk_bounds(x, y, z) && old(self).cell(x, y, z) is Some implies #[trigger] self.color_at(
                x,
                y,
                z,
            ) == old(self).color_at(x, y, z) by {
                assert(mid.color_at(x, y, z) == old(self).color_at(x, y, z));
                if !(x == cx as int && y == cy as int && z == cz as int) {
                    assert(self.cell(x, y, z) == mid.cell(x, y, z));
                }
            }
            assert forall|x: int, y: int, z: int, e: int|
                in_chunk_bounds(x, y, z) && 0 <= e < 6 && old(self).cell(x, y, z) is Some implies
                #[trigger] self.mask_at(x, y, z).side(e) == mask_target(
                *old(self),
                *self,
                cx as int,
                cy as int,
                cz as int,
                x,
                y,
                z,
                e,
            ) by {
                let nd = nbr_dir(cx as int, cy as int, cz as int, x, y, z);
                assert(mid.mask_at(x, y, z).side(e) == if 0 <= nd < 6 && e == opposite(nd) {
                    occ_c
                } else {
                    old(self).mask_at(x, y, z).side(e)
                });
                if x == cx as int && y == cy as int && z == cz as int {
                    assert(self.mask_at(x, y, z).side(e) == self.occ(
                        x + dir_dx(e),
                        y + dir_dy(e),
                        z + dir_dz(e),
                    ));
                } else {
                    assert(self.cell(x, y, z) == mid.cell(x, y, z));
                    assert(nd >= 0 ==> x == cx as int + dir_dx(nd) && y == cy as int + dir_dy(nd)
                        && z == cz as int + dir_dz(nd));
                }
            }
        }
    }

    /// Writes a voxel of color `color` at world position `pos` and updates
    /// the masks of its existing neighbors. The position must map inside
    /// this chunk's footprint; routing a position elsewhere is a bug in the
    /// caller, excluded by the precondition.
    pub fn push_cube(&mut self, pos: Pos3, color: Rgba)
        requires
            old(self).wf(),
            in_chunk_bounds(
                old(self).local_x(pos),
                old(self).local_y(pos),
                old(self).local_z(pos),
            ),
        ensures
            place_post(
                *old(self),
                *final(self),
                old(self).local_x(pos),
                old(self).local_y(pos),
                old(self).local_z(pos),
                color,
            ),
    {
        let l = match self.in_chunk_pos(pos) {
            Some(l) => l,
            None => Pos3 { x: 0, y: 0, z: 0 },  // excluded by the precondition
        };
        let idx: usize = l.x as usize + l.y as usize * 16 + l.z as usize * 4096;
        proof {
            lemma_cell_index_bijective();
        }
        self.cells.set(idx, Some(Voxel { color, sides_present: Sides::none() }));
        self.dirty = true;
        let ghost s1 = *self;
        self.update_surroundings(l.x as usize, l.y as usize, l.z as usize);
        proof {
            lemma_cell_index_bijective();
            let lx = old(self).local_x(pos);
            let ly = old(self).local_y(pos);
            let lz = old(self).local_z(pos);
            assert forall|x: int, y: int, z: int|
                in_chunk_bounds(x, y, z) && !(x == lx && y == ly && z == lz) implies #[trigger] s1.cell(
                x,
                y,
                z,
            ) == old(self).cell(x, y, z) by {
                assert(cell_index(x, y, z) != idx as int);
            }
            lemma_edit_restores_masks(*old(self), s1, *self, lx, ly, lz);
            assert forall|x: int, y: int, z: int| in_chunk_bounds(x, y, z) implies #[trigger] self.occ(
                x,
                y,
                z,
            ) == ((x == lx && y == ly && z == lz) || old(self).occ(x, y, z)) by {
                assert(self.cell(x, y, z) is Some == s1.cell(x, y, z) is Some);
            }
            assert forall|x: int, y: int, z: int|
                in_chunk_bounds(x, y, z) && self.occ(x, y, z) implies #[trigger] self.color_at(
                x,
                y,
                z,
            ) == (if x == lx && y == ly && z == lz {
                color
            } else {
                old(self).color_at(x, y, z)
            }) by {
                assert(self.cell(x, y, z) is Some == s1.cell(x, y, z) is Some);
                assert(self.color_at(x, y, z) == s1.color_at(x, y, z));
            }
        }
    }

    /// Clears the cell at world position `pos` and updates the masks of its
    /// existing neighbors. The position must map inside this chunk's
    /// footprint.
    pub fn remove_cube(&mut self, pos: Pos3)
        requires
            old(self).wf(),
            in_chunk_bounds(
                old(self).local_x(pos),
                old(self).local_y(pos),
                old(self).local_z(pos),
            ),
        ensures
            remove_post(
                *old(self),
                *final(self),
                old(self).local_x(pos),
                old(self).local_y(pos),
                old(self).local_z(pos),
            ),
    {
        let l = match self.in_chunk_pos(pos) {
            Some(l) => l,
            None => Pos3 { x: 0, y: 0, z: 0 },  // excluded by the precondition
        };
        let idx: usize = l.x as usize + l.y as usize * 16 + l.z as usize * 4096;
        proof {
            lemma_cell_index_bijective();
        }
        self.cells.set(idx, None);
        self.dirty = true;
        let ghost s1 = *self;
        self.update_surroundings(l.x as usize, l.y as usize, l.z as usize);
        proof {
            lemma_cell_index_bijective();
            let lx = old(self).local_x(pos);
            let ly = old(self).local_y(pos);
            let lz = old(self).local_z(pos);
            assert forall|x: int, y: int, z: int|
                in_chunk_bounds(x, y, z) && !(x == lx && y == ly && z == lz) implies #[trigger] s1.cell(
                x,
                y,
                z,
            ) == old(self).cell(x, y, z) by {
                assert(cell_index(x, y, z) != idx as int);
            }
            lemma_edit_restores_masks(*old(self), s1, *self, lx, ly, lz);
            assert forall|x: int, y: int, z: int| in_chunk_bounds(x, y, z) implies #[trigger] self.occ(
                x,
                y,
                z,
            ) == (!(x == lx && y == ly && z == lz) && old(self).occ(x, y, z)) by {
                assert(self.cell(x, y, z) is Some == s1.cell(x, y, z) is Some);
            }
            assert forall|x: int, y: int, z: int|
                in_chunk_bounds(x, y, z) && self.occ(x, y, z) implies #[trigger] self.color_at(
                x,
                y,
                z,
            ) == old(self).color_at(x, y, z) by {
                assert(self.cell(x, y, z) is Some == s1.cell(x, y, z) is Some);
                assert(self.color_at(x, y, z) == s1.color_at(x, y, z));
            }
        }
    }

    /// Rebuilds the cached visible-instance list if the chunk is dirty, and
    /// returns it. An occupied cell is emitted unless all six mask flags
    /// are set: a fully enclosed voxel contributes no visible geometry.
    pub fn mesh(&mut self) -> (r: &InstancesMesh)
        requires
            old(self).wf(),
        ensures
            final(self).wf(),
            !final(self).dirty,
            final(self).cells@ == old(self).cells@,
            final(self).start_x == old(self).start_x,
            final(self).start_z == old(self).start_z,
            final(self).mesh.instances@ == visible_instances(
                old(self).cells@,
                old(self).start_x as int,
                old(self).start_z as int,
            ),
            r == &final(self).mesh,
    {
        if self.dirty {
            self.mesh.instances.clear();
            let mut i: usize = 0;
            while i < 65536
                invariant
                    i <= 65536,
                    self.cells@.len() == 65536,
                    self.cells@ == old(self).cells@,
                    self.start_x == old(self).start_x,
                    self.start_z == old(self).start_z,
                    self.start_x as int % 16 == 0,
                    self.start_z as int % 16 == 0,
                    self.mesh.instances@ == visible_upto(
                        self.cells@,
                        self.start_x as int,
                        self.start_z as int,
                        i as int,
                    ),
                decreases 65536 - i,
            {
                let c = self.cells[i];
                match c {
                    Some(v) => {
                        if !v.sides_present.is_all() {
                            let lx: usize = i % 16;
                            let ly: usize = (i / 16) % 256;
                            let lz: usize = i / 4096;
                            proof {
                                lemma_cell_index_bijective();
                                assert(self.start_x as int + 15 < 0x8000_0000int);
                                assert(self.start_z as int + 15 < 0x8000_0000int);
                            }
                            let inst = Instance {
                                color: v.color,
                                translation: Pos3 {
                                    x: self.start_x + lx as i32,
                                    y: ly as i32,
                                    z: self.start_z + lz as i32,
                                },
                            };
                            self.mesh.instances.push(inst);
                            proof {
                                assert(inst == instance_of(
                                    self.cells@,
                                    self.start_x as int,
                                    self.start_z as int,
                                    i as int,
                                ));
                            }
                        }
                    },
                    None => {},
                }
                i = i + 1;
            }
            self.dirty = false;
            proof {
                lemma_cells_wf_congruent(*old(self), *self);
            }
        }
        &self.mesh
    }

    /// The world coordinates of this chunk's minimum corner, as an X-Z
    /// pair.
    pub fn start(&self) -> (r: (i32, i32))
        ensures
            r.0 == self.start_x,
            r.1 == self.start_z,
    {
        (self.start_x, self.start_z)
    }

    /// The world positions of every occupied cell, in storage order.
    pub fn cubes(&self) -> (r: Vec<Pos3>)
        requires
            self.wf(),
        ensures
            r@ == occupied_upto(self.cells@, self.start_x as int, self.start_z as int, 65536),
    {
        let mut out: Vec<Pos3> = Vec::new();
        let mut i: usize = 0;
        while i < 65536
            invariant
                i <= 65536,
                self.cells@.len() == 65536,
                self.start_x as int % 16 == 0,
                self.start_z as int % 16 == 0,
                out@ == occupied_upto(self.cells@, self.start_x as int, self.start_z as int, i as int),
            decreases 65536 - i,
        {
            match self.cells[i] {
                Some(_) => {
                    let lx: usize = i % 16;
                    let ly: usize = (i / 16) % 256;
                    let lz: usize = i / 4096;
                    proof {
                        lemma_cell_index_bijective();
                        assert(self.start_x as int + 15 < 0x8000_0000int);
                        assert(self.start_z as int + 15 < 0x8000_0000int);
                    }
                    let p = Pos3 {
                        x: self.start_x + lx as i32,
                        y: ly as i32,
                        z: self.start_z + lz as i32,
                    };
                    out.push(p);
                    proof {
                        assert(p == world_pos_of(self.start_x as int, self.start_z as int, i as int));
                    }
                },
                None => {},
            }
            i = i + 1;
        }
        out
    }

    /// The world position of the cell at local coordinates `(x, y, z)`.
    pub open spec fn world_pos(self, x: int, y: int, z: int) -> Pos3 {
        Pos3 {
            x: (self.start_x as int + x) as i32,
            y: y as i32,
            z: (self.start_z as int + z) as i32,
        }
    }

    /// The world positions of the occupied cells within Euclidean distance
    /// `radius` of `pos`, in ascending order by X, then Y, then Z. The
    /// ordering, the membership clauses, and the strictness of the order
    /// pin the returned list exactly.
    pub fn cubes_around(&self, pos: Pos3, radius: Fx) -> (r: Vec<Pos3>)
        requires
            self.wf(),
        ensures
            forall|k: int|
                0 <= k < r@.len() ==> {
                    let q = #[trigger] r@[k];
                    &&& in_chunk_bounds(q.x - self.start_x, q.y as int, q.z - self.start_z)
                    &&& self.occ(q.x - self.start_x, q.y as int, q.z - self.start_z)
                    &&& within_radius(pos, q, radius.raw as int)
                },
            forall|k1: int, k2: int| 0 <= k1 < k2 < r@.len() ==> lex_lt(r@[k1], r@[k2]),
            forall|x: int, y: int, z: int|
                in_chunk_bounds(x, y, z) && self.occ(x, y, z) && #[trigger] within_radius(
                    pos,
                    self.world_pos(x, y, z),
                    radius.raw as int,
                ) ==> r@.contains(self.world_pos(x, y, z)),
    {
        let mut out: Vec<Pos3> = Vec::new();
        proof {
            lemma_cell_index_bijective();
            assert(self.start_x as int + 15 < 0x8000_0000int);
            assert(self.start_z as int + 15 < 0x8000_0000int);
        }
        let mut a: usize = 0;
        while a < 16
            invariant
                a <= 16,
                self.wf(),
                self.start_x as int + 15 < 0x8000_0000int,
                self.start_z as int + 15 < 0x8000_0000int,
                forall|k: int|
                    0 <= k < out@.len() ==> {
                        let q = #[trigger] out@[k];
                        &&& in_chunk_bounds(q.x - self.start_x, q.y as int, q.z - self.start_z)
                        &&& self.occ(q.x - self.start_x, q.y as int, q.z - self.start_z)
                        &&& within_radius(pos, q, radius.raw as int)
                    },
                forall|k1: int, k2: int| 0 <= k1 < k2 < out@.len() ==> lex_lt(out@[k1], out@[k2]),
                forall|k: int|
                    0 <= k < out@.len() ==> ((#[trigger] out@[k]).x as int) < self.start_x as int
                        + a as int,
                forall|x: int, y: int, z: int|
                    in_chunk_bounds(x, y, z) && self.occ(x, y, z) && #[trigger] within_radius(
                        pos,
                        self.world_pos(x, y, z),
                        radius.raw as int,
                    ) && x < a ==> out@.contains(self.world_pos(x, y, z)),
            decreases 16 - a,
        {
            let mut b: usize = 0;
            while b < 256
                invariant
                    a < 16,
                    b <= 256,
                    self.wf(),
                    self.start_x as int + 15 < 0x8000_0000int,
                    self.start_z as int + 15 < 0x8000_0000int,
                    forall|k: int|
                        0 <= k < out@.len() ==> {
                            let q = #[trigger] out@[k];
                            &&& in_chunk_bounds(q.x - self.start_x, q.y as int, q.z - self.start_z)
                            &&& self.occ(q.x - self.start_x, q.y as int, q.z - self.start_z)
                            &&& within_radius(pos, q, radius.raw as int)
                        },
                    forall|k1: int, k2: int|
                        0 <= k1 < k2 < out@.len() ==> lex_lt(out@[k1], out@[k2]),
                    forall|k: int|
                        0 <= k < out@.len() ==> {
                            let q = #[trigger] out@[k];
                            q.x - self.start_x < a || (q.x - self.start_x == a && (q.y as int)
                                < b)
                        },
                    forall|x: int, y: int, z: int|
                        in_chunk_bounds(x, y, z) && self.occ(x, y, z) && #[trigger] within_radius(
                            pos,
                            self.world_pos(x, y, z),
                            radius.raw as int,
                        ) && (x < a || (x == a && y < b)) ==> out@.contains(self.world_pos(x, y, z)),
                decreases 256 - b,
            {
                let mut e: usize = 0;
                while e < 16
                    invariant
                        a < 16,
                        b < 256,
                        e <= 16,
                        self.wf(),
                        self.start_x as int + 15 < 0x8000_0000int,
                        self.start_z as int + 15 < 0x8000_0000int,
                        forall|k: int|
                            0 <= k < out@.len() ==> {
                                let q = #[trigger] out@[k];
                                &&& in_chunk_bounds(
                                    q.x - self.start_x,
                                    q.y as int,
                                    q.z - self.start_z,
                                )
                                &&& self.occ(q.x - self.start_x, q.y as int, q.z - self.start_z)
                                &&& within_radius(pos, q, radius.raw as int)
                            },
                        forall|k1: int, k2: int|
                            0 <= k1 < k2 < out@.len() ==> lex_lt(out@[k1], out@[k2]),
                        forall|k: int|
                            0 <= k < out@.len() ==> {
                                let q = #[trigger] out@[k];
                                q.x - self.start_x < a || (q.x - self.start_x == a && ((
                                q.y as int) < b || (q.y as int == b && q.z - self.start_z < e)))
                            },
                        forall|x: int, y: int, z: int|
                            in_chunk_bounds(x, y, z) && self.occ(x, y, z)
                                && #[trigger] within_radius(
                                pos,
                                self.world_pos(x, y, z),
                                radius.raw as int,
                            ) && (x < a || (x == a && (y < b || (y == b && z < e))))
                                ==> out@.contains(self.world_pos(x, y, z)),
                    decreases 16 - e,
                {
                    let idx: usize = a + b * 16 + e * 4096;
                    let ghost prev_out = out@;
                    if self.cells[idx].is_some() {
                        let q = Pos3 {
                            x: self.start_x + a as i32,
                            y: b as i32,
                            z: self.start_z + e as i32,
                        };
                        if within_radius_check(pos, q, radius) {
                            out.push(q);
                            proof {
                                assert(q == self.world_pos(a as int, b as int, e as int));
                                assert(out@.last() == q);
                                assert forall|k: int| 0 <= k < out@.len() - 1 implies lex_lt(
                                    out@[k],
                                    q,
                                ) by {
                                    assert(out@[k] == prev_out[k]);
                                }
                            }
                        }
                    }
                    proof {
                        lemma_cell_index_bijective();
                        assert forall|x: int, y: int, z: int|
                            in_chunk_bounds(x, y, z) && self.occ(x, y, z)
                                && #[trigger] within_radius(
                                pos,
                                self.world_pos(x, y, z),
                                radius.raw as int,
                            ) && (x < a || (x == a && (y < b || (y == b && z < e + 1))))
                                implies out@.contains(self.world_pos(x, y, z)) by {
                            if x == a && y == b && z == e {
                                assert(cell_index(x, y, z) == idx as int);
                                assert(out@.last() == self.world_pos(x, y, z));
                                assert(out@[out@.len() - 1] == self.world_pos(x, y, z));
                            } else {
                                assert(prev_out.contains(self.world_pos(x, y, z)));
                                let ghost k = choose|k: int|
                                    0 <= k < prev_out.len() && prev_out[k] == self.world_pos(
                                        x,
                                        y,
                                        z,
                                    );
                                assert(out@[k] == self.world_pos(x, y, z));
                            }
                        }
                    }
                    e = e + 1;
                }
                b = b + 1;
            }
            a = a + 1;
        }
        out
    }

    /// Occupancy of a world position, treating positions outside this
    /// chunk's footprint as empty.
    pub fn occupied_at(&self, pos: Pos3) -> (b: bool)
        requires
            self.cells@.len() == 65536,
        ensures
            b == self.occ(self.local_x(pos), self.local_y(pos), self.local_z(pos)),
    {
        let lx: i64 = pos.x as i64 - self.start_x as i64;
        let ly: i64 = pos.y as i64;
        let lz: i64 = pos.z as i64 - self.start_z as i64;
        self.occ_local(lx, ly, lz)
    }

    /// Occupancy of a local position, treating out-of-range positions as
    /// empty.
    fn occ_local(&self, x: i64, y: i64, z: i64) -> (b: bool)
        requires
            self.cells@.len() == 65536,
        ensures
            b == self.occ(x as int, y as int, z as int),
    {
        if 0 <= x && x < 16 && 0 <= y && y < 256 && 0 <= z && z < 16 {
            let idx: usize = (x + y * 16 + z * 4096) as usize;
            self.cells[idx].is_some()
        } else {
            false
        }
    }
}

} // verus!
