//! Grid traversal along a ray, cube by cube and chunk by chunk.
//!
//! The traversal walks the integer cell grid from the rounded ray origin,
//! always advancing on the axis whose next cell boundary is nearest along
//! the ray, until it meets a visibly occupied voxel or the next step would
//! leave the search radius. Scalars are exact fixed-point numbers (64-bit
//! integer numerators over a denominator of 65536), so the per-axis
//! boundary times are exact rationals and the walk is fully deterministic.
//! Scaling the direction by any positive factor scales all boundary times
//! alike and leaves the walk unchanged, so the direction need not be
//! normalized.

use vstd::prelude::*;

use vstd::arithmetic::div_mod::{lemma_fundamental_div_mod, lemma_fundamental_div_mod_converse_mod};

use crate::fixed::{
    ceil_cells, fx_ceil, fx_round, int_abs, int_sign, lemma_fx_round_bounds, round_cell, Fx, Fx3,
    MAX_DIR_RAW, MAX_ORIGIN_RAW, MAX_RADIUS_RAW,
};
use crate::object::{Pos3, Vec3i};
use crate::world::World;

verus! {

/// The voxel a cast ray hit, together with the face-normal-like vector
/// pointing from the last empty cell the walk stood in into that voxel.
/// `cube + direction` is where a new voxel would be placed; `cube` itself
/// is what a removal targets.
#[derive(Clone, Copy, PartialEq, Eq, Structural, Debug)]
pub struct CubeLookAt {
    pub cube: Pos3,
    pub direction: Vec3i,
}

impl CubeLookAt {
    /// The empty cell a new voxel would go into: one step back along the
    /// incoming direction from the voxel being looked at.
    pub fn placement_target(&self) -> (r: Pos3)
        requires
            -0x7fff_0000 <= self.cube.x as int + self.direction.x as int <= 0x7fff_0000,
            -0x7fff_0000 <= self.cube.y as int + self.direction.y as int <= 0x7fff_0000,
            -0x7fff_0000 <= self.cube.z as int + self.direction.z as int <= 0x7fff_0000,
        ensures
            r.x as int == self.cube.x as int + self.direction.x as int,
            r.y as int == self.cube.y as int + self.direction.y as int,
            r.z as int == self.cube.z as int + self.direction.z as int,
    {
        Pos3 {
            x: self.cube.x + self.direction.x,
            y: self.cube.y + self.direction.y,
            z: self.cube.z + self.direction.z,
        }
    }
}

/// The outcome of one cast: every cell visited, in order, and the voxel
/// found, if any.
#[derive(Debug)]
pub struct TraceResult {
    pub path: Vec<Pos3>,
    pub result_cube: Option<CubeLookAt>,
}

/// The mathematical state of one traversal, fixed at the start: origin
/// cell, per-axis step direction, initial boundary-time numerators, time
/// denominators (zero freezes an axis), and the radius in whole cells.
pub struct RayParams {
    pub ox: int,
    pub oy: int,
    pub oz: int,
    pub inx: int,
    pub iny: int,
    pub inz: int,
    pub nx0: int,
    pub ny0: int,
    pub nz0: int,
    pub dx: int,
    pub dy: int,
    pub dz: int,
    pub r: int,
}

/// The initial boundary-time numerator of one axis: the fixed-point
/// distance from the origin coordinate to the first cell boundary in the
/// step direction. The matching denominator is the direction component's
/// magnitude, so numerator over denominator is the time to that boundary.
pub open spec fn init_num(o_raw: int, d_raw: int) -> int {
    if d_raw < 0 {
        o_raw + 32768 - fx_round(o_raw) * 65536
    } else {
        fx_round(o_raw) * 65536 + 32768 - o_raw
    }
}

/// The parameters a traversal derives from its inputs.
pub open spec fn params_of(origin: Fx3, direction: Fx3, max_radius: Fx) -> RayParams {
    RayParams {
        ox: fx_round(origin.x.raw as int),
        oy: fx_round(origin.y.raw as int),
        oz: fx_round(origin.z.raw as int),
        inx: int_sign(direction.x.raw as int),
        iny: int_sign(direction.y.raw as int),
        inz: int_sign(direction.z.raw as int),
        nx0: init_num(origin.x.raw as int, direction.x.raw as int),
        ny0: init_num(origin.y.raw as int, direction.y.raw as int),
        nz0: init_num(origin.z.raw as int, direction.z.raw as int),
        dx: int_abs(direction.x.raw as int),
        dy: int_abs(direction.y.raw as int),
        dz: int_abs(direction.z.raw as int),
        r: fx_ceil(max_radius.raw as int),
    }
}

impl RayParams {
    /// Structural soundness of a parameter set: steps match denominators,
    /// at least one axis moves, and everything is within machine bounds.
    pub open spec fn wf(self) -> bool {
        &&& (self.inx == 0 <==> self.dx == 0)
        &&& (self.iny == 0 <==> self.dy == 0)
        &&& (self.inz == 0 <==> self.dz == 0)
        &&& (self.inx == -1 || self.inx == 0 || self.inx == 1)
        &&& (self.iny == -1 || self.iny == 0 || self.iny == 1)
        &&& (self.inz == -1 || self.inz == 0 || self.inz == 1)
        &&& !(self.dx == 0 && self.dy == 0 && self.dz == 0)
        &&& 0 <= self.dx <= 0x10_0000
        &&& 0 <= self.dy <= 0x10_0000
        &&& 0 <= self.dz <= 0x10_0000
        &&& 0 <= self.nx0 <= 65536
        &&& 0 <= self.ny0 <= 65536
        &&& 0 <= self.nz0 <= 65536
        &&& -0x4000_0001 <= self.ox <= 0x4000_0001
        &&& -0x4000_0001 <= self.oy <= 0x4000_0001
        &&& -0x4000_0001 <= self.oz <= 0x4000_0001
        &&& -0x10_0000 <= self.r <= 0x10_0001
    }

    /// The whole cells already stepped on each axis when the walk stands
    /// at cell `c`: steps are always taken in the fixed step direction.
    pub open spec fn steps_x(self, c: Pos3) -> int {
        self.inx * (c.x - self.ox)
    }

    pub open spec fn steps_y(self, c: Pos3) -> int {
        self.iny * (c.y - self.oy)
    }

    pub open spec fn steps_z(self, c: Pos3) -> int {
        self.inz * (c.z - self.oz)
    }

    /// The boundary-time numerator of each axis at cell `c`: every step on
    /// an axis adds one whole cell of fixed-point distance.
    pub open spec fn tnum_x(self, c: Pos3) -> int {
        self.nx0 + 65536 * self.steps_x(c)
    }

    pub open spec fn tnum_y(self, c: Pos3) -> int {
        self.ny0 + 65536 * self.steps_y(c)
    }

    pub open spec fn tnum_z(self, c: Pos3) -> int {
        self.nz0 + 65536 * self.steps_z(c)
    }

    pub open spec fn origin_cell(self) -> Pos3 {
        Pos3 { x: self.ox as i32, y: self.oy as i32, z: self.oz as i32 }
    }

    /// The squared cell distance from the origin cell.
    pub open spec fn dist2(self, c: Pos3) -> int {
        (c.x - self.ox) * (c.x - self.ox) + (c.y - self.oy) * (c.y - self.oy) + (c.z - self.oz) * (
        c.z - self.oz)
    }
}

/// Compares two boundary times held as nonnegative rationals, a zero
/// denominator meaning infinity.
#[verifier::opaque]
pub open spec fn t_lt(an: int, ad: int, bn: int, bd: int) -> bool {
    ad != 0 && (bd == 0 || an * bd < bn * ad)
}

/// Which axis the walk advances from cell `c`: 0 for X, 1 for Y, 2 for Z.
/// Ties fall through the comparisons in this fixed order, which decides
/// the path on exact-diagonal rays.
pub open spec fn step_axis(p: RayParams, c: Pos3) -> int {
    if t_lt(p.tnum_x(c), p.dx, p.tnum_y(c), p.dy) {
        if t_lt(p.tnum_x(c), p.dx, p.tnum_z(c), p.dz) {
            0
        } else {
            2
        }
    } else if t_lt(p.tnum_y(c), p.dy, p.tnum_z(c), p.dz) {
        1
    } else {
        2
    }
}

/// The cell the walk moves to from `c`.
pub open spec fn next_cell(p: RayParams, c: Pos3) -> Pos3 {
    let a = step_axis(p, c);
    if a == 0 {
        Pos3 { x: (c.x as int + p.inx) as i32, y: c.y, z: c.z }
    } else if a == 1 {
        Pos3 { x: c.x, y: (c.y as int + p.iny) as i32, z: c.z }
    } else {
        Pos3 { x: c.x, y: c.y, z: (c.z as int + p.inz) as i32 }
    }
}

/// Whether the step from `c` lands exactly on a chunk boundary of the X
/// or Z axis; such a step hands the walk to the neighboring chunk and
/// skips the radius check for that step.
pub open spec fn step_crosses_chunk(p: RayParams, c: Pos3) -> bool {
    let a = step_axis(p, c);
    let n = next_cell(p, c);
    if a == 0 {
        (p.inx == -1 && n.x as int % 16 == 15) || (p.inx == 1 && n.x as int % 16 == 0)
    } else if a == 2 {
        (p.inz == -1 && n.z as int % 16 == 15) || (p.inz == 1 && n.z as int % 16 == 0)
    } else {
        false
    }
}

/// Whether the walk goes on after stepping out of `c`: it always does on
/// a chunk handoff, and otherwise exactly when the new cell is still
/// within the radius.
#[verifier::opaque]
pub open spec fn continues(p: RayParams, c: Pos3) -> bool {
    step_crosses_chunk(p, c) || p.dist2(next_cell(p, c)) <= p.r * p.r
}

/// Every consecutive pair of recorded cells is one legal step: the earlier
/// cell is not visibly occupied, the walk goes on from it, and the next
/// recorded cell is the step's target.
pub open spec fn chain_ok(p: RayParams, w: World, path: Seq<Pos3>) -> bool {
    forall|j: int|
        0 <= j < path.len() - 1 ==> {
            &&& !w.occ_at((#[trigger] path[j]).x as int, path[j].y as int, path[j].z as int)
            &&& continues(p, path[j])
            &&& path[j + 1] == next_cell(p, path[j])
        }
}

/// What a finished traversal returns. The recorded path starts at the
/// rounded origin and follows the step rule, so it is the unique walk of
/// these parameters; it ends at the first visibly occupied cell met, or at
/// the last cell whose successor would have left the radius.
pub open spec fn trace_spec(p: RayParams, w: World, res: TraceResult) -> bool {
    let path = res.path@;
    &&& path.len() >= 1
    &&& path[0] == p.origin_cell()
    &&& chain_ok(p, w, path)
    &&& match res.result_cube {
        Some(c) => {
            &&& c.cube == path.last()
            &&& w.occ_at(c.cube.x as int, c.cube.y as int, c.cube.z as int)
            &&& if path.len() >= 2 {
                &&& c.direction.x as int == path[path.len() - 2].x - c.cube.x
                &&& c.direction.y as int == path[path.len() - 2].y - c.cube.y
                &&& c.direction.z as int == path[path.len() - 2].z - c.cube.z
            } else {
                c.direction == (Vec3i { x: 0, y: 0, z: 0 })
            }
        },
        None => {
            &&& !w.occ_at(path.last().x as int, path.last().y as int, path.last().z as int)
            &&& !continues(p, path.last())
        },
    }
}

/// Exec mirror of `t_lt`, comparing boundary times by cross-multiplying.
/// The bounds keep both products inside `u64`.
fn t_lt_exec(an: u64, ad: u64, bn: u64, bd: u64) -> (r: bool)
    requires
        an <= 0x40_0000_0000,
        bn <= 0x40_0000_0000,
        ad <= 0x10_0000,
        bd <= 0x10_0000,
    ensures
        r == t_lt(an as int, ad as int, bn as int, bd as int),
{
    proof {
        reveal(t_lt);
        assert(0 <= an * bd <= 0x40_0000_0000 * 0x10_0000) by (nonlinear_arith)
            requires
                0 <= an <= 0x40_0000_0000,
                0 <= bd <= 0x10_0000,
        ;
        assert(0 <= bn * ad <= 0x40_0000_0000 * 0x10_0000) by (nonlinear_arith)
            requires
                0 <= bn <= 0x40_0000_0000,
                0 <= ad <= 0x10_0000,
        ;
    }
    ad != 0 && (bd == 0 || an * bd < bn * ad)
}

/// Whether a step that landed on coordinate `val` crossed into the
/// neighboring chunk: stepping down lands on the top row of the next
/// chunk, stepping up on its bottom row.
fn chunk_crossing(dir: i32, val: i32) -> (r: bool)
    ensures
        r == ((dir == -1 && val as int % 16 == 15) || (dir == 1 && val as int % 16 == 0)),
{
    let m = match val.checked_rem_euclid(16) {
        Some(m) => m,
        None => 0,  // unreachable: the divisor is a positive constant
    };
    (dir == -1 && m == 15) || (dir == 1 && m == 0)
}

/// The squared cell distance between two nearby cells.
fn dist2_i64(a: Pos3, b: Pos3) -> (r: i64)
    requires
        -0x20_0000 <= a.x as int - b.x as int <= 0x20_0000,
        -0x20_0000 <= a.y as int - b.y as int <= 0x20_0000,
        -0x20_0000 <= a.z as int - b.z as int <= 0x20_0000,
    ensures
        r as int == (a.x - b.x) * (a.x - b.x) + (a.y - b.y) * (a.y - b.y) + (a.z - b.z) * (a.z
            - b.z),
{
    let dx = a.x as i64 - b.x as i64;
    let dy = a.y as i64 - b.y as i64;
    let dz = a.z as i64 - b.z as i64;
    proof {
        assert(dx * dx <= 0x20_0000 * 0x20_0000 && dx * dx >= 0) by (nonlinear_arith)
            requires
                -0x20_0000 <= dx <= 0x20_0000,
        ;
        assert(dy * dy <= 0x20_0000 * 0x20_0000 && dy * dy >= 0) by (nonlinear_arith)
            requires
                -0x20_0000 <= dy <= 0x20_0000,
        ;
        assert(dz * dz <= 0x20_0000 * 0x20_0000 && dz * dz >= 0) by (nonlinear_arith)
            requires
                -0x20_0000 <= dz <= 0x20_0000,
        ;
    }
    dx * dx + dy * dy + dz * dz
}

/// Stepping a coordinate moves its residue class by one.
proof fn lemma_mod16_step(a: int)
    ensures
        (a + 1) % 16 == if a % 16 == 15 {
            0int
        } else {
            a % 16 + 1
        },
        (a - 1) % 16 == if a % 16 == 0 {
            15int
        } else {
            a % 16 - 1
        },
{
    lemma_fundamental_div_mod(a, 16);
    assert(0 <= a % 16 < 16) by (nonlinear_arith);
    if a % 16 == 15 {
        lemma_fundamental_div_mod_converse_mod(a + 1, 16, a / 16 + 1, 0);
    } else {
        lemma_fundamental_div_mod_converse_mod(a + 1, 16, a / 16, a % 16 + 1);
    }
    if a % 16 == 0 {
        lemma_fundamental_div_mod_converse_mod(a - 1, 16, a / 16 - 1, 15);
    } else {
        lemma_fundamental_div_mod_converse_mod(a - 1, 16, a / 16, a % 16 - 1);
    }
}

/// Extends a legal walk by the next cell.
proof fn lemma_chain_push(p: RayParams, w: World, path: Seq<Pos3>, c: Pos3)
    requires
        chain_ok(p, w, path),
        path.len() >= 1 ==> {
            &&& !w.occ_at(path.last().x as int, path.last().y as int, path.last().z as int)
            &&& continues(p, path.last())
            &&& c == next_cell(p, path.last())
        },
    ensures
        chain_ok(p, w, path.push(c)),
{
    let path2 = path.push(c);
    assert forall|j: int| 0 <= j < path2.len() - 1 implies {
        &&& !w.occ_at((#[trigger] path2[j]).x as int, path2[j].y as int, path2[j].z as int)
        &&& continues(p, path2[j])
        &&& path2[j + 1] == next_cell(p, path2[j])
    } by {
        if j < path.len() - 1 {
            assert(path2[j] == path[j]);
            assert(path2[j + 1] == path[j + 1]);
            assert(!w.occ_at(path[j].x as int, path[j].y as int, path[j].z as int));
            assert(continues(p, path[j]));
        } else {
            assert(path2[j] == path.last());
            assert(path2[j + 1] == c);
        }
    }
}

/// A traversal ready to run: the walking state of the step algorithm. Each
/// axis keeps the numerator of the fixed-point time to its next cell
/// boundary; the denominators and step directions never change. A fresh
/// tracer is built per query; nothing is retained across casts.
pub struct BlockRayTracer {
    pub origin_cube: Pos3,
    pub cur: Pos3,
    pub last: Pos3,
    pub inc_x: i32,
    pub inc_y: i32,
    pub inc_z: i32,
    pub den_x: u64,
    pub den_y: u64,
    pub den_z: u64,
    pub num_x: u64,
    pub num_y: u64,
    pub num_z: u64,
    pub max_radius: i64,
    pub path: Vec<Pos3>,
}

impl BlockRayTracer {
    /// The constant parameters this tracer walks under, read off its
    /// fields as they stand at the start.
    pub open spec fn params(self) -> RayParams {
        RayParams {
            ox: self.origin_cube.x as int,
            oy: self.origin_cube.y as int,
            oz: self.origin_cube.z as int,
            inx: self.inc_x as int,
            iny: self.inc_y as int,
            inz: self.inc_z as int,
            nx0: self.num_x as int,
            ny0: self.num_y as int,
            nz0: self.num_z as int,
            dx: self.den_x as int,
            dy: self.den_y as int,
            dz: self.den_z as int,
            r: self.max_radius as int,
        }
    }

    /// A tracer as `new` hands it out: standing on the origin cell with an
    /// empty path.
    pub open spec fn fresh(self) -> bool {
        &&& self.params().wf()
        &&& self.cur == self.origin_cube
        &&& self.last == self.origin_cube
        &&& self.path@.len() == 0
    }

    /// Prepares a cast from `origin` along `direction`, searching out to
    /// `max_radius` cells. A direction component of exactly zero freezes
    /// its axis (its boundary time is infinite) rather than dividing by
    /// zero; a wholly zero direction is a caller bug, excluded here, since
    /// the walk could then never advance. The magnitude caps keep all
    /// boundary-time arithmetic exact in 64 bits.
    pub fn new(origin: &Fx3, direction: &Fx3, max_radius: Fx) -> (t: BlockRayTracer)
        requires
            -MAX_DIR_RAW <= direction.x.raw <= MAX_DIR_RAW,
            -MAX_DIR_RAW <= direction.y.raw <= MAX_DIR_RAW,
            -MAX_DIR_RAW <= direction.z.raw <= MAX_DIR_RAW,
            !(direction.x.raw == 0 && direction.y.raw == 0 && direction.z.raw == 0),
            -MAX_ORIGIN_RAW <= origin.x.raw <= MAX_ORIGIN_RAW,
            -MAX_ORIGIN_RAW <= origin.y.raw <= MAX_ORIGIN_RAW,
            -MAX_ORIGIN_RAW <= origin.z.raw <= MAX_ORIGIN_RAW,
            -MAX_RADIUS_RAW <= max_radius.raw <= MAX_RADIUS_RAW,
        ensures
            t.fresh(),
            t.params() == params_of(*origin, *direction, max_radius),
    {
        proof {
            lemma_fx_round_bounds(origin.x.raw as int);
            lemma_fx_round_bounds(origin.y.raw as int);
            lemma_fx_round_bounds(origin.z.raw as int);
        }
        let ox = round_cell(origin.x);
        let oy = round_cell(origin.y);
        let oz = round_cell(origin.z);
        let inc_x: i32 = if direction.x.raw == 0 {
            0
        } else if direction.x.raw < 0 {
            -1
        } else {
            1
        };
        let inc_y: i32 = if direction.y.raw == 0 {
            0
        } else if direction.y.raw < 0 {
            -1
        } else {
            1
        };
        let inc_z: i32 = if direction.z.raw == 0 {
            0
        } else if direction.z.raw < 0 {
            -1
        } else {
            1
        };
        let den_x: u64 = if direction.x.raw < 0 {
            (-direction.x.raw) as u64
        } else {
            direction.x.raw as u64
        };
        let den_y: u64 = if direction.y.raw < 0 {
            (-direction.y.raw) as u64
        } else {
            direction.y.raw as u64
        };
        let den_z: u64 = if direction.z.raw < 0 {
            (-direction.z.raw) as u64
        } else {
            direction.z.raw as u64
        };
        let num_x: u64 = if direction.x.raw < 0 {
            (origin.x.raw + 32768 - ox * 65536) as u64
        } else {
            (ox * 65536 + 32768 - origin.x.raw) as u64
        };
        let num_y: u64 = if direction.y.raw < 0 {
            (origin.y.raw + 32768 - oy * 65536) as u64
        } else {
            (oy * 65536 + 32768 - origin.y.raw) as u64
        };
        let num_z: u64 = if direction.z.raw < 0 {
            (origin.z.raw + 32768 - oz * 65536) as u64
        } else {
            (oz * 65536 + 32768 - origin.z.raw) as u64
        };
        let max_radius_cells = ceil_cells(max_radius);
        let origin_cube = Pos3 { x: ox as i32, y: oy as i32, z: oz as i32 };
        BlockRayTracer {
            origin_cube,
            cur: origin_cube,
            last: origin_cube,
            inc_x,
            inc_y,
            inc_z,
            den_x,
            den_y,
            den_z,
            num_x,
            num_y,
            num_z,
            max_radius: max_radius_cells,
            path: Vec::new(),
        }
    }

    /// The tracer's constant fields and boundary-time numerators agree
    /// with parameters `p` at the cell the walk stands on.
    pub open spec fn tracks(self, p: RayParams) -> bool {
        &&& self.inc_x as int == p.inx
        &&& self.inc_y as int == p.iny
        &&& self.inc_z as int == p.inz
        &&& self.den_x as int == p.dx
        &&& self.den_y as int == p.dy
        &&& self.den_z as int == p.dz
        &&& self.max_radius as int == p.r
        &&& self.origin_cube == p.origin_cell()
        &&& self.origin_cube.x as int == p.ox
        &&& self.origin_cube.y as int == p.oy
        &&& self.origin_cube.z as int == p.oz
        &&& self.num_x as int == p.tnum_x(self.cur)
        &&& self.num_y as int == p.tnum_y(self.cur)
        &&& self.num_z as int == p.tnum_z(self.cur)
    }

    /// The walk never stands more than one step past the search radius on
    /// any axis, and only on a chunk-boundary landing at that; frozen axes
    /// never leave the origin cell.
    pub open spec fn within_band(self, p: RayParams) -> bool {
        &&& 0 <= p.steps_x(self.cur) <= int_abs(p.r) + 1
        &&& 0 <= p.steps_y(self.cur) <= int_abs(p.r)
        &&& 0 <= p.steps_z(self.cur) <= int_abs(p.r) + 1
        &&& (p.steps_x(self.cur) == int_abs(p.r) + 1 ==> ((p.inx == -1 && self.cur.x as int % 16
            == 15) || (p.inx == 1 && self.cur.x as int % 16 == 0)))
        &&& (p.steps_z(self.cur) == int_abs(p.r) + 1 ==> ((p.inz == -1 && self.cur.z as int % 16
            == 15) || (p.inz == 1 && self.cur.z as int % 16 == 0)))
        &&& (p.inx == 0 ==> self.cur.x == self.origin_cube.x)
        &&& (p.iny == 0 ==> self.cur.y == self.origin_cube.y)
        &&& (p.inz == 0 ==> self.cur.z == self.origin_cube.z)
    }

    /// Advances one cell on the axis whose next boundary is nearest,
    /// remembering the cell left behind, and reports whether the step
    /// crossed a chunk boundary along X or Z.
    fn move_to_next_cube(&mut self, Ghost(p): Ghost<RayParams>) -> (crossed: bool)
        requires
            p.wf(),
            old(self).tracks(p),
            old(self).within_band(p),
        ensures
            final(self).tracks(p),
            final(self).cur == next_cell(p, old(self).cur),
            crossed == step_crosses_chunk(p, old(self).cur),
            final(self).last == old(self).cur,
            final(self).path == old(self).path,
            final(self).origin_cube == old(self).origin_cube,
            final(self).max_radius == old(self).max_radius,
            (p.inx == 0 ==> final(self).cur.x == old(self).cur.x),
            (p.iny == 0 ==> final(self).cur.y == old(self).cur.y),
            (p.inz == 0 ==> final(self).cur.z == old(self).cur.z),
            -1 <= final(self).cur.x as int - old(self).cur.x as int <= 1,
            -1 <= final(self).cur.y as int - old(self).cur.y as int <= 1,
            -1 <= final(self).cur.z as int - old(self).cur.z as int <= 1,
    {
        proof {
            lemma_coord_headroom(p, self.cur);
        }
        let x_lt_y = t_lt_exec(self.num_x, self.den_x, self.num_y, self.den_y);
        let x_lt_z = t_lt_exec(self.num_x, self.den_x, self.num_z, self.den_z);
        let y_lt_z = t_lt_exec(self.num_y, self.den_y, self.num_z, self.den_z);
        let ghost prev = self.cur;
        self.last = self.cur;
        let crossed: bool;
        if x_lt_y {
            if x_lt_z {
                proof {
                    reveal(t_lt);
                }
                self.cur = Pos3 { x: self.cur.x + self.inc_x, y: self.cur.y, z: self.cur.z };
                self.num_x = self.num_x + 65536;
                crossed = chunk_crossing(self.inc_x, self.cur.x);
            } else {
                proof {
                    reveal(t_lt);
                }
                self.cur = Pos3 { x: self.cur.x, y: self.cur.y, z: self.cur.z + self.inc_z };
                self.num_z = self.num_z + 65536;
                crossed = chunk_crossing(self.inc_z, self.cur.z);
            }
        } else if y_lt_z {
            proof {
                reveal(t_lt);
            }
            self.cur = Pos3 { x: self.cur.x, y: self.cur.y + self.inc_y, z: self.cur.z };
            self.num_y = self.num_y + 65536;
            crossed = false;
        } else {
            proof {
                reveal(t_lt);
            }
            self.cur = Pos3 { x: self.cur.x, y: self.cur.y, z: self.cur.z + self.inc_z };
            self.num_z = self.num_z + 65536;
            crossed = chunk_crossing(self.inc_z, self.cur.z);
        }
        proof {
            let axis = step_axis(p, prev);
            assert(self.cur == next_cell(p, prev));
            assert(crossed == step_crosses_chunk(p, prev));
            lemma_step_count(p, prev, self.cur);
        }
        crossed
    }

    /// Walks the grid until it meets a visibly occupied voxel or the next
    /// step would leave the search radius, recording every visited cell.
    /// Space without a resident chunk counts as empty; a step that lands
    /// on a chunk boundary along X or Z hands the walk to the neighboring
    /// chunk and skips the radius check for that one step.
    #[verifier::rlimit(100)]
    pub fn run(self, world: &World) -> (res: TraceResult)
        requires
            self.fresh(),
            world.wf(),
        ensures
            trace_spec(self.params(), *world, res),
    {
        let ghost p = self.params();
        let mut t = self;
        loop
            invariant
                world.wf(),
                p.wf(),
                p == self.params(),
                t.tracks(p),
                t.within_band(p),
                -1 <= t.last.x as int - t.cur.x as int <= 1,
                -1 <= t.last.y as int - t.cur.y as int <= 1,
                -1 <= t.last.z as int - t.cur.z as int <= 1,
                chain_ok(p, *world, t.path@),
                t.path@.len() == 0 ==> t.cur == t.origin_cube && t.last == t.origin_cube,
                t.path@.len() > 0 ==> {
                    &&& t.path@[0] == p.origin_cell()
                    &&& !world.occ_at(
                        t.path@.last().x as int,
                        t.path@.last().y as int,
                        t.path@.last().z as int,
                    )
                    &&& continues(p, t.path@.last())
                    &&& t.cur == next_cell(p, t.path@.last())
                    &&& t.last == t.path@.last()
                },
            decreases 3 * (int_abs(p.r) + 1) - (p.steps_x(t.cur) + p.steps_y(t.cur) + p.steps_z(
                t.cur,
            )),
        {
            let ghost path0 = t.path@;
            t.path.push(t.cur);
            proof {
                lemma_chain_push(p, *world, path0, t.cur);
            }
            if world.occ_query(t.cur) {
                let dirv = Vec3i {
                    x: t.last.x - t.cur.x,
                    y: t.last.y - t.cur.y,
                    z: t.last.z - t.cur.z,
                };
                return TraceResult {
                    path: t.path,
                    result_cube: Some(CubeLookAt { cube: t.cur, direction: dirv }),
                };
            }
            let ghost prev = t.cur;
            let ghost rabs = int_abs(p.r);
            let crossed = t.move_to_next_cube(Ghost(p));
            if !crossed {
                proof {
                    lemma_coord_headroom(p, prev);
                }
                let dist = dist2_i64(t.cur, t.origin_cube);
                proof {
                    assert(0 <= t.max_radius as int * t.max_radius as int <= 0x10_0001 * 0x10_0001)
                        by (nonlinear_arith)
                        requires
                            -0x10_0000 <= t.max_radius as int <= 0x10_0001,
                    ;
                    assert(t.max_radius as int * t.max_radius as int == rabs * rabs)
                        by (nonlinear_arith)
                        requires
                            rabs == int_abs(t.max_radius as int),
                    ;
                }
                if dist > t.max_radius * t.max_radius {
                    proof {
                        reveal(continues);
                    }
                    return TraceResult { path: t.path, result_cube: None };
                }
            }
            proof {
                reveal(continues);
                lemma_step_bounds(p, prev, t.cur, crossed);
            }
        }
    }
}

/// A cell within the radius band stays within `int_abs(p.r) + 1` cells of
/// the origin cell on every axis.
proof fn lemma_coord_headroom(p: RayParams, c: Pos3)
    requires
        p.wf(),
        0 <= p.steps_x(c) <= int_abs(p.r) + 1,
        0 <= p.steps_y(c) <= int_abs(p.r),
        0 <= p.steps_z(c) <= int_abs(p.r) + 1,
        p.inx == 0 ==> c.x as int == p.ox,
        p.iny == 0 ==> c.y as int == p.oy,
        p.inz == 0 ==> c.z as int == p.oz,
    ensures
        -(int_abs(p.r) + 1) <= c.x as int - p.ox <= int_abs(p.r) + 1,
        -(int_abs(p.r) + 1) <= c.y as int - p.oy <= int_abs(p.r) + 1,
        -(int_abs(p.r) + 1) <= c.z as int - p.oz <= int_abs(p.r) + 1,
{
    let b = int_abs(p.r) + 1;
    assert(-b <= c.x - p.ox <= b && -b <= c.y - p.oy <= b && -b <= c.z - p.oz <= b)
        by (nonlinear_arith)
        requires
            0 < b,
            0 <= p.inx * (c.x - p.ox) <= b,
            0 <= p.iny * (c.y - p.oy) <= b,
            0 <= p.inz * (c.z - p.oz) <= b,
            p.inx == -1 || p.inx == 0 || p.inx == 1,
            p.iny == -1 || p.iny == 0 || p.iny == 1,
            p.inz == -1 || p.inz == 0 || p.inz == 1,
            p.inx == 0 ==> c.x as int == p.ox,
            p.iny == 0 ==> c.y as int == p.oy,
            p.inz == 0 ==> c.z as int == p.oz,
    ;
}

/// One step advances the chosen axis's step count and boundary-time
/// numerator by one cell and leaves the other axes alone.
proof fn lemma_step_count(p: RayParams, prev: Pos3, cur: Pos3)
    requires
        p.wf(),
        cur == next_cell(p, prev),
        -0x8000_0000 <= prev.x as int + p.inx <= 0x7fff_ffff,
        -0x8000_0000 <= prev.y as int + p.iny <= 0x7fff_ffff,
        -0x8000_0000 <= prev.z as int + p.inz <= 0x7fff_ffff,
    ensures
        p.steps_x(cur) == p.steps_x(prev) + (if step_axis(p, prev) == 0 {
            1int
        } else {
            0int
        }),
        p.steps_y(cur) == p.steps_y(prev) + (if step_axis(p, prev) == 1 {
            1int
        } else {
            0int
        }),
        p.steps_z(cur) == p.steps_z(prev) + (if step_axis(p, prev) == 2 {
            1int
        } else {
            0int
        }),
        p.tnum_x(cur) == p.tnum_x(prev) + (if step_axis(p, prev) == 0 {
            65536int
        } else {
            0int
        }),
        p.tnum_y(cur) == p.tnum_y(prev) + (if step_axis(p, prev) == 1 {
            65536int
        } else {
            0int
        }),
        p.tnum_z(cur) == p.tnum_z(prev) + (if step_axis(p, prev) == 2 {
            65536int
        } else {
            0int
        }),
{
    reveal(t_lt);
    let axis = step_axis(p, prev);
    if axis == 0 {
        assert(p.inx == 1 || p.inx == -1);
        assert(p.steps_x(cur) == p.steps_x(prev) + 1) by (nonlinear_arith)
            requires
                p.inx == 1 || p.inx == -1,
                p.steps_x(cur) == p.inx * (cur.x - p.ox),
                p.steps_x(prev) == p.inx * (prev.x - p.ox),
                cur.x == prev.x + p.inx,
        ;
    } else if axis == 1 {
        assert(p.iny == 1 || p.iny == -1);
        assert(p.steps_y(cur) == p.steps_y(prev) + 1) by (nonlinear_arith)
            requires
                p.iny == 1 || p.iny == -1,
                p.steps_y(cur) == p.iny * (cur.y - p.oy),
                p.steps_y(prev) == p.iny * (prev.y - p.oy),
                cur.y == prev.y + p.iny,
        ;
    } else {
        assert(p.inz == 1 || p.inz == -1);
        assert(p.steps_z(cur) == p.steps_z(prev) + 1) by (nonlinear_arith)
            requires
                p.inz == 1 || p.inz == -1,
                p.steps_z(cur) == p.inz * (cur.z - p.oz),
                p.steps_z(prev) == p.inz * (prev.z - p.oz),
                cur.z == prev.z + p.inz,
        ;
    }
}

/// One advance of the walk keeps every per-axis step count within one
/// cell of the radius: a checked step lands inside the radius outright,
/// and an unchecked chunk handoff lands on a chunk boundary, sixteen cells
/// from the previous handoff, so the following checked step catches it.
proof fn lemma_step_bounds(p: RayParams, prev: Pos3, cur: Pos3, crossed: bool)
    requires
        p.wf(),
        0 <= p.steps_x(prev) <= int_abs(p.r) + 1,
        0 <= p.steps_y(prev) <= int_abs(p.r),
        0 <= p.steps_z(prev) <= int_abs(p.r) + 1,
        p.steps_x(prev) == int_abs(p.r) + 1 ==> ((p.inx == -1 && prev.x as int % 16 == 15) || (
        p.inx == 1 && prev.x as int % 16 == 0)),
        p.steps_z(prev) == int_abs(p.r) + 1 ==> ((p.inz == -1 && prev.z as int % 16 == 15) || (
        p.inz == 1 && prev.z as int % 16 == 0)),
        p.inx == 0 ==> prev.x as int == p.ox,
        p.iny == 0 ==> prev.y as int == p.oy,
        p.inz == 0 ==> prev.z as int == p.oz,
        cur == next_cell(p, prev),
        crossed == step_crosses_chunk(p, prev),
        !crossed ==> p.dist2(cur) <= int_abs(p.r) * int_abs(p.r),
    ensures
        0 <= p.steps_x(cur) <= int_abs(p.r) + 1,
        0 <= p.steps_y(cur) <= int_abs(p.r),
        0 <= p.steps_z(cur) <= int_abs(p.r) + 1,
        p.steps_x(cur) == int_abs(p.r) + 1 ==> ((p.inx == -1 && cur.x as int % 16 == 15) || (p.inx
            == 1 && cur.x as int % 16 == 0)),
        p.steps_z(cur) == int_abs(p.r) + 1 ==> ((p.inz == -1 && cur.z as int % 16 == 15) || (p.inz
            == 1 && cur.z as int % 16 == 0)),
        p.steps_x(cur) + p.steps_y(cur) + p.steps_z(cur) == p.steps_x(prev) + p.steps_y(prev)
            + p.steps_z(prev) + 1,
        p.inx == 0 ==> cur.x == prev.x,
        p.iny == 0 ==> cur.y == prev.y,
        p.inz == 0 ==> cur.z == prev.z,
{
    reveal(t_lt);
    let rabs = int_abs(p.r);
    let axis = step_axis(p, prev);
    lemma_coord_headroom(p, prev);
    lemma_step_count(p, prev, cur);
    if axis == 0 {
        if crossed {
            lemma_mod16_step(prev.x as int);
            assert(p.steps_x(prev) <= rabs);
        } else {
            lemma_dist_bounds_steps(p, cur, rabs);
        }
    } else if axis == 1 {
        assert(!crossed);
        lemma_dist_bounds_steps(p, cur, rabs);
    } else {
        if crossed {
            lemma_mod16_step(prev.z as int);
            assert(p.steps_z(prev) <= rabs);
        } else {
            lemma_dist_bounds_steps(p, cur, rabs);
        }
    }
}

/// A cell within the radius has every per-axis step count at most the
/// radius.
proof fn lemma_dist_bounds_steps(p: RayParams, c: Pos3, rabs: int)
    requires
        p.wf(),
        rabs == int_abs(p.r),
        p.dist2(c) <= rabs * rabs,
        0 <= p.steps_x(c),
        0 <= p.steps_y(c),
        0 <= p.steps_z(c),
    ensures
        p.steps_x(c) <= rabs,
        p.steps_y(c) <= rabs,
        p.steps_z(c) <= rabs,
{
    assert(p.steps_x(c) <= rabs && p.steps_y(c) <= rabs && p.steps_z(c) <= rabs)
        by (nonlinear_arith)
        requires
            0 <= rabs,
            (c.x - p.ox) * (c.x - p.ox) + (c.y - p.oy) * (c.y - p.oy) + (c.z - p.oz) * (c.z - p.oz)
                <= rabs * rabs,
            p.steps_x(c) == p.inx * (c.x - p.ox),
            p.steps_y(c) == p.iny * (c.y - p.oy),
            p.steps_z(c) == p.inz * (c.z - p.oz),
            p.inx == -1 || p.inx == 0 || p.inx == 1,
            p.iny == -1 || p.iny == 0 || p.iny == 1,
            p.inz == -1 || p.inz == 0 || p.inz == 1,
            0 <= p.steps_x(c),
            0 <= p.steps_y(c),
            0 <= p.steps_z(c),
    ;
}

} // verus!
