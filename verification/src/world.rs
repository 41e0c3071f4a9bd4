//! A sparse world: a collection of chunks keyed by the world coordinates
//! of their minimum corner, routing edits to the owning chunk and
//! aggregating the chunks' visible instances into one renderable list.

use vstd::prelude::*;

use vstd::arithmetic::div_mod::{
    lemma_fundamental_div_mod, lemma_fundamental_div_mod_converse_div,
    lemma_fundamental_div_mod_converse_mod, lemma_mod_multiples_basic,
};

use crate::chunk::{
    cell_index, in_chunk_bounds, index_x, index_y, index_z, instance_of,
    lemma_cell_index_bijective, lemma_visible_upto_member, place_post, remove_post,
    visible_instances, Chunk,
};
use crate::fixed::{Fx, Fx3, MAX_DIR_RAW, MAX_ORIGIN_RAW, MAX_RADIUS_RAW};
use crate::object::{Instance, InstancesMesh, Pos3, Rgba};
use crate::ray::{params_of, trace_spec, BlockRayTracer, TraceResult};

verus! {

/// The chunk key of a world coordinate: the greatest multiple of 16 at
/// most the coordinate. Rounding is toward negative infinity, not toward
/// zero, so negative coordinates land in the right chunk.
pub open spec fn chunk_key(c: int) -> int {
    (c / 16) * 16
}

pub proof fn lemma_chunk_key(c: int)
    ensures
        chunk_key(c) % 16 == 0,
        chunk_key(c) <= c < chunk_key(c) + 16,
{
    lemma_fundamental_div_mod(c, 16);
    lemma_mod_multiples_basic(c / 16, 16);
    assert(0 <= c % 16 < 16) by (nonlinear_arith);
}

pub proof fn lemma_chunk_key_unique(k: int, c: int)
    requires
        k % 16 == 0,
        k <= c < k + 16,
    ensures
        chunk_key(c) == k,
{
    lemma_fundamental_div_mod(k, 16);
    assert(k == 16 * (k / 16));
    lemma_fundamental_div_mod_converse_div(c, 16, k / 16, c - k);
    assert(c / 16 == k / 16);
}

/// Rounds a world coordinate down to its chunk key.
pub fn floor16(c: i32) -> (r: i32)
    ensures
        r as int == chunk_key(c as int),
{
    proof {
        lemma_fundamental_div_mod(c as int, 16);
        assert(0 <= c as int % 16 < 16) by (nonlinear_arith);
    }
    let q = match c.checked_div_euclid(16) {
        Some(q) => q,
        None => 0,  // unreachable: dividing by 16 cannot leave `i32`
    };
    q * 16
}

/// The radius of a chunk-square search, in whole chunks: the fixed-point
/// radius divided by the chunk width, rounded up.
pub open spec fn fx_ceil16(raw: int) -> int {
    if raw % 0x10_0000 == 0 {
        raw / 0x10_0000
    } else {
        raw / 0x10_0000 + 1
    }
}

/// Exec mirror of `fx_ceil16`.
fn ceil_chunks(radius: Fx) -> (r: i64)
    requires
        -0x4000_0000_0000_0000 <= radius.raw <= 0x4000_0000_0000_0000,
    ensures
        r as int == fx_ceil16(radius.raw as int),
        -0x4000_0000_0000 <= r <= 0x4000_0000_0001,
{
    if radius.raw >= 0 {
        let q = (((radius.raw as u64) + 0xf_ffff) / 0x10_0000) as i64;
        proof {
            lemma_fundamental_div_mod(radius.raw as int, 0x10_0000);
            assert(0 <= radius.raw as int % 0x10_0000 < 0x10_0000) by (nonlinear_arith);
            if radius.raw as int % 0x10_0000 == 0 {
                lemma_fundamental_div_mod_converse_div(
                    radius.raw as int + 0xf_ffff,
                    0x10_0000,
                    radius.raw as int / 0x10_0000,
                    0xf_ffff,
                );
            } else {
                lemma_fundamental_div_mod_converse_div(
                    radius.raw as int + 0xf_ffff,
                    0x10_0000,
                    radius.raw as int / 0x10_0000 + 1,
                    radius.raw as int % 0x10_0000 - 1,
                );
            }
        }
        q
    } else {
        let m = (-radius.raw) as u64;
        let q = -((m / 0x10_0000) as i64);
        proof {
            let raw = radius.raw as int;
            lemma_fundamental_div_mod(-raw, 0x10_0000);
            assert(0 <= (-raw) % 0x10_0000 < 0x10_0000) by (nonlinear_arith);
            if (-raw) % 0x10_0000 == 0 {
                lemma_fundamental_div_mod_converse_div(raw, 0x10_0000, -((-raw) / 0x10_0000), 0);
                lemma_fundamental_div_mod_converse_mod(raw, 0x10_0000, -((-raw) / 0x10_0000), 0);
            } else {
                lemma_fundamental_div_mod_converse_div(
                    raw,
                    0x10_0000,
                    -((-raw) / 0x10_0000) - 1,
                    0x10_0000 - (-raw) % 0x10_0000,
                );
                lemma_fundamental_div_mod_converse_mod(
                    raw,
                    0x10_0000,
                    -((-raw) / 0x10_0000) - 1,
                    0x10_0000 - (-raw) % 0x10_0000,
                );
            }
        }
        q
    }
}

/// The first index at or after `i` of a chunk whose corner is `(kx, kz)`,
/// or `-1` if there is none.
pub open spec fn find_chunk(chunks: Seq<Chunk>, kx: int, kz: int, i: int) -> int
    decreases chunks.len() - i when 0 <= i <= chunks.len()
{
    if i >= chunks.len() {
        -1
    } else if chunks[i].start_x == kx && chunks[i].start_z == kz {
        i
    } else {
        find_chunk(chunks, kx, kz, i + 1)
    }
}

/// What `find_chunk` returns: a real index of a matching chunk with no
/// earlier match, or `-1` when nothing matches.
pub proof fn lemma_find_chunk(chunks: Seq<Chunk>, kx: int, kz: int, i: int)
    requires
        0 <= i <= chunks.len(),
    ensures
        ({
            let r = find_chunk(chunks, kx, kz, i);
            &&& r == -1 || (i <= r < chunks.len() && chunks[r].start_x == kx && chunks[r].start_z
                == kz)
            &&& forall|j: int|
                i <= j < chunks.len() && (#[trigger] chunks[j]).start_x == kx && chunks[j].start_z
                    == kz ==> r != -1 && r <= j
        }),
    decreases chunks.len() - i,
{
    if i < chunks.len() && !(chunks[i].start_x == kx && chunks[i].start_z == kz) {
        lemma_find_chunk(chunks, kx, kz, i + 1);
    }
}

/// `find_chunk` only looks at corners, so it agrees on any two chunk
/// sequences whose corners agree pointwise.
pub proof fn lemma_find_chunk_same_starts(a: Seq<Chunk>, b: Seq<Chunk>, kx: int, kz: int, i: int)
    requires
        0 <= i <= a.len(),
        b.len() == a.len(),
        forall|j: int|
            0 <= j < a.len() ==> (#[trigger] b[j]).start_x == a[j].start_x && b[j].start_z
                == a[j].start_z,
    ensures
        find_chunk(b, kx, kz, i) == find_chunk(a, kx, kz, i),
    decreases a.len() - i,
{
    if i < a.len() && !(a[i].start_x == kx && a[i].start_z == kz) {
        lemma_find_chunk_same_starts(a, b, kx, kz, i + 1);
    }
}

/// Appending a chunk leaves earlier matches alone; a fresh corner is found
/// at the end exactly when nothing matched before.
pub proof fn lemma_find_chunk_push(chunks: Seq<Chunk>, c: Chunk, kx: int, kz: int, i: int)
    requires
        0 <= i <= chunks.len(),
    ensures
        find_chunk(chunks.push(c), kx, kz, i) == if find_chunk(chunks, kx, kz, i) != -1 {
            find_chunk(chunks, kx, kz, i)
        } else if c.start_x == kx && c.start_z == kz {
            chunks.len() as int
        } else {
            -1
        },
    decreases chunks.len() - i,
{
    if i == chunks.len() {
        assert(find_chunk(chunks, kx, kz, i) == -1);
        if !(c.start_x == kx && c.start_z == kz) {
            assert(find_chunk(chunks.push(c), kx, kz, i + 1) == -1);
        }
    } else if !(chunks[i].start_x == kx && chunks[i].start_z == kz) {
        lemma_find_chunk_push(chunks, c, kx, kz, i + 1);
    }
}

/// The concatenation of the visible-instance lists of the first `n`
/// chunks, in chunk order.
pub open spec fn world_visible_upto(chunks: Seq<Chunk>, n: int) -> Seq<Instance>
    decreases n,
{
    if n <= 0 {
        Seq::empty()
    } else {
        world_visible_upto(chunks, n - 1) + visible_instances(
            chunks[n - 1].cells@,
            chunks[n - 1].start_x as int,
            chunks[n - 1].start_z as int,
        )
    }
}

/// The visible instances of the whole world, chunk by chunk.
pub open spec fn world_visible(chunks: Seq<Chunk>) -> Seq<Instance> {
    world_visible_upto(chunks, chunks.len() as int)
}

/// Entry `k` of the aggregated instance list comes from a visible cell of
/// one of the chunks: this returns that chunk's index and the cell's flat
/// index.
proof fn lemma_world_visible_member(chunks: Seq<Chunk>, n: int, k: int) -> (r: (int, int))
    requires
        0 <= n <= chunks.len(),
        0 <= k < world_visible_upto(chunks, n).len(),
    ensures
        0 <= r.0 < n,
        0 <= r.1 < 65536,
        crate::chunk::visible_at(chunks[r.0].cells@, r.1),
        world_visible_upto(chunks, n)[k] == instance_of(
            chunks[r.0].cells@,
            chunks[r.0].start_x as int,
            chunks[r.0].start_z as int,
            r.1,
        ),
    decreases n,
{
    let prefix = world_visible_upto(chunks, n - 1);
    if k < prefix.len() {
        lemma_world_visible_member(chunks, n - 1, k)
    } else {
        let c = chunks[n - 1];
        let i = lemma_visible_upto_member(
            c.cells@,
            c.start_x as int,
            c.start_z as int,
            65536,
            k - prefix.len(),
        );
        (n - 1, i)
    }
}

/// The aggregated instance list never holds an instance at the world
/// position of a fully enclosed voxel: each chunk culls its own enclosed
/// voxels, and no two chunks cover the same world position.
pub proof fn lemma_world_enclosed_voxel_not_emitted(w: World, ci: int, x: int, y: int, z: int)
    requires
        w.wf(),
        0 <= ci < w.chunks@.len(),
        in_chunk_bounds(x, y, z),
        w.chunks@[ci].cell(x, y, z) is Some,
        w.chunks@[ci].cell(x, y, z)->Some_0.sides_present.all(),
    ensures
        forall|k: int|
            0 <= k < world_visible(w.chunks@).len() ==> (#[trigger] world_visible(
                w.chunks@,
            )[k]).translation != w.chunks@[ci].world_pos(x, y, z),
{
    lemma_cell_index_bijective();
    let vis = world_visible(w.chunks@);
    let target = w.chunks@[ci].world_pos(x, y, z);
    let ca = w.chunks@[ci];
    assert(ca.wf());
    assert(ca.start_x as int + 15 < 0x8000_0000int && ca.start_z as int + 15 < 0x8000_0000int);
    assert forall|k: int| 0 <= k < vis.len() implies (#[trigger] vis[k]).translation != target by {
        let (cj, i) = lemma_world_visible_member(w.chunks@, w.chunks@.len() as int, k);
        let cb = w.chunks@[cj];
        assert(cb.wf());
        assert(cb.start_x as int + 15 < 0x8000_0000int && cb.start_z as int + 15 < 0x8000_0000int);
        if vis[k].translation == target {
            // world coordinates recover the chunk key and the local cell,
            // so the instance and the enclosed voxel coincide
            assert((cb.start_x as int + index_x(i)) == (ca.start_x as int + x));
            assert(index_y(i) == y);
            assert((cb.start_z as int + index_z(i)) == (ca.start_z as int + z));
            lemma_chunk_key_unique(cb.start_x as int, cb.start_x as int + index_x(i));
            lemma_chunk_key_unique(ca.start_x as int, ca.start_x as int + x);
            lemma_chunk_key_unique(cb.start_z as int, cb.start_z as int + index_z(i));
            lemma_chunk_key_unique(ca.start_z as int, ca.start_z as int + z);
            assert(cb.start_x == ca.start_x && cb.start_z == ca.start_z);
            if ci != cj {
                assert(false);
            }
            assert(index_x(i) == x && index_z(i) == z);
            assert(i == cell_index(x, y, z));
            assert(false);
        }
    }
}

/// The conclusions both edit-routing paths establish: the world stays
/// well-formed, occupancy and colors move only at the edited position, and
/// the chunk set gains at most the edited position's key.
pub open spec fn edit_post(w0: World, w1: World, pos: Pos3, edit: Option<Rgba>) -> bool {
    &&& w1.wf()
    &&& w1.dirty
    &&& forall|x: int, y: int, z: int|
        #[trigger] w1.occ_at(x, y, z) == (if x == pos.x as int && y == pos.y as int && z
            == pos.z as int {
            edit is Some
        } else {
            w0.occ_at(x, y, z)
        })
    &&& forall|x: int, y: int, z: int|
        #[trigger] w1.occ_at(x, y, z) ==> w1.color_of(x, y, z) == (if x == pos.x as int && y
            == pos.y as int && z == pos.z as int {
            edit->Some_0
        } else {
            w0.color_of(x, y, z)
        })
    &&& forall|kx: int, kz: int|
        #[trigger] w1.has_chunk(kx, kz) == (w0.has_chunk(kx, kz) || (kx == chunk_key(pos.x as int)
            && kz == chunk_key(pos.z as int)))
    &&& w1.chunks@.len() == w0.chunks@.len() + (if w0.has_chunk(
        chunk_key(pos.x as int),
        chunk_key(pos.z as int),
    ) {
        0int
    } else {
        1int
    })
    &&& forall|i: int|
        0 <= i < w0.chunks@.len() ==> (#[trigger] w1.chunks@[i]).start_x == w0.chunks@[i].start_x
            && w1.chunks@[i].start_z == w0.chunks@[i].start_z
}

/// Routing an edit into the already-resident chunk at index `i` yields
/// `edit_post`.
proof fn lemma_route_edit_update(w0: World, w1: World, pos: Pos3, edit: Option<Rgba>, i: int, c1: Chunk)
    requires
        w0.wf(),
        0 <= pos.y < 256,
        0 <= i < w0.chunks@.len(),
        i == w0.chunk_idx(chunk_key(pos.x as int), chunk_key(pos.z as int)),
        match edit {
            Some(color) => place_post(
                w0.chunks@[i],
                c1,
                pos.x as int - chunk_key(pos.x as int),
                pos.y as int,
                pos.z as int - chunk_key(pos.z as int),
                color,
            ),
            None => remove_post(
                w0.chunks@[i],
                c1,
                pos.x as int - chunk_key(pos.x as int),
                pos.y as int,
                pos.z as int - chunk_key(pos.z as int),
            ),
        },
        w1.chunks@ == w0.chunks@.update(i, c1),
        w1.dirty,
    ensures
        edit_post(w0, w1, pos, edit),
{
    let kx = chunk_key(pos.x as int);
    let kz = chunk_key(pos.z as int);
    lemma_chunk_key(pos.x as int);
    lemma_chunk_key(pos.z as int);
    lemma_find_chunk(w0.chunks@, kx, kz, 0);
    let c0 = w0.chunks@[i];
    assert(c0.wf());
    assert(c0.start_x as int == kx && c0.start_z as int == kz);
    assert(c1.start_x == c0.start_x && c1.start_z == c0.start_z);
    assert forall|j: int| 0 <= j < w1.chunks@.len() implies (#[trigger] w1.chunks@[j]).wf() by {
        if j != i {
            assert(w0.chunks@[j].wf());
        }
    }
    assert forall|a: int, b: int| 0 <= a < b < w1.chunks@.len() implies !((
    #[trigger] w1.chunks@[a]).start_x == (#[trigger] w1.chunks@[b]).start_x
        && w1.chunks@[a].start_z == w1.chunks@[b].start_z) by {
        assert(!(w0.chunks@[a].start_x == w0.chunks@[b].start_x && w0.chunks@[a].start_z
            == w0.chunks@[b].start_z));
    }
    assert forall|ax: int, az: int| #[trigger] w1.has_chunk(ax, az) == (w0.has_chunk(ax, az) || (ax
        == kx && az == kz)) by {
        lemma_find_chunk_same_starts(w0.chunks@, w1.chunks@, ax, az, 0);
        if ax == kx && az == kz {
            assert(w0.has_chunk(ax, az));
        }
    }
    assert forall|x: int, y: int, z: int| #[trigger] w1.occ_at(x, y, z) == (if x == pos.x as int
        && y == pos.y as int && z == pos.z as int {
        edit is Some
    } else {
        w0.occ_at(x, y, z)
    }) by {
        lemma_route_edit_update_cell(w0, w1, pos, edit, i, c1, x, y, z);
    }
    assert forall|x: int, y: int, z: int| #[trigger] w1.occ_at(x, y, z) implies w1.color_of(x, y, z)
        == (if x == pos.x as int && y == pos.y as int && z == pos.z as int {
        edit->Some_0
    } else {
        w0.color_of(x, y, z)
    }) by {
        lemma_route_edit_update_cell(w0, w1, pos, edit, i, c1, x, y, z);
    }
}

/// The pointwise occupancy and color facts behind `lemma_route_edit_update`.
proof fn lemma_route_edit_update_cell(
    w0: World,
    w1: World,
    pos: Pos3,
    edit: Option<Rgba>,
    i: int,
    c1: Chunk,
    x: int,
    y: int,
    z: int,
)
    requires
        w0.wf(),
        0 <= pos.y < 256,
        0 <= i < w0.chunks@.len(),
        i == w0.chunk_idx(chunk_key(pos.x as int), chunk_key(pos.z as int)),
        match edit {
            Some(color) => place_post(
                w0.chunks@[i],
                c1,
                pos.x as int - chunk_key(pos.x as int),
                pos.y as int,
                pos.z as int - chunk_key(pos.z as int),
                color,
            ),
            None => remove_post(
                w0.chunks@[i],
                c1,
                pos.x as int - chunk_key(pos.x as int),
                pos.y as int,
                pos.z as int - chunk_key(pos.z as int),
            ),
        },
        w1.chunks@ == w0.chunks@.update(i, c1),
    ensures
        w1.occ_at(x, y, z) == (if x == pos.x as int && y == pos.y as int && z == pos.z as int {
            edit is Some
        } else {
            w0.occ_at(x, y, z)
        }),
        w1.occ_at(x, y, z) ==> w1.color_of(x, y, z) == (if x == pos.x as int && y == pos.y as int
            && z == pos.z as int {
            edit->Some_0
        } else {
            w0.color_of(x, y, z)
        }),
{
    let kx = chunk_key(pos.x as int);
    let kz = chunk_key(pos.z as int);
    lemma_chunk_key(pos.x as int);
    lemma_chunk_key(pos.z as int);
    lemma_find_chunk(w0.chunks@, kx, kz, 0);
    let c0 = w0.chunks@[i];
    assert(c0.start_x as int == kx && c0.start_z as int == kz);
    assert(c1.start_x == c0.start_x && c1.start_z == c0.start_z);
    let qx = chunk_key(x);
    let qz = chunk_key(z);
    lemma_chunk_key(x);
    lemma_chunk_key(z);
    lemma_find_chunk_same_starts(w0.chunks@, w1.chunks@, qx, qz, 0);
    let j = w0.chunk_idx(qx, qz);
    lemma_find_chunk(w0.chunks@, qx, qz, 0);
    if qx == kx && qz == kz {
        assert(j == i);
        if in_chunk_bounds(x - kx, y, z - kz) {
            assert(c1.occ(x - kx, y, z - kz) == (if x - kx == pos.x as int - kx && y
                == pos.y as int && z - kz == pos.z as int - kz {
                edit is Some
            } else {
                c0.occ(x - kx, y, z - kz)
            }));
        } else {
            assert(!c1.occ(x - kx, y, z - kz));
            assert(!c0.occ(x - kx, y, z - kz));
            assert(!(x == pos.x as int && y == pos.y as int && z == pos.z as int));
        }
    } else {
        if j >= 0 {
            assert(j != i);
            assert(w1.chunks@[j] == w0.chunks@[j]);
        }
        assert(!(x == pos.x as int && z == pos.z as int));
    }
}

/// Routing an edit into a freshly created chunk appended at the end yields
/// `edit_post`.
proof fn lemma_route_edit_push(
    w0: World,
    w1: World,
    pos: Pos3,
    edit: Option<Rgba>,
    cnew: Chunk,
    c1: Chunk,
)
    requires
        w0.wf(),
        0 <= pos.y < 256,
        w0.chunk_idx(chunk_key(pos.x as int), chunk_key(pos.z as int)) == -1,
        cnew.wf(),
        cnew.start_x as int == chunk_key(pos.x as int),
        cnew.start_z as int == chunk_key(pos.z as int),
        forall|x: int, y: int, z: int| in_chunk_bounds(x, y, z) ==> !cnew.occ(x, y, z),
        match edit {
            Some(color) => place_post(
                cnew,
                c1,
                pos.x as int - chunk_key(pos.x as int),
                pos.y as int,
                pos.z as int - chunk_key(pos.z as int),
                color,
            ),
            None => remove_post(
                cnew,
                c1,
                pos.x as int - chunk_key(pos.x as int),
                pos.y as int,
                pos.z as int - chunk_key(pos.z as int),
            ),
        },
        w1.chunks@ == w0.chunks@.push(c1),
        w1.dirty,
    ensures
        edit_post(w0, w1, pos, edit),
{
    let kx = chunk_key(pos.x as int);
    let kz = chunk_key(pos.z as int);
    lemma_chunk_key(pos.x as int);
    lemma_chunk_key(pos.z as int);
    lemma_find_chunk(w0.chunks@, kx, kz, 0);
    let n = w0.chunks@.len() as int;
    assert(c1.start_x as int == kx && c1.start_z as int == kz);
    assert forall|j: int| 0 <= j < w1.chunks@.len() implies (#[trigger] w1.chunks@[j]).wf() by {
        if j < n {
            assert(w0.chunks@[j].wf());
        }
    }
    assert forall|a: int, b: int| 0 <= a < b < w1.chunks@.len() implies !((
    #[trigger] w1.chunks@[a]).start_x == (#[trigger] w1.chunks@[b]).start_x
        && w1.chunks@[a].start_z == w1.chunks@[b].start_z) by {
        if b < n {
            assert(!(w0.chunks@[a].start_x == w0.chunks@[b].start_x && w0.chunks@[a].start_z
                == w0.chunks@[b].start_z));
        } else {
            // the new corner matches no existing chunk, else `find_chunk`
            // would have found it
            assert(w1.chunks@[a] == w0.chunks@[a]);
        }
    }
    assert forall|ax: int, az: int| #[trigger] w1.has_chunk(ax, az) == (w0.has_chunk(ax, az) || (ax
        == kx && az == kz)) by {
        lemma_find_chunk_push(w0.chunks@, c1, ax, az, 0);
        lemma_find_chunk(w0.chunks@, ax, az, 0);
    }
    assert forall|x: int, y: int, z: int| #[trigger] w1.occ_at(x, y, z) == (if x == pos.x as int
        && y == pos.y as int && z == pos.z as int {
        edit is Some
    } else {
        w0.occ_at(x, y, z)
    }) by {
        lemma_route_edit_push_cell(w0, w1, pos, edit, cnew, c1, x, y, z);
    }
    assert forall|x: int, y: int, z: int| #[trigger] w1.occ_at(x, y, z) implies w1.color_of(x, y, z)
        == (if x == pos.x as int && y == pos.y as int && z == pos.z as int {
        edit->Some_0
    } else {
        w0.color_of(x, y, z)
    }) by {
        lemma_route_edit_push_cell(w0, w1, pos, edit, cnew, c1, x, y, z);
    }
}

/// The pointwise occupancy and color facts behind `lemma_route_edit_push`.
proof fn lemma_route_edit_push_cell(
    w0: World,
    w1: World,
    pos: Pos3,
    edit: Option<Rgba>,
    cnew: Chunk,
    c1: Chunk,
    x: int,
    y: int,
    z: int,
)
    requires
        w0.wf(),
        0 <= pos.y < 256,
        w0.chunk_idx(chunk_key(pos.x as int), chunk_key(pos.z as int)) == -1,
        cnew.start_x as int == chunk_key(pos.x as int),
        cnew.start_z as int == chunk_key(pos.z as int),
        forall|x: int, y: int, z: int| in_chunk_bounds(x, y, z) ==> !cnew.occ(x, y, z),
        match edit {
            Some(color) => place_post(
                cnew,
                c1,
                pos.x as int - chunk_key(pos.x as int),
                pos.y as int,
                pos.z as int - chunk_key(pos.z as int),
                color,
            ),
            None => remove_post(
                cnew,
                c1,
                pos.x as int - chunk_key(pos.x as int),
                pos.y as int,
                pos.z as int - chunk_key(pos.z as int),
            ),
        },
        w1.chunks@ == w0.chunks@.push(c1),
    ensures
        w1.occ_at(x, y, z) == (if x == pos.x as int && y == pos.y as int && z == pos.z as int {
            edit is Some
        } else {
            w0.occ_at(x, y, z)
        }),
        w1.occ_at(x, y, z) ==> w1.color_of(x, y, z) == (if x == pos.x as int && y == pos.y as int
            && z == pos.z as int {
            edit->Some_0
        } else {
            w0.color_of(x, y, z)
        }),
{
    let kx = chunk_key(pos.x as int);
    let kz = chunk_key(pos.z as int);
    lemma_chunk_key(pos.x as int);
    lemma_chunk_key(pos.z as int);
    let n = w0.chunks@.len() as int;
    assert(c1.start_x as int == kx && c1.start_z as int == kz);
    let qx = chunk_key(x);
    let qz = chunk_key(z);
    lemma_chunk_key(x);
    lemma_chunk_key(z);
    lemma_find_chunk_push(w0.chunks@, c1, qx, qz, 0);
    let j0 = w0.chunk_idx(qx, qz);
    lemma_find_chunk(w0.chunks@, qx, qz, 0);
    if qx == kx && qz == kz {
        assert(j0 == -1);
        assert(w1.chunk_idx(qx, qz) == n);
        assert(w1.chunks@[n] == c1);
        if in_chunk_bounds(x - kx, y, z - kz) {
            assert(c1.occ(x - kx, y, z - kz) == (if x - kx == pos.x as int - kx && y
                == pos.y as int && z - kz == pos.z as int - kz {
                edit is Some
            } else {
                cnew.occ(x - kx, y, z - kz)
            }));
            assert(!cnew.occ(x - kx, y, z - kz));
        } else {
            assert(!c1.occ(x - kx, y, z - kz));
            assert(!(x == pos.x as int && y == pos.y as int && z == pos.z as int));
        }
        assert(!w0.occ_at(x, y, z));
    } else {
        if j0 >= 0 {
            assert(w1.chunks@[j0] == w0.chunks@[j0]);
        }
        assert(!(x == pos.x as int && z == pos.z as int));
    }
}

/// Relates a world before and after installing chunk `c1`, whose corner is
/// `(kx, kz)`, at that key: replacement in place, or appending when the key
/// was absent.
pub open spec fn set_chunk_post(w0: World, w1: World, kx: int, kz: int, c1: Chunk) -> bool {
    &&& w1.wf()
    &&& w1.dirty
    &&& forall|ax: int, az: int|
        #[trigger] w1.has_chunk(ax, az) == (w0.has_chunk(ax, az) || (ax == kx && az == kz))
    &&& w1.chunks@.len() == w0.chunks@.len() + (if w0.has_chunk(kx, kz) {
        0int
    } else {
        1int
    })
    &&& forall|x: int, y: int, z: int|
        #[trigger] w1.occ_at(x, y, z) == (if chunk_key(x) == kx && chunk_key(z) == kz {
            c1.occ(x - kx, y, z - kz)
        } else {
            w0.occ_at(x, y, z)
        })
    &&& forall|x: int, y: int, z: int|
        #[trigger] w1.occ_at(x, y, z) ==> w1.color_of(x, y, z) == (if chunk_key(x) == kx
            && chunk_key(z) == kz {
            c1.color_at(x - kx, y, z - kz)
        } else {
            w0.color_of(x, y, z)
        })
}

/// Replacing the chunk at an occupied key yields `set_chunk_post`.
proof fn lemma_set_chunk_update(w0: World, w1: World, kx: int, kz: int, i: int, c1: Chunk)
    requires
        w0.wf(),
        c1.wf(),
        c1.start_x as int == kx,
        c1.start_z as int == kz,
        0 <= i < w0.chunks@.len(),
        i == w0.chunk_idx(kx, kz),
        w1.chunks@ == w0.chunks@.update(i, c1),
        w1.dirty,
    ensures
        set_chunk_post(w0, w1, kx, kz, c1),
{
    lemma_find_chunk(w0.chunks@, kx, kz, 0);
    assert forall|j: int| 0 <= j < w1.chunks@.len() implies (#[trigger] w1.chunks@[j]).wf() by {
        if j != i {
            assert(w0.chunks@[j].wf());
        }
    }
    assert forall|a: int, b: int| 0 <= a < b < w1.chunks@.len() implies !((
    #[trigger] w1.chunks@[a]).start_x == (#[trigger] w1.chunks@[b]).start_x
        && w1.chunks@[a].start_z == w1.chunks@[b].start_z) by {
        assert(!(w0.chunks@[a].start_x == w0.chunks@[b].start_x && w0.chunks@[a].start_z
            == w0.chunks@[b].start_z));
    }
    assert forall|ax: int, az: int| #[trigger] w1.has_chunk(ax, az) == (w0.has_chunk(ax, az) || (ax
        == kx && az == kz)) by {
        lemma_find_chunk_same_starts(w0.chunks@, w1.chunks@, ax, az, 0);
        if ax == kx && az == kz {
            assert(w0.has_chunk(ax, az));
        }
    }
    assert forall|x: int, y: int, z: int| #[trigger] w1.occ_at(x, y, z) == (if chunk_key(x) == kx
        && chunk_key(z) == kz {
        c1.occ(x - kx, y, z - kz)
    } else {
        w0.occ_at(x, y, z)
    }) by {
        let qx = chunk_key(x);
        let qz = chunk_key(z);
        lemma_find_chunk_same_starts(w0.chunks@, w1.chunks@, qx, qz, 0);
        lemma_find_chunk(w0.chunks@, qx, qz, 0);
        let j = w0.chunk_idx(qx, qz);
        if qx == kx && qz == kz {
            assert(j == i);
        } else if j >= 0 {
            assert(j != i);
            assert(w1.chunks@[j] == w0.chunks@[j]);
        }
    }
    assert forall|x: int, y: int, z: int| #[trigger] w1.occ_at(x, y, z) implies w1.color_of(x, y, z)
        == (if chunk_key(x) == kx && chunk_key(z) == kz {
        c1.color_at(x - kx, y, z - kz)
    } else {
        w0.color_of(x, y, z)
    }) by {
        let qx = chunk_key(x);
        let qz = chunk_key(z);
        lemma_find_chunk_same_starts(w0.chunks@, w1.chunks@, qx, qz, 0);
        lemma_find_chunk(w0.chunks@, qx, qz, 0);
        let j = w0.chunk_idx(qx, qz);
        if qx == kx && qz == kz {
            assert(j == i);
        } else if j >= 0 {
            assert(j != i);
            assert(w1.chunks@[j] == w0.chunks@[j]);
        }
    }
}

/// Appending a chunk at an absent key yields `set_chunk_post`.
proof fn lemma_set_chunk_push(w0: World, w1: World, kx: int, kz: int, c1: Chunk)
    requires
        w0.wf(),
        c1.wf(),
        c1.start_x as int == kx,
        c1.start_z as int == kz,
        w0.chunk_idx(kx, kz) == -1,
        w1.chunks@ == w0.chunks@.push(c1),
        w1.dirty,
    ensures
        set_chunk_post(w0, w1, kx, kz, c1),
{
    lemma_find_chunk(w0.chunks@, kx, kz, 0);
    let n = w0.chunks@.len() as int;
    assert forall|j: int| 0 <= j < w1.chunks@.len() implies (#[trigger] w1.chunks@[j]).wf() by {
        if j < n {
            assert(w0.chunks@[j].wf());
        }
    }
    assert forall|a: int, b: int| 0 <= a < b < w1.chunks@.len() implies !((
    #[trigger] w1.chunks@[a]).start_x == (#[trigger] w1.chunks@[b]).start_x
        && w1.chunks@[a].start_z == w1.chunks@[b].start_z) by {
        if b < n {
            assert(!(w0.chunks@[a].start_x == w0.chunks@[b].start_x && w0.chunks@[a].start_z
                == w0.chunks@[b].start_z));
        } else {
            assert(w1.chunks@[a] == w0.chunks@[a]);
        }
    }
    assert forall|ax: int, az: int| #[trigger] w1.has_chunk(ax, az) == (w0.has_chunk(ax, az) || (ax
        == kx && az == kz)) by {
        lemma_find_chunk_push(w0.chunks@, c1, ax, az, 0);
        lemma_find_chunk(w0.chunks@, ax, az, 0);
    }
    assert forall|x: int, y: int, z: int| #[trigger] w1.occ_at(x, y, z) == (if chunk_key(x) == kx
        && chunk_key(z) == kz {
        c1.occ(x - kx, y, z - kz)
    } else {
        w0.occ_at(x, y, z)
    }) by {
        let qx = chunk_key(x);
        let qz = chunk_key(z);
        lemma_find_chunk_push(w0.chunks@, c1, qx, qz, 0);
        lemma_find_chunk(w0.chunks@, qx, qz, 0);
        let j = w0.chunk_idx(qx, qz);
        if qx == kx && qz == kz {
            assert(w1.chunk_idx(qx, qz) == n);
            assert(w1.chunks@[n] == c1);
        } else if j >= 0 {
            assert(w1.chunks@[j] == w0.chunks@[j]);
        }
    }
    assert forall|x: int, y: int, z: int| #[trigger] w1.occ_at(x, y, z) implies w1.color_of(x, y, z)
        == (if chunk_key(x) == kx && chunk_key(z) == kz {
        c1.color_at(x - kx, y, z - kz)
    } else {
        w0.color_of(x, y, z)
    }) by {
        let qx = chunk_key(x);
        let qz = chunk_key(z);
        lemma_find_chunk_push(w0.chunks@, c1, qx, qz, 0);
        lemma_find_chunk(w0.chunks@, qx, qz, 0);
        let j = w0.chunk_idx(qx, qz);
        if qx == kx && qz == kz {
            assert(w1.chunk_idx(qx, qz) == n);
            assert(w1.chunks@[n] == c1);
        } else if j >= 0 {
            assert(w1.chunks@[j] == w0.chunks@[j]);
        }
    }
}

/// Specializes `set_chunk_post` to the freshly filled column that
/// `create_chunk` installs: occupancy below the fill height, one color.
proof fn lemma_create_chunk_occ(
    w0: World,
    w1: World,
    x: int,
    z: int,
    h: int,
    color: Rgba,
    c1: Chunk,
)
    requires
        set_chunk_post(w0, w1, chunk_key(x), chunk_key(z), c1),
        0 <= h <= 256,
        forall|a: int, b: int, e: int|
            in_chunk_bounds(a, b, e) ==> #[trigger] c1.occ(a, b, e) == (b < h),
        forall|a: int, b: int, e: int|
            in_chunk_bounds(a, b, e) && c1.occ(a, b, e) ==> #[trigger] c1.color_at(a, b, e)
                == color,
    ensures
        forall|qx: int, qy: int, qz: int|
            #[trigger] w1.occ_at(qx, qy, qz) == (if chunk_key(qx) == chunk_key(x) && chunk_key(qz)
                == chunk_key(z) {
                0 <= qy < h
            } else {
                w0.occ_at(qx, qy, qz)
            }),
        forall|qx: int, qy: int, qz: int|
            #[trigger] w1.occ_at(qx, qy, qz) && chunk_key(qx) == chunk_key(x) && chunk_key(qz)
                == chunk_key(z) ==> w1.color_of(qx, qy, qz) == color,
        forall|qx: int, qy: int, qz: int|
            #[trigger] w1.occ_at(qx, qy, qz) && !(chunk_key(qx) == chunk_key(x) && chunk_key(qz)
                == chunk_key(z)) ==> w1.color_of(qx, qy, qz) == w0.color_of(qx, qy, qz),
{
    let kx = chunk_key(x);
    let kz = chunk_key(z);
    assert forall|qx: int, qy: int, qz: int| #[trigger] w1.occ_at(qx, qy, qz) == (if chunk_key(qx)
        == kx && chunk_key(qz) == kz {
        0 <= qy < h
    } else {
        w0.occ_at(qx, qy, qz)
    }) by {
        if chunk_key(qx) == kx && chunk_key(qz) == kz {
            lemma_chunk_key(qx);
            lemma_chunk_key(qz);
            if in_chunk_bounds(qx - kx, qy, qz - kz) {
                assert(c1.occ(qx - kx, qy, qz - kz) == (qy < h));
            } else {
                assert(!(0 <= qy < 256));
                assert(!c1.occ(qx - kx, qy, qz - kz));
            }
        }
    }
    assert forall|qx: int, qy: int, qz: int|
        #[trigger] w1.occ_at(qx, qy, qz) && chunk_key(qx) == kx && chunk_key(qz) == kz implies
        w1.color_of(qx, qy, qz) == color by {
        lemma_chunk_key(qx);
        lemma_chunk_key(qz);
        assert(c1.occ(qx - kx, qy, qz - kz));
    }
}

/// The concatenated instance list depends only on each chunk's cells and
/// corner, so it transports between chunk sequences that agree on those.
proof fn lemma_world_visible_same_cells(a: Seq<Chunk>, b: Seq<Chunk>, n: int)
    requires
        0 <= n <= a.len(),
        b.len() == a.len(),
        forall|j: int|
            0 <= j < a.len() ==> (#[trigger] b[j]).cells@ == a[j].cells@ && b[j].start_x
                == a[j].start_x && b[j].start_z == a[j].start_z,
    ensures
        world_visible_upto(b, n) == world_visible_upto(a, n),
    decreases n,
{
    if n > 0 {
        lemma_world_visible_same_cells(a, b, n - 1);
    }
}

/// A sparse map from chunk corners to chunks, a world-level dirty flag,
/// and a cached concatenation of the chunks' instance lists.
///
/// In place of a shared mutable dirty cell between each chunk and the
/// world, every routed edit raises the world flag itself, so a chunk
/// mutation is always visible at the world level.
pub struct World {
    pub chunks: Vec<Chunk>,
    pub dirty: bool,
    pub mesh: InstancesMesh,
}

impl Default for World {
    /// The same empty world `new` builds.
    fn default() -> (w: World)
        ensures
            w.wf(),
            w.chunks@.len() == 0,
            !w.dirty,
            w.mesh.instances@ =~= Seq::<Instance>::empty(),
    {
        World::new()
    }
}

impl World {
    /// The index of the chunk with corner `(kx, kz)`, or `-1`.
    pub open spec fn chunk_idx(self, kx: int, kz: int) -> int {
        find_chunk(self.chunks@, kx, kz, 0)
    }

    pub open spec fn has_chunk(self, kx: int, kz: int) -> bool {
        self.chunk_idx(kx, kz) >= 0
    }

    /// World-level occupancy: the cell is occupied in the resident chunk
    /// that covers it. Positions in unresident chunks, or outside the
    /// vertical range, count as empty.
    pub open spec fn occ_at(self, x: int, y: int, z: int) -> bool {
        let i = self.chunk_idx(chunk_key(x), chunk_key(z));
        i >= 0 && self.chunks@[i].occ(x - chunk_key(x), y, z - chunk_key(z))
    }

    pub open spec fn color_of(self, x: int, y: int, z: int) -> Rgba {
        let i = self.chunk_idx(chunk_key(x), chunk_key(z));
        self.chunks@[i].color_at(x - chunk_key(x), y, z - chunk_key(z))
    }

    /// Well-formed: every chunk is well-formed, corners are unique, and a
    /// clean world cache means every chunk is clean and the cache holds
    /// the concatenated instance lists.
    pub open spec fn wf(self) -> bool {
        &&& forall|i: int| 0 <= i < self.chunks@.len() ==> (#[trigger] self.chunks@[i]).wf()
        &&& forall|i: int, j: int|
            0 <= i < j < self.chunks@.len() ==> !((#[trigger] self.chunks@[i]).start_x == (
            #[trigger] self.chunks@[j]).start_x && self.chunks@[i].start_z == self.chunks@[j].start_z)
        &&& (!self.dirty ==> {
            &&& forall|i: int|
                0 <= i < self.chunks@.len() ==> !(#[trigger] self.chunks@[i]).dirty
            &&& self.mesh.instances@ == world_visible(self.chunks@)
        })
    }

    /// An empty world with a clean, empty cache.
    pub fn new() -> (w: World)
        ensures
            w.wf(),
            w.chunks@.len() == 0,
            !w.dirty,
            w.mesh.instances@ =~= Seq::<Instance>::empty(),
    {
        let w = World { chunks: Vec::new(), dirty: false, mesh: InstancesMesh::empty() };
        proof {
            assert(world_visible(w.chunks@) =~= Seq::<Instance>::empty());
        }
        w
    }


    /// Routes an edit at `pos` to the chunk owning that position, creating
    /// the chunk first if it is not resident, and raises the world dirty
    /// flag. `edit` is the color to place, or `None` to clear the cell.
    fn route_edit(&mut self, pos: Pos3, edit: Option<Rgba>)
        requires
            old(self).wf(),
            0 <= pos.y < 256,
        ensures
            edit_post(*old(self), *final(self), pos, edit),
    {
        proof {
            lemma_chunk_key(pos.x as int);
            lemma_chunk_key(pos.z as int);
            lemma_find_chunk(old(self).chunks@, chunk_key(pos.x as int), chunk_key(pos.z as int), 0);
        }
        let kx = floor16(pos.x);
        let kz = floor16(pos.z);
        let found = self.find_chunk_index(kx, kz);
        match found {
            Some(i) => {
                let mut c = self.chunks.remove(i);
                match edit {
                    Some(color) => c.push_cube(pos, color),
                    None => c.remove_cube(pos),
                }
                self.chunks.insert(i, c);
                self.dirty = true;
                proof {
                    assert(self.chunks@ =~= old(self).chunks@.update(i as int, c));
                    lemma_route_edit_update(*old(self), *self, pos, edit, i as int, c);
                }
            },
            None => {
                let mut c = Chunk::new(kx, kz);
                let ghost cnew = c;
                match edit {
                    Some(color) => c.push_cube(pos, color),
                    None => c.remove_cube(pos),
                }
                self.chunks.push(c);
                self.dirty = true;
                proof {
                    lemma_route_edit_push(*old(self), *self, pos, edit, cnew, c);
                }
            },
        }
    }

    /// Places a colored voxel at `pos`, creating the owning chunk on
    /// demand, and marks the world dirty.
    pub fn push_cube(&mut self, pos: Pos3, color: Rgba)
        requires
            old(self).wf(),
            0 <= pos.y < 256,
        ensures
            edit_post(*old(self), *final(self), pos, Some(color)),
    {
        self.route_edit(pos, Some(color));
    }

    /// Clears the voxel at `pos`, creating the owning chunk on demand (an
    /// empty chunk, from which the position is then cleared), and marks
    /// the world dirty.
    pub fn remove_cube(&mut self, pos: Pos3)
        requires
            old(self).wf(),
            0 <= pos.y < 256,
        ensures
            edit_post(*old(self), *final(self), pos, None::<Rgba>),
    {
        self.route_edit(pos, None);
    }

    /// Bootstraps one full chunk column: a fresh chunk at the key
    /// containing `(x, z)`, filled with `y` layers of `color` upward from
    /// the world floor, replacing any chunk already at that key. The
    /// returned flag reports that anomaly — once per call, however many
    /// voxels the call writes — and the caller surfaces it as a warning.
    pub fn create_chunk(&mut self, x: i32, y: u32, z: i32, color: Rgba) -> (replaced: bool)
        requires
            old(self).wf(),
            y <= 256,
        ensures
            final(self).wf(),
            final(self).dirty,
            replaced == old(self).has_chunk(chunk_key(x as int), chunk_key(z as int)),
            forall|kx: int, kz: int|
                #[trigger] final(self).has_chunk(kx, kz) == (old(self).has_chunk(kx, kz) || (kx
                    == chunk_key(x as int) && kz == chunk_key(z as int))),
            final(self).chunks@.len() == old(self).chunks@.len() + (if replaced {
                0int
            } else {
                1int
            }),
            forall|qx: int, qy: int, qz: int|
                #[trigger] final(self).occ_at(qx, qy, qz) == (if chunk_key(qx) == chunk_key(
                    x as int,
                ) && chunk_key(qz) == chunk_key(z as int) {
                    0 <= qy < y as int
                } else {
                    old(self).occ_at(qx, qy, qz)
                }),
            forall|qx: int, qy: int, qz: int|
                #[trigger] final(self).occ_at(qx, qy, qz) && chunk_key(qx) == chunk_key(x as int)
                    && chunk_key(qz) == chunk_key(z as int) ==> final(self).color_of(qx, qy, qz)
                    == color,
            forall|qx: int, qy: int, qz: int|
                #[trigger] final(self).occ_at(qx, qy, qz) && !(chunk_key(qx) == chunk_key(x as int)
                    && chunk_key(qz) == chunk_key(z as int)) ==> final(self).color_of(qx, qy, qz)
                    == old(self).color_of(qx, qy, qz),
    {
        proof {
            lemma_chunk_key(x as int);
            lemma_chunk_key(z as int);
            lemma_find_chunk(old(self).chunks@, chunk_key(x as int), chunk_key(z as int), 0);
        }
        let kx = floor16(x);
        let kz = floor16(z);
        let mut c = Chunk::new(kx, kz);
        let mut dx: usize = 0;
        while dx < 16
            invariant
                dx <= 16,
                y <= 256,
                c.wf(),
                c.start_x == kx,
                c.start_z == kz,
                forall|a: int, b: int, e: int|
                    in_chunk_bounds(a, b, e) ==> #[trigger] c.occ(a, b, e) == (a < dx && b
                        < y as int),
                forall|a: int, b: int, e: int|
                    in_chunk_bounds(a, b, e) && c.occ(a, b, e) ==> #[trigger] c.color_at(a, b, e)
                        == color,
            decreases 16 - dx,
        {
            let mut dy: u32 = 0;
            while dy < y
                invariant
                    dx < 16,
                    dy <= y,
                    y <= 256,
                    c.wf(),
                    c.start_x == kx,
                    c.start_z == kz,
                    forall|a: int, b: int, e: int|
                        in_chunk_bounds(a, b, e) ==> #[trigger] c.occ(a, b, e) == ((a < dx && b
                            < y as int) || (a == dx && b < dy as int)),
                    forall|a: int, b: int, e: int|
                        in_chunk_bounds(a, b, e) && c.occ(a, b, e) ==> #[trigger] c.color_at(
                            a,
                            b,
                            e,
                        ) == color,
                decreases y - dy,
            {
                let mut dz: usize = 0;
                while dz < 16
                    invariant
                        dx < 16,
                        dy < y,
                        y <= 256,
                        dz <= 16,
                        c.wf(),
                        c.start_x == kx,
                        c.start_z == kz,
                        forall|a: int, b: int, e: int|
                            in_chunk_bounds(a, b, e) ==> #[trigger] c.occ(a, b, e) == ((a < dx && b
                                < y as int) || (a == dx && (b < dy as int || (b == dy as int && e
                                < dz)))),
                        forall|a: int, b: int, e: int|
                            in_chunk_bounds(a, b, e) && c.occ(a, b, e) ==> #[trigger] c.color_at(
                                a,
                                b,
                                e,
                            ) == color,
                    decreases 16 - dz,
                {
                    proof {
                        lemma_chunk_key(kx as int);
                    }
                    c.push_cube(
                        Pos3 { x: kx + dx as i32, y: dy as i32, z: kz + dz as i32 },
                        color,
                    );
                    dz = dz + 1;
                }
                dy = dy + 1;
            }
            dx = dx + 1;
        }
        let found = self.find_chunk_index(kx, kz);
        let replaced: bool = match found {
            Some(i) => {
                let _old_chunk = self.chunks.remove(i);
                self.chunks.insert(i, c);
                self.dirty = true;
                proof {
                    assert(self.chunks@ =~= old(self).chunks@.update(i as int, c));
                    lemma_set_chunk_update(*old(self), *self, kx as int, kz as int, i as int, c);
                }
                true
            },
            None => {
                self.chunks.push(c);
                self.dirty = true;
                proof {
                    lemma_set_chunk_push(*old(self), *self, kx as int, kz as int, c);
                }
                false
            },
        };
        proof {
            lemma_create_chunk_occ(*old(self), *self, x as int, z as int, y as int, color, c);
        }
        replaced
    }

    /// Returns the concatenation of every chunk's visible instances. If
    /// the world-level dirty flag is raised, each resident chunk first
    /// rebuilds its own list — a chunk untouched since the last call skips
    /// that work — and the result is cached until the next edit.
    pub fn mesh(&mut self) -> (r: &InstancesMesh)
        requires
            old(self).wf(),
        ensures
            final(self).wf(),
            !final(self).dirty,
            final(self).mesh.instances@ == world_visible(old(self).chunks@),
            final(self).chunks@.len() == old(self).chunks@.len(),
            forall|j: int|
                0 <= j < old(self).chunks@.len() ==> (#[trigger] final(self).chunks@[j]).cells@
                    == old(self).chunks@[j].cells@ && final(self).chunks@[j].start_x == old(
                    self,
                ).chunks@[j].start_x && final(self).chunks@[j].start_z == old(
                    self,
                ).chunks@[j].start_z,
            forall|x: int, y: int, z: int|
                #[trigger] final(self).occ_at(x, y, z) == old(self).occ_at(x, y, z),
            r == &final(self).mesh,
    {
        if self.dirty {
            self.mesh.instances.clear();
            let mut i: usize = 0;
            while i < self.chunks.len()
                invariant
                    i <= self.chunks@.len(),
                    self.chunks@.len() == old(self).chunks@.len(),
                    forall|j: int|
                        0 <= j < old(self).chunks@.len() ==> (#[trigger] self.chunks@[j]).cells@
                            == old(self).chunks@[j].cells@ && self.chunks@[j].start_x == old(
                            self,
                        ).chunks@[j].start_x && self.chunks@[j].start_z == old(
                            self,
                        ).chunks@[j].start_z,
                    forall|j: int| 0 <= j < self.chunks@.len() ==> (#[trigger] self.chunks@[j]).wf(),
                    forall|j: int| 0 <= j < i ==> !(#[trigger] self.chunks@[j]).dirty,
                    self.mesh.instances@ == world_visible_upto(self.chunks@, i as int),
                decreases self.chunks@.len() - i,
            {
                let ghost prev = *self;
                let mut c = self.chunks.remove(i);
                let m = c.mesh();
                self.mesh.extend_mesh(m);
                self.chunks.insert(i, c);
                proof {
                    assert(self.chunks@ =~= prev.chunks@.update(i as int, c));
                    lemma_world_visible_same_cells(prev.chunks@, self.chunks@, i as int + 1);
                    assert forall|j: int| 0 <= j < self.chunks@.len() implies (
                    #[trigger] self.chunks@[j]).wf() by {
                        if j != i {
                            assert(prev.chunks@[j].wf());
                        }
                    }
                }
                i = i + 1;
            }
            self.dirty = false;
            proof {
                lemma_world_visible_same_cells(
                    old(self).chunks@,
                    self.chunks@,
                    self.chunks@.len() as int,
                );
            }
        }
        proof {
            assert forall|x: int, y: int, z: int| #[trigger] self.occ_at(x, y, z) == old(
                self,
            ).occ_at(x, y, z) by {
                let qx = chunk_key(x);
                let qz = chunk_key(z);
                lemma_find_chunk_same_starts(old(self).chunks@, self.chunks@, qx, qz, 0);
                lemma_find_chunk(old(self).chunks@, qx, qz, 0);
                let j = find_chunk(old(self).chunks@, qx, qz, 0);
                if j >= 0 {
                    assert(self.chunks@[j].cells@ == old(self).chunks@[j].cells@);
                }
            }
        }
        &self.mesh
    }

    /// The resident chunks, in the order their keys were first created.
    pub fn chunks(&self) -> (r: &Vec<Chunk>)
        ensures
            r == &self.chunks,
    {
        &self.chunks
    }

    /// All resident chunks; an alias of `chunks` kept for callers that
    /// iterate the whole world.
    pub fn all_chunks(&self) -> (r: &Vec<Chunk>)
        ensures
            r == &self.chunks,
    {
        &self.chunks
    }

    /// Whether the voxel at `pos` is visibly occupied: its chunk is
    /// resident and the covering cell is filled.
    pub fn occ_query(&self, pos: Pos3) -> (b: bool)
        requires
            self.wf(),
        ensures
            b == self.occ_at(pos.x as int, pos.y as int, pos.z as int),
    {
        proof {
            lemma_chunk_key(pos.x as int);
            lemma_chunk_key(pos.z as int);
            lemma_find_chunk(self.chunks@, chunk_key(pos.x as int), chunk_key(pos.z as int), 0);
        }
        let kx = floor16(pos.x);
        let kz = floor16(pos.z);
        match self.find_chunk_index(kx, kz) {
            Some(i) => {
                let c = &self.chunks[i];
                c.occupied_at(pos)
            },
            None => false,
        }
    }

    /// Casts a ray from `origin` along `direction` and reports the first
    /// visibly occupied voxel within `max_radius` cells of the origin's
    /// cell, together with every cell the walk visited. The direction need
    /// not be normalized, but must not be the zero vector.
    pub fn cube_looking_at(&self, origin: &Fx3, direction: &Fx3, max_radius: Fx) -> (res:
        TraceResult)
        requires
            self.wf(),
            -MAX_DIR_RAW <= direction.x.raw <= MAX_DIR_RAW,
            -MAX_DIR_RAW <= direction.y.raw <= MAX_DIR_RAW,
            -MAX_DIR_RAW <= direction.z.raw <= MAX_DIR_RAW,
            !(direction.x.raw == 0 && direction.y.raw == 0 && direction.z.raw == 0),
            -MAX_ORIGIN_RAW <= origin.x.raw <= MAX_ORIGIN_RAW,
            -MAX_ORIGIN_RAW <= origin.y.raw <= MAX_ORIGIN_RAW,
            -MAX_ORIGIN_RAW <= origin.z.raw <= MAX_ORIGIN_RAW,
            -MAX_RADIUS_RAW <= max_radius.raw <= MAX_RADIUS_RAW,
        ensures
            trace_spec(params_of(*origin, *direction, max_radius), *self, res),
    {
        let tracer = BlockRayTracer::new(origin, direction, max_radius);
        tracer.run(self)
    }

    /// Whether the chunk at index `i` lies within `rc` chunks of the chunk
    /// containing `(px, pz)`, on both horizontal axes.
    pub open spec fn chunk_in_square(self, i: int, px: int, pz: int, rc: int) -> bool {
        &&& -(16 * rc) <= self.chunks@[i].start_x - chunk_key(px) <= 16 * rc
        &&& -(16 * rc) <= self.chunks@[i].start_z - chunk_key(pz) <= 16 * rc
    }

    /// The indices of the resident chunks whose corners lie within
    /// `ceil(radius / 16)` chunks of the chunk containing `(px, pz)`, in
    /// ascending index order.
    pub fn chunks_around(&self, px: i32, pz: i32, radius: Fx) -> (r: Vec<usize>)
        requires
            -0x4000_0000_0000_0000 <= radius.raw <= 0x4000_0000_0000_0000,
        ensures
            forall|k: int|
                0 <= k < r@.len() ==> r@[k] < self.chunks@.len() && self.chunk_in_square(
                    #[trigger] r@[k] as int,
                    px as int,
                    pz as int,
                    fx_ceil16(radius.raw as int),
                ),
            forall|k1: int, k2: int| 0 <= k1 < k2 < r@.len() ==> r@[k1] < r@[k2],
            forall|i: int|
                0 <= i < self.chunks@.len() && #[trigger] self.chunk_in_square(
                    i,
                    px as int,
                    pz as int,
                    fx_ceil16(radius.raw as int),
                ) ==> r@.contains(i as usize),
    {
        let base_x = floor16(px);
        let base_z = floor16(pz);
        let rc = ceil_chunks(radius);
        let bound: i64 = 16 * rc;
        let mut out: Vec<usize> = Vec::new();
        let mut i: usize = 0;
        while i < self.chunks.len()
            invariant
                i <= self.chunks@.len(),
                base_x as int == chunk_key(px as int),
                base_z as int == chunk_key(pz as int),
                bound as int == 16 * fx_ceil16(radius.raw as int),
                forall|k: int|
                    0 <= k < out@.len() ==> out@[k] < self.chunks@.len() && self.chunk_in_square(
                        #[trigger] out@[k] as int,
                        px as int,
                        pz as int,
                        fx_ceil16(radius.raw as int),
                    ),
                forall|k1: int, k2: int| 0 <= k1 < k2 < out@.len() ==> out@[k1] < out@[k2],
                forall|k: int| 0 <= k < out@.len() ==> out@[k] < i,
                forall|j: int|
                    0 <= j < i && #[trigger] self.chunk_in_square(
                        j,
                        px as int,
                        pz as int,
                        fx_ceil16(radius.raw as int),
                    ) ==> out@.contains(j as usize),
            decreases self.chunks@.len() - i,
        {
            let ghost prev_out = out@;
            let c = &self.chunks[i];
            let dx: i64 = c.start_x as i64 - base_x as i64;
            let dz: i64 = c.start_z as i64 - base_z as i64;
            if -bound <= dx && dx <= bound && -bound <= dz && dz <= bound {
                out.push(i);
            }
            proof {
                assert forall|j: int|
                    0 <= j < i + 1 && #[trigger] self.chunk_in_square(
                        j,
                        px as int,
                        pz as int,
                        fx_ceil16(radius.raw as int),
                    ) implies out@.contains(j as usize) by {
                    if j == i {
                        assert(out@[out@.len() - 1] == i as usize);
                    } else {
                        assert(prev_out.contains(j as usize));
                        let ghost k = choose|k: int|
                            0 <= k < prev_out.len() && prev_out[k] == j as usize;
                        assert(out@[k] == j as usize);
                    }
                }
            }
            i = i + 1;
        }
        out
    }

    /// Linear scan for the chunk with corner `(kx, kz)`.
    fn find_chunk_index(&self, kx: i32, kz: i32) -> (r: Option<usize>)
        ensures
            r matches Some(i) ==> i < self.chunks@.len() && i as int == self.chunk_idx(
                kx as int,
                kz as int,
            ),
            r is None ==> self.chunk_idx(kx as int, kz as int) == -1,
    {
        let mut i: usize = 0;
        while i < self.chunks.len()
            invariant
                i <= self.chunks@.len(),
                find_chunk(self.chunks@, kx as int, kz as int, 0) == find_chunk(
                    self.chunks@,
                    kx as int,
                    kz as int,
                    i as int,
                ),
            decreases self.chunks@.len() - i,
        {
            let c = &self.chunks[i];
            if c.start_x == kx && c.start_z == kz {
                return Some(i);
            }
            i = i + 1;
        }
        None
    }
}

} // verus!
