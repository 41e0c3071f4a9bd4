//! Exact fixed-point scalars: 64-bit integer counts of 1/65536ths of a
//! cell, with the rounding helpers the world queries need.

use vstd::prelude::*;

use vstd::arithmetic::div_mod::{
    lemma_fundamental_div_mod, lemma_fundamental_div_mod_converse_div,
    lemma_fundamental_div_mod_converse_mod,
};

verus! {

/// One unit of fixed-point scale: raw values count 1/65536ths.
pub const FX_ONE: i64 = 65536;

/// Magnitude cap on direction components, in raw fixed-point units.
pub const MAX_DIR_RAW: i64 = 0x10_0000;

/// Magnitude cap on origin components, in raw fixed-point units.
pub const MAX_ORIGIN_RAW: i64 = 0x4000_0000_0000;

/// Magnitude cap on the search radius, in raw fixed-point units.
pub const MAX_RADIUS_RAW: i64 = 0x10_0000_0000;

/// A fixed-point scalar: the value `raw / 65536`.
#[derive(Clone, Copy, PartialEq, Eq, Structural, Debug)]
pub struct Fx {
    pub raw: i64,
}

impl Fx {
    /// The fixed-point representation of a whole number of cells.
    pub fn from_int(v: i32) -> (r: Fx)
        ensures
            r.raw == v as int * 65536,
    {
        Fx { raw: (v as i64) * FX_ONE }
    }
}

/// A fixed-point position or direction in world space.
#[derive(Clone, Copy, PartialEq, Eq, Structural, Debug)]
pub struct Fx3 {
    pub x: Fx,
    pub y: Fx,
    pub z: Fx,
}

/// The nearest cell to a fixed-point coordinate, halves rounded toward
/// zero: a ray origin sitting exactly on a cell corner resolves to the
/// cell on the origin side, so a cast from such a corner still sees the
/// voxels along the axis it looks down.
pub open spec fn fx_round(raw: int) -> int {
    if raw >= 0 {
        (raw + 32767) / 65536
    } else {
        -(((-raw) + 32767) / 65536)
    }
}

/// The least whole number of cells at least as large as the coordinate.
pub open spec fn fx_ceil(raw: int) -> int {
    if raw % 65536 == 0 {
        raw / 65536
    } else {
        raw / 65536 + 1
    }
}

pub open spec fn int_abs(v: int) -> int {
    if v < 0 {
        -v
    } else {
        v
    }
}

pub open spec fn int_sign(v: int) -> int {
    if v == 0 {
        0
    } else if v < 0 {
        -1
    } else {
        1
    }
}

/// The rounded cell differs from the coordinate by at most half a cell.
pub proof fn lemma_fx_round_bounds(raw: int)
    ensures
        -32768 <= raw - fx_round(raw) * 65536 <= 32768,
{
    if raw >= 0 {
        lemma_fundamental_div_mod(raw + 32767, 65536);
        assert(0 <= (raw + 32767) % 65536 < 65536) by (nonlinear_arith);
    } else {
        lemma_fundamental_div_mod((-raw) + 32767, 65536);
        assert(0 <= ((-raw) + 32767) % 65536 < 65536) by (nonlinear_arith);
    }
}

/// Rounds a fixed-point coordinate to its nearest cell.
pub fn round_cell(v: Fx) -> (r: i64)
    requires
        -MAX_ORIGIN_RAW <= v.raw <= MAX_ORIGIN_RAW,
    ensures
        r as int == fx_round(v.raw as int),
        -0x4000_0001 <= r <= 0x4000_0001,
{
    proof {
        lemma_fx_round_bounds(v.raw as int);
    }
    if v.raw >= 0 {
        (((v.raw as u64) + 32767) / 65536) as i64
    } else {
        -(((((-v.raw) as u64) + 32767) / 65536) as i64)
    }
}

/// Rounds a fixed-point radius up to whole cells.
pub fn ceil_cells(v: Fx) -> (r: i64)
    requires
        -MAX_RADIUS_RAW <= v.raw <= MAX_RADIUS_RAW,
    ensures
        r as int == fx_ceil(v.raw as int),
        -0x10_0000 <= r <= 0x10_0001,
{
    if v.raw >= 0 {
        let q = (((v.raw as u64) + 65535) / 65536) as i64;
        proof {
            lemma_fundamental_div_mod(v.raw as int, 65536);
            assert(0 <= v.raw as int % 65536 < 65536) by (nonlinear_arith);
            if v.raw as int % 65536 == 0 {
                lemma_fundamental_div_mod_converse_div(
                    v.raw as int + 65535,
                    65536,
                    v.raw as int / 65536,
                    65535,
                );
            } else {
                lemma_fundamental_div_mod_converse_div(
                    v.raw as int + 65535,
                    65536,
                    v.raw as int / 65536 + 1,
                    v.raw as int % 65536 - 1,
                );
            }
        }
        q
    } else {
        let m = (-v.raw) as u64;
        let q = -((m / 65536) as i64);
        proof {
            let raw = v.raw as int;
            lemma_fundamental_div_mod(-raw, 65536);
            assert(0 <= (-raw) % 65536 < 65536) by (nonlinear_arith);
            if (-raw) % 65536 == 0 {
                lemma_fundamental_div_mod_converse_div(raw, 65536, -((-raw) / 65536), 0);
                lemma_fundamental_div_mod_converse_mod(raw, 65536, -((-raw) / 65536), 0);
            } else {
                lemma_fundamental_div_mod_converse_div(
                    raw,
                    65536,
                    -((-raw) / 65536) - 1,
                    65536 - (-raw) % 65536,
                );
                lemma_fundamental_div_mod_converse_mod(
                    raw,
                    65536,
                    -((-raw) / 65536) - 1,
                    65536 - (-raw) % 65536,
                );
            }
        }
        q
    }
}

} // verus!
