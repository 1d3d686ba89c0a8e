//! Tile-pyramid coordinate math for the spherical-mercator XYZ scheme.
//!
//! A tile address `(x, y, zoom)` is turned into a projected extent and a
//! pixel resolution. Projected positions are kept exact: a position is the
//! fraction `num / den` of nanometers, where the common denominator `den` of
//! a zoom level is `TILE_SIZE * 2^zoom`. The caller divides once at the very
//! edge, when it hands the grid to the resampling collaborator; everything
//! the library states about extents is exact integer arithmetic.

use vstd::arithmetic::power2::{
    lemma2_to64, lemma2_to64_rest, lemma_pow2_pos, lemma_pow2_strictly_increases,
    lemma_pow2_unfold, pow2,
};
use vstd::bits::lemma_u64_shl_is_mul;
use vstd::prelude::*;

verus! {

/// Number of pixels covered along each axis at zoom level 0. This is fixed
/// at 256 by the XYZ tiling scheme (it is also the pixel size of the tiles
/// served here).
pub const TILE_SIZE: u64 = 256;

/// Half the length of the spherical-mercator equator, in nanometers: pi
/// times the WGS84 spheroid radius of 6378137 m, to the nearest nanometer.
/// Projected coordinates run from `-ORIGIN_SHIFT_NM` to `+ORIGIN_SHIFT_NM`
/// on both axes.
pub const ORIGIN_SHIFT_NM: u64 = 20_037_508_342_789_244;

/// The full equator length in nanometers: twice [`ORIGIN_SHIFT_NM`].
pub const EQUATOR_LENGTH_NM: u64 = 40_075_016_685_578_488;

/// Deepest supported pyramid level: at this depth one zoom level's pixel
/// count, `TILE_SIZE * 2^zoom`, is `2^63` and exhausts a 64-bit word.
pub const MAX_ZOOM: u64 = 55;

/// Largest tile index on either axis: one less than `2^MAX_ZOOM`.
pub const MAX_TILE_INDEX: u64 = 36_028_797_018_963_967;

/// A tile address in the XYZ scheme: column `x`, row `y` (row 0 is the
/// northernmost row), pyramid level `zoom`. Addresses outside
/// `[0, 2^zoom)` are not rejected; they simply project to an extent outside
/// the data.
pub struct TileCoords {
    pub x: u64,
    pub y: u64,
    pub zoom: u64,
}

impl TileCoords {
    /// The address stays inside the machine limits of the exact arithmetic.
    pub open spec fn in_range(&self) -> bool {
        self.zoom <= MAX_ZOOM && self.x <= MAX_TILE_INDEX && self.y <= MAX_TILE_INDEX
    }
}

/// Denominator shared by every projected position of a zoom level:
/// `TILE_SIZE * 2^zoom`, the total pixel count along one axis.
pub open spec fn spec_resolution_den(zoom: int) -> int
    recommends
        0 <= zoom,
{
    256 * (pow2(zoom as nat) as int)
}

/// Numerator of the projected position of pixel column or row `p` at a zoom
/// level, over [`spec_resolution_den`]: pixel 0 maps to the projection's
/// western/southern edge `-ORIGIN_SHIFT_NM` and the last pixel column maps
/// to `+ORIGIN_SHIFT_NM`.
pub open spec fn spec_projected_num(p: int, zoom: int) -> int {
    p * EQUATOR_LENGTH_NM - ORIGIN_SHIFT_NM * spec_resolution_den(zoom)
}

/// Tile rows count from the north but projected Y grows northward, so a row
/// index is flipped before it is projected. A row at or beyond `2^zoom`
/// saturates to 0, like the rest of the out-of-range tolerance.
pub open spec fn spec_flipped_row(y: int, zoom: int) -> int {
    if y < pow2(zoom as nat) {
        (pow2(zoom as nat) - 1 - y) as int
    } else {
        0
    }
}

/// `TILE_SIZE << zoom` computes the denominator, and it fits in a `u64`.
proof fn lemma_den_shift(zoom: u64)
    requires
        zoom <= MAX_ZOOM,
    ensures
        1 <= pow2(zoom as nat) <= 0x80_0000_0000_0000,
        256 * pow2(zoom as nat) <= 0x8000_0000_0000_0000,
        (256u64 << zoom) == 256 * pow2(zoom as nat),
        (1u64 << zoom) == pow2(zoom as nat),
{
    lemma2_to64();
    lemma2_to64_rest();
    lemma_pow2_pos(zoom as nat);
    if zoom < 55 {
        lemma_pow2_strictly_increases(zoom as nat, 55);
    }
    assert(256 * pow2(zoom as nat) <= 256 * pow2(55)) by (nonlinear_arith)
        requires
            pow2(zoom as nat) <= pow2(55),
    ;
    lemma_u64_shl_is_mul(256u64, zoom);
    lemma_u64_shl_is_mul(1u64, zoom);
}

/// The resolution at a zoom level: the span of one pixel, in nanometers, as
/// the exact fraction `r.0 / r.1`. Its value is `2 * pi * R / TILE_SIZE`
/// meters at zoom 0 and halves with every level.
pub fn resolution_at_zoom(zoom: u64) -> (r: (u64, u64))
    requires
        zoom <= MAX_ZOOM,
    ensures
        r.0 == EQUATOR_LENGTH_NM,
        r.1 == spec_resolution_den(zoom as int),
        256 <= r.1,
{
    proof {
        lemma_den_shift(zoom);
    }
    (EQUATOR_LENGTH_NM, 256u64 << zoom)
}

/// The projected extent of one tile, exact: each side is the fraction
/// `num / den` of nanometers, with the zoom level's common denominator
/// `den`. Together with the resolution (`EQUATOR_LENGTH_NM / den`, the
/// vertical step sign-flipped) the `(xmin, ymax)` corner determines the
/// affine grid a raster is resampled onto.
pub struct TileGrid {
    pub xmin_num: i128,
    pub ymin_num: i128,
    pub xmax_num: i128,
    pub ymax_num: i128,
    pub den: u64,
}

/// Numerator of the projected position of pixel `p` over denominator `den`.
fn projected_num(p: u64, den: u64) -> (n: i128)
    requires
        p <= 0x8000_0000_0000_0000,
        den <= 0x8000_0000_0000_0000,
    ensures
        n == (p as int) * EQUATOR_LENGTH_NM - ORIGIN_SHIFT_NM * (den as int),
{
    proof {
        assert(0 <= (p as int) * 40_075_016_685_578_488 <= 0x8000_0000_0000_0000
            * 40_075_016_685_578_488) by (nonlinear_arith)
            requires
                0 <= p <= 0x8000_0000_0000_0000,
        ;
        assert(0 <= 20_037_508_342_789_244 * (den as int) <= 20_037_508_342_789_244
            * 0x8000_0000_0000_0000) by (nonlinear_arith)
            requires
                0 <= den <= 0x8000_0000_0000_0000,
        ;
    }
    (p as i128) * (EQUATOR_LENGTH_NM as i128) - (ORIGIN_SHIFT_NM as i128) * (den as i128)
}

/// The projected extent of a tile, after the row flip, as exact fractions.
pub fn compute_tile_grid(coords: &TileCoords) -> (g: TileGrid)
    requires
        coords.in_range(),
    ensures
        g.den == spec_resolution_den(coords.zoom as int),
        g.xmin_num == spec_projected_num(coords.x * 256, coords.zoom as int),
        g.xmax_num == spec_projected_num((coords.x + 1) * 256, coords.zoom as int),
        g.ymin_num == spec_projected_num(
            spec_flipped_row(coords.y as int, coords.zoom as int) * 256,
            coords.zoom as int,
        ),
        g.ymax_num == spec_projected_num(
            (spec_flipped_row(coords.y as int, coords.zoom as int) + 1) * 256,
            coords.zoom as int,
        ),
        g.xmin_num < g.xmax_num,
        g.ymin_num < g.ymax_num,
{
    proof {
        lemma_den_shift(coords.zoom);
    }
    let den: u64 = 256u64 << coords.zoom;
    let full: u64 = 1u64 << coords.zoom;
    let flipped: u64 = if coords.y < full {
        full - 1 - coords.y
    } else {
        0
    };
    let px0: u64 = coords.x * 256;
    let px1: u64 = (coords.x + 1) * 256;
    let py0: u64 = flipped * 256;
    let py1: u64 = (flipped + 1) * 256;
    TileGrid {
        xmin_num: projected_num(px0, den),
        ymin_num: projected_num(py0, den),
        xmax_num: projected_num(px1, den),
        ymax_num: projected_num(py1, den),
        den,
    }
}

/// The zoom 0 tile covers the whole projected world: its denominator is the
/// plain `TILE_SIZE`, and divided by it, its western edge is
/// `-ORIGIN_SHIFT_NM` and its eastern edge `+ORIGIN_SHIFT_NM` — the extent
/// `[-pi * R, +pi * R]` on both axes, since the flipped row 0 projects the
/// same way.
pub proof fn lemma_zoom0_whole_world()
    ensures
        spec_resolution_den(0) == 256,
        spec_flipped_row(0, 0) == 0,
        spec_projected_num(0, 0) == -256 * ORIGIN_SHIFT_NM,
        spec_projected_num(256, 0) == 256 * ORIGIN_SHIFT_NM,
{
    lemma2_to64();
}

/// The resolution halves with every zoom level: the numerator stays the
/// equator length while the denominator doubles, so, cross-multiplied,
/// twice the fraction at `zoom + 1` equals the fraction at `zoom`.
pub proof fn lemma_resolution_halves(zoom: int)
    requires
        0 <= zoom,
    ensures
        spec_resolution_den(zoom + 1) == 2 * spec_resolution_den(zoom),
        2 * EQUATOR_LENGTH_NM * spec_resolution_den(zoom) == EQUATOR_LENGTH_NM
            * spec_resolution_den(zoom + 1),
{
    lemma_pow2_unfold((zoom + 1) as nat);
    let d = spec_resolution_den(zoom);
    assert(2 * (EQUATOR_LENGTH_NM as int) * d == (EQUATOR_LENGTH_NM as int) * (2 * d))
        by (nonlinear_arith);
}

} // verus!
