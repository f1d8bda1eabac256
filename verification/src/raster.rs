//! Addressing bytes of a row-major RGB pixel buffer.
//!
//! A buffer of an `nx` by `ny` raster holds `3 * nx * ny` bytes: three
//! bytes (R, G, B) per pixel, pixels in row-major order. These helpers
//! relate a flat byte position to the pixel and channel it belongs to.

use vstd::prelude::*;
use vstd::arithmetic::div_mod::{
    lemma_div_is_ordered, lemma_div_pos_is_pos, lemma_fundamental_div_mod,
    lemma_fundamental_div_mod_converse, lemma_mod_bound,
};
use vstd::arithmetic::mul::{
    lemma_mul_inequality, lemma_mul_is_commutative, lemma_mul_is_distributive_sub_other_way,
};

verus! {

/// The byte of `buf` that holds channel `k` (0 = red, 1 = green, 2 = blue)
/// of pixel `(px, py)` of an `nx`-pixel-wide row-major RGB buffer.
pub open spec fn pixel_byte(buf: Seq<u8>, nx: int, px: int, py: int, k: int) -> u8 {
    buf[3 * (py * nx + px) + k]
}

/// The mathematical contents of a list of grids: one value sequence per
/// grid, in grid order.
pub open spec fn grid_views<T>(grids: Seq<Vec<T>>) -> Seq<Seq<T>> {
    grids.map_values(|g: Vec<T>| g@)
}

/// A byte position `j` of the buffer decomposes into a pixel and a channel:
/// the pixel is `(j / 3) % nx` across and `(j / 3) / nx` down, the channel
/// is `j % 3`, all in range, and they compose back to `j`.
pub proof fn lemma_byte_index(nx: int, ny: int, j: int)
    requires
        0 < nx,
        0 < ny,
        0 <= j < 3 * (nx * ny),
    ensures
        0 <= (j / 3) % nx < nx,
        0 <= (j / 3) / nx < ny,
        0 <= j % 3 < 3,
        j == 3 * (((j / 3) / nx) * nx + (j / 3) % nx) + j % 3,
{
    let q = j / 3;
    assert(0 <= q < nx * ny);
    lemma_mod_bound(q, nx);
    lemma_div_pos_is_pos(q, nx);
    lemma_fundamental_div_mod(q, nx);
    lemma_mul_is_commutative(nx, q / nx);
    lemma_mul_is_commutative(nx, ny);
    lemma_mul_is_distributive_sub_other_way(nx, ny, 1);
    lemma_fundamental_div_mod_converse(nx * ny - 1, nx, ny - 1, nx - 1);
    lemma_div_is_ordered(q, nx * ny - 1, nx);
}

/// A pixel and a channel compose into a byte position in range, and that
/// position decomposes back into the same pixel and channel.
pub proof fn lemma_pixel_byte_index(nx: int, ny: int, px: int, py: int, k: int)
    requires
        0 <= px < nx,
        0 <= py < ny,
        0 <= k < 3,
    ensures
        0 <= 3 * (py * nx + px) + k < 3 * (nx * ny),
        ((3 * (py * nx + px) + k) / 3) % nx == px,
        ((3 * (py * nx + px) + k) / 3) / nx == py,
        (3 * (py * nx + px) + k) % 3 == k,
{
    lemma_fundamental_div_mod_converse(py * nx + px, nx, py, px);
    lemma_mul_inequality(py, ny - 1, nx);
    lemma_mul_is_distributive_sub_other_way(nx, ny, 1);
    lemma_mul_is_commutative(nx, ny);
    assert(0 <= py * nx + px < nx * ny);
}

/// Two different pixel-and-channel pairs never share a byte position.
pub proof fn lemma_pixel_byte_injective(nx: int, px1: int, py1: int, k1: int, px2: int, py2: int, k2: int)
    requires
        0 < nx,
        0 <= px1 < nx,
        0 <= px2 < nx,
        0 <= py1,
        0 <= py2,
        0 <= k1 < 3,
        0 <= k2 < 3,
        3 * (py1 * nx + px1) + k1 == 3 * (py2 * nx + px2) + k2,
    ensures
        px1 == px2,
        py1 == py2,
        k1 == k2,
{
    assert(py1 * nx + px1 == py2 * nx + px2);
    lemma_fundamental_div_mod_converse(py1 * nx + px1, nx, py1, px1);
    lemma_fundamental_div_mod_converse(py1 * nx + px1, nx, py2, px2);
}

} // verus!
