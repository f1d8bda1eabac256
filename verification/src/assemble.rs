//! Merging per-chunk RGB grids into one contiguous pixel buffer.
//!
//! Each chunk's colored grid is written into the output buffer at the
//! chunk's pixel origin, row by row. Because the chunk list partitions the
//! raster, every pixel of the buffer is written exactly once.

use vstd::prelude::*;
use vstd::pervasive::VecAdditionalExecFns;
use vstd::arithmetic::mul::{
    lemma_mul_inequality, lemma_mul_is_commutative, lemma_mul_is_distributive_sub_other_way,
    lemma_mul_nonnegative, lemma_mul_upper_bound,
};
use crate::chunks::{
    chunk_entry_matches, chunk_height_at, chunk_index_of, chunk_contains, chunk_width_at, Chunk,
    is_chunk_list, lemma_chunks_partition, lemma_pixel_chunk, num_chunks,
};
use crate::errors::EngineError;
use crate::raster::{grid_views, lemma_byte_index, lemma_pixel_byte_injective, pixel_byte};

verus! {

/// Whether grid `i` of the list has exactly three bytes per pixel of its
/// chunk's clipped area.
pub open spec fn rgb_grid_shape_ok(nx: int, ny: int, cw: int, ch: int, grids: Seq<Seq<u8>>, i: int) -> bool {
    grids[i].len() == 3 * (chunk_width_at(nx, ny, cw, ch, i) * chunk_height_at(ny, ch, i))
}

/// Whether the RGB grid list has one grid per chunk, each of its chunk's
/// shape.
pub open spec fn rgb_grids_well_shaped(nx: int, ny: int, cw: int, ch: int, grids: Seq<Seq<u8>>) -> bool {
    &&& grids.len() == num_chunks(nx, ny, cw, ch)
    &&& forall|i: int| 0 <= i < grids.len() ==> #[trigger] rgb_grid_shape_ok(nx, ny, cw, ch, grids, i)
}

/// The byte that the merged buffer holds for channel `k` of pixel
/// `(px, py)`: the byte of the owning chunk's grid, at the pixel's offset
/// within that chunk.
pub open spec fn assembled_byte(nx: int, ny: int, cw: int, ch: int, grids: Seq<Seq<u8>>, px: int, py: int, k: int) -> u8 {
    let cx = (px / cw) * cw;
    let cy = (py / ch) * ch;
    let w = if cw <= nx - cx {
        cw
    } else {
        nx - cx
    };
    grids[chunk_index_of(nx, ny, cw, ch, px, py)][3 * ((py - cy) * w + (px - cx)) + k]
}

/// The fully merged image: `3 * nx * ny` bytes, row-major, three bytes per
/// pixel, each taken from the owning chunk's grid.
pub open spec fn assembled_image(nx: int, ny: int, cw: int, ch: int, grids: Seq<Seq<u8>>) -> Seq<u8> {
    Seq::new(
        (3 * (nx * ny)) as nat,
        |j: int| assembled_byte(nx, ny, cw, ch, grids, (j / 3) % nx, (j / 3) / nx, j % 3),
    )
}

/// Whether all three channel bytes of pixel `(px, py)` already stand in
/// `buf` as the merged image has them.
pub open spec fn pixel_assembled(buf: Seq<u8>, nx: int, ny: int, cw: int, ch: int, grids: Seq<Seq<u8>>, px: int, py: int) -> bool {
    &&& pixel_byte(buf, nx, px, py, 0) == assembled_byte(nx, ny, cw, ch, grids, px, py, 0)
    &&& pixel_byte(buf, nx, px, py, 1) == assembled_byte(nx, ny, cw, ch, grids, px, py, 1)
    &&& pixel_byte(buf, nx, px, py, 2) == assembled_byte(nx, ny, cw, ch, grids, px, py, 2)
}

/// Writes each RGB grid into the output buffer at its chunk's origin,
/// clipped rows only, and returns the merged buffer. Fails with
/// `AssemblyMismatch` exactly when some grid's length is not three bytes
/// per pixel of its chunk.
#[verifier::loop_isolation(false)]
pub fn assemble(
    npix_x: usize,
    npix_y: usize,
    chunk_w: usize,
    chunk_h: usize,
    chunks: &Vec<Chunk>,
    rgb_grids: &Vec<Vec<u8>>,
) -> (r: Result<Vec<u8>, EngineError>)
    requires
        0 < npix_x,
        0 < npix_y,
        0 < chunk_w,
        0 < chunk_h,
        3 * (npix_x as int * npix_y as int) <= usize::MAX,
        is_chunk_list(chunks@, npix_x as int, npix_y as int, chunk_w as int, chunk_h as int),
    ensures
        rgb_grids_well_shaped(
            npix_x as int,
            npix_y as int,
            chunk_w as int,
            chunk_h as int,
            grid_views(rgb_grids@),
        ) ==> {
            &&& r is Ok
            &&& r.unwrap()@ == assembled_image(
                npix_x as int,
                npix_y as int,
                chunk_w as int,
                chunk_h as int,
                grid_views(rgb_grids@),
            )
        },
        !rgb_grids_well_shaped(
            npix_x as int,
            npix_y as int,
            chunk_w as int,
            chunk_h as int,
            grid_views(rgb_grids@),
        ) ==> r == Result::<Vec<u8>, EngineError>::Err(EngineError::AssemblyMismatch),
{
    let nx = npix_x;
    let ny = npix_y;
    let ghost nxi = nx as int;
    let ghost nyi = ny as int;
    let ghost cwi = chunk_w as int;
    let ghost chi = chunk_h as int;
    let ghost views = grid_views(rgb_grids@);
    proof {
        lemma_chunks_partition(chunks@, nxi, nyi, cwi, chi);
    }
    if rgb_grids.len() != chunks.len() {
        return Err(EngineError::AssemblyMismatch);
    }
    let total: usize = nx * ny;
    let total3: usize = 3 * total;
    let mut buf: Vec<u8> = Vec::new();
    while buf.len() < total3
        invariant
            buf@.len() <= total3,
        decreases total3 - buf@.len(),
    {
        buf.push(0);
    }
    let mut ci: usize = 0;
    while ci < chunks.len()
        invariant
            ci <= chunks@.len(),
            buf@.len() == 3 * (nxi * nyi),
            forall|i: int| 0 <= i < ci ==> #[trigger] rgb_grid_shape_ok(nxi, nyi, cwi, chi, views, i),
            forall|px: int, py: int|
                0 <= px < nxi && 0 <= py < nyi && #[trigger] chunk_index_of(nxi, nyi, cwi, chi, px, py)
                    < ci ==> pixel_assembled(buf@, nxi, nyi, cwi, chi, views, px, py),
        decreases chunks@.len() - ci,
    {
        let c = chunks[ci];
        proof {
            assert(chunk_entry_matches(chunks@[ci as int], nxi, nyi, cwi, chi, ci as int));
            lemma_mul_upper_bound(c.width as int, nxi, c.height as int, nyi);
        }
        let area: usize = c.width * c.height;
        let glen3: usize = 3 * area;
        let g = &rgb_grids[ci];
        if g.len() != glen3 {
            proof {
                assert(!rgb_grid_shape_ok(nxi, nyi, cwi, chi, views, ci as int));
            }
            return Err(EngineError::AssemblyMismatch);
        }
        proof {
            assert(rgb_grid_shape_ok(nxi, nyi, cwi, chi, views, ci as int));
        }
        let mut ly: usize = 0;
        while ly < c.height
            invariant
                ly <= c.height,
                buf@.len() == 3 * (nxi * nyi),
                forall|px: int, py: int|
                    0 <= px < nxi && 0 <= py < nyi && #[trigger] chunk_index_of(
                        nxi,
                        nyi,
                        cwi,
                        chi,
                        px,
                        py,
                    ) < ci ==> pixel_assembled(buf@, nxi, nyi, cwi, chi, views, px, py),
                forall|px: int, py: int|
                    0 <= px < nxi && 0 <= py < nyi && #[trigger] chunk_index_of(
                        nxi,
                        nyi,
                        cwi,
                        chi,
                        px,
                        py,
                    ) == ci && py < c.y + ly ==> pixel_assembled(
                        buf@,
                        nxi,
                        nyi,
                        cwi,
                        chi,
                        views,
                        px,
                        py,
                    ),
            decreases c.height - ly,
        {
            let mut lx: usize = 0;
            while lx < c.width
                invariant
                    lx <= c.width,
                    buf@.len() == 3 * (nxi * nyi),
                    forall|px: int, py: int|
                        0 <= px < nxi && 0 <= py < nyi && #[trigger] chunk_index_of(
                            nxi,
                            nyi,
                            cwi,
                            chi,
                            px,
                            py,
                        ) < ci ==> pixel_assembled(buf@, nxi, nyi, cwi, chi, views, px, py),
                    forall|px: int, py: int|
                        0 <= px < nxi && 0 <= py < nyi && #[trigger] chunk_index_of(
                            nxi,
                            nyi,
                            cwi,
                            chi,
                            px,
                            py,
                        ) == ci && py < c.y + ly ==> pixel_assembled(
                            buf@,
                            nxi,
                            nyi,
                            cwi,
                            chi,
                            views,
                            px,
                            py,
                        ),
                    forall|px: int, py: int|
                        0 <= px < nxi && 0 <= py < nyi && #[trigger] chunk_index_of(
                            nxi,
                            nyi,
                            cwi,
                            chi,
                            px,
                            py,
                        ) == ci && py == c.y + ly && px < c.x + lx ==> pixel_assembled(
                            buf@,
                            nxi,
                            nyi,
                            cwi,
                            chi,
                            views,
                            px,
                            py,
                        ),
                decreases c.width - lx,
            {
                let px = c.x + lx;
                let py = c.y + ly;
                proof {
                    assert(chunk_contains(chunks@[ci as int], px as int, py as int));
                    lemma_pixel_chunk(chunks@, nxi, nyi, cwi, chi, px as int, py as int);
                    lemma_mul_inequality(ly as int, c.height as int - 1, c.width as int);
                    lemma_mul_is_distributive_sub_other_way(c.width as int, c.height as int, 1);
                    lemma_mul_is_commutative(c.width as int, c.height as int);
                    lemma_mul_inequality(py as int, nyi - 1, nxi);
                    lemma_mul_is_distributive_sub_other_way(nxi, nyi, 1);
                    lemma_mul_is_commutative(nxi, nyi);
                }
                let src: usize = 3 * (ly * c.width + lx);
                let dst: usize = 3 * (py * nx + px);
                let b0 = g[src];
                let b1 = g[src + 1];
                let b2 = g[src + 2];
                let ghost buf0 = buf@;
                buf.set(dst, b0);
                buf.set(dst + 1, b1);
                buf.set(dst + 2, b2);
                proof {
                    assert forall|px2: int, py2: int|
                        0 <= px2 < nxi && 0 <= py2 < nyi && (
                        #[trigger] chunk_index_of(nxi, nyi, cwi, chi, px2, py2) < ci || (
                        chunk_index_of(nxi, nyi, cwi, chi, px2, py2) == ci && (py2 < c.y + ly || (
                        py2 == c.y + ly && px2 < c.x + lx + 1)))) implies pixel_assembled(
                        buf@,
                        nxi,
                        nyi,
                        cwi,
                        chi,
                        views,
                        px2,
                        py2,
                    ) by {
                        if px2 == px as int && py2 == py as int {
                            assert(views[ci as int] == rgb_grids@[ci as int]@);
                            assert(buf@[dst as int] == b0);
                            assert(buf@[dst as int + 1] == b1);
                            assert(buf@[dst as int + 2] == b2);
                        } else {
                            lemma_mul_nonnegative(py2, nxi);
                            lemma_mul_inequality(py2, nyi - 1, nxi);
                            if 3 * (py2 * nxi + px2) == 3 * (py as int * nxi + px as int) {
                                lemma_pixel_byte_injective(
                                    nxi,
                                    px2,
                                    py2,
                                    0,
                                    px as int,
                                    py as int,
                                    0,
                                );
                                assert(false);
                            }
                            assert(pixel_assembled(buf0, nxi, nyi, cwi, chi, views, px2, py2));
                            assert(buf@[3 * (py2 * nxi + px2) + 0] == buf0[3 * (py2 * nxi + px2) + 0]);
                            assert(buf@[3 * (py2 * nxi + px2) + 1] == buf0[3 * (py2 * nxi + px2) + 1]);
                            assert(buf@[3 * (py2 * nxi + px2) + 2] == buf0[3 * (py2 * nxi + px2) + 2]);
                        }
                    }
                }
                lx = lx + 1;
            }
            proof {
                assert forall|px2: int, py2: int|
                    0 <= px2 < nxi && 0 <= py2 < nyi && #[trigger] chunk_index_of(
                    nxi,
                    nyi,
                    cwi,
                    chi,
                    px2,
                    py2,
                ) == ci && py2 < c.y + ly + 1 implies pixel_assembled(
                    buf@,
                    nxi,
                    nyi,
                    cwi,
                    chi,
                    views,
                    px2,
                    py2,
                ) by {
                    if py2 == c.y + ly {
                        assert(chunk_contains(chunks@[ci as int], px2, py2));
                    }
                }
            }
            ly = ly + 1;
        }
        proof {
            assert forall|px2: int, py2: int|
                0 <= px2 < nxi && 0 <= py2 < nyi && #[trigger] chunk_index_of(
                nxi,
                nyi,
                cwi,
                chi,
                px2,
                py2,
            ) < ci + 1 implies pixel_assembled(buf@, nxi, nyi, cwi, chi, views, px2, py2) by {
                if chunk_index_of(nxi, nyi, cwi, chi, px2, py2) == ci as int {
                    assert(chunk_contains(chunks@[ci as int], px2, py2));
                }
            }
        }
        ci = ci + 1;
    }
    proof {
        assert forall|j: int| 0 <= j < buf@.len() implies buf@[j] == assembled_image(
            nxi,
            nyi,
            cwi,
            chi,
            views,
        )[j] by {
            lemma_byte_index(nxi, nyi, j);
            let px = (j / 3) % nxi;
            let py = (j / 3) / nxi;
            let k = j % 3;
            assert(pixel_assembled(buf@, nxi, nyi, cwi, chi, views, px, py));
            assert(buf@[j] == pixel_byte(buf@, nxi, px, py, k));
        }
        assert(buf@ =~= assembled_image(nxi, nyi, cwi, chi, views));
    }
    Ok(buf)
}

} // verus!
