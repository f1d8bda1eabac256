//! The full rasterization pipeline on escape-time grids.
//!
//! The caller evaluates the escape-time recurrence for every pixel of every
//! chunk (chunks in the order of `get_chunk_corners`, each grid row-major
//! within its chunk) and hands the counter grids in; the pipeline colors
//! every counter through the palette and merges the colored chunks into the
//! final row-major RGB pixel buffer.

use vstd::prelude::*;
use vstd::arithmetic::mul::{
    lemma_mul_inequality, lemma_mul_is_commutative, lemma_mul_is_distributive_add_other_way,
    lemma_mul_is_distributive_sub_other_way, lemma_mul_nonnegative, lemma_mul_upper_bound,
};
use crate::assemble::{assemble, assembled_image, rgb_grid_shape_ok, rgb_grids_well_shaped};
use crate::chunks::{
    chunk_entry_matches, chunk_height_at, chunk_index_of, chunk_width_at, chunk_x_at, chunk_y_at,
    chunks_across, get_chunk_corners, lemma_axis_piece, lemma_chunk_index,
    num_chunks,
};
use crate::errors::EngineError;
use crate::palette::{channel_of, color_escape_time_array, colored, palette_color};
use crate::raster::{grid_views, lemma_byte_index, lemma_pixel_byte_index, pixel_byte};

verus! {

/// Whether escape grid `i` of the list has one counter per pixel of its
/// chunk's clipped area.
pub open spec fn escape_grid_shape_ok(nx: int, ny: int, cw: int, ch: int, grids: Seq<Seq<u16>>, i: int) -> bool {
    grids[i].len() == chunk_width_at(nx, ny, cw, ch, i) * chunk_height_at(ny, ch, i)
}

/// Whether the escape grid list has one grid per chunk, each of its
/// chunk's shape.
pub open spec fn escape_grids_well_shaped(nx: int, ny: int, cw: int, ch: int, grids: Seq<Seq<u16>>) -> bool {
    &&& grids.len() == num_chunks(nx, ny, cw, ch)
    &&& forall|i: int|
        0 <= i < grids.len() ==> #[trigger] escape_grid_shape_ok(nx, ny, cw, ch, grids, i)
}

/// The escape-time counter that the chunked grids hold for pixel
/// `(px, py)`: the counter of the owning chunk's grid at the pixel's
/// offset within that chunk.
pub open spec fn escape_at(nx: int, ny: int, cw: int, ch: int, grids: Seq<Seq<u16>>, px: int, py: int) -> u16 {
    let cx = (px / cw) * cw;
    let cy = (py / ch) * ch;
    let w = if cw <= nx - cx {
        cw
    } else {
        nx - cx
    };
    grids[chunk_index_of(nx, ny, cw, ch, px, py)][(py - cy) * w + (px - cx)]
}

/// One channel byte of the rendered image: the palette color of the
/// pixel's escape-time counter.
pub open spec fn rendered_byte(nx: int, ny: int, cw: int, ch: int, max_iter: u16, grids: Seq<Seq<u16>>, px: int, py: int, k: int) -> u8 {
    channel_of(palette_color(escape_at(nx, ny, cw, ch, grids, px, py), max_iter), k)
}

/// The full rendered image: `3 * nx * ny` bytes, row-major, three bytes
/// per pixel.
pub open spec fn rendered_image(nx: int, ny: int, cw: int, ch: int, max_iter: u16, grids: Seq<Seq<u16>>) -> Seq<u8> {
    Seq::new(
        (3 * (nx * ny)) as nat,
        |j: int| rendered_byte(nx, ny, cw, ch, max_iter, grids, (j / 3) % nx, (j / 3) / nx, j % 3),
    )
}

/// The request invariants: positive image dimensions, positive chunk
/// dimensions, a positive iteration budget.
pub open spec fn request_valid(nx: int, ny: int, cw: int, ch: int, max_iter: u16) -> bool {
    &&& 0 < nx
    &&& 0 < ny
    &&& 0 < cw
    &&& 0 < ch
    &&& 0 < max_iter
}

/// Whether the output buffer's byte count fits in `usize`, so that the
/// buffer can exist at all.
pub open spec fn buffer_fits(nx: int, ny: int) -> bool {
    3 * (nx * ny) <= usize::MAX
}

/// The escape-time counter that a full-image, row-major escape map holds
/// for pixel `(px, py)`.
pub open spec fn escape_map_at(e: Seq<u16>, nx: int, px: int, py: int) -> u16 {
    e[py * nx + px]
}

/// Whether the chunked escape grids agree, pixel for pixel, with the one
/// full-image escape map `e`.
pub open spec fn grids_match_escape_map(nx: int, ny: int, cw: int, ch: int, grids: Seq<Seq<u16>>, e: Seq<u16>) -> bool {
    forall|px: int, py: int|
        0 <= px < nx && 0 <= py < ny ==> #[trigger] escape_at(nx, ny, cw, ch, grids, px, py)
            == escape_map_at(e, nx, px, py)
}

/// The counter that a chunk's grid holds at offset `t` when the grid is
/// cut from the full map `e`: the chunk starts at `(cx, cy)` and is `w`
/// pixels wide.
pub open spec fn map_cell(e: Seq<u16>, nx: int, cx: int, cy: int, w: int, t: int) -> u16 {
    e[(cy + t / w) * nx + (cx + t % w)]
}

/// Cuts a full-image, row-major escape map into one grid per chunk, in
/// the column-major chunk order, each grid row-major within its chunk.
/// The grids match the chunks' shapes and agree with the map pixel for
/// pixel, so they render exactly as the map does under any chunking.
#[verifier::loop_isolation(false)]
pub fn split_escape_map(
    npix_x: usize,
    npix_y: usize,
    chunk_w: usize,
    chunk_h: usize,
    e: &Vec<u16>,
) -> (r: Vec<Vec<u16>>)
    requires
        0 < npix_x,
        0 < npix_y,
        0 < chunk_w,
        0 < chunk_h,
        e@.len() == npix_x as int * npix_y as int,
    ensures
        escape_grids_well_shaped(
            npix_x as int,
            npix_y as int,
            chunk_w as int,
            chunk_h as int,
            grid_views(r@),
        ),
        grids_match_escape_map(
            npix_x as int,
            npix_y as int,
            chunk_w as int,
            chunk_h as int,
            grid_views(r@),
            e@,
        ),
{
    let ghost nxi = npix_x as int;
    let ghost nyi = npix_y as int;
    let ghost cwi = chunk_w as int;
    let ghost chi = chunk_h as int;
    proof {
        // The map lives in a Vec, so its length, and with it the pixel
        // count of the raster, is bounded by usize::MAX.
        assert(e.len() == e@.len());
    }
    let chunks = get_chunk_corners(npix_x, npix_y, chunk_w, chunk_h);
    let mut grids: Vec<Vec<u16>> = Vec::new();
    let mut i: usize = 0;
    while i < chunks.len()
        invariant
            i <= chunks@.len(),
            grids@.len() == i,
            forall|t: int|
                0 <= t < i ==> #[trigger] escape_grid_shape_ok(
                    nxi,
                    nyi,
                    cwi,
                    chi,
                    grid_views(grids@),
                    t,
                ),
            forall|t: int, u: int|
                0 <= t < i && 0 <= u < grid_views(grids@)[t].len() ==> (#[trigger] grid_views(
                    grids@,
                )[t][u]) == map_cell(
                    e@,
                    nxi,
                    chunk_x_at(nyi, cwi, chi, t),
                    chunk_y_at(nyi, chi, t),
                    chunk_width_at(nxi, nyi, cwi, chi, t),
                    u,
                ),
        decreases chunks@.len() - i,
    {
        let c = chunks[i];
        proof {
            assert(chunk_entry_matches(chunks@[i as int], nxi, nyi, cwi, chi, i as int));
        }
        let mut g: Vec<u16> = Vec::new();
        let mut ly: usize = 0;
        while ly < c.height
            invariant
                ly <= c.height,
                g@.len() == ly * c.width,
                forall|u: int|
                    0 <= u < g@.len() ==> (#[trigger] g@[u]) == map_cell(
                        e@,
                        nxi,
                        c.x as int,
                        c.y as int,
                        c.width as int,
                        u,
                    ),
            decreases c.height - ly,
        {
            let mut lx: usize = 0;
            while lx < c.width
                invariant
                    lx <= c.width,
                    g@.len() == ly * c.width + lx,
                    forall|u: int|
                        0 <= u < g@.len() ==> (#[trigger] g@[u]) == map_cell(
                            e@,
                            nxi,
                            c.x as int,
                            c.y as int,
                            c.width as int,
                            u,
                        ),
                decreases c.width - lx,
            {
                proof {
                    lemma_mul_nonnegative(c.y as int + ly as int, nxi);
                    lemma_mul_inequality(c.y as int + ly as int, nyi - 1, nxi);
                    lemma_mul_is_distributive_sub_other_way(nxi, nyi, 1);
                    lemma_mul_is_commutative(nxi, nyi);
                }
                let v = e[(c.y + ly) * npix_x + (c.x + lx)];
                g.push(v);
                proof {
                    lemma_chunk_index(ly as int, lx as int, c.height as int, c.width as int);
                    assert((g@[ly as int * c.width as int + lx as int]) == map_cell(
                        e@,
                        nxi,
                        c.x as int,
                        c.y as int,
                        c.width as int,
                        ly as int * c.width as int + lx as int,
                    ));
                }
                lx = lx + 1;
            }
            proof {
                lemma_mul_is_distributive_add_other_way(c.width as int, ly as int, 1);
            }
            ly = ly + 1;
        }
        let ghost grids0 = grids@;
        let ghost gv = g@;
        grids.push(g);
        proof {
            lemma_mul_is_commutative(c.height as int, c.width as int);
            assert(grids@[i as int]@ == gv);
            assert(gv.len() == c.height as int * c.width as int);
            assert forall|t: int| 0 <= t < i + 1 implies #[trigger] escape_grid_shape_ok(
                nxi,
                nyi,
                cwi,
                chi,
                grid_views(grids@),
                t,
            ) by {
                assert(grid_views(grids@)[t] == grids@[t]@);
                if t < i as int {
                    assert(grids@[t] == grids0[t]);
                    assert(grid_views(grids0)[t] == grids0[t]@);
                    assert(escape_grid_shape_ok(nxi, nyi, cwi, chi, grid_views(grids0), t));
                } else {
                    assert(grids@[t]@ == gv);
                    assert(grids@[t]@.len() == chunk_width_at(nxi, nyi, cwi, chi, t)
                        * chunk_height_at(nyi, chi, t));
                }
            }
            assert forall|t: int, u: int|
                0 <= t < i + 1 && 0 <= u < grid_views(grids@)[t].len() implies (#[trigger] grid_views(
                grids@,
            )[t][u]) == map_cell(
                e@,
                nxi,
                chunk_x_at(nyi, cwi, chi, t),
                chunk_y_at(nyi, chi, t),
                chunk_width_at(nxi, nyi, cwi, chi, t),
                u,
            ) by {
                assert(grid_views(grids@)[t] == grids@[t]@);
                if t < i as int {
                    assert(grid_views(grids0)[t] == grids0[t]@);
                    assert(grid_views(grids0)[t][u] == map_cell(
                        e@,
                        nxi,
                        chunk_x_at(nyi, cwi, chi, t),
                        chunk_y_at(nyi, chi, t),
                        chunk_width_at(nxi, nyi, cwi, chi, t),
                        u,
                    ));
                }
            }
        }
        i = i + 1;
    }
    proof {
        assert forall|px: int, py: int| 0 <= px < nxi && 0 <= py < nyi implies #[trigger] escape_at(
            nxi,
            nyi,
            cwi,
            chi,
            grid_views(grids@),
            px,
            py,
        ) == escape_map_at(e@, nxi, px, py) by {
            lemma_pixel_cell(nxi, nyi, cwi, chi, px, py);
            let ci = chunk_index_of(nxi, nyi, cwi, chi, px, py);
            let cx = (px / cwi) * cwi;
            let cy = (py / chi) * chi;
            let w = chunk_width_at(nxi, nyi, cwi, chi, ci);
            let h = chunk_height_at(nyi, chi, ci);
            assert(escape_grid_shape_ok(nxi, nyi, cwi, chi, grid_views(grids@), ci));
            lemma_chunk_index(py - cy, px - cx, h, w);
        }
    }
    grids
}

/// Chunking never alters the output: when two grid lists, cut into chunks
/// of different sizes, agree with one full-image escape map, their
/// rendered images are identical.
pub proof fn lemma_chunking_preserves_image(nx: int, ny: int, cw1: int, ch1: int, cw2: int, ch2: int, max_iter: u16, grids1: Seq<Seq<u16>>, grids2: Seq<Seq<u16>>, e: Seq<u16>)
    requires
        0 < nx,
        0 < ny,
        0 < cw1,
        0 < ch1,
        0 < cw2,
        0 < ch2,
        grids_match_escape_map(nx, ny, cw1, ch1, grids1, e),
        grids_match_escape_map(nx, ny, cw2, ch2, grids2, e),
    ensures
        rendered_image(nx, ny, cw1, ch1, max_iter, grids1) == rendered_image(
            nx,
            ny,
            cw2,
            ch2,
            max_iter,
            grids2,
        ),
{
    assert forall|j: int| 0 <= j < 3 * (nx * ny) implies rendered_image(
        nx,
        ny,
        cw1,
        ch1,
        max_iter,
        grids1,
    )[j] == rendered_image(nx, ny, cw2, ch2, max_iter, grids2)[j] by {
        lemma_byte_index(nx, ny, j);
        let px = (j / 3) % nx;
        let py = (j / 3) / nx;
        assert(escape_at(nx, ny, cw1, ch1, grids1, px, py) == escape_map_at(e, nx, px, py));
        assert(escape_at(nx, ny, cw2, ch2, grids2, px, py) == escape_map_at(e, nx, px, py));
    }
    assert(rendered_image(nx, ny, cw1, ch1, max_iter, grids1) =~= rendered_image(
        nx,
        ny,
        cw2,
        ch2,
        max_iter,
        grids2,
    ));
}

/// Whether the full-image escape map is mirror-symmetric about the
/// raster's horizontal centerline.
pub open spec fn escape_map_mirrored(e: Seq<u16>, nx: int, ny: int) -> bool {
    forall|px: int, py: int|
        0 <= px < nx && 0 <= py < ny ==> #[trigger] escape_map_at(e, nx, px, py) == escape_map_at(
            e,
            nx,
            px,
            ny - 1 - py,
        )
}

/// A render of a mirror-symmetric escape map is itself a mirror image
/// about the horizontal centerline: pixel `(px, py)` carries the same
/// color as pixel `(px, ny - 1 - py)`. A view centered on the real axis
/// yields such a map, since the escape-time recurrence commutes with
/// complex conjugation.
pub proof fn lemma_mirrored_map_renders_mirrored_image(nx: int, ny: int, cw: int, ch: int, max_iter: u16, grids: Seq<Seq<u16>>, e: Seq<u16>)
    requires
        0 < nx,
        0 < ny,
        0 < cw,
        0 < ch,
        grids_match_escape_map(nx, ny, cw, ch, grids, e),
        escape_map_mirrored(e, nx, ny),
    ensures
        forall|px: int, py: int, k: int|
            0 <= px < nx && 0 <= py < ny && 0 <= k < 3 ==> #[trigger] pixel_byte(
                rendered_image(nx, ny, cw, ch, max_iter, grids),
                nx,
                px,
                py,
                k,
            ) == pixel_byte(rendered_image(nx, ny, cw, ch, max_iter, grids), nx, px, ny - 1 - py, k),
{
    let img = rendered_image(nx, ny, cw, ch, max_iter, grids);
    assert forall|px: int, py: int, k: int|
        0 <= px < nx && 0 <= py < ny && 0 <= k < 3 implies #[trigger] pixel_byte(
        img,
        nx,
        px,
        py,
        k,
    ) == pixel_byte(img, nx, px, ny - 1 - py, k) by {
        lemma_pixel_byte_index(nx, ny, px, py, k);
        lemma_pixel_byte_index(nx, ny, px, ny - 1 - py, k);
        assert(escape_at(nx, ny, cw, ch, grids, px, py) == escape_map_at(e, nx, px, py));
        assert(escape_at(nx, ny, cw, ch, grids, px, ny - 1 - py) == escape_map_at(
            e,
            nx,
            px,
            ny - 1 - py,
        ));
    }
}

/// For a raster pixel, the chunk geometry computed from the pixel's own
/// coordinates agrees with the geometry recorded at the pixel's chunk
/// index, and the pixel's offset within its chunk is inside the chunk's
/// area.
proof fn lemma_pixel_cell(nx: int, ny: int, cw: int, ch: int, px: int, py: int)
    requires
        0 < nx,
        0 < ny,
        0 < cw,
        0 < ch,
        0 <= px < nx,
        0 <= py < ny,
    ensures
        0 <= chunk_index_of(nx, ny, cw, ch, px, py) < num_chunks(nx, ny, cw, ch),
        chunk_x_at(ny, cw, ch, chunk_index_of(nx, ny, cw, ch, px, py)) == (px / cw) * cw,
        chunk_y_at(ny, ch, chunk_index_of(nx, ny, cw, ch, px, py)) == (py / ch) * ch,
        ({
            let cx = (px / cw) * cw;
            let cy = (py / ch) * ch;
            let w = chunk_width_at(nx, ny, cw, ch, chunk_index_of(nx, ny, cw, ch, px, py));
            let h = chunk_height_at(ny, ch, chunk_index_of(nx, ny, cw, ch, px, py));
            &&& w == (if cw <= nx - cx {
                cw
            } else {
                nx - cx
            })
            &&& 0 <= px - cx < w
            &&& 0 <= py - cy < h
            &&& 0 <= (py - cy) * w + (px - cx) < w * h
        }),
{
    lemma_axis_piece(px, nx, cw);
    lemma_axis_piece(py, ny, ch);
    lemma_chunk_index(px / cw, py / ch, chunks_across(nx, cw), chunks_across(ny, ch));
    let i = chunk_index_of(nx, ny, cw, ch, px, py);
    let cx = (px / cw) * cw;
    let cy = (py / ch) * ch;
    let w = chunk_width_at(nx, ny, cw, ch, i);
    let h = chunk_height_at(ny, ch, i);
    lemma_mul_nonnegative(py - cy, w);
    lemma_mul_inequality(py - cy, h - 1, w);
    lemma_mul_is_distributive_sub_other_way(w, h, 1);
    lemma_mul_is_commutative(w, h);
}

/// Coloring every grid of a well-shaped escape grid list gives a
/// well-shaped RGB grid list, and merging the colored grids gives exactly
/// the rendered image of the escape grids.
proof fn lemma_colored_assembles_to_render(nx: int, ny: int, cw: int, ch: int, max_iter: u16, egrids: Seq<Seq<u16>>, cgrids: Seq<Seq<u8>>)
    requires
        0 < nx,
        0 < ny,
        0 < cw,
        0 < ch,
        escape_grids_well_shaped(nx, ny, cw, ch, egrids),
        cgrids.len() == egrids.len(),
        forall|i: int| 0 <= i < egrids.len() ==> #[trigger] cgrids[i] == colored(egrids[i], max_iter),
    ensures
        rgb_grids_well_shaped(nx, ny, cw, ch, cgrids),
        assembled_image(nx, ny, cw, ch, cgrids) == rendered_image(nx, ny, cw, ch, max_iter, egrids),
{
    assert forall|i: int| 0 <= i < cgrids.len() implies #[trigger] rgb_grid_shape_ok(
        nx,
        ny,
        cw,
        ch,
        cgrids,
        i,
    ) by {
        assert(escape_grid_shape_ok(nx, ny, cw, ch, egrids, i));
    }
    assert forall|j: int| 0 <= j < 3 * (nx * ny) implies assembled_image(nx, ny, cw, ch, cgrids)[j]
        == rendered_image(nx, ny, cw, ch, max_iter, egrids)[j] by {
        lemma_byte_index(nx, ny, j);
        let px = (j / 3) % nx;
        let py = (j / 3) / nx;
        let k = j % 3;
        lemma_pixel_cell(nx, ny, cw, ch, px, py);
        let i = chunk_index_of(nx, ny, cw, ch, px, py);
        assert(escape_grid_shape_ok(nx, ny, cw, ch, egrids, i));
        let cx = (px / cw) * cw;
        let cy = (py / ch) * ch;
        let w = chunk_width_at(nx, ny, cw, ch, i);
        let local = (py - cy) * w + (px - cx);
        assert(cgrids[i][3 * local + k] == channel_of(
            palette_color(egrids[i][local], max_iter),
            k,
        ));
    }
    assert(assembled_image(nx, ny, cw, ch, cgrids) =~= rendered_image(
        nx,
        ny,
        cw,
        ch,
        max_iter,
        egrids,
    ));
}

/// Renders the chunked escape grids of an `npix_x` by `npix_y` view into
/// the final pixel buffer. Succeeds exactly on a valid request whose
/// buffer fits in memory and whose grids match the chunks; each failure is
/// reported before any pixel is produced.
#[verifier::loop_isolation(false)]
pub fn render_grids(
    npix_x: usize,
    npix_y: usize,
    chunk_w: usize,
    chunk_h: usize,
    max_iter: u16,
    escape_grids: &Vec<Vec<u16>>,
) -> (r: Result<Vec<u8>, EngineError>)
    ensures
        !request_valid(npix_x as int, npix_y as int, chunk_w as int, chunk_h as int, max_iter)
            ==> r == Result::<Vec<u8>, EngineError>::Err(EngineError::InvalidRequest),
        request_valid(npix_x as int, npix_y as int, chunk_w as int, chunk_h as int, max_iter)
            && !buffer_fits(npix_x as int, npix_y as int) ==> r == Result::<
            Vec<u8>,
            EngineError,
        >::Err(EngineError::AllocationFailure),
        request_valid(npix_x as int, npix_y as int, chunk_w as int, chunk_h as int, max_iter)
            && buffer_fits(npix_x as int, npix_y as int) && !escape_grids_well_shaped(
            npix_x as int,
            npix_y as int,
            chunk_w as int,
            chunk_h as int,
            grid_views(escape_grids@),
        ) ==> r == Result::<Vec<u8>, EngineError>::Err(EngineError::AssemblyMismatch),
        request_valid(npix_x as int, npix_y as int, chunk_w as int, chunk_h as int, max_iter)
            && buffer_fits(npix_x as int, npix_y as int) && escape_grids_well_shaped(
            npix_x as int,
            npix_y as int,
            chunk_w as int,
            chunk_h as int,
            grid_views(escape_grids@),
        ) ==> {
            &&& r is Ok
            &&& r.unwrap()@ == rendered_image(
                npix_x as int,
                npix_y as int,
                chunk_w as int,
                chunk_h as int,
                max_iter,
                grid_views(escape_grids@),
            )
        },
        r is Ok ==> r.unwrap()@.len() == 3 * (npix_x as int * npix_y as int),
{
    if npix_x == 0 || npix_y == 0 || chunk_w == 0 || chunk_h == 0 || max_iter == 0 {
        return Err(EngineError::InvalidRequest);
    }
    let total: usize = match npix_x.checked_mul(npix_y) {
        Some(t) => t,
        None => {
            return Err(EngineError::AllocationFailure);
        },
    };
    if total > usize::MAX / 3 {
        return Err(EngineError::AllocationFailure);
    }
    let ghost nxi = npix_x as int;
    let ghost nyi = npix_y as int;
    let ghost cwi = chunk_w as int;
    let ghost chi = chunk_h as int;
    proof {
        assert(3 * (nxi * nyi) <= usize::MAX) by {
            assert(nxi * nyi <= usize::MAX as int / 3);
        };
    }
    let chunks = get_chunk_corners(npix_x, npix_y, chunk_w, chunk_h);
    if escape_grids.len() != chunks.len() {
        return Err(EngineError::AssemblyMismatch);
    }
    let mut colored_grids: Vec<Vec<u8>> = Vec::new();
    let mut i: usize = 0;
    while i < chunks.len()
        invariant
            i <= chunks@.len(),
            colored_grids@.len() == i,
            forall|t: int|
                0 <= t < i ==> #[trigger] escape_grid_shape_ok(
                    nxi,
                    nyi,
                    cwi,
                    chi,
                    grid_views(escape_grids@),
                    t,
                ),
            forall|t: int|
                0 <= t < i ==> (#[trigger] colored_grids@[t])@ == colored(
                    escape_grids@[t]@,
                    max_iter,
                ),
        decreases chunks@.len() - i,
    {
        let c = chunks[i];
        proof {
            assert(chunk_entry_matches(chunks@[i as int], nxi, nyi, cwi, chi, i as int));
            lemma_mul_upper_bound(c.width as int, nxi, c.height as int, nyi);
        }
        let area: usize = c.width * c.height;
        let g = &escape_grids[i];
        if g.len() != area {
            proof {
                assert(!escape_grid_shape_ok(
                    nxi,
                    nyi,
                    cwi,
                    chi,
                    grid_views(escape_grids@),
                    i as int,
                ));
            }
            return Err(EngineError::AssemblyMismatch);
        }
        let cg = color_escape_time_array(g, max_iter);
        colored_grids.push(cg);
        proof {
            assert(escape_grid_shape_ok(nxi, nyi, cwi, chi, grid_views(escape_grids@), i as int));
        }
        i = i + 1;
    }
    proof {
        assert forall|t: int| 0 <= t < escape_grids@.len() implies #[trigger] grid_views(
            colored_grids@,
        )[t] == colored(grid_views(escape_grids@)[t], max_iter) by {
            assert(grid_views(colored_grids@)[t] == colored_grids@[t]@);
            assert(grid_views(escape_grids@)[t] == escape_grids@[t]@);
        }
        lemma_colored_assembles_to_render(
            nxi,
            nyi,
            cwi,
            chi,
            max_iter,
            grid_views(escape_grids@),
            grid_views(colored_grids@),
        );
    }
    assemble(npix_x, npix_y, chunk_w, chunk_h, &chunks, &colored_grids)
}

} // verus!
