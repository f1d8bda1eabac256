//! Partitioning the output raster into rectangular chunks.
//!
//! The raster is cut into a deterministic, column-major list of chunks of a
//! requested size; chunks on the right and bottom edge are clipped to the
//! image bound. Every pixel of the raster belongs to exactly one chunk.

use vstd::prelude::*;
use vstd::arithmetic::div_mod::{
    lemma_div_is_ordered, lemma_div_pos_is_pos, lemma_fundamental_div_mod,
    lemma_fundamental_div_mod_converse, lemma_mod_bound,
};
use vstd::arithmetic::mul::{
    lemma_mul_inequality, lemma_mul_is_commutative, lemma_mul_is_distributive_add_other_way,
    lemma_mul_nonnegative,
};

verus! {

/// A rectangular chunk of the raster. `x` and `y` are the chunk's top-left
/// corner in pixel coordinates; `width` and `height` are already clipped to
/// the image bound, so `x + width` and `y + height` never exceed the image
/// dimensions.
#[derive(Clone, Copy, Debug, PartialEq, Eq, Structural)]
pub struct Chunk {
    pub x: usize,
    pub y: usize,
    pub width: usize,
    pub height: usize,
}

/// How many chunks an axis of `len` pixels yields when cut into pieces of
/// `size` pixels: the last piece may be shorter but is never omitted.
pub open spec fn chunks_across(len: int, size: int) -> int
    recommends
        0 < len,
        0 < size,
{
    (len - 1) / size + 1
}

/// How many chunks the whole raster yields.
pub open spec fn num_chunks(nx: int, ny: int, cw: int, ch: int) -> int {
    chunks_across(nx, cw) * chunks_across(ny, ch)
}

/// The horizontal start of the chunk at position `i` of the column-major
/// chunk list.
pub open spec fn chunk_x_at(ny: int, cw: int, ch: int, i: int) -> int {
    (i / chunks_across(ny, ch)) * cw
}

/// The vertical start of the chunk at position `i`.
pub open spec fn chunk_y_at(ny: int, ch: int, i: int) -> int {
    (i % chunks_across(ny, ch)) * ch
}

/// The clipped width of the chunk at position `i`.
pub open spec fn chunk_width_at(nx: int, ny: int, cw: int, ch: int, i: int) -> int {
    let cx = chunk_x_at(ny, cw, ch, i);
    if cw <= nx - cx {
        cw
    } else {
        nx - cx
    }
}

/// The clipped height of the chunk at position `i`.
pub open spec fn chunk_height_at(ny: int, ch: int, i: int) -> int {
    let cy = chunk_y_at(ny, ch, i);
    if ch <= ny - cy {
        ch
    } else {
        ny - cy
    }
}

/// What the chunk at position `i` of the column-major chunk list must be:
/// column `i / rows`, row `i % rows`, with width and height clipped at the
/// image bound.
pub open spec fn chunk_entry_matches(c: Chunk, nx: int, ny: int, cw: int, ch: int, i: int) -> bool {
    &&& c.x == chunk_x_at(ny, cw, ch, i)
    &&& c.y == chunk_y_at(ny, ch, i)
    &&& c.width == chunk_width_at(nx, ny, cw, ch, i)
    &&& c.height == chunk_height_at(ny, ch, i)
}

/// The deterministic column-major chunk list of the raster: all chunks of
/// the leftmost column top to bottom, then the next column, and so on.
pub open spec fn is_chunk_list(chunks: Seq<Chunk>, nx: int, ny: int, cw: int, ch: int) -> bool {
    &&& chunks.len() == num_chunks(nx, ny, cw, ch)
    &&& forall|i: int|
        0 <= i < chunks.len() ==> chunk_entry_matches(#[trigger] chunks[i], nx, ny, cw, ch, i)
}

/// Whether pixel `(px, py)` lies inside chunk `c`.
pub open spec fn chunk_contains(c: Chunk, px: int, py: int) -> bool {
    &&& c.x <= px < c.x + c.width
    &&& c.y <= py < c.y + c.height
}

/// The position in the column-major chunk list of the chunk that covers
/// pixel `(px, py)`.
pub open spec fn chunk_index_of(nx: int, ny: int, cw: int, ch: int, px: int, py: int) -> int {
    (px / cw) * chunks_across(ny, ch) + py / ch
}

/// On an axis of `n` pixels cut into pieces of `size`, the piece index of
/// coordinate `p` is in range and its piece covers `p`.
pub(crate) proof fn lemma_axis_piece(p: int, n: int, size: int)
    requires
        0 <= p < n,
        0 < size,
    ensures
        0 <= p / size < chunks_across(n, size),
        (p / size) * size <= p < (p / size) * size + size,
{
    lemma_div_pos_is_pos(p, size);
    lemma_div_is_ordered(p, n - 1, size);
    lemma_fundamental_div_mod(p, size);
    lemma_mod_bound(p, size);
}

/// A piece that covers coordinate `p` is the piece `p / size`.
pub(crate) proof fn lemma_axis_piece_unique(p: int, size: int, q: int)
    requires
        0 < size,
        q * size <= p < q * size + size,
    ensures
        q == p / size,
{
    lemma_fundamental_div_mod_converse(p, size, q, p - q * size);
}

/// Column `col` and row `row` meet at list position `col * rows + row`,
/// which is in range and decomposes back into the same column and row.
pub(crate) proof fn lemma_chunk_index(col: int, row: int, cols: int, rows: int)
    requires
        0 <= col < cols,
        0 <= row < rows,
    ensures
        0 <= col * rows + row < cols * rows,
        (col * rows + row) / rows == col,
        (col * rows + row) % rows == row,
{
    lemma_fundamental_div_mod_converse(col * rows + row, rows, col, row);
    lemma_mul_nonnegative(col, rows);
    lemma_mul_inequality(col, cols - 1, rows);
    lemma_mul_is_distributive_add_other_way(rows, cols - 1, 1);
}

/// The chunk list partitions the raster: every pixel of the raster lies in
/// the chunk at its index, and in no other chunk. Together the two clauses
/// say that the chunks cover the raster with no gap and no overlap.
pub proof fn lemma_chunks_partition(chunks: Seq<Chunk>, nx: int, ny: int, cw: int, ch: int)
    requires
        0 < nx,
        0 < ny,
        0 < cw,
        0 < ch,
        is_chunk_list(chunks, nx, ny, cw, ch),
    ensures
        forall|px: int, py: int|
            0 <= px < nx && 0 <= py < ny ==> {
                let i = #[trigger] chunk_index_of(nx, ny, cw, ch, px, py);
                &&& 0 <= i < chunks.len()
                &&& chunk_contains(chunks[i], px, py)
            },
        forall|px: int, py: int, j: int|
            0 <= j < chunks.len() && #[trigger] chunk_contains(chunks[j], px, py) ==> j
                == chunk_index_of(nx, ny, cw, ch, px, py),
{
    let cols = chunks_across(nx, cw);
    let rows = chunks_across(ny, ch);
    assert forall|px: int, py: int| 0 <= px < nx && 0 <= py < ny implies {
        let i = #[trigger] chunk_index_of(nx, ny, cw, ch, px, py);
        &&& 0 <= i < chunks.len()
        &&& chunk_contains(chunks[i], px, py)
    } by {
        lemma_axis_piece(px, nx, cw);
        lemma_axis_piece(py, ny, ch);
        lemma_chunk_index(px / cw, py / ch, cols, rows);
        let i = chunk_index_of(nx, ny, cw, ch, px, py);
        assert(chunk_entry_matches(chunks[i], nx, ny, cw, ch, i));
    }
    assert forall|px: int, py: int, j: int|
        0 <= j < chunks.len() && #[trigger] chunk_contains(chunks[j], px, py) implies j
        == chunk_index_of(nx, ny, cw, ch, px, py) by {
        assert(chunk_entry_matches(chunks[j], nx, ny, cw, ch, j));
        lemma_div_pos_is_pos(j, rows);
        lemma_mod_bound(j, rows);
        lemma_axis_piece_unique(px, cw, j / rows);
        lemma_axis_piece_unique(py, ch, j % rows);
        lemma_fundamental_div_mod(j, rows);
        lemma_mul_is_commutative(rows, j / rows);
        assert(j == (px / cw) * rows + py / ch);
    }
}

/// For a pixel of the raster, the chunk at the pixel's list index covers
/// the pixel, and that chunk's recorded geometry agrees with the geometry
/// computed from the pixel's own coordinates.
pub proof fn lemma_pixel_chunk(chunks: Seq<Chunk>, nx: int, ny: int, cw: int, ch: int, px: int, py: int)
    requires
        0 < nx,
        0 < ny,
        0 < cw,
        0 < ch,
        is_chunk_list(chunks, nx, ny, cw, ch),
        0 <= px < nx,
        0 <= py < ny,
    ensures
        0 <= chunk_index_of(nx, ny, cw, ch, px, py) < chunks.len(),
        chunk_contains(chunks[chunk_index_of(nx, ny, cw, ch, px, py)], px, py),
        chunks[chunk_index_of(nx, ny, cw, ch, px, py)].x == (px / cw) * cw,
        chunks[chunk_index_of(nx, ny, cw, ch, px, py)].y == (py / ch) * ch,
        chunks[chunk_index_of(nx, ny, cw, ch, px, py)].width == (
        if cw <= nx - (px / cw) * cw {
            cw
        } else {
            nx - (px / cw) * cw
        }),
        chunks[chunk_index_of(nx, ny, cw, ch, px, py)].height == (
        if ch <= ny - (py / ch) * ch {
            ch
        } else {
            ny - (py / ch) * ch
        }),
{
    lemma_axis_piece(px, nx, cw);
    lemma_axis_piece(py, ny, ch);
    lemma_chunk_index(px / cw, py / ch, chunks_across(nx, cw), chunks_across(ny, ch));
    let i = chunk_index_of(nx, ny, cw, ch, px, py);
    assert(chunk_entry_matches(chunks[i], nx, ny, cw, ch, i));
}

/// Produces the column-major chunk list of an `npix_x` by `npix_y` raster
/// cut into chunks of at most `chunk_w` by `chunk_h` pixels.
#[verifier::loop_isolation(false)]
pub fn get_chunk_corners(npix_x: usize, npix_y: usize, chunk_w: usize, chunk_h: usize) -> (r: Vec<
    Chunk,
>)
    requires
        0 < npix_x,
        0 < npix_y,
        0 < chunk_w,
        0 < chunk_h,
    ensures
        is_chunk_list(r@, npix_x as int, npix_y as int, chunk_w as int, chunk_h as int),
{
    let nx = npix_x;
    let ny = npix_y;
    let cols: usize = (nx - 1) / chunk_w + 1;
    let rows: usize = (ny - 1) / chunk_h + 1;
    let mut result: Vec<Chunk> = Vec::new();
    let mut col: usize = 0;
    while col < cols
        invariant
            col <= cols,
            result@.len() == col * rows,
            forall|i: int|
                0 <= i < result@.len() ==> chunk_entry_matches(
                    #[trigger] result@[i],
                    nx as int,
                    ny as int,
                    chunk_w as int,
                    chunk_h as int,
                    i,
                ),
        decreases cols - col,
    {
        proof {
            lemma_fundamental_div_mod(nx as int - 1, chunk_w as int);
            lemma_mod_bound(nx as int - 1, chunk_w as int);
            lemma_mul_is_commutative(chunk_w as int, (nx as int - 1) / (chunk_w as int));
            lemma_mul_inequality(col as int, cols as int - 1, chunk_w as int);
            assert(col as int * chunk_w as int <= nx as int - 1);
        }
        let x = col * chunk_w;
        let width = if chunk_w <= nx - x {
            chunk_w
        } else {
            nx - x
        };
        let mut row: usize = 0;
        while row < rows
            invariant
                row <= rows,
                result@.len() == col * rows + row,
                x == col * chunk_w,
                x < nx,
                width == if chunk_w as int <= nx - x {
                    chunk_w as int
                } else {
                    nx - x
                },
                forall|i: int|
                    0 <= i < result@.len() ==> chunk_entry_matches(
                        #[trigger] result@[i],
                        nx as int,
                        ny as int,
                        chunk_w as int,
                        chunk_h as int,
                        i,
                    ),
            decreases rows - row,
        {
            proof {
                lemma_fundamental_div_mod(ny as int - 1, chunk_h as int);
                lemma_mod_bound(ny as int - 1, chunk_h as int);
                lemma_mul_is_commutative(chunk_h as int, (ny as int - 1) / (chunk_h as int));
                lemma_mul_inequality(row as int, rows as int - 1, chunk_h as int);
                assert(row as int * chunk_h as int <= ny as int - 1);
            }
            let y = row * chunk_h;
            let height = if chunk_h <= ny - y {
                chunk_h
            } else {
                ny - y
            };
            result.push(Chunk { x, y, width, height });
            proof {
                lemma_chunk_index(col as int, row as int, cols as int, rows as int);
                assert(chunk_entry_matches(
                    result@[col as int * rows as int + row as int],
                    nx as int,
                    ny as int,
                    chunk_w as int,
                    chunk_h as int,
                    col as int * rows as int + row as int,
                ));
            }
            row = row + 1;
        }
        proof {
            lemma_mul_is_distributive_add_other_way(rows as int, col as int, 1);
        }
        col = col + 1;
    }
    result
}

} // verus!
