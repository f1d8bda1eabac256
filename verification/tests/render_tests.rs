use mandelbrot::assemble::assemble;
use mandelbrot::chunks::get_chunk_corners;
use mandelbrot::errors::EngineError;
use mandelbrot::render::{render_grids, split_escape_map};

const TABLE: [(u8, u8, u8); 16] = [
    (66, 30, 15),
    (25, 7, 26),
    (9, 1, 47),
    (4, 4, 73),
    (0, 7, 100),
    (12, 44, 138),
    (24, 82, 177),
    (57, 125, 209),
    (134, 181, 229),
    (211, 236, 248),
    (241, 233, 191),
    (248, 201, 95),
    (255, 170, 0),
    (204, 128, 0),
    (153, 87, 0),
    (106, 52, 3),
];

/// The escape-time recurrence with the two analytic interior pre-tests,
/// evaluated exactly as the engine's callers evaluate it.
fn escape_time(re: f64, im: f64, max_iter: u16) -> u16 {
    let x0 = re;
    let y0 = im;
    let mut x_prime = x0 - 0.25;
    let y_prime = y0 * y0;
    let q = x_prime * x_prime + y_prime;
    if q * (q + x_prime) <= 0.25 * y_prime {
        return max_iter;
    }
    x_prime = x0 + 1.0;
    if x_prime * x_prime + y_prime <= 0.0625 {
        return max_iter;
    }
    let mut x = 0.0;
    let mut y = 0.0;
    let mut x2 = 0.0;
    let mut y2 = 0.0;
    let mut ctr: u16 = 0;
    while ctr < max_iter && x2 + y2 < 4.0 {
        ctr += 1;
        y = (x + x) * y + y0;
        x = x2 - y2 + x0;
        x2 = x * x;
        y2 = y * y;
    }
    ctr
}

/// One escape grid per chunk, each row-major within its chunk, evaluated
/// from the view's coordinate mapping.
fn chunked_escape_grids(
    nx: usize,
    ny: usize,
    cw: usize,
    ch: usize,
    center: (f64, f64),
    plane_width: f64,
    max_iter: u16,
) -> Vec<Vec<u16>> {
    let chunks = get_chunk_corners(nx, ny, cw, ch);
    let scale = plane_width / nx as f64;
    let corner_re = center.0 - (nx as f64 / 2.0) * scale;
    let corner_im = center.1 - (ny as f64 / 2.0) * scale;
    chunks
        .iter()
        .map(|c| {
            let mut g = Vec::with_capacity(c.width * c.height);
            for ly in 0..c.height {
                for lx in 0..c.width {
                    let px = c.x + lx;
                    let py = c.y + ly;
                    g.push(escape_time(
                        corner_re + px as f64 * scale,
                        corner_im + py as f64 * scale,
                        max_iter,
                    ));
                }
            }
            g
        })
        .collect()
}

#[test]
fn split_map_chunks_row_major() {
    // A 4 by 3 map cut into 3 by 2 chunks: four chunks in column-major
    // order, each grid row-major within its chunk.
    let e: Vec<u16> = (0..12).collect();
    let grids = split_escape_map(4, 3, 3, 2, &e);
    assert_eq!(
        grids,
        vec![vec![0, 1, 2, 4, 5, 6], vec![8, 9, 10], vec![3, 7], vec![11]]
    );
}

#[test]
fn assemble_two_columns() {
    let chunks = get_chunk_corners(2, 1, 1, 1);
    let grids = vec![vec![1, 2, 3], vec![4, 5, 6]];
    let buf = assemble(2, 1, 1, 1, &chunks, &grids).unwrap();
    assert_eq!(buf, vec![1, 2, 3, 4, 5, 6]);
}

#[test]
fn assemble_interleaves_column_chunks() {
    // Two 1-wide, 2-tall chunks: their rows interleave in the row-major
    // output.
    let chunks = get_chunk_corners(2, 2, 1, 2);
    let grids = vec![vec![1, 2, 3, 7, 8, 9], vec![4, 5, 6, 10, 11, 12]];
    let buf = assemble(2, 2, 1, 2, &chunks, &grids).unwrap();
    assert_eq!(buf, vec![1, 2, 3, 4, 5, 6, 7, 8, 9, 10, 11, 12]);
}

#[test]
fn assemble_rejects_misshapen_grid() {
    let chunks = get_chunk_corners(2, 1, 1, 1);
    let grids = vec![vec![1, 2, 3], vec![4, 5]];
    assert_eq!(
        assemble(2, 1, 1, 1, &chunks, &grids),
        Err(EngineError::AssemblyMismatch)
    );
}

#[test]
fn render_rejects_zero_dimension() {
    let no_grids: Vec<Vec<u16>> = Vec::new();
    assert_eq!(
        render_grids(0, 10, 32, 32, 100, &no_grids),
        Err(EngineError::InvalidRequest)
    );
    assert_eq!(
        render_grids(10, 0, 32, 32, 100, &no_grids),
        Err(EngineError::InvalidRequest)
    );
    assert_eq!(
        render_grids(10, 10, 0, 32, 100, &no_grids),
        Err(EngineError::InvalidRequest)
    );
    assert_eq!(
        render_grids(10, 10, 32, 0, 100, &no_grids),
        Err(EngineError::InvalidRequest)
    );
    assert_eq!(
        render_grids(10, 10, 32, 32, 0, &no_grids),
        Err(EngineError::InvalidRequest)
    );
}

#[test]
fn render_rejects_oversized_buffer() {
    let no_grids: Vec<Vec<u16>> = Vec::new();
    assert_eq!(
        render_grids(usize::MAX, usize::MAX, 32, 32, 100, &no_grids),
        Err(EngineError::AllocationFailure)
    );
    assert_eq!(
        render_grids(usize::MAX / 2, 1, 32, 32, 100, &no_grids),
        Err(EngineError::AllocationFailure)
    );
}

#[test]
fn render_rejects_wrong_grid_count() {
    let no_grids: Vec<Vec<u16>> = Vec::new();
    assert_eq!(
        render_grids(4, 4, 2, 2, 10, &no_grids),
        Err(EngineError::AssemblyMismatch)
    );
}

#[test]
fn render_rejects_wrong_grid_shape() {
    let grids = vec![vec![0u16; 3], vec![0u16; 4], vec![0u16; 4], vec![0u16; 4]];
    assert_eq!(
        render_grids(4, 4, 2, 2, 10, &grids),
        Err(EngineError::AssemblyMismatch)
    );
}

#[test]
fn render_single_chunk_exact_colors() {
    let grids = vec![vec![0u16, 1, 5, 10]];
    let buf = render_grids(2, 2, 2, 2, 10, &grids).unwrap();
    assert_eq!(buf.len(), 12);
    assert_eq!(&buf[0..3], &[0, 0, 0]);
    let c1 = TABLE[1];
    assert_eq!(&buf[3..6], &[c1.0, c1.1, c1.2]);
    let c5 = TABLE[5];
    assert_eq!(&buf[6..9], &[c5.0, c5.1, c5.2]);
    assert_eq!(&buf[9..12], &[0, 0, 0]);
}

#[test]
fn render_chunking_does_not_alter_output() {
    // The same escape map, cut into chunks of different sizes, renders to
    // an identical buffer.
    let (nx, ny) = (10usize, 8usize);
    let max_iter: u16 = 50;
    let e: Vec<u16> = (0..nx * ny).map(|i| ((i * 7 + 3) % 51) as u16).collect();
    let full =
        render_grids(nx, ny, nx, ny, max_iter, &split_escape_map(nx, ny, nx, ny, &e)).unwrap();
    for (cw, ch) in [(1, 1), (3, 3), (4, 2), (7, 5), (10, 1)] {
        let buf =
            render_grids(nx, ny, cw, ch, max_iter, &split_escape_map(nx, ny, cw, ch, &e)).unwrap();
        assert_eq!(buf, full);
    }
}

#[test]
fn render_mirrored_map_gives_mirrored_image() {
    let (nx, ny) = (5usize, 4usize);
    let max_iter: u16 = 20;
    let mut e = vec![0u16; nx * ny];
    for py in 0..ny {
        for px in 0..nx {
            let folded = if py < ny - 1 - py { py } else { ny - 1 - py };
            e[py * nx + px] = ((px + folded * 3) % 21) as u16;
        }
    }
    let buf = render_grids(nx, ny, 2, 3, max_iter, &split_escape_map(nx, ny, 2, 3, &e)).unwrap();
    for py in 0..ny {
        for px in 0..nx {
            for k in 0..3 {
                assert_eq!(
                    buf[3 * (py * nx + px) + k],
                    buf[3 * ((ny - 1 - py) * nx + px) + k]
                );
            }
        }
    }
}

#[test]
fn render_real_axis_view_end_to_end() {
    // A 100 by 100 view of the set, centered at (-0.75, 0) with a plane
    // width of 5: the center pixel lies in the main cardioid and is black;
    // the top-left pixel maps near (-3.25, -2.5), escapes on the first
    // iteration, and carries a non-black palette color.
    let (nx, ny) = (100usize, 100usize);
    let max_iter: u16 = 256;
    let grids = chunked_escape_grids(nx, ny, 32, 32, (-0.75, 0.0), 5.0, max_iter);
    let buf = render_grids(nx, ny, 32, 32, max_iter, &grids).unwrap();
    assert_eq!(buf.len(), 30000);
    let center = 3 * (50 * nx + 50);
    assert_eq!(&buf[center..center + 3], &[0, 0, 0]);
    let c1 = TABLE[1];
    assert_eq!(&buf[0..3], &[c1.0, c1.1, c1.2]);
    assert_ne!(&buf[0..3], &[0, 0, 0]);
}

#[test]
fn render_real_axis_view_is_symmetric() {
    // A view centered on the real axis renders mirror-symmetrically,
    // because the escape-time recurrence commutes with conjugation. The
    // corner-based mapping samples row `py` at imaginary part
    // `(py - ny/2) * scale`, so rows pair as `py` with `ny - py` and the
    // topmost row has no partner. A power-of-two scale keeps every sample
    // coordinate exact, so paired rows see exactly conjugate points.
    let (nx, ny) = (64usize, 48usize);
    let max_iter: u16 = 64;
    let grids = chunked_escape_grids(nx, ny, 16, 16, (-0.5, 0.0), 4.0, max_iter);
    let buf = render_grids(nx, ny, 16, 16, max_iter, &grids).unwrap();
    for py in 1..ny {
        for px in 0..nx {
            for k in 0..3 {
                assert_eq!(
                    buf[3 * (py * nx + px) + k],
                    buf[3 * ((ny - py) * nx + px) + k]
                );
            }
        }
    }
}
