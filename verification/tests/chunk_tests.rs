use mandelbrot::chunks::{get_chunk_corners, Chunk};

#[test]
fn chunks_exact_division() {
    let chunks = get_chunk_corners(64, 64, 32, 32);
    assert_eq!(chunks.len(), 4);
    // Column-major: first column top to bottom, then the next column.
    assert_eq!(chunks[0], Chunk { x: 0, y: 0, width: 32, height: 32 });
    assert_eq!(chunks[1], Chunk { x: 0, y: 32, width: 32, height: 32 });
    assert_eq!(chunks[2], Chunk { x: 32, y: 0, width: 32, height: 32 });
    assert_eq!(chunks[3], Chunk { x: 32, y: 32, width: 32, height: 32 });
}

#[test]
fn chunks_clipped_edges() {
    let chunks = get_chunk_corners(100, 100, 32, 32);
    assert_eq!(chunks.len(), 16);
    for (i, c) in chunks.iter().enumerate() {
        let col = i / 4;
        let row = i % 4;
        assert_eq!(c.x, col * 32);
        assert_eq!(c.y, row * 32);
        assert_eq!(c.width, if col == 3 { 4 } else { 32 });
        assert_eq!(c.height, if row == 3 { 4 } else { 32 });
        assert!(c.x + c.width <= 100);
        assert!(c.y + c.height <= 100);
    }
}

#[test]
fn chunks_degenerate_single_chunk() {
    // A requested chunk size at least the image size yields one chunk that
    // is the whole image.
    let chunks = get_chunk_corners(50, 40, 64, 64);
    assert_eq!(chunks.len(), 1);
    assert_eq!(chunks[0], Chunk { x: 0, y: 0, width: 50, height: 40 });
}

#[test]
fn chunks_unit_size_order() {
    let chunks = get_chunk_corners(3, 2, 1, 1);
    let expected = [(0, 0), (0, 1), (1, 0), (1, 1), (2, 0), (2, 1)];
    assert_eq!(chunks.len(), expected.len());
    for (c, (x, y)) in chunks.iter().zip(expected.iter()) {
        assert_eq!((c.x, c.y), (*x, *y));
        assert_eq!((c.width, c.height), (1, 1));
    }
}

#[test]
fn chunks_partition_every_pixel_once() {
    // The union of the chunks covers the raster with no overlap and no gap.
    let (nx, ny) = (10usize, 7usize);
    let chunks = get_chunk_corners(nx, ny, 3, 2);
    let mut covered = vec![0u32; nx * ny];
    for c in chunks.iter() {
        for ly in 0..c.height {
            for lx in 0..c.width {
                covered[(c.y + ly) * nx + (c.x + lx)] += 1;
            }
        }
    }
    assert!(covered.iter().all(|&n| n == 1));
}
