use mandelbrot::palette::{color_escape_time_array, palette, palette_rgb};

const TABLE: [(u8, u8, u8); 16] = [
    (66, 30, 15),
    (25, 7, 26),
    (9, 1, 47),
    (4, 4, 73),
    (0, 7, 100),
    (12, 44, 138),
    (24, 82, 177),
    (57, 125, 209),
    (134, 181, 229),
    (211, 236, 248),
    (241, 233, 191),
    (248, 201, 95),
    (255, 170, 0),
    (204, 128, 0),
    (153, 87, 0),
    (106, 52, 3),
];

#[test]
fn palette_sentinels_are_black() {
    assert_eq!(palette_rgb(0, 256), (0, 0, 0));
    assert_eq!(palette_rgb(256, 256), (0, 0, 0));
    assert_eq!(palette_rgb(0, 1), (0, 0, 0));
    assert_eq!(palette_rgb(1, 1), (0, 0, 0));
    for channel in 0..3 {
        assert_eq!(palette(0, channel, 4096), 0);
        assert_eq!(palette(4096, channel, 4096), 0);
    }
}

#[test]
fn palette_cycles_through_table() {
    // Every counter strictly between the sentinels is colored by its value
    // modulo 16.
    let max_iter: u16 = 256;
    for v in 1..max_iter {
        let expected = TABLE[(v % 16) as usize];
        assert_eq!(palette_rgb(v, max_iter), expected);
        assert_eq!(palette(v, 0, max_iter), expected.0);
        assert_eq!(palette(v, 1, max_iter), expected.1);
        assert_eq!(palette(v, 2, max_iter), expected.2);
    }
}

#[test]
fn palette_exact_entries() {
    assert_eq!(palette_rgb(1, 256), (25, 7, 26));
    assert_eq!(palette_rgb(15, 256), (106, 52, 3));
    assert_eq!(palette_rgb(16, 256), (66, 30, 15));
    assert_eq!(palette_rgb(17, 256), (25, 7, 26));
    assert_eq!(palette_rgb(12, 256), (255, 170, 0));
}

#[test]
fn color_array_three_bytes_per_counter() {
    let values: Vec<u16> = vec![0, 1, 2, 300];
    let colored = color_escape_time_array(&values, 300);
    assert_eq!(colored.len(), 12);
    assert_eq!(&colored[0..3], &[0, 0, 0]);
    assert_eq!(&colored[3..6], &[25, 7, 26]);
    assert_eq!(&colored[6..9], &[9, 1, 47]);
    assert_eq!(&colored[9..12], &[0, 0, 0]);
}

#[test]
fn color_array_empty() {
    let values: Vec<u16> = Vec::new();
    assert_eq!(color_escape_time_array(&values, 100).len(), 0);
}
