use mandelbrot::raster::{render, shade, ESCAPE_LIMIT};

#[test]
fn shade_of_escape_counts() {
    assert_eq!(shade(Some(0)), 255);
    assert_eq!(shade(Some(1)), 254);
    assert_eq!(shade(Some(100)), 155);
    assert_eq!(shade(Some(ESCAPE_LIMIT - 1)), 1);
    assert_eq!(shade(None), 0);
}

#[test]
fn render_fills_row_major() {
    let mut pixels = vec![7u8; 6];
    render(&mut pixels, (3, 2), |col, row| Some(10 * row + col));
    assert_eq!(pixels, vec![255, 254, 253, 245, 244, 243]);
}

#[test]
fn render_leaves_black_only_where_no_escape() {
    let mut pixels = vec![9u8; 12];
    render(&mut pixels, (4, 3), |col, row| if col == row { None } else { Some(col + row) });
    for (i, &value) in pixels.iter().enumerate() {
        let (col, row) = (i % 4, i / 4);
        if col == row {
            assert_eq!(value, 0);
        } else {
            assert_eq!(value, 255 - (col + row) as u8);
        }
    }
}

#[test]
fn render_writes_every_entry() {
    let mut pixels = vec![0u8; 20];
    render(&mut pixels, (5, 4), |_, _| Some(0));
    assert!(pixels.iter().all(|&v| v == 255));
}

#[test]
fn render_is_deterministic() {
    let eval = |col: usize, row: usize| if (col * 7 + row * 3) % 5 == 0 { None } else { Some((col * row) % 200) };
    let mut first = vec![0u8; 64 * 48];
    let mut second = vec![1u8; 64 * 48];
    render(&mut first, (64, 48), eval);
    render(&mut second, (64, 48), eval);
    assert_eq!(first, second);
}

#[test]
fn render_of_empty_buffer() {
    let mut pixels: Vec<u8> = vec![];
    render(&mut pixels, (0, 5), |_, _| None);
    assert!(pixels.is_empty());
}
