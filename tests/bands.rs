use mandelbrot::bands::{plan_bands, rows_per_band, Band};

fn covers_each_row_once(height: usize, workers: usize) {
    let bands = plan_bands(height, workers);
    assert!(bands.len() <= workers);
    let mut seen = vec![0usize; height];
    let mut next_top = 0usize;
    for band in &bands {
        assert!(band.rows > 0);
        assert_eq!(band.top, next_top);
        for row in band.top..band.top + band.rows {
            seen[row] += 1;
        }
        next_top = band.top + band.rows;
    }
    assert_eq!(next_top, height);
    assert!(seen.iter().all(|&n| n == 1));
}

#[test]
fn rows_per_band_rounds_up() {
    assert_eq!(rows_per_band(750, 8), 94);
    assert_eq!(rows_per_band(800, 8), 100);
    assert_eq!(rows_per_band(3, 8), 1);
    assert_eq!(rows_per_band(0, 8), 0);
}

#[test]
fn bands_when_height_divides_evenly() {
    assert_eq!(
        plan_bands(8, 4),
        vec![
            Band { top: 0, rows: 2 },
            Band { top: 2, rows: 2 },
            Band { top: 4, rows: 2 },
            Band { top: 6, rows: 2 },
        ]
    );
}

#[test]
fn last_band_is_shorter_when_height_does_not_divide() {
    assert_eq!(
        plan_bands(10, 3),
        vec![
            Band { top: 0, rows: 4 },
            Band { top: 4, rows: 4 },
            Band { top: 8, rows: 2 },
        ]
    );
}

#[test]
fn fewer_rows_than_workers() {
    assert_eq!(
        plan_bands(3, 8),
        vec![
            Band { top: 0, rows: 1 },
            Band { top: 1, rows: 1 },
            Band { top: 2, rows: 1 },
        ]
    );
}

#[test]
fn empty_image_has_no_bands() {
    assert_eq!(plan_bands(0, 8), vec![]);
}

#[test]
fn single_worker_takes_whole_image() {
    assert_eq!(plan_bands(750, 1), vec![Band { top: 0, rows: 750 }]);
}

#[test]
fn bands_cover_every_row_exactly_once() {
    for height in 0..40 {
        for workers in 1..12 {
            covers_each_row_once(height, workers);
        }
    }
    covers_each_row_once(750, 8);
}

#[test]
fn band_corner_pixels() {
    let band = Band { top: 94, rows: 94 };
    assert_eq!(band.upper_left_pixel(), (0, 94));
    assert_eq!(band.lower_right_pixel(1000), (1000, 188));
    assert_eq!(band.bounds(1000), (1000, 94));
}

#[test]
fn band_ranges_match_buffer_chunks() {
    let (width, height, workers) = (7usize, 23usize, 4usize);
    let bands = plan_bands(height, workers);
    let mut buffer = vec![0u8; width * height];
    let chunk_len = rows_per_band(height, workers) * width;
    let chunks: Vec<&mut [u8]> = buffer.chunks_mut(chunk_len).collect();
    assert_eq!(chunks.len(), bands.len());
    for (band, chunk) in bands.iter().zip(chunks.iter()) {
        assert_eq!(chunk.len(), band.rows * width);
    }
    let mut owners = vec![0usize; width * height];
    for band in &bands {
        for index in band.top * width..(band.top + band.rows) * width {
            owners[index] += 1;
        }
    }
    assert!(owners.iter().all(|&n| n == 1));
}
