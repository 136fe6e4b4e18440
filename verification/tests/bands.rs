use mandelbrot::bands::{partition, rows_per_band, Band};

#[test]
fn rows_per_band_rounds_up() {
    assert_eq!(rows_per_band(100, 8), 13);
    assert_eq!(rows_per_band(96, 8), 12);
    assert_eq!(rows_per_band(10, 3), 4);
    assert_eq!(rows_per_band(1, 8), 1);
    assert_eq!(rows_per_band(0, 8), 0);
    assert_eq!(rows_per_band(7, 1), 7);
    assert_eq!(rows_per_band(usize::MAX, 1), usize::MAX);
    assert_eq!(rows_per_band(usize::MAX, usize::MAX), 1);
}

#[test]
fn partition_gives_the_last_band_the_remainder() {
    assert_eq!(
        partition(10, 3),
        vec![
            Band { top: 0, height: 4 },
            Band { top: 4, height: 4 },
            Band { top: 8, height: 2 },
        ]
    );
}

#[test]
fn partition_of_an_even_share() {
    assert_eq!(
        partition(12, 3),
        vec![
            Band { top: 0, height: 4 },
            Band { top: 4, height: 4 },
            Band { top: 8, height: 4 },
        ]
    );
}

#[test]
fn partition_for_eight_workers() {
    let bands = partition(100, 8);
    assert_eq!(bands.len(), 8);
    for (i, band) in bands.iter().enumerate() {
        assert_eq!(band.top, 13 * i);
        assert_eq!(band.height, if i == 7 { 9 } else { 13 });
    }
}

#[test]
fn partition_makes_no_band_past_the_last_row() {
    // Nine rows for eight workers: two rows each, so five bands do.
    let bands = partition(9, 8);
    assert_eq!(bands.len(), 5);
    assert_eq!(bands[4], Band { top: 8, height: 1 });
    // Fewer rows than workers: one row each.
    let bands = partition(3, 8);
    assert_eq!(
        bands,
        vec![
            Band { top: 0, height: 1 },
            Band { top: 1, height: 1 },
            Band { top: 2, height: 1 },
        ]
    );
}

#[test]
fn partition_with_one_worker_is_one_band() {
    assert_eq!(partition(750, 1), vec![Band { top: 0, height: 750 }]);
}

#[test]
fn partition_of_no_rows_is_empty() {
    assert_eq!(partition(0, 1), Vec::<Band>::new());
    assert_eq!(partition(0, 8), Vec::<Band>::new());
}

#[test]
fn partition_of_the_tallest_image() {
    let bands = partition(usize::MAX, 2);
    let half = usize::MAX / 2 + 1;
    assert_eq!(
        bands,
        vec![Band { top: 0, height: half }, Band { top: half, height: usize::MAX - half }]
    );
}

#[test]
fn bands_are_sorted_contiguous_and_cover_every_row_once() {
    for height in 0..60usize {
        for workers in 1..70usize {
            let bands = partition(height, workers);
            assert!(bands.len() <= workers);
            let mut next = 0;
            for band in &bands {
                assert_eq!(band.top, next);
                assert!(band.height > 0);
                next = band.top + band.height;
            }
            assert_eq!(next, height);
            let mut owners = vec![0u32; height];
            for band in &bands {
                for row in band.top..band.top + band.height {
                    owners[row] += 1;
                }
            }
            assert!(owners.iter().all(|&n| n == 1));
        }
    }
}

#[test]
fn all_bands_but_the_last_have_the_full_share() {
    for height in 1..40usize {
        for workers in 1..40usize {
            let rows = rows_per_band(height, workers);
            let bands = partition(height, workers);
            for (i, band) in bands.iter().enumerate() {
                assert_eq!(band.top, i * rows);
                assert_eq!(band.top + band.height, height.min((i + 1) * rows));
            }
        }
    }
}

#[test]
fn span_scales_rows_to_bytes() {
    assert_eq!(Band { top: 4, height: 4 }.span(7), Some((28, 28)));
    assert_eq!(Band { top: 0, height: 13 }.span(100), Some((0, 1300)));
    assert_eq!(Band { top: 91, height: 9 }.span(100), Some((9100, 900)));
    assert_eq!(Band { top: 5, height: 0 }.span(3), Some((15, 0)));
}

#[test]
fn span_of_a_zero_width_is_empty() {
    assert_eq!(Band { top: 4, height: 4 }.span(0), Some((0, 0)));
    assert_eq!(Band { top: usize::MAX, height: usize::MAX }.span(0), Some((0, 0)));
}

#[test]
fn span_refuses_what_does_not_fit() {
    assert_eq!(Band { top: usize::MAX, height: 1 }.span(1), None);
    assert_eq!(Band { top: usize::MAX / 2, height: 1 }.span(4), None);
    assert_eq!(Band { top: usize::MAX - 1, height: 1 }.span(1), Some((usize::MAX - 1, 1)));
}

#[test]
fn spans_of_a_partition_lie_end_to_end() {
    let (width, height) = (17usize, 23usize);
    for workers in 1..30usize {
        let mut next = 0;
        for band in partition(height, workers) {
            let (offset, length) = band.span(width).unwrap();
            assert_eq!(offset, next);
            next = offset + length;
        }
        assert_eq!(next, width * height);
    }
}
