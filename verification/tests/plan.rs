use mandelbrot::bands::{partition, Band};
use mandelbrot::geometry::GeometryError;
use mandelbrot::plan::{plan, Job};

#[test]
fn plan_for_three_workers() {
    assert_eq!(
        plan((7, 10), 3),
        Ok(vec![
            Job {
                band: Band { top: 0, height: 4 },
                offset: 0,
                length: 28,
                bounds: (7, 4),
                upper_left: (0, 0),
                lower_right: (7, 4),
            },
            Job {
                band: Band { top: 4, height: 4 },
                offset: 28,
                length: 28,
                bounds: (7, 4),
                upper_left: (0, 4),
                lower_right: (7, 8),
            },
            Job {
                band: Band { top: 8, height: 2 },
                offset: 56,
                length: 14,
                bounds: (7, 2),
                upper_left: (0, 8),
                lower_right: (7, 10),
            },
        ])
    );
}

#[test]
fn plan_for_one_worker_is_the_whole_image() {
    assert_eq!(
        plan((1000, 750), 1),
        Ok(vec![Job {
            band: Band { top: 0, height: 750 },
            offset: 0,
            length: 750_000,
            bounds: (1000, 750),
            upper_left: (0, 0),
            lower_right: (1000, 750),
        }])
    );
}

#[test]
fn plan_refuses_bounds_without_an_image() {
    assert_eq!(plan((0, 10), 8), Err(GeometryError::ZeroWidth));
    assert_eq!(plan((10, 0), 8), Err(GeometryError::ZeroHeight));
    assert_eq!(plan((0, 0), 8), Err(GeometryError::ZeroWidth));
    assert_eq!(plan((usize::MAX, 2), 8), Err(GeometryError::TooLarge));
}

#[test]
fn plan_follows_the_bands() {
    for workers in [1usize, 2, 3, 8, 50, 200] {
        let jobs = plan((13, 50), workers).unwrap();
        let bands = partition(50, workers);
        assert_eq!(jobs.len(), bands.len());
        for (job, band) in jobs.iter().zip(bands.iter()) {
            assert_eq!(job.band, *band);
            assert_eq!(Some((job.offset, job.length)), band.span(13));
        }
    }
}

#[test]
fn shares_of_a_plan_cut_the_buffer_exactly() {
    let bounds = (17usize, 23usize);
    for workers in 1..30usize {
        let jobs = plan(bounds, workers).unwrap();
        assert!(!jobs.is_empty());
        assert!(jobs.len() <= workers);
        let mut next = 0;
        for job in &jobs {
            assert_eq!(job.offset, next);
            assert_eq!(job.length, job.bounds.0 * job.bounds.1);
            assert!(job.bounds.0 > 0 && job.bounds.1 > 0);
            next = job.offset + job.length;
        }
        assert_eq!(next, bounds.0 * bounds.1);
    }
}

#[test]
fn corner_pixels_of_neighbours_meet() {
    let jobs = plan((40, 30), 8).unwrap();
    assert_eq!(jobs[0].upper_left, (0, 0));
    for pair in jobs.windows(2) {
        assert_eq!(pair[0].lower_right.1, pair[1].upper_left.1);
        assert_eq!(pair[0].lower_right.0, 40);
        assert_eq!(pair[1].upper_left.0, 0);
    }
    assert_eq!(jobs[jobs.len() - 1].lower_right, (40, 30));
}
