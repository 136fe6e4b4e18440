use mandelbrot::escape::escape_time;
use num::Complex;
use std::cell::Cell;

/// The quadratic map's escape time for `c`, driven by the library's loop.
fn mandelbrot_time(c: Complex<f64>, limit: u32) -> Option<u32> {
    escape_time(
        Complex { re: 0.0, im: 0.0 },
        limit,
        |z: Complex<f64>| z * z + c,
        |z: &Complex<f64>| !(z.norm_sqr() <= 4.0),
    )
}

#[test]
fn the_origin_never_escapes() {
    let c = Complex { re: 0.0, im: 0.0 };
    assert_eq!(mandelbrot_time(c, 1), None);
    assert_eq!(mandelbrot_time(c, 2), None);
    assert_eq!(mandelbrot_time(c, 255), None);
    assert_eq!(mandelbrot_time(c, 100_000), None);
}

#[test]
fn three_escapes_at_once() {
    let c = Complex { re: 3.0, im: 0.0 };
    assert_eq!(mandelbrot_time(c, 1), Some(0));
    assert_eq!(mandelbrot_time(c, 255), Some(0));
}

#[test]
fn one_escapes_at_the_third_round() {
    // 1, 2, 5: the squared magnitudes are 1, 4 and 25, and 4 does not exceed 4.
    let c = Complex { re: 1.0, im: 0.0 };
    assert_eq!(mandelbrot_time(c, 255), Some(2));
    assert_eq!(mandelbrot_time(c, 3), Some(2));
    assert_eq!(mandelbrot_time(c, 2), None);
}

#[test]
fn minus_one_cycles_for_ever() {
    let c = Complex { re: -1.0, im: 0.0 };
    assert_eq!(mandelbrot_time(c, 255), None);
}

#[test]
fn the_imaginary_unit_stays() {
    let c = Complex { re: 0.0, im: 1.0 };
    assert_eq!(mandelbrot_time(c, 255), None);
}

#[test]
fn no_point_escapes_under_a_cap_of_zero() {
    assert_eq!(mandelbrot_time(Complex { re: 3.0, im: 0.0 }, 0), None);
}

#[test]
fn non_finite_points_escape_at_once() {
    assert_eq!(mandelbrot_time(Complex { re: f64::INFINITY, im: 0.0 }, 255), Some(0));
    assert_eq!(mandelbrot_time(Complex { re: 0.0, im: f64::NEG_INFINITY }, 255), Some(0));
    assert_eq!(mandelbrot_time(Complex { re: f64::NAN, im: 0.0 }, 255), Some(0));
    assert_eq!(mandelbrot_time(Complex { re: 0.0, im: f64::NAN }, 255), Some(0));
}

#[test]
fn the_count_is_the_round_of_the_first_yes() {
    // An orbit on the integers: 1, 2, 3, ... leaves once it passes 5.
    assert_eq!(escape_time(0u64, 100, |z| z + 1, |z| *z > 5), Some(5));
    assert_eq!(escape_time(0u64, 6, |z| z + 1, |z| *z > 5), Some(5));
    assert_eq!(escape_time(0u64, 5, |z| z + 1, |z| *z > 5), None);
    assert_eq!(escape_time(5u64, 100, |z| z + 1, |z| *z > 5), Some(0));
}

#[test]
fn the_loop_stops_at_the_first_yes() {
    let steps = Cell::new(0u32);
    let asked = Cell::new(0u32);
    let outcome = escape_time(
        0u64,
        1000,
        |z| {
            steps.set(steps.get() + 1);
            z + 1
        },
        |z| {
            asked.set(asked.get() + 1);
            *z >= 3
        },
    );
    assert_eq!(outcome, Some(2));
    assert_eq!(steps.get(), 3);
    assert_eq!(asked.get(), 3);
}

#[test]
fn the_start_itself_is_not_tested() {
    // The test is asked about the points after the start only.
    assert_eq!(escape_time(10u64, 3, |_| 0, |z| *z == 10), None);
}

#[test]
fn a_fixed_point_that_does_not_test_as_escaped_stays() {
    assert_eq!(escape_time(4u8, 200, |z| z, |z| *z > 4), None);
}

#[test]
fn following_an_orbit_twice_gives_one_outcome() {
    for k in 0..40 {
        let c = Complex { re: -2.0 + 0.1 * k as f64, im: 0.3 };
        assert_eq!(mandelbrot_time(c, 255), mandelbrot_time(c, 255));
    }
}
