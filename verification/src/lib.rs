//! The verified core of a Mandelbrot renderer.
//!
//! It holds what can be said in whole numbers: how an image is cut into
//! bands of rows and what each worker gets to do, where each pixel lives in
//! the flat buffer, how an escape count becomes a grey level, the loop that
//! follows an orbit until it leaves, the loop that fills a buffer pixel by
//! pixel, and the reading of pairs such as `1000x750`.
//!
//! The arithmetic on complex numbers is the caller's: it comes in as
//! closures, and the contracts speak of what those closures may answer. Two
//! things are taken on trust and say so where they stand: the PNG encoder of
//! the `image` crate, and the `from_str` of the values being read.

pub mod bands;
pub mod encode;
pub mod escape;
pub mod geometry;
pub mod parse;
pub mod plan;
pub mod render;
pub mod shade;
