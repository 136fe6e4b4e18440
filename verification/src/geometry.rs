//! Image bounds and the row-major layout of the pixel buffer.

use vstd::prelude::*;

verus! {

/// Why a pair of image bounds cannot describe a pixel buffer.
#[derive(Clone, Copy, Debug, PartialEq, Eq, Structural)]
pub enum GeometryError {
    /// The image has no columns.
    ZeroWidth,
    /// The image has no rows.
    ZeroHeight,
    /// The number of pixels does not fit in a `usize`.
    TooLarge,
}

/// Position of the pixel at (`column`, `row`) in a row-major buffer whose
/// rows hold `width` pixels each, top row first.
pub open spec fn pixel_index(width: int, column: int, row: int) -> int {
    row * width + column
}

/// Whether `pixel`, given as (column, row), lies inside an image of size
/// `bounds`, given as (width, height).
pub open spec fn in_bounds(bounds: (usize, usize), pixel: (usize, usize)) -> bool {
    pixel.0 < bounds.0 && pixel.1 < bounds.1
}

/// What [`buffer_len`] answers for `bounds`: the number of pixels, or the
/// first reason, in the order width, height, size, why there is no such
/// buffer.
pub open spec fn buffer_len_of(bounds: (usize, usize)) -> Result<usize, GeometryError> {
    if bounds.0 == 0 {
        Err(GeometryError::ZeroWidth)
    } else if bounds.1 == 0 {
        Err(GeometryError::ZeroHeight)
    } else if bounds.0 * bounds.1 > usize::MAX {
        Err(GeometryError::TooLarge)
    } else {
        Ok((bounds.0 * bounds.1) as usize)
    }
}

/// Every pixel of a `width` by `height` image has a place inside a buffer of
/// `width * height` bytes.
pub proof fn lemma_index_in_range(width: int, height: int, column: int, row: int)
    requires
        0 <= column < width,
        0 <= row < height,
    ensures
        0 <= pixel_index(width, column, row) < width * height,
{
    assert(row * width >= 0) by (nonlinear_arith)
        requires
            row >= 0,
            width >= 0,
    ;
    assert((row + 1) * width <= height * width) by (nonlinear_arith)
        requires
            row + 1 <= height,
            width >= 0,
    ;
    assert((row + 1) * width == row * width + width) by (nonlinear_arith);
    assert(height * width == width * height) by (nonlinear_arith);
}

/// Row-major order: a pixel that comes earlier, reading rows from the top
/// and each row from the left, has the smaller index.
pub proof fn lemma_index_order(width: int, c1: int, r1: int, c2: int, r2: int)
    requires
        0 <= c1 < width,
        0 <= c2 < width,
        0 <= r1,
        r1 < r2 || (r1 == r2 && c1 < c2),
    ensures
        pixel_index(width, c1, r1) < pixel_index(width, c2, r2),
{
    if r1 < r2 {
        assert((r1 + 1) * width <= r2 * width) by (nonlinear_arith)
            requires
                r1 + 1 <= r2,
                width >= 0,
        ;
        assert((r1 + 1) * width == r1 * width + width) by (nonlinear_arith);
    }
}

/// No two pixels of an image share a place in the buffer.
pub proof fn law_index_injective(width: int, c1: int, r1: int, c2: int, r2: int)
    requires
        0 <= c1 < width,
        0 <= c2 < width,
        0 <= r1,
        0 <= r2,
        pixel_index(width, c1, r1) == pixel_index(width, c2, r2),
    ensures
        c1 == c2,
        r1 == r2,
{
    if r1 < r2 || (r1 == r2 && c1 < c2) {
        lemma_index_order(width, c1, r1, c2, r2);
    } else if r2 < r1 || (r2 == r1 && c2 < c1) {
        lemma_index_order(width, c2, r2, c1, r1);
    }
}

/// Every place in the buffer belongs to a pixel of the image: the one at
/// column `index % width` of row `index / width`.
pub proof fn law_index_onto(width: int, height: int, index: int)
    requires
        0 < width,
        0 <= index < width * height,
    ensures
        0 <= index % width < width,
        0 <= index / width < height,
        pixel_index(width, index % width, index / width) == index,
{
    vstd::arithmetic::div_mod::lemma_fundamental_div_mod(index, width);
    vstd::arithmetic::div_mod::lemma_mod_bound(index, width);
    let q: int = index / width;
    assert(width * q == q * width) by (nonlinear_arith);
    assert(q >= 0) by (nonlinear_arith)
        requires
            index >= 0,
            width > 0,
            q == index / width,
    ;
    if q >= height {
        assert(q * width >= height * width) by (nonlinear_arith)
            requires
                q >= height,
                width > 0,
        ;
        assert(height * width == width * height) by (nonlinear_arith);
    }
}

/// The number of bytes in the pixel buffer of an image of size `bounds`,
/// given as (width, height). Bounds with a zero side, or with more pixels
/// than a `usize` can count, are refused.
pub fn buffer_len(bounds: (usize, usize)) -> (r: Result<usize, GeometryError>)
    ensures
        r == buffer_len_of(bounds),
{
    if bounds.0 == 0 {
        Err(GeometryError::ZeroWidth)
    } else if bounds.1 == 0 {
        Err(GeometryError::ZeroHeight)
    } else {
        match bounds.0.checked_mul(bounds.1) {
            Some(len) => Ok(len),
            None => Err(GeometryError::TooLarge),
        }
    }
}

/// A zero-filled pixel buffer for an image of size `bounds`, or the reason
/// why the bounds describe none.
pub fn blank_buffer(bounds: (usize, usize)) -> (r: Result<Vec<u8>, GeometryError>)
    ensures
        match r {
            Ok(pixels) => buffer_len_of(bounds) is Ok && pixels@ == Seq::new(
                (bounds.0 * bounds.1) as nat,
                |i: int| 0u8,
            ),
            Err(e) => buffer_len_of(bounds) == Err::<usize, GeometryError>(e),
        },
{
    match buffer_len(bounds) {
        Ok(len) => {
            let pixels: Vec<u8> = vec![0u8; len];
            assert(pixels@ =~= Seq::new((bounds.0 * bounds.1) as nat, |i: int| 0u8));
            Ok(pixels)
        },
        Err(e) => Err(e),
    }
}

/// The place of `pixel`, given as (column, row), in the buffer of an image
/// of size `bounds`.
pub fn index_of(bounds: (usize, usize), pixel: (usize, usize)) -> (index: usize)
    requires
        in_bounds(bounds, pixel),
        bounds.0 * bounds.1 <= usize::MAX,
    ensures
        index == pixel_index(bounds.0 as int, pixel.0 as int, pixel.1 as int),
        index < bounds.0 * bounds.1,
{
    proof {
        lemma_index_in_range(bounds.0 as int, bounds.1 as int, pixel.0 as int, pixel.1 as int);
        assert(pixel.1 * bounds.0 >= 0) by (nonlinear_arith)
            requires
                pixel.1 >= 0,
                bounds.0 >= 0,
        ;
    }
    pixel.1 * bounds.0 + pixel.0
}

} // verus!
