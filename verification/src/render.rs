//! Filling a pixel buffer, one pixel at a time, from an evaluator.

use vstd::prelude::*;
use crate::bands::{law_spans_follow, law_partition_tiles, partition_of, tiles, Band};
use crate::geometry::{in_bounds, index_of, law_index_onto, lemma_index_order, pixel_index};
use crate::shade::{intensity, intensity_of};

verus! {

/// The picture that a buffer of escape outcomes stands for: each outcome
/// replaced by its grey level under the cap `cap`.
pub open spec fn shaded(escapes: Seq<Option<u32>>, cap: u32) -> Seq<u8> {
    Seq::new(escapes.len(), |i: int| intensity_of(escapes[i], cap))
}

/// Whether `escapes` holds, in row-major order, one answer of the evaluator
/// `escape` for each pixel of an image of size `bounds`.
pub open spec fn evaluated<F: Fn((usize, usize)) -> Option<u32>>(
    escape: F,
    bounds: (usize, usize),
    escapes: Seq<Option<u32>>,
) -> bool {
    &&& escapes.len() == bounds.0 * bounds.1
    &&& forall|column: usize, row: usize|
        in_bounds(bounds, (column, row)) ==> escape.ensures(
            ((column, row),),
            escapes[#[trigger] pixel_index(bounds.0 as int, column as int, row as int)],
        )
}

/// Whether `picture` is a possible rendering: the grey levels, under
/// `cap`, of one answer of `escape` for each pixel of an image of size
/// `bounds`.
pub open spec fn rendered<F: Fn((usize, usize)) -> Option<u32>>(
    escape: F,
    bounds: (usize, usize),
    cap: u32,
    picture: Seq<u8>,
) -> bool {
    exists|escapes: Seq<Option<u32>>| #[trigger]
        evaluated(escape, bounds, escapes) && picture == shaded(escapes, cap)
}

/// Whether `escape` can give only one answer on each pixel of an image of
/// size `bounds`.
pub open spec fn single_valued<F: Fn((usize, usize)) -> Option<u32>>(
    escape: F,
    bounds: (usize, usize),
) -> bool {
    forall|pixel: (usize, usize), a: Option<u32>, b: Option<u32>|
        in_bounds(bounds, pixel) && #[trigger] escape.ensures((pixel,), a)
            && #[trigger] escape.ensures((pixel,), b) ==> a == b
}

/// The part of a row-major buffer, `width` items to the row, that belongs
/// to `band`.
pub open spec fn band_slice<T>(buffer: Seq<T>, width: int, band: Band) -> Seq<T> {
    buffer.subrange(band.offset(width), band.offset(width) + band.bytes(width))
}

/// The picture put together band by band: each band shaded on its own, from
/// its own part of the escape outcomes, and the parts laid end to end.
pub open spec fn banded(escapes: Seq<Option<u32>>, cap: u32, width: int, bands: Seq<Band>) -> Seq<
    u8,
>
    decreases bands.len(),
{
    if bands.len() == 0 {
        Seq::empty()
    } else {
        banded(escapes, cap, width, bands.drop_last()) + shaded(
            band_slice(escapes, width, bands.last()),
            cap,
        )
    }
}

/// Determinism: an evaluator with one answer per pixel has one picture.
/// Rendering the same bounds under the same cap twice gives the same bytes.
pub proof fn law_picture_unique<F: Fn((usize, usize)) -> Option<u32>>(
    escape: F,
    bounds: (usize, usize),
    cap: u32,
    first: Seq<u8>,
    second: Seq<u8>,
)
    requires
        single_valued(escape, bounds),
        rendered(escape, bounds, cap, first),
        rendered(escape, bounds, cap, second),
    ensures
        first == second,
{
    let a: Seq<Option<u32>> = choose|escapes: Seq<Option<u32>>| #[trigger]
        evaluated(escape, bounds, escapes) && first == shaded(escapes, cap);
    let b: Seq<Option<u32>> = choose|escapes: Seq<Option<u32>>| #[trigger]
        evaluated(escape, bounds, escapes) && second == shaded(escapes, cap);
    let width: int = bounds.0 as int;
    let height: int = bounds.1 as int;
    assert forall|k: int| 0 <= k < a.len() implies a[k] == b[k] by {
        if width <= 0 {
            assert(width * height == 0) by (nonlinear_arith)
                requires
                    width == 0,
            ;
        }
        law_index_onto(width, height, k);
        let column: usize = (k % width) as usize;
        let row: usize = (k / width) as usize;
        assert(in_bounds(bounds, (column, row)));
        assert(pixel_index(width, column as int, row as int) == k);
        assert(escape.ensures(((column, row),), a[k]));
        assert(escape.ensures(((column, row),), b[k]));
    }
    assert(a =~= b);
}

/// The first `n` bands of a tiling, shaded one by one, give the picture's
/// first bytes, up to the end of band `n - 1`.
proof fn lemma_banded_prefix(
    escapes: Seq<Option<u32>>,
    cap: u32,
    width: int,
    height: int,
    bands: Seq<Band>,
    n: int,
)
    requires
        0 <= width,
        tiles(bands, height),
        escapes.len() == width * height,
        0 <= n <= bands.len(),
    ensures
        banded(escapes, cap, width, bands.take(n)) == shaded(escapes, cap).subrange(
            0,
            if n == 0 {
                0
            } else {
                bands[n - 1].bottom() * width
            },
        ),
    decreases n,
{
    let whole: Seq<u8> = shaded(escapes, cap);
    if n == 0 {
        assert(banded(escapes, cap, width, bands.take(0)) =~= whole.subrange(0, 0));
    } else {
        lemma_banded_prefix(escapes, cap, width, height, bands, n - 1);
        law_spans_follow(bands, height, width, n - 1);
        if n > 1 {
            law_spans_follow(bands, height, width, n - 2);
        }
        let band: Band = bands[n - 1];
        let from: int = band.offset(width);
        let to: int = from + band.bytes(width);
        assert(bands.take(n).drop_last() =~= bands.take(n - 1));
        assert(bands.take(n).last() == band);
        assert(shaded(band_slice(escapes, width, band), cap) =~= whole.subrange(from, to));
        assert(whole.subrange(0, from) + whole.subrange(from, to) =~= whole.subrange(0, to));
    }
}

/// The number of workers does not show in the picture: for every worker
/// count of at least one, shading the image band by band, as the bands of
/// that count cut it, gives the bytes that shading it in one piece gives.
pub proof fn law_worker_count_is_invisible(
    escapes: Seq<Option<u32>>,
    cap: u32,
    bounds: (usize, usize),
    workers: usize,
)
    requires
        workers >= 1,
        escapes.len() == bounds.0 * bounds.1,
    ensures
        banded(escapes, cap, bounds.0 as int, partition_of(bounds.1, workers)) == shaded(
            escapes,
            cap,
        ),
{
    let bands: Seq<Band> = partition_of(bounds.1, workers);
    let width: int = bounds.0 as int;
    let height: int = bounds.1 as int;
    law_partition_tiles(bounds.1, workers);
    lemma_banded_prefix(escapes, cap, width, height, bands, bands.len() as int);
    assert(bands.take(bands.len() as int) =~= bands);
    assert(height * width == width * height) by (nonlinear_arith);
    assert(shaded(escapes, cap).subrange(0, width * height) =~= shaded(escapes, cap));
    if bands.len() == 0 {
        assert(width * 0 == 0) by (nonlinear_arith);
    }
}

/// Renders an image of size `bounds`, given as (width, height), into
/// `pixels`.
///
/// The evaluator `escape` is asked once for every pixel, given as
/// (column, row), rows from the top and each row from the left; the grey
/// level of its answer under `cap` is written at the pixel's place.
///
/// Bounds with a zero side describe no image, and a buffer that does not
/// hold one byte per pixel is not the image's buffer: callers check both
/// before they start, with [`crate::geometry::buffer_len`].
pub fn render<F: Fn((usize, usize)) -> Option<u32>>(
    pixels: &mut [u8],
    bounds: (usize, usize),
    cap: u32,
    escape: F,
)
    requires
        bounds.0 > 0,
        bounds.1 > 0,
        old(pixels)@.len() == bounds.0 * bounds.1,
        forall|pixel: (usize, usize)| in_bounds(bounds, pixel) ==> escape.requires((pixel,)),
    ensures
        rendered(escape, bounds, cap, final(pixels)@),
{
    let ghost mut done: Seq<Option<u32>> = Seq::empty();
    let total: usize = pixels.len();
    let mut row: usize = 0;
    while row < bounds.1
        invariant
            row <= bounds.1,
            bounds.0 * bounds.1 == total,
            pixels@.len() == bounds.0 * bounds.1,
            forall|pixel: (usize, usize)| in_bounds(bounds, pixel) ==> escape.requires((pixel,)),
            done.len() == row * bounds.0,
            forall|c: usize, r: usize|
                c < bounds.0 && r < row ==> escape.ensures(
                    ((c, r),),
                    done[#[trigger] pixel_index(bounds.0 as int, c as int, r as int)],
                ),
            forall|k: int| 0 <= k < done.len() ==> pixels@[k] == intensity_of(#[trigger] done[k], cap),
        decreases bounds.1 - row,
    {
        let mut column: usize = 0;
        while column < bounds.0
            invariant
                row < bounds.1,
                column <= bounds.0,
                bounds.0 * bounds.1 == total,
                pixels@.len() == bounds.0 * bounds.1,
                forall|pixel: (usize, usize)|
                    in_bounds(bounds, pixel) ==> escape.requires((pixel,)),
                done.len() == pixel_index(bounds.0 as int, column as int, row as int),
                forall|c: usize, r: usize|
                    c < bounds.0 && (r < row || (r == row && c < column)) ==> escape.ensures(
                        ((c, r),),
                        done[#[trigger] pixel_index(bounds.0 as int, c as int, r as int)],
                    ),
                forall|k: int|
                    0 <= k < done.len() ==> pixels@[k] == intensity_of(#[trigger] done[k], cap),
            decreases bounds.0 - column,
        {
            let at: usize = index_of(bounds, (column, row));
            assert(in_bounds(bounds, (column, row)));
            let outcome: Option<u32> = escape((column, row));
            pixels[at] = intensity(outcome, cap);
            proof {
                let ghost before: Seq<Option<u32>> = done;
                done = done.push(outcome);
                assert forall|c: usize, r: usize|
                    c < bounds.0 && (r < row || (r == row && c < column + 1)) implies escape.ensures(
                    ((c, r),),
                    done[#[trigger] pixel_index(bounds.0 as int, c as int, r as int)],
                ) by {
                    if r < row || c < column {
                        lemma_index_order(
                            bounds.0 as int,
                            c as int,
                            r as int,
                            column as int,
                            row as int,
                        );
                        assert(r >= 0 && c >= 0);
                        assert(r * bounds.0 >= 0) by (nonlinear_arith)
                            requires
                                r >= 0,
                                bounds.0 >= 0,
                        ;
                    }
                }
            }
            column = column + 1;
        }
        proof {
            assert((row + 1) * bounds.0 == row * bounds.0 + bounds.0) by (nonlinear_arith);
        }
        row = row + 1;
    }
    proof {
        assert(bounds.1 * bounds.0 == bounds.0 * bounds.1) by (nonlinear_arith);
        assert(pixels@ =~= shaded(done, cap));
        assert(evaluated(escape, bounds, done));
    }
}

} // verus!
