//! Cutting an image into bands of whole rows, one band per worker.
//!
//! The rule: with `H` rows and `W` workers every band gets
//! `R = ceil(H / W)` rows, band `i` starts at row `i * R`, and the last band
//! takes what is left. Bands that would start past the last row are not
//! made, so there can be fewer bands than workers.

use vstd::prelude::*;
use vstd::arithmetic::div_mod::{lemma_fundamental_div_mod, lemma_mod_bound};
use crate::geometry::pixel_index;

verus! {

/// A run of whole rows: `height` of them, starting at row `top`.
#[derive(Clone, Copy, Debug, PartialEq, Eq, Structural)]
pub struct Band {
    pub top: usize,
    pub height: usize,
}

impl Band {
    /// The row just past the band.
    pub open spec fn bottom(self) -> int {
        self.top + self.height
    }

    /// Whether `row` is one of the band's rows.
    pub open spec fn holds(self, row: int) -> bool {
        self.top <= row < self.bottom()
    }

    /// Where the band's first byte stands in the buffer of an image whose
    /// rows hold `width` pixels.
    pub open spec fn offset(self, width: int) -> int {
        self.top * width
    }

    /// How many bytes of that buffer belong to the band.
    pub open spec fn bytes(self, width: int) -> int {
        self.height * width
    }

    /// The band's share of the buffer of an image whose rows hold `width`
    /// pixels, as (offset, length): the share starts at byte `offset` and
    /// is `length` bytes long. `None` where the share would end past the
    /// largest `usize`.
    pub fn span(&self, width: usize) -> (span: Option<(usize, usize)>)
        ensures
            match span {
                Some((offset, length)) => {
                    &&& self.bottom() * width <= usize::MAX
                    &&& offset == self.offset(width as int)
                    &&& length == self.bytes(width as int)
                },
                None => self.bottom() * width > usize::MAX,
            },
    {
        if width == 0 {
            proof {
                assert(self.bottom() * 0 == 0 && self.top * 0 == 0 && self.height * 0 == 0)
                    by (nonlinear_arith);
            }
            return Some((0, 0));
        }
        let fits: bool = match self.top.checked_add(self.height) {
            Some(bottom) => bottom.checked_mul(width).is_some(),
            None => false,
        };
        proof {
            let top: int = self.top as int;
            let tall: int = self.height as int;
            let wide: int = width as int;
            assert((top + tall) * wide == top * wide + tall * wide) by (nonlinear_arith);
            assert(top * wide >= 0 && tall * wide >= 0) by (nonlinear_arith)
                requires
                    top >= 0,
                    tall >= 0,
                    wide >= 0,
            ;
            if top + tall > usize::MAX {
                assert((top + tall) * wide >= top + tall) by (nonlinear_arith)
                    requires
                        top + tall >= 0,
                        wide >= 1,
                ;
            }
        }
        if fits {
            Some((self.top * width, self.height * width))
        } else {
            None
        }
    }
}

/// `a / b`, rounded up.
pub open spec fn ceil_div(a: int, b: int) -> int {
    if a % b == 0 {
        a / b
    } else {
        a / b + 1
    }
}

/// Rows per band: `ceil(height / workers)`.
pub open spec fn band_rows(height: int, workers: int) -> int {
    ceil_div(height, workers)
}

/// Number of bands: as many as start before row `height`.
pub open spec fn band_count(height: int, workers: int) -> int {
    if band_rows(height, workers) == 0 {
        0
    } else {
        ceil_div(height, band_rows(height, workers))
    }
}

/// Band number `i`: rows `[i * R, min(height, (i + 1) * R))`.
pub open spec fn band_at(height: int, workers: int, i: int) -> Band {
    let rows: int = band_rows(height, workers);
    let top: int = i * rows;
    Band {
        top: top as usize,
        height: (if height - top < rows {
            height - top
        } else {
            rows
        }) as usize,
    }
}

/// The bands of an image of `height` rows shared among `workers` workers,
/// from the top down.
pub open spec fn partition_of(height: usize, workers: usize) -> Seq<Band> {
    Seq::new(
        band_count(height as int, workers as int) as nat,
        |i: int| band_at(height as int, workers as int, i),
    )
}

/// Whether band `i` of `bands` is non-empty and starts where the band
/// before it ends, or at row 0 if it is the first.
pub open spec fn joins(bands: Seq<Band>, i: int) -> bool {
    &&& bands[i].height > 0
    &&& bands[i].top == if i == 0 {
        0
    } else {
        bands[i - 1].bottom()
    }
}

/// Whether `bands` cut the rows `[0, height)` into consecutive, non-empty
/// runs: the first starts at row 0, each next one starts where the one
/// before it ends, and the last ends at row `height`.
pub open spec fn tiles(bands: Seq<Band>, height: int) -> bool {
    &&& forall|i: int| 0 <= i < bands.len() ==> #[trigger] joins(bands, i)
    &&& height == if bands.len() == 0 {
        0
    } else {
        bands.last().bottom()
    }
}

/// Rounding up gives the least multiple that reaches: for `a >= 0` and
/// `b > 0`, `ceil_div(a, b)` is the one `n >= 0` with
/// `(n - 1) * b < a <= n * b`.
pub proof fn lemma_ceil_div(a: int, b: int, n: int)
    requires
        0 <= a,
        0 < b,
    ensures
        0 <= ceil_div(a, b),
        (ceil_div(a, b) - 1) * b < a <= ceil_div(a, b) * b,
        0 <= n && (n - 1) * b < a <= n * b ==> n == ceil_div(a, b),
{
    let q: int = a / b;
    let r: int = a % b;
    lemma_fundamental_div_mod(a, b);
    lemma_mod_bound(a, b);
    assert(b * q == q * b) by (nonlinear_arith);
    assert((q - 1) * b == q * b - b) by (nonlinear_arith);
    assert((q + 1) * b == q * b + b) by (nonlinear_arith);
    assert(q >= 0) by (nonlinear_arith)
        requires
            q * b + r == a,
            a >= 0,
            r < b,
            b > 0,
    ;
    let c: int = ceil_div(a, b);
    if 0 <= n && (n - 1) * b < a <= n * b {
        if n < c {
            assert(n * b <= (c - 1) * b) by (nonlinear_arith)
                requires
                    n <= c - 1,
                    b > 0,
            ;
        } else if n > c {
            assert(c * b <= (n - 1) * b) by (nonlinear_arith)
                requires
                    c <= n - 1,
                    b > 0,
            ;
        }
    }
}

/// Computes [`band_rows`].
pub fn rows_per_band(height: usize, workers: usize) -> (rows: usize)
    requires
        workers >= 1,
    ensures
        rows == band_rows(height as int, workers as int),
{
    let whole: usize = height / workers;
    if height % workers == 0 {
        whole
    } else {
        proof {
            lemma_fundamental_div_mod(height as int, workers as int);
            assert(workers * whole >= whole) by (nonlinear_arith)
                requires
                    workers >= 1,
                    whole >= 0,
            ;
        }
        whole + 1
    }
}

/// Cuts `height` rows into bands for `workers` workers: `ceil(height /
/// workers)` rows to each band, the remainder to the last, and no band
/// where no row is left. An image without rows has no bands.
pub fn partition(height: usize, workers: usize) -> (bands: Vec<Band>)
    requires
        workers >= 1,
    ensures
        bands@ == partition_of(height, workers),
        tiles(bands@, height as int),
        bands@.len() <= workers,
{
    let rows: usize = rows_per_band(height, workers);
    let ghost count: int = band_count(height as int, workers as int);
    proof {
        lemma_band_facts(height as int, workers as int);
    }
    let mut bands: Vec<Band> = Vec::new();
    let mut top: usize = 0;
    while top < height
        invariant
            workers >= 1,
            rows == band_rows(height as int, workers as int),
            count == band_count(height as int, workers as int),
            height > 0 ==> rows > 0,
            top <= height,
            bands@.len() <= count,
            top < height ==> top == bands@.len() * rows,
            top == height ==> bands@.len() == count,
            forall|k: int|
                0 <= k < bands@.len() ==> #[trigger] bands@[k] == band_at(
                    height as int,
                    workers as int,
                    k,
                ),
        decreases height - top,
    {
        let ghost i: int = bands@.len() as int;
        let left: usize = height - top;
        let tall: usize = if left < rows {
            left
        } else {
            rows
        };
        proof {
            // Band `i` is the last one exactly when fewer than `rows` rows
            // are left below its top.
            assert((i + 1) * rows == i * rows + rows) by (nonlinear_arith);
            lemma_ceil_div(height as int, rows as int, i + 1);
            if left > rows && count <= i + 1 {
                assert(count * rows <= (i + 1) * rows) by (nonlinear_arith)
                    requires
                        count <= i + 1,
                        rows >= 0,
                ;
            }
        }
        bands.push(Band { top, height: tall });
        top = top + tall;
    }
    proof {
        assert(bands@ =~= partition_of(height, workers));
        law_partition_tiles(height, workers);
    }
    bands
}

/// What the rule gives for `height >= 0` rows and `workers >= 1` workers:
/// no more bands than workers, and none at all exactly when there are no
/// rows.
pub proof fn lemma_band_facts(height: int, workers: int)
    requires
        0 <= height,
        1 <= workers,
    ensures
        0 <= band_rows(height, workers) <= height,
        0 <= band_count(height, workers) <= workers,
        height == 0 <==> band_count(height, workers) == 0,
        height > 0 ==> band_rows(height, workers) > 0,
{
    let rows: int = band_rows(height, workers);
    lemma_ceil_div(height, workers, 0);
    if rows > height {
        assert((rows - 1) * workers >= height) by (nonlinear_arith)
            requires
                rows - 1 >= height,
                height >= 0,
                workers >= 1,
        ;
    }
    if height > 0 {
        if rows <= 0 {
            assert(rows * workers <= 0) by (nonlinear_arith)
                requires
                    rows <= 0,
                    workers >= 1,
            ;
        }
        let count: int = band_count(height, workers);
        lemma_ceil_div(height, rows, 0);
        if count > workers {
            assert((count - 1) * rows >= rows * workers) by (nonlinear_arith)
                requires
                    count - 1 >= workers,
                    rows > 0,
            ;
        }
        if count <= 0 {
            assert(count * rows <= 0) by (nonlinear_arith)
                requires
                    count <= 0,
                    rows > 0,
            ;
        }
    }
}

/// The bands of the rule cut the rows exactly: they are non-empty, lie end
/// to end from row 0, and stop at the last row.
pub proof fn law_partition_tiles(height: usize, workers: usize)
    requires
        workers >= 1,
    ensures
        tiles(partition_of(height, workers), height as int),
{
    let h: int = height as int;
    let w: int = workers as int;
    let rows: int = band_rows(h, w);
    let count: int = band_count(h, w);
    let bands: Seq<Band> = partition_of(height, workers);
    lemma_band_facts(h, w);
    if h > 0 {
        lemma_ceil_div(h, rows, count);
        assert forall|i: int| 0 <= i < count implies {
            &&& 0 <= i * rows < h
            &&& (#[trigger] bands[i]).top == i * rows
            &&& bands[i].bottom() == if i == count - 1 {
                h
            } else {
                (i + 1) * rows
            }
            &&& bands[i].height > 0
        } by {
            assert(i * rows >= 0) by (nonlinear_arith)
                requires
                    i >= 0,
                    rows > 0,
            ;
            assert(i * rows <= (count - 1) * rows) by (nonlinear_arith)
                requires
                    i <= count - 1,
                    rows > 0,
            ;
            assert((i + 1) * rows == i * rows + rows) by (nonlinear_arith);
            if i < count - 1 {
                assert((i + 1) * rows <= (count - 1) * rows) by (nonlinear_arith)
                    requires
                        i + 1 <= count - 1,
                        rows > 0,
                ;
            } else {
                assert((i + 1) * rows == count * rows);
            }
        }
        assert forall|i: int| 0 <= i < bands.len() implies #[trigger] joins(bands, i) by {
            assert(bands[i].top == i * rows);
            if i > 0 {
                assert(bands[i - 1].top == (i - 1) * rows);
                assert((i - 1 + 1) * rows == i * rows);
            } else {
                assert(0 * rows == 0) by (nonlinear_arith);
            }
        }
        assert(bands.last() == bands[count - 1]);
    }
}

/// Bands that tile lie in order and do not overlap: an earlier band ends
/// at or before the row where a later one starts.
pub proof fn law_bands_in_order(bands: Seq<Band>, height: int, i: int, j: int)
    requires
        tiles(bands, height),
        0 <= i < j < bands.len(),
    ensures
        bands[i].bottom() <= bands[j].top,
    decreases j - i,
{
    if i + 1 < j {
        law_bands_in_order(bands, height, i, j - 1);
        assert(joins(bands, j - 1));
    }
    assert(joins(bands, j));
}

/// Bands that tile `[0, height)` hold rows of that range only.
pub proof fn law_bands_within(bands: Seq<Band>, height: int, i: int)
    requires
        tiles(bands, height),
        0 <= i < bands.len(),
    ensures
        0 <= bands[i].top < bands[i].bottom() <= height,
{
    assert(joins(bands, i));
    if i + 1 < bands.len() {
        law_bands_in_order(bands, height, i, bands.len() - 1);
        assert(joins(bands, bands.len() - 1));
    }
}

/// Among the first `n` bands of a tiling, one holds `row`, provided the
/// row lies above the end of band `n - 1`.
proof fn lemma_row_found(bands: Seq<Band>, height: int, row: int, n: int)
    requires
        tiles(bands, height),
        1 <= n <= bands.len(),
        0 <= row < bands[n - 1].bottom(),
    ensures
        exists|i: int| 0 <= i < n && (#[trigger] bands[i]).holds(row),
    decreases n,
{
    if bands[n - 1].top <= row {
        assert(bands[n - 1].holds(row));
    } else {
        assert(joins(bands, n - 1));
        lemma_row_found(bands, height, row, n - 1);
    }
}

/// Bands that tile `[0, height)` cover it exactly once: every row of the
/// image belongs to one band, and to no second one.
pub proof fn law_one_band_per_row(bands: Seq<Band>, height: int, row: int)
    requires
        tiles(bands, height),
        0 <= row < height,
    ensures
        exists|i: int| 0 <= i < bands.len() && (#[trigger] bands[i]).holds(row),
        forall|i: int, j: int|
            0 <= i < bands.len() && 0 <= j < bands.len() && (#[trigger] bands[i]).holds(row) && (
            #[trigger] bands[j]).holds(row) ==> i == j,
{
    lemma_row_found(bands, height, row, bands.len() as int);
    assert forall|i: int, j: int|
        0 <= i < bands.len() && 0 <= j < bands.len() && (#[trigger] bands[i]).holds(row) && (
        #[trigger] bands[j]).holds(row) implies i == j by {
        if i < j {
            law_bands_in_order(bands, height, i, j);
        } else if j < i {
            law_bands_in_order(bands, height, j, i);
        }
    }
}

/// The shares of the buffer follow the bands: the share of band `i` starts
/// where the share of band `i - 1` ends, the first at byte 0, and none
/// reaches past the `width * height` bytes of the buffer.
pub proof fn law_spans_follow(bands: Seq<Band>, height: int, width: int, i: int)
    requires
        tiles(bands, height),
        0 <= width,
        0 <= i < bands.len(),
    ensures
        bands[i].offset(width) == if i == 0 {
            0
        } else {
            bands[i - 1].offset(width) + bands[i - 1].bytes(width)
        },
        0 <= bands[i].offset(width),
        0 <= bands[i].bytes(width),
        bands[i].offset(width) + bands[i].bytes(width) == bands[i].bottom() * width,
        bands[i].bottom() * width <= width * height,
{
    law_bands_within(bands, height, i);
    let top: int = bands[i].top as int;
    let tall: int = bands[i].height as int;
    assert((top + tall) * width == top * width + tall * width) by (nonlinear_arith);
    assert(top * width >= 0 && tall * width >= 0) by (nonlinear_arith)
        requires
            top >= 0,
            tall >= 0,
            width >= 0,
    ;
    assert((top + tall) * width <= width * height) by (nonlinear_arith)
        requires
            top + tall <= height,
            width >= 0,
    ;
    if i > 0 {
        let above: int = bands[i - 1].top as int;
        let gone: int = bands[i - 1].height as int;
        assert(joins(bands, i));
        assert((above + gone) * width == above * width + gone * width) by (nonlinear_arith);
    } else {
        assert(joins(bands, 0));
    }
}

/// A pixel keeps its place when a band is looked at alone: the pixel at
/// (`column`, `row`) of the band, rows counted from the band's top, stands
/// in the band's share where the pixel at (`column`, `top + row`) stands in
/// the whole buffer.
pub proof fn law_band_pixel(band: Band, width: int, column: int, row: int)
    ensures
        pixel_index(width, column, band.top + row) == band.offset(width) + pixel_index(
            width,
            column,
            row,
        ),
{
    let top: int = band.top as int;
    assert((top + row) * width == top * width + row * width) by (nonlinear_arith);
}

} // verus!
