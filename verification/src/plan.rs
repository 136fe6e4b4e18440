//! The plan of a render: what each worker gets to do.
//!
//! A worker renders one band as a small image of its own. Its job names the
//! band, the band's share of the pixel buffer, the size of the small image,
//! and the two pixels of the whole image whose points are the corners of the
//! small image's window: the first pixel of the band's top row, and the
//! pixel just past the end of the row below its last.

use vstd::prelude::*;
use crate::bands::{
    law_bands_within, law_partition_tiles, law_spans_follow, partition, partition_of, tiles, Band,
};
use crate::geometry::{buffer_len, buffer_len_of, GeometryError};

verus! {

/// One worker's job.
#[derive(Clone, Copy, Debug, PartialEq, Eq)]
pub struct Job {
    /// The rows to render.
    pub band: Band,
    /// Where the band's share of the buffer starts.
    pub offset: usize,
    /// How many bytes the share holds.
    pub length: usize,
    /// The band as an image of its own: (width, height).
    pub bounds: (usize, usize),
    /// The pixel, as (column, row) of the whole image, at the band's upper
    /// left corner.
    pub upper_left: (usize, usize),
    /// The pixel, as (column, row) of the whole image, just past the band's
    /// lower right corner.
    pub lower_right: (usize, usize),
}

/// The job that renders `band` of an image whose rows hold `width` pixels.
pub open spec fn job_of(width: usize, band: Band) -> Job {
    Job {
        band,
        offset: band.offset(width as int) as usize,
        length: band.bytes(width as int) as usize,
        bounds: (width, band.height),
        upper_left: (0, band.top),
        lower_right: (width, band.bottom() as usize),
    }
}

/// The jobs of an image of size `bounds` shared among `workers` workers:
/// one for each band, from the top down.
pub open spec fn plan_of(bounds: (usize, usize), workers: usize) -> Seq<Job> {
    Seq::new(
        partition_of(bounds.1, workers).len(),
        |i: int| job_of(bounds.0, partition_of(bounds.1, workers)[i]),
    )
}

/// The shares of a plan cut the buffer exactly, and each is the buffer of
/// its job's small image: the first share starts at byte 0, each next one
/// where the one before it ends, the last ends with the buffer, and every
/// share holds one byte for each pixel of bounds that have no zero side.
pub proof fn law_plan_shares(bounds: (usize, usize), workers: usize, i: int)
    requires
        workers >= 1,
        buffer_len_of(bounds) is Ok,
        0 <= i < plan_of(bounds, workers).len(),
    ensures
        plan_of(bounds, workers).len() >= 1,
        plan_of(bounds, workers)[i].offset == if i == 0 {
            0
        } else {
            plan_of(bounds, workers)[i - 1].offset + plan_of(bounds, workers)[i - 1].length
        },
        plan_of(bounds, workers).last().offset + plan_of(bounds, workers).last().length
            == bounds.0 * bounds.1,
        plan_of(bounds, workers)[i].bounds.0 > 0,
        plan_of(bounds, workers)[i].bounds.1 > 0,
        plan_of(bounds, workers)[i].length == plan_of(bounds, workers)[i].bounds.0 * plan_of(
            bounds,
            workers,
        )[i].bounds.1,
        plan_of(bounds, workers)[i].lower_right.1 <= bounds.1,
{
    let bands: Seq<Band> = partition_of(bounds.1, workers);
    let width: int = bounds.0 as int;
    let height: int = bounds.1 as int;
    let last: int = bands.len() - 1;
    law_partition_tiles(bounds.1, workers);
    law_spans_follow(bands, height, width, i);
    law_spans_follow(bands, height, width, last);
    law_bands_within(bands, height, i);
    if i > 0 {
        law_spans_follow(bands, height, width, i - 1);
    }
    assert(bands[i].height * width == width * bands[i].height) by (nonlinear_arith);
    assert(height * width == width * height) by (nonlinear_arith);
}

/// Plans the render of an image of size `bounds`, given as (width, height),
/// for `workers` workers. Bounds that describe no pixel buffer are refused
/// before any job is made.
pub fn plan(bounds: (usize, usize), workers: usize) -> (r: Result<Vec<Job>, GeometryError>)
    requires
        workers >= 1,
    ensures
        match r {
            Ok(jobs) => buffer_len_of(bounds) is Ok && jobs@ == plan_of(bounds, workers),
            Err(e) => buffer_len_of(bounds) == Err::<usize, GeometryError>(e),
        },
{
    match buffer_len(bounds) {
        Err(e) => Err(e),
        Ok(_) => {
            let bands: Vec<Band> = partition(bounds.1, workers);
            let mut jobs: Vec<Job> = Vec::new();
            let mut i: usize = 0;
            while i < bands.len()
                invariant
                    i <= bands@.len(),
                    bounds.0 * bounds.1 <= usize::MAX,
                    tiles(bands@, bounds.1 as int),
                    bands@ == partition_of(bounds.1, workers),
                    jobs@.len() == i,
                    forall|k: int| 0 <= k < i ==> #[trigger] jobs@[k] == job_of(bounds.0, bands@[k]),
                decreases bands@.len() - i,
            {
                let band: Band = bands[i];
                proof {
                    law_spans_follow(bands@, bounds.1 as int, bounds.0 as int, i as int);
                    law_bands_within(bands@, bounds.1 as int, i as int);
                }
                jobs.push(
                    Job {
                        band,
                        offset: band.top * bounds.0,
                        length: band.height * bounds.0,
                        bounds: (bounds.0, band.height),
                        upper_left: (0, band.top),
                        lower_right: (bounds.0, band.top + band.height),
                    },
                );
                i = i + 1;
            }
            proof {
                assert(jobs@ =~= plan_of(bounds, workers));
            }
            Ok(jobs)
        },
    }
}

} // verus!
