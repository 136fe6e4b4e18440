//! From an escape count to a grey level.

use vstd::prelude::*;

verus! {

/// The brightest grey level a pixel can take.
pub const WHITE: u8 = 255;

/// The grey level of a point, given how its orbit ended under the cap `cap`.
///
/// A point that never left the disc is black. A point that left at iteration
/// `i` gets `cap - i`, held within the byte range: the sooner it leaves, the
/// brighter it is.
pub open spec fn intensity_of(escape: Option<u32>, cap: u32) -> u8 {
    match escape {
        None => 0u8,
        Some(i) => if i >= cap {
            0u8
        } else if cap - i >= 255 {
            255u8
        } else {
            (cap - i) as u8
        },
    }
}

/// Computes [`intensity_of`].
pub fn intensity(escape: Option<u32>, cap: u32) -> (level: u8)
    ensures
        level == intensity_of(escape, cap),
{
    match escape {
        None => 0,
        Some(i) => {
            let left: u32 = cap.saturating_sub(i);
            if left >= 255 {
                WHITE
            } else {
                left as u8
            }
        },
    }
}

} // verus!
