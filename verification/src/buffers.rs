//! Manual pipeline assembly: the pre-allocated buffer types plus free
//! functions that operate on them.
//!
//! Use this where [`OpticalFlowTracker`](crate::OpticalFlowTracker) doesn't
//! fit, to share one pyramid across multiple Lucas-Kanade runs, to keep more
//! than two pyramids in memory, or to run detection without a tracker.
use vstd::prelude::*;

use crate::binary32::Binary32;
use crate::error::TrackError;
use crate::feature::Feature;
use crate::features::is_detection;
use crate::flat::{lemma_packed_grid, FlatSamples};
use crate::lk::moved_all;
use crate::pyramid::{grids, pyramid};
use crate::raster::{gray, gray_dimensions, gray_flat_samples, GrayImage};
use crate::validate::{frame_verdict, validate_frame};

pub use crate::features::FeaturesBuffer;
pub use crate::lk::LkBuffer;
pub use crate::pyramid::PyramidBuffer;

verus! {

/// Check `image` against the dimensions of `buf` and rebuild every pyramid
/// level in place. A frame that is refused leaves the pyramid as it is.
pub fn build_pyramid(buf: &mut PyramidBuffer, image: &FlatSamples<'_>) -> (r: Result<
    (),
    TrackError,
>)
    requires
        old(buf).well_formed(),
        old(buf)@.len() > 0,
    ensures
        final(buf).well_formed(),
        r == frame_verdict(
            *image,
            old(buf)@[0].width as u32,
            old(buf)@[0].height as u32,
        ),
        r is Ok ==> final(buf)@ == pyramid(image.grid(), old(buf)@.len()),
        r is Err ==> final(buf)@ == old(buf)@,
{
    let levels: &[GrayImage] = buf.levels();
    assert(gray(levels@[0]) == grids(levels@)[0]);
    let (w, h) = gray_dimensions(&levels[0]);
    match validate_frame(image, w, h) {
        Err(err) => Err(err),
        Ok(()) => {
            buf.build_into(image);
            Ok(())
        },
    }
}

/// Detect Shi-Tomasi corner features on level 0 of `pyramid`, writing up to
/// `max_features` entries into `out` (cleared first), in descending quality
/// order.
pub fn detect_features(
    buf: &mut FeaturesBuffer,
    pyramid: &PyramidBuffer,
    quality_level: Binary32,
    min_distance: u32,
    max_features: usize,
    out: &mut Vec<Feature>,
)
    requires
        old(buf).well_formed(),
        pyramid.well_formed(),
        pyramid@.len() > 0,
        12 * (pyramid@[0].width * pyramid@[0].height) <= isize::MAX,
    ensures
        final(buf).well_formed(),
        pyramid@[0].is_exact(),
        is_detection(
            final(out)@,
            pyramid@[0],
            quality_level,
            min_distance,
            max_features as int,
        ),
{
    let levels: &[GrayImage] = pyramid.levels();
    assert(gray(levels@[0]) == grids(levels@)[0]);
    let level0: FlatSamples<'_> = gray_flat_samples(&levels[0]);
    proof {
        lemma_packed_grid(level0);
        assert(level0.grid() == pyramid@[0]);
        pyramid.lemma_levels();
    }
    buf.detect_into(&level0, quality_level, min_distance, max_features, out);
}

/// Track `features` from `prev` into `curr` using Lucas-Kanade, changing the
/// position of each in place. `strength` is left untouched.
pub fn track(
    buf: &mut LkBuffer,
    prev: &PyramidBuffer,
    curr: &PyramidBuffer,
    features: &mut [Feature],
    max_iterations: usize,
)
    requires
        old(buf).well_formed(),
        prev.well_formed(),
        curr.well_formed(),
        prev@.len() > 0,
        curr@.len() == prev@.len(),
    ensures
        final(buf).well_formed(),
        final(buf).radius() == old(buf).radius(),
        final(buf).level_sizes() == old(buf).level_sizes(),
        final(features)@ == moved_all(
            prev@,
            curr@,
            old(buf).radius(),
            max_iterations as int,
            old(features)@,
        ),
{
    buf.calc_into_cached(prev, curr, features, max_iterations);
}

} // verus!
