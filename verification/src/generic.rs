//! Entry points for views of any single-channel buffer, with any row stride:
//! subrects of a larger grayscale image, or the luma plane of a video frame.
//!
//! The layout is validated once at entry; on violation a [`LayoutError`] is
//! returned.
use vstd::prelude::*;

use crate::binary32::Binary32;
use crate::error::LayoutError;
use crate::features::{is_selection, Candidate, FeaturesBuffer};
use crate::flat::FlatSamples;
use crate::pyramid::{grids, lemma_level_count, level_count, pyramid, PyramidBuffer};
use crate::raster::GrayImage;
use crate::validate::{layout_verdict, validate_layout};

verus! {

/// Build a pyramid from any single-channel buffer.
///
/// Returns a [`LayoutError`] if the layout cannot be consumed.
pub fn build_pyramid(image: &FlatSamples<'_>, levels: usize) -> (r: Result<
    Vec<GrayImage>,
    LayoutError,
>)
    requires
        image.is_valid() ==> levels > 0 && 2 * (image.layout.width * image.layout.height)
            <= isize::MAX,
    ensures
        match layout_verdict(*image) {
            Err(err) => r matches Err(e) && e == err,
            Ok(()) => r matches Ok(images) && grids(images@) == pyramid(
                image.grid(),
                level_count(
                    image.layout.width as int,
                    image.layout.height as int,
                    levels as nat,
                ),
            ),
        },
{
    match validate_layout(image) {
        Err(err) => Err(err),
        Ok(()) => {
            let mut buf: PyramidBuffer = PyramidBuffer::with_capacity(
                image.layout.width,
                image.layout.height,
                levels,
            );
            proof {
                lemma_level_count(
                    image.layout.width as int,
                    image.layout.height as int,
                    levels as nat,
                );
            }
            buf.build_into(image);
            Ok(buf.into_levels())
        },
    }
}

fn copied(points: &Vec<Candidate>) -> (r: Vec<Candidate>)
    ensures
        r@ == points@,
{
    let mut r: Vec<Candidate> = Vec::with_capacity(points.len());
    let mut i: usize = 0;
    while i < points.len()
        invariant
            i <= points@.len(),
            r@ =~= points@.take(i as int),
        decreases points@.len() - i,
    {
        r.push(points[i]);
        i = i + 1;
    }
    assert(r@ =~= points@);
    r
}

/// Find good features to track from any single-channel buffer: pixels with
/// their scores, in descending quality order.
///
/// Returns a [`LayoutError`] if the layout cannot be consumed.
pub fn good_features_to_track(
    image: &FlatSamples<'_>,
    quality_level: Binary32,
    min_distance: u32,
) -> (r: Result<Vec<Candidate>, LayoutError>)
    requires
        image.is_valid() ==> 12 * (image.layout.width * image.layout.height) <= isize::MAX,
    ensures
        match layout_verdict(*image) {
            Err(err) => r matches Err(e) && e == err,
            Ok(()) => r matches Ok(points) && is_selection(
                points@,
                image.grid(),
                quality_level,
                min_distance,
                image.layout.width * image.layout.height,
            ),
        },
{
    match validate_layout(image) {
        Err(err) => Err(err),
        Ok(()) => {
            let width: u32 = image.layout.width;
            let height: u32 = image.layout.height;
            assert(0 <= width * height) by (nonlinear_arith)
                requires
                    0 <= width,
                    0 <= height,
            ;
            let max: usize = width as usize * height as usize;
            let mut buf: FeaturesBuffer = FeaturesBuffer::with_capacity(
                width,
                height,
                min_distance,
                max,
            );
            Ok(copied(buf.detect_pixels(image, quality_level, min_distance, max)))
        },
    }
}

} // verus!
