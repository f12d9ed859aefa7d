//! Checks on frames, shared by all pipelines.
use vstd::prelude::*;

use crate::error::{LayoutError, TrackError};
use crate::flat::FlatSamples;

verus! {

/// What `validate_layout` answers. A number of samples that cannot be counted
/// is reported as the largest that can.
pub open spec fn layout_verdict(fs: FlatSamples<'_>) -> Result<(), LayoutError> {
    if fs.layout.channels != 1 {
        Err(LayoutError::UnsupportedChannels(fs.layout.channels))
    } else if fs.layout.width_stride != 1 {
        Err(LayoutError::UnsupportedWidthStride(fs.layout.width_stride))
    } else if fs.layout.height_stride < fs.layout.width {
        Err(
            LayoutError::OverlappingRows {
                height_stride: fs.layout.height_stride,
                width: fs.layout.width,
            },
        )
    } else if fs.layout.width == 0 || fs.layout.height == 0 {
        Ok(())
    } else if fs.samples@.len() < fs.layout.required() {
        Err(
            LayoutError::BufferTooSmall {
                required: if fs.layout.required() <= usize::MAX {
                    fs.layout.required() as usize
                } else {
                    usize::MAX
                },
                actual: fs.samples@.len() as usize,
            },
        )
    } else {
        Ok(())
    }
}

/// What `validate_dimensions` answers.
pub open spec fn dimensions_verdict(
    fs: FlatSamples<'_>,
    width: u32,
    height: u32,
) -> Result<(), TrackError> {
    if (fs.layout.width, fs.layout.height) != (width, height) {
        Err(
            TrackError::DimensionMismatch {
                expected: (width, height),
                actual: (fs.layout.width, fs.layout.height),
            },
        )
    } else {
        Ok(())
    }
}

/// What a pipeline of resolution `width` by `height` answers to a frame:
/// dimensions are checked before the layout.
pub open spec fn frame_verdict(
    fs: FlatSamples<'_>,
    width: u32,
    height: u32,
) -> Result<(), TrackError> {
    match dimensions_verdict(fs, width, height) {
        Err(err) => Err(err),
        Ok(()) => match layout_verdict(fs) {
            Err(err) => Err(TrackError::Layout(err)),
            Ok(()) => Ok(()),
        },
    }
}

/// Check the dimensions of a frame against those that are expected.
pub fn validate_dimensions(
    image: &FlatSamples<'_>,
    expected_width: u32,
    expected_height: u32,
) -> (r: Result<(), TrackError>)
    ensures
        r == dimensions_verdict(*image, expected_width, expected_height),
{
    if image.layout.width != expected_width || image.layout.height != expected_height {
        return Err(
            TrackError::DimensionMismatch {
                expected: (expected_width, expected_height),
                actual: (image.layout.width, image.layout.height),
            },
        );
    }
    Ok(())
}

/// Check that a frame has one channel of adjacent samples in rows that do not
/// overlap, and that its buffer holds all of them.
pub fn validate_layout(fs: &FlatSamples<'_>) -> (r: Result<(), LayoutError>)
    ensures
        r == layout_verdict(*fs),
        r is Ok <==> fs.is_valid(),
{
    if fs.layout.channels != 1 {
        return Err(LayoutError::UnsupportedChannels(fs.layout.channels));
    }
    if fs.layout.width_stride != 1 {
        return Err(LayoutError::UnsupportedWidthStride(fs.layout.width_stride));
    }
    let width: u32 = fs.layout.width;
    let height: u32 = fs.layout.height;
    if fs.layout.height_stride < width as usize {
        return Err(
            LayoutError::OverlappingRows { height_stride: fs.layout.height_stride, width },
        );
    }
    if width == 0 || height == 0 {
        return Ok(());
    }
    let actual: usize = fs.samples.len();
    let rows: usize = height as usize - 1;
    proof {
        assert(0 <= rows * fs.layout.height_stride) by (nonlinear_arith);
    }
    let required: usize = match rows.checked_mul(fs.layout.height_stride) {
        Some(n) => match n.checked_add(width as usize) {
            Some(required) => required,
            None => {
                return Err(LayoutError::BufferTooSmall { required: usize::MAX, actual });
            },
        },
        None => {
            return Err(LayoutError::BufferTooSmall { required: usize::MAX, actual });
        },
    };
    if actual < required {
        return Err(LayoutError::BufferTooSmall { required, actual });
    }
    Ok(())
}

/// Check a frame against the resolution of a pipeline.
pub fn validate_frame(image: &FlatSamples<'_>, width: u32, height: u32) -> (r: Result<
    (),
    TrackError,
>)
    ensures
        r == frame_verdict(*image, width, height),
        r is Ok ==> image.is_valid() && image.layout.width == width && image.layout.height
            == height,
{
    match validate_dimensions(image, width, height) {
        Err(err) => Err(err),
        Ok(()) => match validate_layout(image) {
            Err(err) => Err(TrackError::from(err)),
            Ok(()) => Ok(()),
        },
    }
}

/// A layout is accepted if it has one channel, adjacent samples and rows that do
/// not overlap, and every pixel of it is in the buffer.
pub proof fn lemma_layout_accepted(fs: FlatSamples<'_>)
    ensures
        layout_verdict(fs) is Ok <==> {
            &&& fs.layout.channels == 1
            &&& fs.layout.width_stride == 1
            &&& fs.layout.width <= fs.layout.height_stride
            &&& forall|x: int, y: int|
                0 <= x < fs.layout.width && 0 <= y < fs.layout.height ==> (
                #[trigger] (y * fs.layout.height_stride + x)) < fs.samples@.len()
        },
        layout_verdict(fs) is Ok <==> fs.is_valid(),
{
    let w = fs.layout.width as int;
    let h = fs.layout.height as int;
    let stride = fs.layout.height_stride as int;
    if layout_verdict(fs) is Ok {
        assert forall|x: int, y: int| 0 <= x < w && 0 <= y < h implies (#[trigger] (y * stride + x))
            < fs.samples@.len() by {
            assert(y * stride <= (h - 1) * stride) by (nonlinear_arith)
                requires
                    y <= h - 1,
                    0 <= stride,
            ;
        }
    } else if fs.layout.channels == 1 && fs.layout.width_stride == 1 && w <= stride {
        // The last pixel is not there.
        assert(0 <= w - 1 && 0 <= h - 1);
        assert((h - 1) * stride + (w - 1) >= fs.samples@.len());
    }
}

/// Which error a layout is refused with.
pub proof fn lemma_layout_refused(fs: FlatSamples<'_>)
    ensures
        fs.layout.channels != 1 ==> layout_verdict(fs) == Err::<(), LayoutError>(
            LayoutError::UnsupportedChannels(fs.layout.channels),
        ),
        fs.layout.channels == 1 && fs.layout.width_stride != 1 ==> layout_verdict(fs) == Err::<
            (),
            LayoutError,
        >(LayoutError::UnsupportedWidthStride(fs.layout.width_stride)),
        fs.layout.channels == 1 && fs.layout.width_stride == 1 && fs.layout.height_stride
            < fs.layout.width ==> layout_verdict(fs) == Err::<(), LayoutError>(
            LayoutError::OverlappingRows {
                height_stride: fs.layout.height_stride,
                width: fs.layout.width,
            },
        ),
        layout_verdict(fs) matches Err(LayoutError::BufferTooSmall { required, actual })
            ==> actual == fs.samples@.len() && actual <= required && (required < usize::MAX
            ==> required == (fs.layout.height - 1) * fs.layout.height_stride + fs.layout.width),
{
    assert(fs.samples@.len() == fs.samples.len());
}

/// A frame of other dimensions is refused whatever its layout, and one of the
/// right dimensions for its layout only.
pub proof fn lemma_frame_refused(fs: FlatSamples<'_>, width: u32, height: u32)
    ensures
        fs.layout.width != width || fs.layout.height != height ==> frame_verdict(fs, width, height)
            == Err::<(), TrackError>(
            TrackError::DimensionMismatch {
                expected: (width, height),
                actual: (fs.layout.width, fs.layout.height),
            },
        ),
        fs.layout.width == width && fs.layout.height == height ==> (frame_verdict(
            fs,
            width,
            height,
        ) is Ok <==> fs.is_valid()),
{
}

} // verus!
