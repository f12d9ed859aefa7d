//! Views of frames in sample buffers with a layout.
use vstd::prelude::*;

use crate::grid::{grid_of, lemma_index, lemma_place, Grid};

verus! {

/// Where the samples of an image stand in a buffer. Strides count samples.
#[derive(Clone, Copy, Debug, PartialEq, Eq, Structural)]
pub struct SampleLayout {
    /// Number of channels of the image.
    pub channels: u8,
    /// Distance to the sample of the next channel.
    pub channel_stride: usize,
    /// Width of the image.
    pub width: u32,
    /// Distance to the next sample in x-direction.
    pub width_stride: usize,
    /// Height of the image.
    pub height: u32,
    /// Distance to the next sample in y-direction.
    pub height_stride: usize,
}

/// Samples of one image, with their layout. The buffer may be a part of a
/// larger image, or the luma plane of a frame with padded rows.
#[derive(Clone, Copy, Debug)]
pub struct FlatSamples<'a> {
    pub samples: &'a [u8],
    pub layout: SampleLayout,
}

impl SampleLayout {
    /// Rows of a single channel, without gaps.
    pub open spec fn packed(width: u32, height: u32) -> SampleLayout {
        SampleLayout {
            channels: 1,
            channel_stride: 1,
            width,
            width_stride: 1,
            height,
            height_stride: width as usize,
        }
    }

    /// Number of samples up to the end of the last row of a single-channel
    /// image with adjacent samples.
    pub open spec fn required(self) -> int {
        (self.height - 1) * self.height_stride + self.width
    }

    /// One channel, adjacent samples, rows that do not overlap.
    pub open spec fn has_plain_rows(self) -> bool {
        &&& self.channels == 1
        &&& self.width_stride == 1
        &&& self.height_stride >= self.width
    }
}

impl<'a> FlatSamples<'a> {
    /// The layout can be consumed and the samples reach to its end.
    pub open spec fn is_valid(self) -> bool {
        &&& self.layout.has_plain_rows()
        &&& self.layout.width == 0 || self.layout.height == 0 || self.layout.required()
            <= self.samples@.len()
    }

    /// The image: its rows without the gaps between them.
    pub open spec fn grid(self) -> Grid<u8> {
        grid_of(
            self.layout.width as int,
            self.layout.height as int,
            |x: int, y: int| self.samples@[y * self.layout.height_stride + x],
        )
    }
}

/// Every sample of a valid view is in its buffer.
pub proof fn lemma_sample_in_buffer(fs: FlatSamples<'_>, x: int, y: int)
    requires
        fs.is_valid(),
        0 <= x < fs.layout.width,
        0 <= y < fs.layout.height,
    ensures
        0 <= y * fs.layout.height_stride <= y * fs.layout.height_stride + x < fs.samples@.len(),
        fs.grid().at(x, y) == fs.samples@[y * fs.layout.height_stride + x],
        fs.grid().is_exact(),
{
    let stride = fs.layout.height_stride as int;
    assert(0 <= y * stride) by (nonlinear_arith)
        requires
            0 <= y,
            0 <= stride,
    ;
    assert(y * stride <= (fs.layout.height - 1) * stride) by (nonlinear_arith)
        requires
            y <= fs.layout.height - 1,
            0 <= stride,
    ;
    lemma_index(fs.layout.width as int, fs.layout.height as int, x, y);
}

/// Two views show the same pixels.
pub open spec fn is_same_image(a: FlatSamples<'_>, b: FlatSamples<'_>) -> bool {
    &&& a.is_valid()
    &&& b.is_valid()
    &&& a.layout.width == b.layout.width
    &&& a.layout.height == b.layout.height
    &&& forall|x: int, y: int|
        0 <= x < a.layout.width && 0 <= y < a.layout.height ==> #[trigger] a.samples@[y
            * a.layout.height_stride + x] == b.samples@[y * b.layout.height_stride + x]
}

/// Views of the same pixels have the same image.
pub proof fn lemma_same_image(a: FlatSamples<'_>, b: FlatSamples<'_>)
    requires
        is_same_image(a, b),
    ensures
        a.grid() == b.grid(),
{
    let w = a.layout.width as int;
    let h = a.layout.height as int;
    assert forall|i: int| 0 <= i < w * h implies a.grid().samples[i] == b.grid().samples[i] by {
        lemma_place(w, h, i);
        assert(a.samples@[(i / w) * a.layout.height_stride + i % w] == b.samples@[(i / w)
            * b.layout.height_stride + i % w]);
    }
    assert(a.grid().samples =~= b.grid().samples);
}

/// The image of packed rows is the buffer up to its end.
pub proof fn lemma_packed_grid(fs: FlatSamples<'_>)
    requires
        fs.layout == SampleLayout::packed(fs.layout.width, fs.layout.height),
        fs.layout.width * fs.layout.height <= fs.samples@.len(),
    ensures
        fs.is_valid(),
        fs.grid().is_exact(),
        fs.grid().samples == fs.samples@.subrange(0, fs.layout.width * fs.layout.height),
{
    let w = fs.layout.width as int;
    let h = fs.layout.height as int;
    assert(0 <= w * h) by (nonlinear_arith)
        requires
            0 <= w,
            0 <= h,
    ;
    assert((h - 1) * w + w == w * h) by (nonlinear_arith);
    assert forall|i: int| 0 <= i < w * h implies fs.grid().samples[i] == fs.samples@[i] by {
        lemma_place(w, h, i);
    }
    assert(fs.grid().samples =~= fs.samples@.subrange(0, w * h));
}

/// The part of a grid that starts at `(left, top)`.
pub open spec fn cropped(g: Grid<u8>, left: int, top: int, width: int, height: int) -> Grid<u8> {
    grid_of(width, height, |x: int, y: int| g.at(left + x, top + y))
}

/// A part of an image can be viewed in the image's own buffer: the view starts
/// at the sample of its corner and has the image's rows.
pub proof fn lemma_subrect(g: Grid<u8>, fs: FlatSamples<'_>, left: int, top: int)
    requires
        g.is_complete(),
        0 <= left,
        0 <= top,
        0 < fs.layout.width <= g.width - left,
        0 < fs.layout.height <= g.height - top,
        fs.layout.channels == 1,
        fs.layout.width_stride == 1,
        fs.layout.height_stride == g.width,
        fs.samples@ == g.samples.subrange(top * g.width + left, g.samples.len() as int),
    ensures
        fs.is_valid(),
        fs.grid() == cropped(
            g,
            left,
            top,
            fs.layout.width as int,
            fs.layout.height as int,
        ),
{
    let stride = g.width;
    let w = fs.layout.width as int;
    let h = fs.layout.height as int;
    let start = top * stride + left;
    lemma_index(stride, g.height, left + w - 1, top + h - 1);
    lemma_index(stride, g.height, left, top);
    assert((top + h - 1) * stride == top * stride + (h - 1) * stride) by (nonlinear_arith);
    assert(fs.is_valid());
    assert forall|i: int| 0 <= i < w * h implies fs.grid().samples[i] == cropped(
        g,
        left,
        top,
        w,
        h,
    ).samples[i] by {
        lemma_place(w, h, i);
        let x = i % w;
        let y = i / w;
        lemma_sample_in_buffer(fs, x, y);
        assert((top + y) * stride == top * stride + y * stride) by (nonlinear_arith);
        assert(fs.samples@[y * stride + x] == g.samples[start + (y * stride + x)]);
    }
    assert(fs.grid().samples =~= cropped(g, left, top, w, h).samples);
}

} // verus!
