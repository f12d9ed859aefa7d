//! Grayscale images and gradient planes in buffers of the `image` crate.
//!
//! The buffers are opaque here: what they hold is named by `gray_samples` and
//! `plane_samples`, their dimensions by `gray_size` and `plane_size`, and the
//! functions at the end of the module say what the crate's methods do to both.
use image::Luma;
use vstd::prelude::*;

use crate::flat::{lemma_packed_grid, FlatSamples, SampleLayout};
use crate::grid::Grid;

verus! {

/// An 8-bit grayscale image.
#[verifier::external_body]
pub struct GrayImage {
    inner: image::GrayImage,
}

/// A plane of 16-bit gradients, one per pixel.
#[verifier::external_body]
pub struct GradPlane {
    inner: image::ImageBuffer<Luma<i16>, Vec<i16>>,
}

/// The samples in the buffer of an image, row after row.
pub uninterp spec fn gray_samples(img: GrayImage) -> Seq<u8>;

/// Width and height of an image.
pub uninterp spec fn gray_size(img: GrayImage) -> (u32, u32);

/// The samples in the buffer of a plane, row after row.
pub uninterp spec fn plane_samples(plane: GradPlane) -> Seq<i16>;

/// Width and height of a plane.
pub uninterp spec fn plane_size(plane: GradPlane) -> (u32, u32);

/// An image as rows of samples.
pub open spec fn gray(img: GrayImage) -> Grid<u8> {
    Grid {
        width: gray_size(img).0 as int,
        height: gray_size(img).1 as int,
        samples: gray_samples(img),
    }
}

/// A plane as rows of samples.
pub open spec fn plane(p: GradPlane) -> Grid<i16> {
    Grid {
        width: plane_size(p).0 as int,
        height: plane_size(p).1 as int,
        samples: plane_samples(p),
    }
}

/// `width * height` samples of one value.
pub open spec fn uniform<T>(width: int, height: int, value: T) -> Grid<T> {
    Grid { width, height, samples: Seq::new((width * height) as nat, |i: int| value) }
}

proof fn lemma_area(width: u32, height: u32)
    ensures
        0 <= width * height,
{
    assert(0 <= width * height) by (nonlinear_arith);
}

impl GrayImage {
    /// A black image.
    pub fn new(width: u32, height: u32) -> (img: GrayImage)
        requires
            width * height <= isize::MAX,
        ensures
            gray(img) == uniform(width as int, height as int, 0u8),
            gray(img).is_exact(),
    {
        proof {
            lemma_area(width, height);
        }
        gray_new(width, height)
    }

    /// An image of the samples in `raw`, if there are enough of them.
    pub fn from_raw(width: u32, height: u32, raw: Vec<u8>) -> (r: Option<GrayImage>)
        ensures
            r is Some <==> width * height <= raw@.len(),
            r matches Some(img) ==> gray(img) == (Grid {
                width: width as int,
                height: height as int,
                samples: raw@,
            }) && gray(img).is_complete(),
    {
        gray_from_raw(width, height, raw)
    }

    /// Width and height.
    pub fn dimensions(&self) -> (r: (u32, u32))
        ensures
            r == gray_size(*self),
            gray(*self).is_complete(),
    {
        gray_dimensions(self)
    }

    /// The pixel in column `x` of row `y`.
    pub fn get_pixel(&self, x: u32, y: u32) -> (v: u8)
        requires
            gray(*self).contains(x as int, y as int),
        ensures
            v == gray(*self).at(x as int, y as int),
    {
        gray_get(self, x, y)
    }

    /// Change the pixel in column `x` of row `y`.
    pub fn put_pixel(&mut self, x: u32, y: u32, v: u8)
        requires
            gray(*old(self)).contains(x as int, y as int),
        ensures
            gray_size(*final(self)) == gray_size(*old(self)),
            gray_samples(*final(self)) == gray_samples(*old(self)).update(
                y * gray_size(*old(self)).0 + x,
                v,
            ),
    {
        gray_put(self, x, y, v)
    }

    /// The buffer of the image, row after row.
    pub fn as_raw(&self) -> (raw: &Vec<u8>)
        ensures
            raw@ == gray_samples(*self),
    {
        gray_raw(self)
    }

    /// A view of the whole image.
    pub fn as_flat_samples(&self) -> (fs: FlatSamples<'_>)
        ensures
            fs.samples@ == gray_samples(*self),
            fs.layout == SampleLayout::packed(gray_size(*self).0, gray_size(*self).1),
            fs.is_valid(),
            fs.grid() == gray(*self).trimmed(),
    {
        let fs: FlatSamples<'_> = gray_flat_samples(self);
        proof {
            lemma_packed_grid(fs);
        }
        fs
    }
}

impl GradPlane {
    /// A plane of zeros.
    pub fn new(width: u32, height: u32) -> (p: GradPlane)
        requires
            2 * (width * height) <= isize::MAX,
        ensures
            plane(p) == uniform(width as int, height as int, 0i16),
            plane(p).is_exact(),
    {
        proof {
            lemma_area(width, height);
        }
        plane_new(width, height)
    }

    /// A plane of the gradients in `raw`, if there are enough of them.
    pub fn from_raw(width: u32, height: u32, raw: Vec<i16>) -> (r: Option<GradPlane>)
        ensures
            r is Some <==> width * height <= raw@.len(),
            r matches Some(p) ==> plane(p) == (Grid {
                width: width as int,
                height: height as int,
                samples: raw@,
            }) && plane(p).is_complete(),
    {
        plane_from_raw(width, height, raw)
    }

    /// Width and height.
    pub fn dimensions(&self) -> (r: (u32, u32))
        ensures
            r == plane_size(*self),
            plane(*self).is_complete(),
    {
        plane_dimensions(self)
    }

    /// The buffer of the plane, row after row.
    pub fn as_raw(&self) -> (raw: &Vec<i16>)
        ensures
            raw@ == plane_samples(*self),
    {
        plane_raw(self)
    }
}

/// `ImageBuffer::new` on 8-bit samples: an image of the given size, all zero.
/// It panics where the samples do not fit a vector.
#[verifier::external_body]
pub(crate) fn gray_new(width: u32, height: u32) -> (img: GrayImage)
    requires
        width * height <= isize::MAX,
    ensures
        gray_size(img) == (width, height),
        gray_samples(img) == Seq::new((width * height) as nat, |i: int| 0u8),
{
    GrayImage { inner: image::GrayImage::new(width, height) }
}

/// `ImageBuffer::from_raw` on 8-bit samples: the vector becomes the buffer of
/// the image; none where it holds fewer samples than the image has pixels.
#[verifier::external_body]
pub(crate) fn gray_from_raw(width: u32, height: u32, raw: Vec<u8>) -> (r: Option<GrayImage>)
    ensures
        r is Some <==> width * height <= raw@.len(),
        r matches Some(img) ==> gray_size(img) == (width, height) && gray_samples(img) == raw@,
{
    image::GrayImage::from_raw(width, height, raw).map(|inner| GrayImage { inner })
}

/// `ImageBuffer::dimensions` on an image. No buffer holds fewer samples than
/// its image has pixels: every constructor sees to that.
#[verifier::external_body]
pub(crate) fn gray_dimensions(img: &GrayImage) -> (r: (u32, u32))
    ensures
        r == gray_size(*img),
        r.0 * r.1 <= gray_samples(*img).len(),
{
    img.inner.dimensions()
}

/// `ImageBuffer::get_pixel` on an image: rows stand one after the other. It
/// panics outside the image.
#[verifier::external_body]
pub(crate) fn gray_get(img: &GrayImage, x: u32, y: u32) -> (v: u8)
    requires
        x < gray_size(*img).0,
        y < gray_size(*img).1,
    ensures
        v == gray_samples(*img)[y * gray_size(*img).0 + x],
{
    img.inner.get_pixel(x, y).0[0]
}

/// `ImageBuffer::get_pixel_checked` on an image: none beyond the end of a row
/// and beyond the end of the buffer.
#[verifier::external_body]
pub(crate) fn gray_get_checked(img: &GrayImage, x: u32, y: u32) -> (r: Option<u8>)
    ensures
        r == gray(*img).tap(x as int, y as int),
{
    img.inner.get_pixel_checked(x, y).map(|p| p.0[0])
}

/// `ImageBuffer::put_pixel` on an image: one sample changes. It panics outside
/// the image.
#[verifier::external_body]
pub(crate) fn gray_put(img: &mut GrayImage, x: u32, y: u32, v: u8)
    requires
        x < gray_size(*old(img)).0,
        y < gray_size(*old(img)).1,
    ensures
        gray_size(*final(img)) == gray_size(*old(img)),
        gray_samples(*final(img)) == gray_samples(*old(img)).update(
            y * gray_size(*old(img)).0 + x,
            v,
        ),
{
    img.inner.put_pixel(x, y, Luma([v]));
}

/// `ImageBuffer::as_raw` on an image: its whole buffer.
#[verifier::external_body]
pub(crate) fn gray_raw(img: &GrayImage) -> (raw: &Vec<u8>)
    ensures
        raw@ == gray_samples(*img),
{
    img.inner.as_raw()
}

/// `ImageBuffer::as_flat_samples` on an image: its whole buffer, with the
/// layout of packed rows, which the buffer holds to their end.
#[verifier::external_body]
pub(crate) fn gray_flat_samples(img: &GrayImage) -> (fs: FlatSamples<'_>)
    ensures
        fs.samples@ == gray_samples(*img),
        fs.layout == SampleLayout::packed(gray_size(*img).0, gray_size(*img).1),
        fs.layout.width * fs.layout.height <= fs.samples@.len(),
{
    let flat = img.inner.as_flat_samples();
    let layout = SampleLayout {
        channels: flat.layout.channels,
        channel_stride: flat.layout.channel_stride,
        width: flat.layout.width,
        width_stride: flat.layout.width_stride,
        height: flat.layout.height,
        height_stride: flat.layout.height_stride,
    };
    FlatSamples { samples: flat.samples, layout }
}

/// `ImageBuffer::new` on 16-bit samples: a plane of the given size, all zero.
/// It panics where the samples do not fit a vector.
#[verifier::external_body]
pub(crate) fn plane_new(width: u32, height: u32) -> (p: GradPlane)
    requires
        2 * (width * height) <= isize::MAX,
    ensures
        plane_size(p) == (width, height),
        plane_samples(p) == Seq::new((width * height) as nat, |i: int| 0i16),
{
    GradPlane { inner: image::ImageBuffer::new(width, height) }
}

/// `ImageBuffer::from_raw` on 16-bit samples: the vector becomes the buffer of
/// the plane; none where it holds fewer samples than the plane has places.
#[verifier::external_body]
pub(crate) fn plane_from_raw(width: u32, height: u32, raw: Vec<i16>) -> (r: Option<GradPlane>)
    ensures
        r is Some <==> width * height <= raw@.len(),
        r matches Some(p) ==> plane_size(p) == (width, height) && plane_samples(p) == raw@,
{
    image::ImageBuffer::from_raw(width, height, raw).map(|inner| GradPlane { inner })
}

/// `ImageBuffer::into_raw` on a plane: its whole buffer.
#[verifier::external_body]
pub(crate) fn plane_into_raw(p: GradPlane) -> (raw: Vec<i16>)
    ensures
        raw@ == plane_samples(p),
{
    p.inner.into_raw()
}

/// `ImageBuffer::dimensions` on a plane. No buffer holds fewer samples than
/// its plane has places: every constructor sees to that.
#[verifier::external_body]
pub(crate) fn plane_dimensions(p: &GradPlane) -> (r: (u32, u32))
    ensures
        r == plane_size(*p),
        r.0 * r.1 <= plane_samples(*p).len(),
{
    p.inner.dimensions()
}

/// `ImageBuffer::get_pixel` on a plane: rows stand one after the other. It
/// panics outside the plane.
#[verifier::external_body]
pub(crate) fn plane_get(p: &GradPlane, x: u32, y: u32) -> (v: i16)
    requires
        x < plane_size(*p).0,
        y < plane_size(*p).1,
    ensures
        v == plane_samples(*p)[y * plane_size(*p).0 + x],
{
    p.inner.get_pixel(x, y).0[0]
}

/// `ImageBuffer::get_pixel_checked` on a plane: none beyond the end of a row
/// and beyond the end of the buffer.
#[verifier::external_body]
pub(crate) fn plane_get_checked(p: &GradPlane, x: u32, y: u32) -> (r: Option<i16>)
    ensures
        r == plane(*p).tap(x as int, y as int),
{
    p.inner.get_pixel_checked(x, y).map(|v| v.0[0])
}

/// `ImageBuffer::put_pixel` on a plane: one sample changes. It panics outside
/// the plane.
#[verifier::external_body]
pub(crate) fn plane_put(p: &mut GradPlane, x: u32, y: u32, v: i16)
    requires
        x < plane_size(*old(p)).0,
        y < plane_size(*old(p)).1,
    ensures
        plane_size(*final(p)) == plane_size(*old(p)),
        plane_samples(*final(p)) == plane_samples(*old(p)).update(y * plane_size(*old(p)).0 + x, v),
{
    p.inner.put_pixel(x, y, Luma([v]));
}

/// `ImageBuffer::as_raw` on a plane: its whole buffer.
#[verifier::external_body]
pub(crate) fn plane_raw(p: &GradPlane) -> (raw: &Vec<i16>)
    ensures
        raw@ == plane_samples(*p),
{
    p.inner.as_raw()
}

/// `fill` on the samples that `ImageBuffer::deref_mut` gives: every sample in
/// the buffer of the plane becomes `v`.
#[verifier::external_body]
pub(crate) fn plane_fill(p: &mut GradPlane, v: i16)
    ensures
        plane_size(*final(p)) == plane_size(*old(p)),
        plane_samples(*final(p)) == Seq::new(plane_samples(*old(p)).len(), |i: int| v),
{
    p.inner.fill(v);
}

} // verus!
