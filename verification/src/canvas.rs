//! The image that keypoints are drawn on: a buffer of the `image` crate,
//! reached through a handful of calls whose contracts are taken on trust.
use vstd::prelude::*;

verus! {

/// Red, green and blue.
pub type Color = (u8, u8, u8);

/// The largest coordinate that the drawing calls are handed: the end of a
/// line, or a circle's centre plus its radius. The calls do their sums in
/// `i32`, and a line takes one step a pixel; up to here no sum can pass the
/// range of an `i32`, whatever the steps round to.
pub const MAX_DRAW_COORDINATE: i32 = 0x2000_0000;

/// An image of red, green and blue bytes.
///
/// Trusted: holds an `image::RgbImage`, which is opaque here. Every canvas is
/// made by `ImageBuffer::from_raw` or `ImageBuffer::new`.
#[verifier::external_body]
pub struct Canvas {
    image: image::RgbImage,
}

/// Width and height of a canvas.
pub uninterp spec fn shape_of(canvas: Canvas) -> (u32, u32);

/// The pixels of a canvas, row by row.
pub uninterp spec fn pixels_of(canvas: Canvas) -> Seq<(u8, u8, u8)>;

/// The pixels of an image of the given width and height after
/// `draw_filled_circle_mut` has drawn on it.
pub uninterp spec fn with_disc(
    pixels: Seq<(u8, u8, u8)>,
    shape: (u32, u32),
    center: (i32, i32),
    radius: i32,
    color: (u8, u8, u8),
) -> Seq<(u8, u8, u8)>;

/// The pixels of an image of the given width and height after
/// `draw_line_segment_mut` has drawn on it.
pub uninterp spec fn with_segment(
    pixels: Seq<(u8, u8, u8)>,
    shape: (u32, u32),
    start: (i32, i32),
    end: (i32, i32),
    color: (u8, u8, u8),
) -> Seq<(u8, u8, u8)>;

/// Whether a canvas of this shape over these pixels is one: it has a pixel
/// for every place.
pub open spec fn fills(pixels: Seq<(u8, u8, u8)>, shape: (u32, u32)) -> bool {
    pixels.len() == shape.0 * shape.1
}

/// The pixel that three bytes of a buffer make, from byte `at` on.
pub open spec fn pixel_at(bytes: Seq<u8>, at: int) -> (u8, u8, u8) {
    (bytes[at], bytes[at + 1], bytes[at + 2])
}

/// Whether a coordinate is one that the drawing calls are known to take.
pub open spec fn drawable(v: int) -> bool {
    0 <= v <= MAX_DRAW_COORDINATE
}

/// Whether the machine can count the bytes of one row of `width` pixels.
pub open spec fn row_fits(width: u32) -> bool {
    3 * width <= usize::MAX
}

/// Whether a buffer of `len` bytes holds an image of the given size, three
/// bytes a pixel, and the machine can count the bytes of a row.
pub open spec fn holds_image(len: nat, width: u32, height: u32) -> bool {
    row_fits(width) && 3 * (width * height) <= len
}

/// Trusted: `ImageBuffer::from_raw`. It multiplies three by the width and
/// that by the height, each time checked, and accepts the buffer if and only
/// if it holds as many bytes; it reads the pixels from it row by row, three
/// bytes each.
#[verifier::external_body]
fn buffer_from_raw(width: u32, height: u32, bytes: Vec<u8>) -> (made: Option<Canvas>)
    ensures
        made is Some <==> holds_image(bytes@.len(), width, height),
        made matches Some(canvas) ==> {
            &&& shape_of(canvas) == (width, height)
            &&& fills(pixels_of(canvas), (width, height))
            &&& forall|p: int| 0 <= p < width * height ==> #[trigger] pixels_of(canvas)[p] == pixel_at(bytes@, 3 * p)
        },
{
    image::RgbImage::from_raw(width, height, bytes).map(|image| Canvas { image })
}

/// Trusted: `ImageBuffer::into_raw`. The buffer starts with the pixels, row
/// by row, three bytes each.
#[verifier::external_body]
fn buffer_into_raw(canvas: Canvas) -> (bytes: Vec<u8>)
    ensures
        3 * pixels_of(canvas).len() <= bytes@.len(),
        forall|p: int| 0 <= p < pixels_of(canvas).len() ==> pixel_at(bytes@, 3 * p) == #[trigger] pixels_of(canvas)[p],
{
    canvas.image.into_raw()
}

/// Trusted: `ImageBuffer::new`, which panics where three bytes a pixel are
/// more than a vector holds, or three bytes times the width more than the
/// machine counts. The new image is black.
#[verifier::external_body]
fn buffer_new(width: u32, height: u32) -> (canvas: Canvas)
    requires
        row_fits(width),
        3 * (width * height) <= isize::MAX,
    ensures
        shape_of(canvas) == (width, height),
        fills(pixels_of(canvas), (width, height)),
        forall|p: int| 0 <= p < width * height ==> #[trigger] pixels_of(canvas)[p] == (0u8, 0u8, 0u8),
{
    Canvas { image: image::RgbImage::new(width, height) }
}

/// Trusted: `ImageBuffer::dimensions`. An image has a pixel for every place.
#[verifier::external_body]
pub(crate) fn buffer_dimensions(canvas: &Canvas) -> (shape: (u32, u32))
    ensures
        shape == shape_of(*canvas),
        fills(pixels_of(*canvas), shape),
{
    canvas.image.dimensions()
}

/// Trusted: `ImageBuffer::get_pixel`, which panics outside the image.
#[verifier::external_body]
pub(crate) fn buffer_get_pixel(canvas: &Canvas, x: u32, y: u32) -> (color: Color)
    requires
        x < shape_of(*canvas).0,
        y < shape_of(*canvas).1,
    ensures
        color == pixels_of(*canvas)[y * shape_of(*canvas).0 + x],
{
    let pixel = canvas.image.get_pixel(x, y);
    (pixel.0[0], pixel.0[1], pixel.0[2])
}

/// Trusted: `ImageBuffer::put_pixel`, which panics outside the image. It
/// changes the one pixel.
#[verifier::external_body]
pub(crate) fn buffer_put_pixel(canvas: &mut Canvas, x: u32, y: u32, color: Color)
    requires
        x < shape_of(*old(canvas)).0,
        y < shape_of(*old(canvas)).1,
    ensures
        shape_of(*final(canvas)) == shape_of(*old(canvas)),
        pixels_of(*final(canvas)) == pixels_of(*old(canvas)).update(
            y * shape_of(*old(canvas)).0 + x,
            color,
        ),
{
    canvas.image.put_pixel(x, y, image::Rgb([color.0, color.1, color.2]))
}

/// Trusted: `imageproc::drawing::draw_filled_circle_mut`. It adds and
/// subtracts the radius and the centre in `i32`, and walks from one to the
/// other along every row, so the centre plus the radius is held to a range
/// in which that cannot overflow. It leaves the size of the image alone; the
/// pixels it leaves are given a name, not stated.
#[verifier::external_body]
pub(crate) fn buffer_fill_circle(canvas: &mut Canvas, center: (i32, i32), radius: i32, color: Color)
    requires
        0 <= center.0,
        0 <= center.1,
        0 <= radius,
        drawable(center.0 + radius),
        drawable(center.1 + radius),
    ensures
        shape_of(*final(canvas)) == shape_of(*old(canvas)),
        pixels_of(*final(canvas)) == with_disc(
            pixels_of(*old(canvas)),
            shape_of(*old(canvas)),
            center,
            radius,
            color,
        ),
{
    imageproc::drawing::draw_filled_circle_mut(
        &mut canvas.image,
        center,
        radius,
        image::Rgb([color.0, color.1, color.2]),
    )
}

/// Trusted: `imageproc::drawing::draw_line_segment_mut`. It walks from one
/// end to the other in steps of one pixel along the longer axis, and moves
/// by one pixel at most along the other with every step, counting in `i32`;
/// both ends are held to a range in which neither count can overflow. It
/// leaves the size of the image alone; the pixels it leaves are given a
/// name, not stated.
#[verifier::external_body]
pub(crate) fn buffer_draw_segment(canvas: &mut Canvas, start: (i32, i32), end: (i32, i32), color: Color)
    requires
        drawable(start.0 as int),
        drawable(start.1 as int),
        drawable(end.0 as int),
        drawable(end.1 as int),
    ensures
        shape_of(*final(canvas)) == shape_of(*old(canvas)),
        pixels_of(*final(canvas)) == with_segment(
            pixels_of(*old(canvas)),
            shape_of(*old(canvas)),
            start,
            end,
            color,
        ),
{
    imageproc::drawing::draw_line_segment_mut(
        &mut canvas.image,
        (start.0 as _, start.1 as _),
        (end.0 as _, end.1 as _),
        image::Rgb([color.0, color.1, color.2]),
    )
}

impl Canvas {
    /// The canvas of the given size whose pixels are `bytes`, row by row,
    /// three bytes each, if there are as many bytes as that takes and the
    /// machine can count the bytes of a row.
    pub fn from_rgb_bytes(width: u32, height: u32, bytes: Vec<u8>) -> (made: Option<Canvas>)
        ensures
            made is Some <==> row_fits(width) && bytes@.len() == 3 * (width * height),
            made matches Some(canvas) ==> {
                &&& shape_of(canvas) == (width, height)
                &&& fills(pixels_of(canvas), (width, height))
                &&& forall|p: int| 0 <= p < width * height ==> #[trigger] pixels_of(canvas)[p] == pixel_at(bytes@, 3 * p)
            },
    {
        assert(width * height <= 0xffff_ffff * 0xffff_ffff) by (nonlinear_arith)
            requires
                width <= 0xffff_ffff,
                height <= 0xffff_ffff,
        ;
        let wanted: u128 = 3 * ((width as u128) * (height as u128));
        if 3 * (width as u128) <= usize::MAX as u128 && bytes.len() as u128 == wanted {
            buffer_from_raw(width, height, bytes)
        } else {
            None
        }
    }

    /// A black canvas of the given size, if a vector can hold it and the
    /// machine can count the bytes of a row.
    pub fn blank(width: u32, height: u32) -> (made: Option<Canvas>)
        ensures
            made is Some <==> row_fits(width) && 3 * (width * height) <= isize::MAX,
            made matches Some(canvas) ==> {
                &&& shape_of(canvas) == (width, height)
                &&& fills(pixels_of(canvas), (width, height))
                &&& forall|p: int| 0 <= p < width * height ==> #[trigger] pixels_of(canvas)[p] == (0u8, 0u8, 0u8)
            },
    {
        assert(width * height <= 0xffff_ffff * 0xffff_ffff) by (nonlinear_arith)
            requires
                width <= 0xffff_ffff,
                height <= 0xffff_ffff,
        ;
        let wanted: u128 = 3 * ((width as u128) * (height as u128));
        if 3 * (width as u128) <= usize::MAX as u128 && wanted <= isize::MAX as u128 {
            Some(buffer_new(width, height))
        } else {
            None
        }
    }

    pub fn width(&self) -> (w: u32)
        ensures
            w == shape_of(*self).0,
    {
        buffer_dimensions(self).0
    }

    pub fn height(&self) -> (h: u32)
        ensures
            h == shape_of(*self).1,
    {
        buffer_dimensions(self).1
    }

    /// Width and height.
    pub fn dimensions(&self) -> (shape: (u32, u32))
        ensures
            shape == shape_of(*self),
            fills(pixels_of(*self), shape),
    {
        buffer_dimensions(self)
    }

    /// The pixel in column `x` of row `y`, if the canvas has one there.
    pub fn pixel(&self, x: u32, y: u32) -> (color: Option<Color>)
        ensures
            color is Some <==> x < shape_of(*self).0 && y < shape_of(*self).1,
            color matches Some(c) ==> c == pixels_of(*self)[y * shape_of(*self).0 + x],
    {
        let (width, height) = buffer_dimensions(self);
        if x < width && y < height {
            Some(buffer_get_pixel(self, x, y))
        } else {
            None
        }
    }

    /// Sets the pixel in column `x` of row `y`, if the canvas has one there.
    pub fn set_pixel(&mut self, x: u32, y: u32, color: Color)
        ensures
            shape_of(*final(self)) == shape_of(*old(self)),
            pixels_of(*final(self)) == if x < shape_of(*old(self)).0 && y < shape_of(*old(self)).1 {
                pixels_of(*old(self)).update(y * shape_of(*old(self)).0 + x, color)
            } else {
                pixels_of(*old(self))
            },
    {
        let (width, height) = buffer_dimensions(self);
        if x < width && y < height {
            buffer_put_pixel(self, x, y, color);
        }
    }

    /// The pixels as bytes, row by row, three bytes each.
    pub fn into_rgb_bytes(self) -> (bytes: Vec<u8>)
        ensures
            bytes@.len() == 3 * pixels_of(self).len(),
            forall|p: int| 0 <= p < pixels_of(self).len() ==> pixel_at(bytes@, 3 * p) == #[trigger] pixels_of(self)[p],
    {
        let (width, height) = buffer_dimensions(&self);
        let ghost pixels = pixels_of(self);
        let mut bytes = buffer_into_raw(self);
        assert(width * height <= 0xffff_ffff * 0xffff_ffff) by (nonlinear_arith)
            requires
                width <= 0xffff_ffff,
                height <= 0xffff_ffff,
        ;
        let wanted: u128 = 3 * ((width as u128) * (height as u128));
        bytes.truncate(wanted as usize);
        assert forall|p: int| 0 <= p < pixels.len() implies pixel_at(bytes@, 3 * p) == #[trigger] pixels[p] by {
        }
        bytes
    }
}

} // verus!
