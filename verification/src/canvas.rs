//! A pixel buffer: an RGB image of the `image` crate behind a small set of
//! contracts. An image is modelled by its dimensions and by the map from
//! coordinates to colours.

use vstd::prelude::*;

verus! {

/// A colour: red, green and blue samples.
pub type Colour = (u8, u8, u8);

/// An 8-bit RGB image, held in an `image::RgbImage` that only this module
/// touches.
#[verifier::external_body]
pub struct Canvas {
    inner: image::RgbImage,
}

/// Width and height of the image, in pixels.
pub uninterp spec fn canvas_dimensions(canvas: Canvas) -> (nat, nat);

/// The colour at each coordinate `(x, y)` of the image, `x` counted from the
/// left and `y` from the top.
pub uninterp spec fn canvas_pixels(canvas: Canvas) -> Map<(int, int), Colour>;

/// `(x, y)` lies inside an image of the dimensions `dims`.
pub open spec fn inside(dims: (nat, nat), x: int, y: int) -> bool {
    0 <= x < dims.0 && 0 <= y < dims.1
}

/// An image of `width` by `height` pixels, three samples each, can be
/// allocated: the samples of one row can be counted in `usize`, and the
/// samples of all rows are no more than `isize::MAX`, the most a vector
/// holds.
pub open spec fn fits_memory(width: int, height: int) -> bool {
    &&& 3 * width <= usize::MAX
    &&& 3 * width * height <= isize::MAX
}

/// The pixels of a black image of the dimensions `dims`.
pub open spec fn blank_pixels(dims: (nat, nat)) -> Map<(int, int), Colour> {
    Map::new(|p: (int, int)| inside(dims, p.0, p.1), |p: (int, int)| (0u8, 0u8, 0u8))
}

/// `under` with the image `over` laid on it, the top left corner of `over`
/// at `(x, y)`.
pub open spec fn pasted(
    under: Map<(int, int), Colour>,
    over: Map<(int, int), Colour>,
    over_dims: (nat, nat),
    x: int,
    y: int,
) -> Map<(int, int), Colour> {
    Map::new(
        |p: (int, int)| under.contains_key(p),
        |p: (int, int)|
            if inside(over_dims, p.0 - x, p.1 - y) {
                over[(p.0 - x, p.1 - y)]
            } else {
                under[p]
            },
    )
}

/// One of the three samples of a colour.
pub open spec fn channel(colour: Colour, c: int) -> u8 {
    if c == 0 {
        colour.0
    } else if c == 1 {
        colour.1
    } else {
        colour.2
    }
}

/// The samples of an image in storage order: row after row from the top,
/// each row from the left, three samples per pixel.
pub open spec fn samples_of(pixels: Map<(int, int), Colour>, dims: (nat, nat)) -> Seq<u8> {
    Seq::new(
        3 * dims.0 * dims.1,
        |k: int| channel(pixels[((k / 3) % (dims.0 as int), (k / 3) / (dims.0 as int))], k % 3),
    )
}

/// In storage order the three samples of pixel `(x, y)` stand at
/// `3 * (y * width + x)` and the two places after it.
pub proof fn lemma_sample_at(
    pixels: Map<(int, int), Colour>,
    dims: (nat, nat),
    x: int,
    y: int,
    c: int,
)
    requires
        inside(dims, x, y),
        0 <= c < 3,
    ensures
        0 <= 3 * (y * dims.0 + x) + c < samples_of(pixels, dims).len(),
        samples_of(pixels, dims)[3 * (y * dims.0 + x) + c] == channel(pixels[(x, y)], c),
{
    let w = dims.0 as int;
    let h = dims.1 as int;
    let at = y * w + x;
    assert(0 <= at < w * h) by (nonlinear_arith)
        requires
            at == y * w + x,
            0 <= x < w,
            0 <= y < h,
    ;
    assert(3 * dims.0 * dims.1 == 3 * (w * h)) by (nonlinear_arith)
        requires
            w == dims.0,
            h == dims.1,
    ;
    let k = 3 * at + c;
    assert(k / 3 == at && k % 3 == c);
    vstd::arithmetic::div_mod::lemma_fundamental_div_mod_converse(at, w, y, x);
}

/// `image::ImageBuffer::new`: a buffer of the given size with every sample
/// zero. The crate multiplies three by the width and the product by the
/// height, and panics when either step leaves `usize`; the vector it then
/// makes panics above `isize::MAX` samples. The precondition keeps the row
/// and the whole within those bounds, also for an image without height.
#[verifier::external_body]
fn image_new(width: u32, height: u32) -> (canvas: Canvas)
    requires
        fits_memory(width as int, height as int),
    ensures
        canvas_dimensions(canvas) == (width as nat, height as nat),
        canvas_pixels(canvas) == blank_pixels((width as nat, height as nat)),
{
    Canvas { inner: image::RgbImage::new(width, height) }
}

/// `image::ImageBuffer::dimensions`: the width and height that the buffer was
/// made with.
#[verifier::external_body]
fn image_dimensions(canvas: &Canvas) -> (dims: (u32, u32))
    ensures
        (dims.0 as nat, dims.1 as nat) == canvas_dimensions(*canvas),
{
    canvas.inner.dimensions()
}

/// `image::ImageBuffer::get_pixel`: the colour stored at `(x, y)`. The call
/// panics outside the image, which the precondition rules out.
#[verifier::external_body]
fn image_get_pixel(canvas: &Canvas, x: u32, y: u32) -> (colour: Colour)
    requires
        inside(canvas_dimensions(*canvas), x as int, y as int),
    ensures
        colour == canvas_pixels(*canvas)[(x as int, y as int)],
{
    let pixel = canvas.inner.get_pixel(x, y);
    (pixel.data[0], pixel.data[1], pixel.data[2])
}

/// `image::ImageBuffer::put_pixel`: stores `colour` at `(x, y)` and leaves
/// every other pixel and the dimensions as they were. The call panics outside
/// the image, which the precondition rules out.
#[verifier::external_body]
fn image_put_pixel(canvas: &mut Canvas, x: u32, y: u32, colour: Colour)
    requires
        inside(canvas_dimensions(*old(canvas)), x as int, y as int),
    ensures
        canvas_dimensions(*final(canvas)) == canvas_dimensions(*old(canvas)),
        canvas_pixels(*final(canvas)) == canvas_pixels(*old(canvas)).insert(
            (x as int, y as int),
            colour,
        ),
{
    canvas.inner.put_pixel(x, y, image::Rgb { data: [colour.0, colour.1, colour.2] });
}

/// `image::GenericImage::copy_from`: copies every pixel of `other` into
/// `canvas`, the top left corner of `other` at `(x, y)`, and answers `true`;
/// or, when `other` so placed reaches beyond `canvas`, changes nothing and
/// answers `false`. The crate adds `x` and `y` to the size of `other` in
/// `u32`; the precondition keeps those sums in range.
#[verifier::external_body]
fn image_copy_from(canvas: &mut Canvas, other: &Canvas, x: u32, y: u32) -> (copied: bool)
    requires
        canvas_dimensions(*other).0 + x <= u32::MAX,
        canvas_dimensions(*other).1 + y <= u32::MAX,
    ensures
        copied == (canvas_dimensions(*other).0 + x <= canvas_dimensions(*old(canvas)).0
            && canvas_dimensions(*other).1 + y <= canvas_dimensions(*old(canvas)).1),
        canvas_dimensions(*final(canvas)) == canvas_dimensions(*old(canvas)),
        canvas_pixels(*final(canvas)) == if copied {
            pasted(
                canvas_pixels(*old(canvas)),
                canvas_pixels(*other),
                canvas_dimensions(*other),
                x as int,
                y as int,
            )
        } else {
            canvas_pixels(*old(canvas))
        },
{
    image::GenericImage::copy_from(&mut canvas.inner, &other.inner, x, y)
}

/// `image::ImageBuffer::into_raw`: the samples of the image in storage
/// order, exactly three for each pixel.
#[verifier::external_body]
fn image_into_raw(canvas: Canvas) -> (raw: Vec<u8>)
    ensures
        raw@ == samples_of(canvas_pixels(canvas), canvas_dimensions(canvas)),
{
    canvas.inner.into_raw()
}

/// Can an image of `width` by `height` pixels be allocated?
pub fn can_allocate(width: u32, height: u32) -> (fits: bool)
    ensures
        fits == fits_memory(width as int, height as int),
{
    assert(3 * width * height <= 3 * 0xffff_ffff * 0xffff_ffff) by (nonlinear_arith)
        requires
            width <= 0xffff_ffff,
            height <= 0xffff_ffff,
    ;
    let row: u128 = 3 * (width as u128);
    row <= usize::MAX as u128 && row * (height as u128) <= isize::MAX as u128
}

impl Canvas {
    /// Width in pixels.
    pub open spec fn spec_width(&self) -> nat {
        canvas_dimensions(*self).0
    }

    /// Height in pixels.
    pub open spec fn spec_height(&self) -> nat {
        canvas_dimensions(*self).1
    }

    /// The colour at `(x, y)`.
    pub open spec fn spec_pixel(&self, x: int, y: int) -> Colour {
        canvas_pixels(*self)[(x, y)]
    }

    /// A black image of `width` by `height` pixels.
    pub fn new(width: u32, height: u32) -> (canvas: Canvas)
        requires
            fits_memory(width as int, height as int),
        ensures
            canvas_dimensions(canvas) == (width as nat, height as nat),
            canvas_pixels(canvas) == blank_pixels((width as nat, height as nat)),
    {
        image_new(width, height)
    }

    /// Width in pixels.
    pub fn width(&self) -> (w: u32)
        ensures
            w == self.spec_width(),
    {
        image_dimensions(self).0
    }

    /// Height in pixels.
    pub fn height(&self) -> (h: u32)
        ensures
            h == self.spec_height(),
    {
        image_dimensions(self).1
    }

    /// The colour at `(x, y)`, or `None` outside the image.
    pub fn pixel(&self, x: u32, y: u32) -> (colour: Option<Colour>)
        ensures
            colour == if inside(canvas_dimensions(*self), x as int, y as int) {
                Some(self.spec_pixel(x as int, y as int))
            } else {
                None
            },
    {
        let (width, height) = image_dimensions(self);
        if x < width && y < height {
            Some(image_get_pixel(self, x, y))
        } else {
            None
        }
    }

    /// Stores `colour` at `(x, y)` and answers `true`; outside the image it
    /// changes nothing and answers `false`.
    pub fn set_pixel(&mut self, x: u32, y: u32, colour: Colour) -> (stored: bool)
        ensures
            stored == inside(canvas_dimensions(*old(self)), x as int, y as int),
            canvas_dimensions(*final(self)) == canvas_dimensions(*old(self)),
            canvas_pixels(*final(self)) == if stored {
                canvas_pixels(*old(self)).insert((x as int, y as int), colour)
            } else {
                canvas_pixels(*old(self))
            },
    {
        let (width, height) = image_dimensions(self);
        if x < width && y < height {
            image_put_pixel(self, x, y, colour);
            true
        } else {
            false
        }
    }

    /// Lays `other` on this image, its top left corner at `(x, y)`, and
    /// answers `true`; when `other` does not fit there, changes nothing and
    /// answers `false`.
    pub fn paste(&mut self, other: &Canvas, x: u32, y: u32) -> (copied: bool)
        ensures
            copied == (other.spec_width() + x <= old(self).spec_width() && other.spec_height() + y
                <= old(self).spec_height()),
            canvas_dimensions(*final(self)) == canvas_dimensions(*old(self)),
            canvas_pixels(*final(self)) == if copied {
                pasted(
                    canvas_pixels(*old(self)),
                    canvas_pixels(*other),
                    canvas_dimensions(*other),
                    x as int,
                    y as int,
                )
            } else {
                canvas_pixels(*old(self))
            },
    {
        let (width, height) = image_dimensions(self);
        let (other_width, other_height) = image_dimensions(other);
        if other_width as u64 + x as u64 > width as u64 || other_height as u64 + y as u64
            > height as u64 {
            return false;
        }
        image_copy_from(self, other, x, y)
    }

    /// The samples of the image in storage order, three for each pixel.
    pub fn into_samples(self) -> (raw: Vec<u8>)
        ensures
            raw@ == samples_of(canvas_pixels(self), canvas_dimensions(self)),
    {
        image_into_raw(self)
    }
}

} // verus!
