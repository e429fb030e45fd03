//! The picture that a screen is painted on, and its PNG encoding.

use vstd::prelude::*;

verus! {

/// Red, green, blue and opacity.
pub type Pixel = (u8, u8, u8, u8);

/// A picture: its size, and the pixel at each column and row.
#[verifier::ext_equal]
pub struct Picture {
    pub width: nat,
    pub height: nat,
    pub pixels: Map<(int, int), Pixel>,
}

impl Picture {
    /// Whether a column and row lie in the picture.
    pub open spec fn holds(self, x: int, y: int) -> bool {
        0 <= x < self.width && 0 <= y < self.height
    }

    /// A picture has exactly the pixels that lie in it.
    pub open spec fn wf(self) -> bool {
        forall|x: int, y: int| #[trigger]
            self.pixels.contains_key((x, y)) <==> self.holds(x, y)
    }
}

/// A picture of one color.
pub open spec fn plain(width: nat, height: nat, pixel: Pixel) -> Picture {
    Picture {
        width,
        height,
        pixels: Map::new(
            |p: (int, int)| 0 <= p.0 < width && 0 <= p.1 < height,
            |p: (int, int)| pixel,
        ),
    }
}

/// A picture in memory.
#[verifier::external_body]
pub struct Canvas {
    img: image::RgbaImage,
}

/// The picture that a canvas holds.
pub uninterp spec fn canvas_picture(c: Canvas) -> Picture;

impl View for Canvas {
    type V = Picture;

    open spec fn view(&self) -> Picture {
        canvas_picture(*self)
    }
}

/// The error of an encoder.
#[verifier::external_type_specification]
#[verifier::external_body]
pub struct ExImageError(image::ImageError);

/// `ImageBuffer::from_pixel`: a picture of one color. The buffer, of four bytes
/// for each pixel, must not be larger than a vector can be.
#[verifier::external_body]
pub(crate) fn blank(width: u32, height: u32, pixel: Pixel) -> (c: Canvas)
    requires
        4 * (width * height) <= isize::MAX,
    ensures
        canvas_picture(c) == plain(width as nat, height as nat, pixel),
{
    let color = image::Rgba([pixel.0, pixel.1, pixel.2, pixel.3]);
    Canvas { img: image::ImageBuffer::from_pixel(width, height, color) }
}

/// `ImageBuffer::put_pixel`: replaces the one pixel.
#[verifier::external_body]
pub(crate) fn put_pixel(c: &mut Canvas, x: u32, y: u32, pixel: Pixel)
    requires
        canvas_picture(*old(c)).holds(x as int, y as int),
    ensures
        canvas_picture(*final(c)) == (Picture {
            pixels: canvas_picture(*old(c)).pixels.insert((x as int, y as int), pixel),
            ..canvas_picture(*old(c))
        }),
{
    c.img.put_pixel(x, y, image::Rgba([pixel.0, pixel.1, pixel.2, pixel.3]));
}

/// `ImageBuffer::get_pixel`: the pixel at a column and row.
#[verifier::external_body]
pub(crate) fn get_pixel(c: &Canvas, x: u32, y: u32) -> (p: Pixel)
    requires
        canvas_picture(*c).holds(x as int, y as int),
    ensures
        p == canvas_picture(*c).pixels[(x as int, y as int)],
{
    let p = c.img.get_pixel(x, y).0;
    (p[0], p[1], p[2], p[3])
}

/// The PNG file of a picture, or `None` where the encoder refuses it.
pub uninterp spec fn png_file(picture: Picture) -> Option<Seq<u8>>;

/// `PngEncoder::write_image` of the whole canvas into a vector. Which bytes come
/// out, and which pictures are refused, is left to the name.
#[verifier::external_body]
pub(crate) fn encode_png(c: &Canvas) -> (r: Result<Vec<u8>, image::ImageError>)
    ensures
        r is Ok <==> png_file(canvas_picture(*c)) is Some,
        r is Ok ==> r->Ok_0@ == png_file(canvas_picture(*c))->0,
{
    let mut out = Vec::new();
    let encoder = image::codecs::png::PngEncoder::new(&mut out);
    let (width, height) = (c.img.width(), c.img.height());
    let color = image::ExtendedColorType::Rgba8;
    image::ImageEncoder::write_image(encoder, c.img.as_raw(), width, height, color)?;
    Ok(out)
}

} // verus!
