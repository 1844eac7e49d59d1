//! The pixel surface: a `raster::Image` seen through its dimensions and its
//! bytes, and the display mode of the application.

use crate::geometrical_shapes::{plot, Color, Displayable};
use raster::error::RasterError;
use raster::Image;
use vstd::prelude::*;

verus! {

/// What the application is doing: editing the control polygon, or playing
/// the subdivision levels.
#[derive(Clone, Copy, Debug, PartialEq, Eq, Structural)]
pub enum Mode {
    Drawing,
    Animating,
}

/// `raster::Image`, taken as opaque: what the library knows of an image it
/// knows through `image_size` and `image_bytes`.
#[verifier::external_type_specification]
#[verifier::external_body]
pub struct ExImage(Image);

/// `raster::error::RasterError`, taken as opaque.
#[verifier::external_type_specification]
#[verifier::external_body]
pub struct ExRasterError(RasterError);

/// The fields `width` and `height` of an image, in this order.
pub uninterp spec fn image_size(image: Image) -> (int, int);

/// The width of an image, in pixels.
pub open spec fn image_width(image: Image) -> int {
    image_size(image).0
}

/// The height of an image, in pixels.
pub open spec fn image_height(image: Image) -> int {
    image_size(image).1
}

/// The field `bytes` of an image: four bytes per pixel, row after row.
pub uninterp spec fn image_bytes(image: Image) -> Seq<u8>;

/// Index in `bytes` of the first byte of the pixel at column `x`, row `y`.
pub open spec fn byte_offset(width: int, x: int, y: int) -> int {
    4 * (y * width + x)
}

/// An image whose byte vector holds exactly its `width * height` pixels, of
/// which there are at most `2^29`, so that the byte offset of every pixel
/// fits in an `i32`.
pub open spec fn image_well_formed(image: Image) -> bool {
    &&& 0 <= image_width(image)
    &&& 0 <= image_height(image)
    &&& image_width(image) * image_height(image) <= 0x2000_0000
    &&& image_bytes(image).len() == 4 * (image_width(image) * image_height(image))
}

/// The colour that the bytes of an image hold for the pixel at `(x, y)`.
pub open spec fn pixel_at(image: Image, x: int, y: int) -> Color {
    let at = byte_offset(image_width(image), x, y);
    Color {
        r: image_bytes(image)[at],
        g: image_bytes(image)[at + 1],
        b: image_bytes(image)[at + 2],
        a: image_bytes(image)[at + 3],
    }
}

/// `Image::blank`: an image of the given size, every pixel opaque black.
/// The call multiplies `w` by `h` in `i32` and allocates four bytes for each
/// pixel, hence the bound.
#[verifier::external_body]
pub(crate) fn blank(w: i32, h: i32) -> (image: Image)
    requires
        0 <= w,
        0 <= h,
        4 * (w * h) <= i32::MAX,
    ensures
        image_size(image) == (w as int, h as int),
        image_bytes(image) == Seq::new(
            (4 * (w * h)) as nat,
            |i: int|
                if i % 4 == 3 {
                    255u8
                } else {
                    0u8
                },
        ),
{
    Image::blank(w, h)
}

/// Reads the fields `width` and `height` of a `raster::Image`.
#[verifier::external_body]
pub(crate) fn dimensions(image: &Image) -> (size: (i32, i32))
    ensures
        (size.0 as int, size.1 as int) == image_size(*image),
{
    (image.width, image.height)
}

/// Borrows the field `bytes` of a `raster::Image`.
#[verifier::external_body]
pub(crate) fn pixel_bytes(image: &Image) -> (bytes: &Vec<u8>)
    ensures
        bytes@ == image_bytes(*image),
{
    &image.bytes
}

/// `Image::set_pixel` on a position inside a well-formed image: the call
/// succeeds and overwrites the four bytes of that pixel with the channels of
/// `color`, red first; the dimensions and all other bytes stay.
#[verifier::external_body]
pub(crate) fn set_pixel(image: &mut Image, x: i32, y: i32, color: Color) -> (done: Result<
    (),
    RasterError,
>)
    requires
        image_well_formed(*old(image)),
        0 <= x < image_width(*old(image)),
        0 <= y < image_height(*old(image)),
    ensures
        done is Ok,
        image_size(*final(image)) == image_size(*old(image)),
        image_bytes(*final(image)) == image_bytes(*old(image)).update(
            byte_offset(image_width(*old(image)), x as int, y as int),
            color.r,
        ).update(byte_offset(image_width(*old(image)), x as int, y as int) + 1, color.g).update(
            byte_offset(image_width(*old(image)), x as int, y as int) + 2,
            color.b,
        ).update(byte_offset(image_width(*old(image)), x as int, y as int) + 3, color.a),
{
    image.set_pixel(x, y, raster::Color::rgba(color.r, color.g, color.b, color.a))
}

/// Two positions of one image share a pixel index only if they are the same
/// position, and every position inside the image has its four bytes.
proof fn lemma_pixel_index(width: int, height: int, x: int, y: int, u: int, v: int)
    requires
        0 <= x < width,
        0 <= y < height,
        0 <= u < width,
        0 <= v < height,
    ensures
        0 <= y * width + x < width * height,
        (y * width + x == v * width + u) ==> (x == u && y == v),
{
    assert(0 <= y * width + x < width * height) by (nonlinear_arith)
        requires
            0 <= x < width,
            0 <= y < height,
    ;
    assert((y * width + x == v * width + u) ==> y == v) by (nonlinear_arith)
        requires
            0 <= x < width,
            0 <= u < width,
    ;
}

impl Displayable for Image {
    open spec fn well_formed(&self) -> bool {
        image_well_formed(*self)
    }

    open spec fn columns(&self) -> int {
        image_width(*self)
    }

    open spec fn rows(&self) -> int {
        image_height(*self)
    }

    open spec fn pixels(&self) -> Map<(int, int), Color> {
        Map::new(
            |p: (int, int)| 0 <= p.0 < image_width(*self) && 0 <= p.1 < image_height(*self),
            |p: (int, int)| pixel_at(*self, p.0, p.1),
        )
    }

    fn display(&mut self, x: i32, y: i32, color: Color) {
        let (width, height) = dimensions(self);
        if x >= 0 && x < width && y >= 0 && y < height {
            let ghost before = *self;
            set_pixel(self, x, y, color).unwrap();
            proof {
                let w = image_width(before);
                let h = image_height(before);
                lemma_pixel_index(w, h, x as int, y as int, x as int, y as int);
                assert forall|p: (int, int)|
                    self.pixels().dom().contains(p) implies #[trigger] self.pixels()[p] == plot(
                    before.pixels(),
                    x as int,
                    y as int,
                    color,
                )[p] by {
                    lemma_pixel_index(w, h, x as int, y as int, p.0, p.1);
                    lemma_pixel_index(w, h, p.0, p.1, x as int, y as int);
                }
                assert(self.pixels() =~= plot(before.pixels(), x as int, y as int, color));
            }
        }
    }
}

/// Width of the window's surface, in pixels.
pub const WIDTH: usize = 840;

/// Height of the window's surface, in pixels.
pub const HEIGHT: usize = 600;

/// Whether a surface of the given size can be made: the sizes are not
/// negative and the number of its bytes fits in an `i32`.
pub open spec fn surface_fits(width: int, height: int) -> bool {
    0 <= width && 0 <= height && 4 * (width * height) <= i32::MAX
}

/// A blank surface of the given size, every pixel opaque black; `None` if
/// such a surface cannot be made.
pub fn new_surface(width: i32, height: i32) -> (surface: Option<Image>)
    ensures
        surface is Some <==> surface_fits(width as int, height as int),
        surface matches Some(image) ==> {
            &&& image.well_formed()
            &&& image.columns() == width
            &&& image.rows() == height
            &&& forall|p: (int, int)|
                image.pixels().dom().contains(p) ==> #[trigger] image.pixels()[p] == (Color {
                    r: 0,
                    g: 0,
                    b: 0,
                    a: 255,
                })
        },
{
    if width < 0 || height < 0 {
        return None;
    }
    assert(0 <= width * height <= 0x4000_0000_0000_0000) by (nonlinear_arith)
        requires
            0 <= width <= 0x7fff_ffff,
            0 <= height <= 0x7fff_ffff,
    ;
    if 4 * (width as i128 * height as i128) > 2147483647 {
        return None;
    }
    let image = blank(width, height);
    proof {
        assert forall|p: (int, int)|
            image.pixels().dom().contains(p) implies #[trigger] image.pixels()[p] == (Color {
            r: 0,
            g: 0,
            b: 0,
            a: 255,
        }) by {
            lemma_pixel_index(width as int, height as int, p.0, p.1, p.0, p.1);
        }
    }
    Some(image)
}

/// Whether an image can be drawn on: whether it is well formed.
pub fn is_well_formed(image: &Image) -> (ok: bool)
    ensures
        ok == image.well_formed(),
{
    let (w, h) = dimensions(image);
    if w < 0 || h < 0 {
        return false;
    }
    assert(0 <= w * h <= 0x4000_0000_0000_0000) by (nonlinear_arith)
        requires
            0 <= w <= 0x7fff_ffff,
            0 <= h <= 0x7fff_ffff,
    ;
    let count: i128 = w as i128 * h as i128;
    count <= 0x2000_0000 && pixel_bytes(image).len() as i128 == 4 * count
}

/// The pixel `0xAARRGGBB` of a frame buffer for an opaque colour.
pub open spec fn argb(r: u8, g: u8, b: u8) -> u32 {
    0xff00_0000u32 | ((r as u32) << 16) | ((g as u32) << 8) | (b as u32)
}

/// Packs RGBA bytes into the pixels of a frame buffer, four bytes to a
/// pixel; the alpha byte is dropped and every pixel is opaque. A last group
/// of three bytes still gives a pixel.
pub fn pack_pixels(bytes: &Vec<u8>) -> (buffer: Vec<u32>)
    requires
        bytes.len() % 4 == 0 || bytes.len() % 4 == 3,
    ensures
        buffer.len() == (bytes.len() + 1) / 4,
        forall|i: int|
            0 <= i < buffer.len() ==> #[trigger] buffer[i] == argb(
                bytes[4 * i],
                bytes[4 * i + 1],
                bytes[4 * i + 2],
            ),
{
    let count: usize = if bytes.len() % 4 == 3 {
        bytes.len() / 4 + 1
    } else {
        bytes.len() / 4
    };
    let mut buffer: Vec<u32> = Vec::new();
    let mut i: usize = 0;
    while i < count
        invariant
            i <= count,
            count == (bytes.len() + 1) / 4,
            4 * count <= bytes.len() + 1,
            buffer.len() == i,
            forall|k: int|
                0 <= k < i ==> #[trigger] buffer[k] == argb(
                    bytes[4 * k],
                    bytes[4 * k + 1],
                    bytes[4 * k + 2],
                ),
        decreases count - i,
    {
        let r = bytes[4 * i] as u32;
        let g = bytes[4 * i + 1] as u32;
        let b = bytes[4 * i + 2] as u32;
        buffer.push(0xff00_0000u32 | (r << 16) | (g << 8) | b);
        i = i + 1;
    }
    buffer
}

/// The frame buffer for an image: one `0xAARRGGBB` pixel per pixel of the
/// image, row after row.
pub fn frame_buffer(image: &Image) -> (buffer: Vec<u32>)
    requires
        image.well_formed(),
    ensures
        buffer.len() == image.columns() * image.rows(),
        forall|x: int, y: int|
            0 <= x < image.columns() && 0 <= y < image.rows() ==> buffer[y * image.columns() + x]
                == argb(
                #[trigger] image.pixels()[(x, y)].r,
                image.pixels()[(x, y)].g,
                image.pixels()[(x, y)].b,
            ),
{
    let buffer = pack_pixels(pixel_bytes(image));
    proof {
        assert forall|x: int, y: int|
            0 <= x < image.columns() && 0 <= y < image.rows() implies buffer[y * image.columns()
            + x] == argb(
            #[trigger] image.pixels()[(x, y)].r,
            image.pixels()[(x, y)].g,
            image.pixels()[(x, y)].b,
        ) by {
            lemma_pixel_index(image.columns(), image.rows(), x, y, x, y);
        }
    }
    buffer
}

} // verus!
