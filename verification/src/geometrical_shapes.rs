//! Colours, points, lines and circles, and the traits that put them on a
//! pixel surface.

use crate::rasterizer::{circle, disc, draw_circle, draw_line, draw_point, line};
use rand::Rng;
use raster::Image;
use vstd::prelude::*;

verus! {

/// An RGBA colour, one byte per channel.
#[derive(Clone, Copy, Debug, PartialEq, Eq, Structural)]
pub struct Color {
    pub r: u8,
    pub g: u8,
    pub b: u8,
    pub a: u8,
}

impl Color {
    /// An opaque colour.
    pub fn rgb(r: u8, g: u8, b: u8) -> (c: Color)
        ensures
            c == (Color { r, g, b, a: 255 }),
    {
        Color { r, g, b, a: 255 }
    }

    /// A colour with the given opacity.
    pub fn rgba(r: u8, g: u8, b: u8, a: u8) -> (c: Color)
        ensures
            c == (Color { r, g, b, a }),
    {
        Color { r, g, b, a }
    }
}

/// What one write does to a pixel map: the pixel at `(x, y)` takes `color` if
/// the map has such a pixel, and nothing changes if it has none.
pub open spec fn plot(pixels: Map<(int, int), Color>, x: int, y: int, color: Color) -> Map<
    (int, int),
    Color,
> {
    if pixels.dom().contains((x, y)) {
        pixels.insert((x, y), color)
    } else {
        pixels
    }
}

/// What writing `color` at every position of `footprint` does to a pixel map:
/// positions outside the map are dropped.
pub open spec fn paint(pixels: Map<(int, int), Color>, footprint: Set<(int, int)>, color: Color) -> Map<
    (int, int),
    Color,
> {
    Map::new(
        |p: (int, int)| pixels.dom().contains(p),
        |p: (int, int)|
            if footprint.contains(p) {
                color
            } else {
                pixels[p]
            },
    )
}

/// A surface of pixels that takes single writes and drops those that fall
/// outside of it.
pub trait Displayable {
    /// The surface is in a state in which it can be written to.
    spec fn well_formed(&self) -> bool;

    /// Number of pixel columns.
    spec fn columns(&self) -> int;

    /// Number of pixel rows.
    spec fn rows(&self) -> int;

    /// The colour of every pixel, by column and row.
    spec fn pixels(&self) -> Map<(int, int), Color>;

    /// Writes `color` at column `x`, row `y`; a position outside the surface
    /// is ignored.
    fn display(&mut self, x: i32, y: i32, color: Color)
        requires
            old(self).well_formed(),
        ensures
            final(self).well_formed(),
            final(self).columns() == old(self).columns(),
            final(self).rows() == old(self).rows(),
            final(self).pixels() == plot(old(self).pixels(), x as int, y as int, color),
    ;
}

/// `Rng::random_range(low..high)` on the thread's generator of
/// `rand::rng()`: some byte of the half-open range, which must not be empty.
#[verifier::external_body]
fn random_in(low: u8, high: u8) -> (v: u8)
    requires
        low < high,
    ensures
        low <= v < high,
{
    rand::rng().random_range(low..high)
}

/// Radius of the disc that marks a point.
pub const MARKER_RADIUS: i32 = 2;

/// A shape that can be drawn on an image in one colour.
pub trait Drawable {
    /// The positions that drawing the shape writes to.
    spec fn footprint(&self) -> Set<(int, int)>;

    /// The colour that the shape is drawn in.
    spec fn ink(&self) -> Color;

    /// Writes the colour of the shape to every pixel of its footprint that
    /// the image has.
    fn draw(&self, image: &mut Image)
        requires
            old(image).well_formed(),
        ensures
            final(image).well_formed(),
            final(image).columns() == old(image).columns(),
            final(image).rows() == old(image).rows(),
            final(image).pixels() == paint(old(image).pixels(), self.footprint(), self.ink()),
    ;

    /// A random opaque colour, each channel between 1 and 254.
    fn color() -> (c: Color)
        ensures
            1 <= c.r < 255,
            1 <= c.g < 255,
            1 <= c.b < 255,
            c.a == 255,
    {
        let r = random_in(1, 255);
        let g = random_in(1, 255);
        let b = random_in(1, 255);
        Color::rgb(r, g, b)
    }
}

/// A position on the pixel lattice, with the colour of its marker.
#[derive(Clone, Copy, Debug, PartialEq, Eq, Structural)]
pub struct Point(pub i32, pub i32, pub Color);

impl Point {
    /// The point at column `x`, row `y`.
    pub fn new(x: i32, y: i32, color: Color) -> (p: Self)
        ensures
            p == Point(x, y, color),
    {
        Self(x, y, color)
    }
}

impl Drawable for Point {
    open spec fn footprint(&self) -> Set<(int, int)> {
        disc(self.0 as int, self.1 as int, MARKER_RADIUS as int)
    }

    open spec fn ink(&self) -> Color {
        self.2
    }

    /// Marks the point with a filled disc.
    fn draw(&self, image: &mut Image) {
        draw_point(image, self.0, self.1, MARKER_RADIUS, self.2);
    }
}

/// A segment between two points, with the colour it is drawn in.
#[derive(Clone, Copy, Debug, PartialEq, Eq, Structural)]
pub struct Line(pub Point, pub Point, pub Color);

impl Line {
    /// The segment from `p1` to `p2`; the points and the colour are copied.
    pub fn new(p1: &Point, p2: &Point, color: &Color) -> (l: Self)
        ensures
            l == Line(*p1, *p2, *color),
    {
        Self(*p1, *p2, *color)
    }
}

impl Drawable for Line {
    open spec fn footprint(&self) -> Set<(int, int)> {
        line(self.0.0 as int, self.0.1 as int, self.1.0 as int, self.1.1 as int)
    }

    open spec fn ink(&self) -> Color {
        self.2
    }

    /// Traces the segment from the first point to the second in the colour
    /// of the line; the ends get no marker of their own.
    fn draw(&self, image: &mut Image) {
        draw_line(image, self.0.0, self.0.1, self.1.0, self.1.1, self.2);
    }
}

/// Half of `v`, rounded towards zero.
pub open spec fn half(v: int) -> int {
    if v >= 0 {
        v / 2
    } else {
        -((-v) / 2)
    }
}

/// A circle outline: its centre, which carries the colour, and its radius.
#[derive(Clone, Copy, Debug)]
pub struct Circle(Point, i32);

impl Circle {
    /// The centre of the outline, with its colour.
    pub closed spec fn center(&self) -> Point {
        self.0
    }

    /// The radius of the outline.
    pub closed spec fn radius(&self) -> int {
        self.1 as int
    }

    /// The circle of radius `r` whose centre lies half a radius to the left
    /// of and above `(x, y)`.
    pub fn new(x: i32, y: i32, r: i32, color: Color) -> (c: Self)
        requires
            i32::MIN <= x - half(r as int) <= i32::MAX,
            i32::MIN <= y - half(r as int) <= i32::MAX,
        ensures
            c.center() == Point((x - half(r as int)) as i32, (y - half(r as int)) as i32, color),
            c.radius() == r,
    {
        Self(Point(x - r / 2, y - r / 2, color), r)
    }
}

impl Drawable for Circle {
    open spec fn footprint(&self) -> Set<(int, int)> {
        circle(self.center().0 as int, self.center().1 as int, self.radius())
    }

    open spec fn ink(&self) -> Color {
        self.center().2
    }

    /// Traces the outline in the colour of the centre.
    fn draw(&self, image: &mut Image) {
        draw_circle(image, self.0.0, self.0.1, self.1, self.0.2);
    }
}

} // verus!
