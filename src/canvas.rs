//! The canvas: a `raster::Image` seen as a grid of RGBA pixels, with clipped writes.

use raster::error::RasterError;
use raster::{Color, Image};
use vstd::prelude::*;

verus! {

#[verifier::external_type_specification]
pub struct ExImage(Image);

#[verifier::external_type_specification]
pub struct ExColor(Color);

#[verifier::external_type_specification]
#[verifier::external_body]
pub struct ExRasterError(RasterError);

/// The four channels of a colour, red first.
pub type Rgba = (u8, u8, u8, u8);

/// What a canvas holds: one colour per coordinate inside its bounds.
pub type Grid = Map<(int, int), Rgba>;

/// The colour every pixel of a fresh canvas has: opaque black.
pub open spec fn background() -> Rgba {
    (0u8, 0u8, 0u8, 255u8)
}

pub open spec fn rgba(c: Color) -> Rgba {
    (c.r, c.g, c.b, c.a)
}

pub open spec fn opaque(c: Rgba) -> bool {
    c.3 == 255
}

/// Width times height pixels of four bytes each, addressable with `i32` arithmetic.
pub open spec fn canvas_wf(img: Image) -> bool {
    &&& 0 < img.width
    &&& 0 < img.height
    &&& 4 * (img.width as int) * (img.height as int) <= i32::MAX
    &&& img.bytes@.len() == 4 * (img.width as int) * (img.height as int)
}

pub open spec fn in_bounds(img: Image, x: int, y: int) -> bool {
    0 <= x < img.width && 0 <= y < img.height
}

/// Index of the first byte of pixel `(x, y)` in a row-major RGBA buffer.
pub open spec fn offset(width: int, x: int, y: int) -> int {
    4 * (y * width + x)
}

pub open spec fn pixel(img: Image, x: int, y: int) -> Rgba {
    let o = offset(img.width as int, x, y);
    (img.bytes@[o], img.bytes@[o + 1], img.bytes@[o + 2], img.bytes@[o + 3])
}

/// The canvas as a map from the coordinates inside its bounds to their colours.
pub open spec fn grid(img: Image) -> Grid {
    Map::new(|p: (int, int)| in_bounds(img, p.0, p.1), |p: (int, int)| pixel(img, p.0, p.1))
}

/// One clipped write: a coordinate outside the grid leaves it as it is.
pub open spec fn plot(g: Grid, p: (int, int), c: Rgba) -> Grid {
    if g.dom().contains(p) {
        g.insert(p, c)
    } else {
        g
    }
}

/// Clipped writes of one colour at each coordinate of `pts`, in order.
pub open spec fn paint(g: Grid, pts: Seq<(int, int)>, c: Rgba) -> Grid
    decreases pts.len(),
{
    if pts.len() == 0 {
        g
    } else {
        plot(paint(g, pts.drop_last(), c), pts.last(), c)
    }
}

pub proof fn lemma_row_major_index(w: int, h: int, x: int, y: int)
    requires
        0 <= x < w,
        0 <= y < h,
    ensures
        0 <= y * w + x < w * h,
{
    assert(0 <= y * w) by (nonlinear_arith)
        requires
            0 <= y,
            0 < w,
    ;
    assert(y * w + w <= h * w) by (nonlinear_arith)
        requires
            y + 1 <= h,
            0 < w,
    ;
}

pub proof fn lemma_row_major_distinct(w: int, x1: int, y1: int, x2: int, y2: int)
    requires
        0 <= x1 < w,
        0 <= x2 < w,
        (x1, y1) != (x2, y2),
    ensures
        y1 * w + x1 != y2 * w + x2,
{
    if y1 < y2 {
        assert(y1 * w + w <= y2 * w) by (nonlinear_arith)
            requires
                y1 + 1 <= y2,
                0 < w,
        ;
    } else if y2 < y1 {
        assert(y2 * w + w <= y1 * w) by (nonlinear_arith)
            requires
                y2 + 1 <= y1,
                0 < w,
        ;
    }
}

/// Relies on raster::Image::blank: a `w` by `h` image whose bytes repeat 0, 0, 0, 255.
#[verifier::external_body]
fn blank_image(w: i32, h: i32) -> (r: Image)
    requires
        0 < w,
        0 < h,
        4 * (w as int) * (h as int) <= i32::MAX,
    ensures
        r.width == w,
        r.height == h,
        r.bytes@.len() == 4 * (w as int) * (h as int),
        forall|i: int| 0 <= i < r.bytes@.len() ==> r.bytes@[i] == (if i % 4 == 3 { 255u8 } else { 0u8 }),
{
    Image::blank(w, h)
}

/// Relies on raster::Image::set_pixel: inside the image it stores r, g, b, a from
/// byte 4 * (y * width + x) on and returns Ok.
#[verifier::external_body]
fn store_pixel(img: &mut Image, x: i32, y: i32, color: Color) -> (r: Result<(), RasterError>)
    requires
        canvas_wf(*old(img)),
        in_bounds(*old(img), x as int, y as int),
    ensures
        r is Ok,
        final(img).width == old(img).width,
        final(img).height == old(img).height,
        final(img).bytes@ == old(img).bytes@.update(
            offset(old(img).width as int, x as int, y as int),
            color.r,
        ).update(offset(old(img).width as int, x as int, y as int) + 1, color.g).update(
            offset(old(img).width as int, x as int, y as int) + 2,
            color.b,
        ).update(offset(old(img).width as int, x as int, y as int) + 3, color.a),
{
    img.set_pixel(x, y, color)
}

/// Relies on raster::Image::get_pixel: inside the image it returns Ok with the four
/// bytes from 4 * (y * width + x) on.
#[verifier::external_body]
fn load_pixel(img: &Image, x: i32, y: i32) -> (r: Result<Color, RasterError>)
    requires
        canvas_wf(*img),
        in_bounds(*img, x as int, y as int),
    ensures
        r is Ok,
        rgba(r->Ok_0) == pixel(*img, x as int, y as int),
{
    img.get_pixel(x, y)
}

/// A surface that takes clipped pixel writes.
pub trait Displayable {
    /// The pixels the surface holds, by coordinate.
    spec fn pixels(&self) -> Grid;

    /// The surface's own invariant.
    spec fn ready(&self) -> bool;

    /// Writes `color` at `(x, y)` if that coordinate lies inside the surface, and
    /// otherwise changes nothing.
    fn display(&mut self, x: i32, y: i32, color: Color)
        requires
            old(self).ready(),
        ensures
            final(self).ready(),
            final(self).pixels() == plot(old(self).pixels(), (x as int, y as int), rgba(color)),
    ;
}

impl Displayable for Image {
    open spec fn pixels(&self) -> Grid {
        grid(*self)
    }

    open spec fn ready(&self) -> bool {
        canvas_wf(*self)
    }

    fn display(&mut self, x: i32, y: i32, color: Color) {
        if 0 <= x && x < self.width && 0 <= y && y < self.height {
            let ghost before = *self;
            let ghost c = rgba(color);
            let ghost w = self.width as int;
            proof {
                lemma_row_major_index(w, self.height as int, x as int, y as int);
            }
            let _ = store_pixel(self, x, y, color);
            let ghost k0 = y as int * w + x as int;
            proof {
                assert(4 * w * (self.height as int) == 4 * (w * (self.height as int))) by (nonlinear_arith);
            }
            assert forall|q: (int, int)| #[trigger] in_bounds(*self, q.0, q.1) implies pixel(*self, q.0, q.1)
                == (if q == (x as int, y as int) { c } else { pixel(before, q.0, q.1) }) by {
                lemma_row_major_index(w, self.height as int, q.0, q.1);
                if q != (x as int, y as int) {
                    lemma_row_major_distinct(w, q.0, q.1, x as int, y as int);
                }
                let k = q.1 * w + q.0;
                assert(offset(w, q.0, q.1) == 4 * k);
                assert(offset(w, x as int, y as int) == 4 * k0);
            }
            assert(grid(*self) =~= grid(before).insert((x as int, y as int), c));
        }
    }
}

/// Why a canvas could not be made.
#[derive(Debug, PartialEq, Eq, Structural)]
pub enum CanvasError {
    /// The width or the height is not positive.
    InvalidDimensions,
    /// The pixel buffer would be too large to address with `i32` offsets.
    TooLarge,
}

/// A `width` by `height` canvas of opaque black pixels.
pub fn create_canvas(width: i32, height: i32) -> (r: Result<Image, CanvasError>)
    ensures
        (width <= 0 || height <= 0) ==> r == Err::<Image, CanvasError>(CanvasError::InvalidDimensions),
        (0 < width && 0 < height && 4 * (width as int) * (height as int) > i32::MAX) ==> r == Err::<
            Image,
            CanvasError,
        >(CanvasError::TooLarge),
        (0 < width && 0 < height && 4 * (width as int) * (height as int) <= i32::MAX) ==> (r matches Ok(
            img,
        ) && canvas_wf(img) && img.width == width && img.height == height && forall|x: int, y: int|
            #![trigger grid(img)[(x, y)]]
            0 <= x < width && 0 <= y < height ==> grid(img)[(x, y)] == background()),
{
    if width <= 0 || height <= 0 {
        return Err(CanvasError::InvalidDimensions);
    }
    assert((width as int) * (height as int) < 0x4000_0000_0000_0000) by (nonlinear_arith)
        requires
            0 < width < 0x8000_0000,
            0 < height < 0x8000_0000,
    ;
    let area: i64 = (width as i64) * (height as i64);
    assert(4 * (width as int) * (height as int) == 4 * (area as int)) by (nonlinear_arith)
        requires
            area == (width as int) * (height as int),
    ;
    if area > (i32::MAX as i64) / 4 {
        return Err(CanvasError::TooLarge);
    }
    let img = blank_image(width, height);
    assert forall|x: int, y: int| 0 <= x < width && 0 <= y < height implies #[trigger] grid(img)[(x, y)]
        == background() by {
        lemma_row_major_index(width as int, height as int, x, y);
        let k = y * width + x;
        assert(4 * (width as int) * (height as int) == 4 * ((width as int) * (height as int)))
            by (nonlinear_arith);
        assert(offset(width as int, x, y) == 4 * k);
        assert((4 * k) % 4 == 0 && (4 * k + 1) % 4 == 1 && (4 * k + 2) % 4 == 2 && (4 * k + 3) % 4 == 3)
            by (nonlinear_arith);
    }
    Ok(img)
}

/// The colour at `(x, y)`, or `None` outside the canvas.
pub fn pixel_color(img: &Image, x: i32, y: i32) -> (r: Option<Color>)
    requires
        canvas_wf(*img),
    ensures
        r is Some <==> in_bounds(*img, x as int, y as int),
        r is Some ==> rgba(r->Some_0) == grid(*img)[(x as int, y as int)],
{
    if 0 <= x && x < img.width && 0 <= y && y < img.height {
        match load_pixel(img, x, y) {
            Ok(c) => Some(c),
            Err(_) => None,
        }
    } else {
        None
    }
}

/// Writing inside the canvas and reading back gives the colour written; a write
/// outside it changes nothing.
pub proof fn lemma_write_then_read(g: Grid, x: int, y: int, c: Rgba)
    ensures
        g.dom().contains((x, y)) ==> plot(g, (x, y), c)[(x, y)] == c,
        !g.dom().contains((x, y)) ==> plot(g, (x, y), c) == g,
        plot(g, (x, y), c).dom() == g.dom(),
{
}

/// `p` is one of the coordinates of `pts`.
pub open spec fn touches(pts: Seq<(int, int)>, p: (int, int)) -> bool {
    exists|i: int| 0 <= i < pts.len() && pts[i] == p
}

/// Painting coordinates that all lie outside the canvas leaves it as it is.
pub proof fn lemma_paint_outside(g: Grid, pts: Seq<(int, int)>, c: Rgba)
    requires
        forall|p: (int, int)| touches(pts, p) ==> !g.dom().contains(p),
    ensures
        paint(g, pts, c) == g,
    decreases pts.len(),
{
    if pts.len() > 0 {
        let head = pts.drop_last();
        assert forall|p: (int, int)| touches(head, p) implies !g.dom().contains(p) by {
            let i = choose|i: int| 0 <= i < head.len() && head[i] == p;
            assert(pts[i] == p);
            assert(touches(pts, p));
        }
        lemma_paint_outside(g, head, c);
        assert(touches(pts, pts[pts.len() - 1]));
    }
}

} // verus!
