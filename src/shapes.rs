//! Points, lines, triangles, rectangles and circles that draw themselves onto a canvas.

use crate::canvas::{
    canvas_wf, grid, lemma_paint_outside, opaque, paint, plot, rgba, touches, Displayable,
    Grid, Rgba,
};
use crate::rim::{draw_rim, fill, lemma_fill_outside, rim};
use crate::rasterize::{draw_line, line_pixels};
use rand::Rng;
use raster::{Color, Image};
use vstd::prelude::*;

verus! {

/// Relies on rand::Rng::gen_range on rand::thread_rng: a value of the inclusive range
/// `lo..=hi`, which must not be empty.
#[verifier::external_body]
fn random_between(lo: i32, hi: i32) -> (r: i32)
    requires
        lo <= hi,
    ensures
        lo <= r <= hi,
{
    rand::thread_rng().gen_range(lo..=hi)
}

/// An opaque colour with the given red, green and blue channels.
pub fn opaque_color(r: u8, g: u8, b: u8) -> (c: Color)
    ensures
        rgba(c) == (r, g, b, 255u8),
{
    Color { r, g, b, a: 255 }
}

/// The pixels of the segment between two points, in drawing order.
pub open spec fn segment(p: Point, q: Point) -> Seq<(int, int)> {
    line_pixels(p.x as int, p.y as int, q.x as int, q.y as int)
}

/// Every colour of `cs` is opaque.
pub open spec fn all_opaque(cs: Seq<Rgba>) -> bool {
    forall|i: int| 0 <= i < cs.len() ==> opaque(#[trigger] cs[i])
}

/// A shape that can render itself onto a canvas.
pub trait Drawable {
    /// How many strokes the shape is drawn with; each gets its own colour.
    spec fn stroke_count(&self) -> nat;

    /// The canvas `g` after the shape is drawn onto it with the stroke colours `cs`.
    spec fn rendered(&self, g: Grid, cs: Seq<Rgba>) -> Grid;

    /// The shape may write at `p`.
    spec fn covers(&self, p: (int, int)) -> bool;

    /// Drawing a shape that lies wholly outside the canvas leaves the canvas as it is,
    /// whatever the colours.
    proof fn lemma_clipped_away(&self, g: Grid, cs: Seq<Rgba>)
        requires
            forall|p: (int, int)| self.covers(p) ==> !g.dom().contains(p),
        ensures
            self.rendered(g, cs) == g,
    ;

    /// Draws the shape, each stroke in a freshly drawn opaque colour; pixels that
    /// fall outside the canvas are skipped.
    fn draw(&self, image: &mut Image)
        requires
            canvas_wf(*old(image)),
        ensures
            canvas_wf(*final(image)),
            exists|cs: Seq<Rgba>|
                cs.len() == self.stroke_count() && all_opaque(cs) && grid(*final(image))
                    == #[trigger] self.rendered(grid(*old(image)), cs),
    ;

    /// A random opaque colour.
    fn color() -> (r: Color)
        ensures
            opaque(rgba(r)),
    {
        let red = random_between(0, 255);
        let green = random_between(0, 255);
        let blue = random_between(0, 255);
        opaque_color(red as u8, green as u8, blue as u8)
    }
}

/// A position on the integer grid.
#[derive(Clone, Copy, Debug, Default, PartialEq, Eq, Structural)]
pub struct Point {
    pub x: i32,
    pub y: i32,
}

impl Point {
    pub fn new(x: i32, y: i32) -> (r: Point)
        ensures
            r == (Point { x, y }),
    {
        Point { x, y }
    }

    /// A point drawn uniformly from `[0, image_width) x [0, image_height)`.
    pub fn random(image_width: i32, image_height: i32) -> (r: Point)
        requires
            0 < image_width,
            0 < image_height,
        ensures
            0 <= r.x < image_width,
            0 <= r.y < image_height,
    {
        let y = random_between(0, image_height - 1);
        let x = random_between(0, image_width - 1);
        Point { x, y }
    }

    pub fn x(&self) -> (r: i32)
        ensures
            r == self.x,
    {
        self.x
    }

    pub fn y(&self) -> (r: i32)
        ensures
            r == self.y,
    {
        self.y
    }
}

impl Drawable for Point {
    open spec fn stroke_count(&self) -> nat {
        1
    }

    open spec fn rendered(&self, g: Grid, cs: Seq<Rgba>) -> Grid {
        plot(g, (self.x as int, self.y as int), cs[0])
    }

    open spec fn covers(&self, p: (int, int)) -> bool {
        p == (self.x as int, self.y as int)
    }

    proof fn lemma_clipped_away(&self, g: Grid, cs: Seq<Rgba>) {
        assert(self.covers((self.x as int, self.y as int)));
    }

    fn draw(&self, image: &mut Image) {
        let color = Self::color();
        let ghost cs = seq![rgba(color)];
        image.display(self.x, self.y, color);
        assert(all_opaque(cs));
        assert(grid(*image) == self.rendered(grid(*old(image)), cs));
    }
}

/// A segment between two points; both may be the same point.
pub struct Line {
    point_1: Point,
    point_2: Point,
}

impl View for Line {
    type V = (Point, Point);

    closed spec fn view(&self) -> (Point, Point) {
        (self.point_1, self.point_2)
    }
}

impl Line {
    pub fn new(point_1: &Point, point_2: &Point) -> (r: Line)
        ensures
            r@ == (*point_1, *point_2),
    {
        Line { point_1: *point_1, point_2: *point_2 }
    }

    /// A line between two random points of `[0, image_width) x [0, image_height)`.
    pub fn random(image_width: i32, image_height: i32) -> (r: Line)
        requires
            0 < image_width,
            0 < image_height,
        ensures
            0 <= r@.0.x < image_width,
            0 <= r@.0.y < image_height,
            0 <= r@.1.x < image_width,
            0 <= r@.1.y < image_height,
    {
        Line {
            point_1: Point::random(image_width, image_height),
            point_2: Point::random(image_width, image_height),
        }
    }

    pub fn points(&self) -> (r: (Point, Point))
        ensures
            r == self@,
    {
        (self.point_1, self.point_2)
    }
}

impl Drawable for Line {
    open spec fn stroke_count(&self) -> nat {
        1
    }

    open spec fn rendered(&self, g: Grid, cs: Seq<Rgba>) -> Grid {
        paint(g, segment(self@.0, self@.1), cs[0])
    }

    open spec fn covers(&self, p: (int, int)) -> bool {
        touches(segment(self@.0, self@.1), p)
    }

    proof fn lemma_clipped_away(&self, g: Grid, cs: Seq<Rgba>) {
        assert forall|p: (int, int)| touches(segment(self@.0, self@.1), p) implies !g.dom().contains(p) by {
            assert(self.covers(p));
        }
        lemma_paint_outside(g, segment(self@.0, self@.1), cs[0]);
    }

    fn draw(&self, image: &mut Image) {
        let color = Self::color();
        let ghost cs = seq![rgba(color)];
        draw_line(image, self.point_1.x, self.point_1.y, self.point_2.x, self.point_2.y, color);
        assert(all_opaque(cs));
        assert(grid(*image) == self.rendered(grid(*old(image)), cs));
    }
}

/// Three points joined by the edges 1-2, 2-3 and 3-1.
pub struct Triangle {
    point_1: Point,
    point_2: Point,
    point_3: Point,
}

impl View for Triangle {
    type V = (Point, Point, Point);

    closed spec fn view(&self) -> (Point, Point, Point) {
        (self.point_1, self.point_2, self.point_3)
    }
}

impl Triangle {
    pub fn new(point_1: &Point, point_2: &Point, point_3: &Point) -> (r: Triangle)
        ensures
            r@ == (*point_1, *point_2, *point_3),
    {
        Triangle { point_1: *point_1, point_2: *point_2, point_3: *point_3 }
    }

    pub fn points(&self) -> (r: (Point, Point, Point))
        ensures
            r == self@,
    {
        (self.point_1, self.point_2, self.point_3)
    }
}

impl Drawable for Triangle {
    open spec fn stroke_count(&self) -> nat {
        3
    }

    open spec fn rendered(&self, g: Grid, cs: Seq<Rgba>) -> Grid {
        let (p1, p2, p3) = self@;
        paint(paint(paint(g, segment(p1, p2), cs[0]), segment(p2, p3), cs[1]), segment(p3, p1), cs[2])
    }

    open spec fn covers(&self, p: (int, int)) -> bool {
        let (p1, p2, p3) = self@;
        touches(segment(p1, p2), p) || touches(segment(p2, p3), p) || touches(segment(p3, p1), p)
    }

    proof fn lemma_clipped_away(&self, g: Grid, cs: Seq<Rgba>) {
        let (p1, p2, p3) = self@;
        assert forall|p: (int, int)| touches(segment(p1, p2), p) implies !g.dom().contains(p) by {
            assert(self.covers(p));
        }
        lemma_paint_outside(g, segment(p1, p2), cs[0]);
        assert forall|p: (int, int)| touches(segment(p2, p3), p) implies !g.dom().contains(p) by {
            assert(self.covers(p));
        }
        lemma_paint_outside(g, segment(p2, p3), cs[1]);
        assert forall|p: (int, int)| touches(segment(p3, p1), p) implies !g.dom().contains(p) by {
            assert(self.covers(p));
        }
        lemma_paint_outside(g, segment(p3, p1), cs[2]);
    }

    fn draw(&self, image: &mut Image) {
        let (p1, p2, p3) = (self.point_1, self.point_2, self.point_3);
        let c1 = Self::color();
        let c2 = Self::color();
        let c3 = Self::color();
        let ghost cs = seq![rgba(c1), rgba(c2), rgba(c3)];
        draw_line(image, p1.x, p1.y, p2.x, p2.y, c1);
        draw_line(image, p2.x, p2.y, p3.x, p3.y, c2);
        draw_line(image, p3.x, p3.y, p1.x, p1.y, c3);
        assert(all_opaque(cs));
        assert(grid(*image) == self.rendered(grid(*old(image)), cs));
    }
}

/// An axis-aligned rectangle given by two opposite corners; the other two corners are
/// `(point_1.x, point_2.y)` and `(point_2.x, point_1.y)`.
pub struct Rectangle {
    point_1: Point,
    point_2: Point,
    point_3: Point,
    point_4: Point,
}

impl View for Rectangle {
    type V = (Point, Point, Point, Point);

    closed spec fn view(&self) -> (Point, Point, Point, Point) {
        (self.point_1, self.point_2, self.point_3, self.point_4)
    }
}

impl Rectangle {
    pub fn new(point_1: &Point, point_2: &Point) -> (r: Rectangle)
        ensures
            r@ == (*point_1, *point_2, Point { x: point_1.x, y: point_2.y }, Point {
                x: point_2.x,
                y: point_1.y,
            }),
    {
        let point_3 = Point::new(point_1.x, point_2.y);
        let point_4 = Point::new(point_2.x, point_1.y);
        Rectangle { point_1: *point_1, point_2: *point_2, point_3, point_4 }
    }

    pub fn points(&self) -> (r: (Point, Point, Point, Point))
        ensures
            r == self@,
    {
        (self.point_1, self.point_2, self.point_3, self.point_4)
    }
}

impl Drawable for Rectangle {
    open spec fn stroke_count(&self) -> nat {
        4
    }

    /// The edges 1-3, 2-3, 2-4 and 4-1, in that order.
    open spec fn rendered(&self, g: Grid, cs: Seq<Rgba>) -> Grid {
        let (p1, p2, p3, p4) = self@;
        paint(
            paint(paint(paint(g, segment(p1, p3), cs[0]), segment(p2, p3), cs[1]), segment(p2, p4), cs[2]),
            segment(p4, p1),
            cs[3],
        )
    }

    open spec fn covers(&self, p: (int, int)) -> bool {
        let (p1, p2, p3, p4) = self@;
        ||| touches(segment(p1, p3), p)
        ||| touches(segment(p2, p3), p)
        ||| touches(segment(p2, p4), p)
        ||| touches(segment(p4, p1), p)
    }

    proof fn lemma_clipped_away(&self, g: Grid, cs: Seq<Rgba>) {
        let (p1, p2, p3, p4) = self@;
        assert forall|p: (int, int)| touches(segment(p1, p3), p) implies !g.dom().contains(p) by {
            assert(self.covers(p));
        }
        lemma_paint_outside(g, segment(p1, p3), cs[0]);
        assert forall|p: (int, int)| touches(segment(p2, p3), p) implies !g.dom().contains(p) by {
            assert(self.covers(p));
        }
        lemma_paint_outside(g, segment(p2, p3), cs[1]);
        assert forall|p: (int, int)| touches(segment(p2, p4), p) implies !g.dom().contains(p) by {
            assert(self.covers(p));
        }
        lemma_paint_outside(g, segment(p2, p4), cs[2]);
        assert forall|p: (int, int)| touches(segment(p4, p1), p) implies !g.dom().contains(p) by {
            assert(self.covers(p));
        }
        lemma_paint_outside(g, segment(p4, p1), cs[3]);
    }

    fn draw(&self, image: &mut Image) {
        let (p1, p2, p3, p4) = (self.point_1, self.point_2, self.point_3, self.point_4);
        let c1 = Self::color();
        let c2 = Self::color();
        let c3 = Self::color();
        let c4 = Self::color();
        let ghost cs = seq![rgba(c1), rgba(c2), rgba(c3), rgba(c4)];
        draw_line(image, p1.x, p1.y, p3.x, p3.y, c1);
        draw_line(image, p2.x, p2.y, p3.x, p3.y, c2);
        draw_line(image, p2.x, p2.y, p4.x, p4.y, c3);
        draw_line(image, p4.x, p4.y, p1.x, p1.y, c4);
        assert(all_opaque(cs));
        assert(grid(*image) == self.rendered(grid(*old(image)), cs));
    }
}

/// A circle outline around a centre point.
///
/// The outline is traced with integer arithmetic: it is the set of lattice points of
/// the disc from which one step outward, along x or along y, leaves the disc. It has
/// no gaps at any radius and is drawn in a single colour.
pub struct Circle {
    center: Point,
    radius: i32,
}

impl View for Circle {
    type V = (Point, i32);

    closed spec fn view(&self) -> (Point, i32) {
        (self.center, self.radius)
    }
}

impl Circle {
    pub fn new(center: &Point, radius: i32) -> (r: Circle)
        ensures
            r@ == (*center, radius),
    {
        Circle { center: *center, radius }
    }

    /// A circle of radius 5 to 20 around a random point of
    /// `[0, image_width) x [0, image_height)`.
    pub fn random(image_width: i32, image_height: i32) -> (r: Circle)
        requires
            0 < image_width,
            0 < image_height,
        ensures
            0 <= r@.0.x < image_width,
            0 <= r@.0.y < image_height,
            5 <= r@.1 <= 20,
    {
        let radius = random_between(5, 20);
        Circle { center: Point::random(image_width, image_height), radius }
    }

    pub fn center(&self) -> (r: Point)
        ensures
            r == self@.0,
    {
        self.center
    }

    pub fn radius(&self) -> (r: i32)
        ensures
            r == self@.1,
    {
        self.radius
    }
}

impl Drawable for Circle {
    open spec fn stroke_count(&self) -> nat {
        1
    }

    /// The whole outline in one colour.
    open spec fn rendered(&self, g: Grid, cs: Seq<Rgba>) -> Grid {
        fill(g, rim(self@.0.x as int, self@.0.y as int, self@.1 as int), cs[0])
    }

    open spec fn covers(&self, p: (int, int)) -> bool {
        rim(self@.0.x as int, self@.0.y as int, self@.1 as int).contains(p)
    }

    proof fn lemma_clipped_away(&self, g: Grid, cs: Seq<Rgba>) {
        let outline = rim(self@.0.x as int, self@.0.y as int, self@.1 as int);
        assert forall|p: (int, int)| outline.contains(p) implies !g.dom().contains(p) by {
            assert(self.covers(p));
        }
        lemma_fill_outside(g, outline, cs[0]);
    }

    fn draw(&self, image: &mut Image) {
        let color = Self::color();
        let ghost cs = seq![rgba(color)];
        draw_rim(image, self.center.x, self.center.y, self.radius, color);
        assert(all_opaque(cs));
        assert(grid(*image) == self.rendered(grid(*old(image)), cs));
    }
}

/// Any of the drawable shapes.
pub enum Shape {
    Point(Point),
    Line(Line),
    Triangle(Triangle),
    Rectangle(Rectangle),
    Circle(Circle),
}

impl Drawable for Shape {
    open spec fn stroke_count(&self) -> nat {
        match self {
            Shape::Point(s) => s.stroke_count(),
            Shape::Line(s) => s.stroke_count(),
            Shape::Triangle(s) => s.stroke_count(),
            Shape::Rectangle(s) => s.stroke_count(),
            Shape::Circle(s) => s.stroke_count(),
        }
    }

    open spec fn rendered(&self, g: Grid, cs: Seq<Rgba>) -> Grid {
        match self {
            Shape::Point(s) => s.rendered(g, cs),
            Shape::Line(s) => s.rendered(g, cs),
            Shape::Triangle(s) => s.rendered(g, cs),
            Shape::Rectangle(s) => s.rendered(g, cs),
            Shape::Circle(s) => s.rendered(g, cs),
        }
    }

    open spec fn covers(&self, p: (int, int)) -> bool {
        match self {
            Shape::Point(s) => s.covers(p),
            Shape::Line(s) => s.covers(p),
            Shape::Triangle(s) => s.covers(p),
            Shape::Rectangle(s) => s.covers(p),
            Shape::Circle(s) => s.covers(p),
        }
    }

    proof fn lemma_clipped_away(&self, g: Grid, cs: Seq<Rgba>) {
        match self {
            Shape::Point(s) => {
                assert forall|p: (int, int)| s.covers(p) implies !g.dom().contains(p) by {
                    assert(self.covers(p));
                }
                s.lemma_clipped_away(g, cs);
            },
            Shape::Line(s) => {
                assert forall|p: (int, int)| s.covers(p) implies !g.dom().contains(p) by {
                    assert(self.covers(p));
                }
                s.lemma_clipped_away(g, cs);
            },
            Shape::Triangle(s) => {
                assert forall|p: (int, int)| s.covers(p) implies !g.dom().contains(p) by {
                    assert(self.covers(p));
                }
                s.lemma_clipped_away(g, cs);
            },
            Shape::Rectangle(s) => {
                assert forall|p: (int, int)| s.covers(p) implies !g.dom().contains(p) by {
                    assert(self.covers(p));
                }
                s.lemma_clipped_away(g, cs);
            },
            Shape::Circle(s) => {
                assert forall|p: (int, int)| s.covers(p) implies !g.dom().contains(p) by {
                    assert(self.covers(p));
                }
                s.lemma_clipped_away(g, cs);
            },
        }
    }

    fn draw(&self, image: &mut Image) {
        let ghost g0 = grid(*image);
        match self {
            Shape::Point(s) => {
                s.draw(image);
                proof {
                    let cs = choose|cs: Seq<Rgba>|
                        cs.len() == s.stroke_count() && all_opaque(cs) && grid(*image) == #[trigger] s.rendered(g0, cs);
                    assert(self.rendered(g0, cs) == s.rendered(g0, cs));
                }
            },
            Shape::Line(s) => {
                s.draw(image);
                proof {
                    let cs = choose|cs: Seq<Rgba>|
                        cs.len() == s.stroke_count() && all_opaque(cs) && grid(*image) == #[trigger] s.rendered(g0, cs);
                    assert(self.rendered(g0, cs) == s.rendered(g0, cs));
                }
            },
            Shape::Triangle(s) => {
                s.draw(image);
                proof {
                    let cs = choose|cs: Seq<Rgba>|
                        cs.len() == s.stroke_count() && all_opaque(cs) && grid(*image) == #[trigger] s.rendered(g0, cs);
                    assert(self.rendered(g0, cs) == s.rendered(g0, cs));
                }
            },
            Shape::Rectangle(s) => {
                s.draw(image);
                proof {
                    let cs = choose|cs: Seq<Rgba>|
                        cs.len() == s.stroke_count() && all_opaque(cs) && grid(*image) == #[trigger] s.rendered(g0, cs);
                    assert(self.rendered(g0, cs) == s.rendered(g0, cs));
                }
            },
            Shape::Circle(s) => {
                s.draw(image);
                proof {
                    let cs = choose|cs: Seq<Rgba>|
                        cs.len() == s.stroke_count() && all_opaque(cs) && grid(*image) == #[trigger] s.rendered(g0, cs);
                    assert(self.rendered(g0, cs) == s.rendered(g0, cs));
                }
            },
        }
    }
}

} // verus!
