use geometrical_shapes::canvas::{create_canvas, pixel_color, CanvasError, Displayable};
use geometrical_shapes::rasterize::{draw_line, line_points};
use geometrical_shapes::shapes::{
    opaque_color, Circle, Drawable, Line, Point, Rectangle, Shape, Triangle,
};
use raster::{Color, Image};

fn canvas(w: i32, h: i32) -> Image {
    create_canvas(w, h).unwrap()
}

fn rgba_at(img: &Image, x: i32, y: i32) -> (u8, u8, u8, u8) {
    let c = pixel_color(img, x, y).unwrap();
    (c.r, c.g, c.b, c.a)
}

fn is_background(img: &Image, x: i32, y: i32) -> bool {
    rgba_at(img, x, y) == (0, 0, 0, 255)
}

fn touching(p: (i32, i32), q: (i32, i32)) -> bool {
    p != q && (p.0 - q.0).abs() <= 1 && (p.1 - q.1).abs() <= 1
}

#[test]
fn write_then_read_inside() {
    let mut img = canvas(10, 8);
    img.display(3, 5, Color { r: 10, g: 20, b: 30, a: 255 });
    assert_eq!(rgba_at(&img, 3, 5), (10, 20, 30, 255));
    let start = 4 * (5 * 10 + 3) as usize;
    assert_eq!(&img.bytes[start..start + 4], &[10, 20, 30, 255]);
    assert!(is_background(&img, 2, 5));
    assert!(is_background(&img, 3, 4));
}

#[test]
fn write_outside_changes_nothing() {
    let mut img = canvas(10, 8);
    let before = img.bytes.clone();
    for &(x, y) in &[(-1, 0), (0, -1), (10, 0), (0, 8), (-3, 2), (i32::MIN, i32::MAX)] {
        img.display(x, y, Color { r: 1, g: 2, b: 3, a: 4 });
    }
    assert_eq!(img.bytes, before);
}

#[test]
fn read_outside_is_none() {
    let img = canvas(4, 4);
    assert!(pixel_color(&img, 4, 0).is_none());
    assert!(pixel_color(&img, 0, -1).is_none());
    assert!(pixel_color(&img, 3, 3).is_some());
}

#[test]
fn fresh_canvas_is_opaque_black() {
    let img = canvas(3, 2);
    assert_eq!(img.width, 3);
    assert_eq!(img.height, 2);
    assert_eq!(img.bytes.len(), 24);
    for y in 0..2 {
        for x in 0..3 {
            assert!(is_background(&img, x, y));
        }
    }
}

#[test]
fn canvas_with_bad_dimensions_is_refused() {
    assert_eq!(create_canvas(0, 5).err(), Some(CanvasError::InvalidDimensions));
    assert_eq!(create_canvas(5, -1).err(), Some(CanvasError::InvalidDimensions));
    assert_eq!(create_canvas(50_000, 50_000).err(), Some(CanvasError::TooLarge));
    assert!(create_canvas(1, 1).is_ok());
}

#[test]
fn zero_length_line_is_one_pixel() {
    assert_eq!(line_points(0, 0, 0, 0), vec![(0, 0)]);
}

#[test]
fn horizontal_line_has_six_pixels() {
    let pts = line_points(0, 0, 5, 0);
    assert_eq!(pts, vec![(0, 0), (1, 0), (2, 0), (3, 0), (4, 0), (5, 0)]);
    for w in pts.windows(2) {
        assert_eq!((w[1].0 - w[0].0).abs() + (w[1].1 - w[0].1).abs(), 1);
    }
}

#[test]
fn diagonal_line_has_six_pixels() {
    let pts = line_points(0, 0, 5, 5);
    assert_eq!(pts, vec![(0, 0), (1, 1), (2, 2), (3, 3), (4, 4), (5, 5)]);
    for w in pts.windows(2) {
        assert!(touching(w[0], w[1]));
    }
}

#[test]
fn even_diagonal_steps_in_a_staircase() {
    let pts = line_points(0, 0, 2, 2);
    assert_eq!(pts, vec![(0, 0), (0, 1), (1, 1), (1, 2), (2, 2)]);
}

#[test]
fn lines_run_both_ways_and_stay_connected() {
    let pts = line_points(7, -2, -3, 4);
    assert_eq!(pts[0], (7, -2));
    assert_eq!(*pts.last().unwrap(), (-3, 4));
    assert_eq!(pts.len(), 11);
    for w in pts.windows(2) {
        assert!(touching(w[0], w[1]));
    }
    let steep = line_points(0, 0, 1, -6);
    assert_eq!(steep.len(), 7);
    assert_eq!(*steep.last().unwrap(), (1, -6));
}

#[test]
fn line_at_coordinate_extremes() {
    let pts = line_points(i32::MAX, 0, i32::MAX - 2, 0);
    assert_eq!(pts, vec![(i32::MAX, 0), (i32::MAX - 1, 0), (i32::MAX - 2, 0)]);
}

#[test]
fn draw_line_writes_the_line_pixels() {
    let mut img = canvas(8, 8);
    draw_line(&mut img, 1, 1, 6, 3, opaque_color(9, 8, 7));
    let pts = line_points(1, 1, 6, 3);
    for y in 0..8 {
        for x in 0..8 {
            if pts.contains(&(x, y)) {
                assert_eq!(rgba_at(&img, x, y), (9, 8, 7, 255));
            } else {
                assert!(is_background(&img, x, y));
            }
        }
    }
}

#[test]
fn draw_line_clips_at_the_border() {
    let mut img = canvas(5, 5);
    draw_line(&mut img, -3, 2, 7, 2, opaque_color(1, 1, 1));
    for x in 0..5 {
        assert_eq!(rgba_at(&img, x, 2), (1, 1, 1, 255));
        assert!(is_background(&img, x, 1));
    }
}

#[test]
fn random_points_stay_in_bounds() {
    for _ in 0..2000 {
        let p = Point::random(7, 3);
        assert!(0 <= p.x() && p.x() < 7);
        assert!(0 <= p.y() && p.y() < 3);
    }
    for _ in 0..100 {
        assert_eq!(Point::random(1, 1), Point::new(0, 0));
    }
}

#[test]
fn random_lines_and_circles_stay_in_bounds() {
    for _ in 0..500 {
        let (a, b) = Line::random(20, 10).points();
        for p in [a, b] {
            assert!(0 <= p.x() && p.x() < 20 && 0 <= p.y() && p.y() < 10);
        }
        let c = Circle::random(20, 10);
        assert!(5 <= c.radius() && c.radius() <= 20);
        assert!(0 <= c.center().x() && c.center().x() < 20);
        assert!(0 <= c.center().y() && c.center().y() < 10);
    }
}

#[test]
fn random_colors_are_opaque() {
    for _ in 0..200 {
        assert_eq!(Point::color().a, 255);
    }
}

#[test]
fn opaque_color_keeps_channels() {
    let c = opaque_color(12, 34, 56);
    assert_eq!((c.r, c.g, c.b, c.a), (12, 34, 56, 255));
}

#[test]
fn point_draws_one_pixel() {
    let mut img = canvas(6, 6);
    Point::new(2, 4).draw(&mut img);
    for y in 0..6 {
        for x in 0..6 {
            let (_, _, _, a) = rgba_at(&img, x, y);
            assert_eq!(a, 255);
            if (x, y) != (2, 4) {
                assert!(is_background(&img, x, y));
            }
        }
    }
}

#[test]
fn rectangle_derives_the_other_corners() {
    let r = Rectangle::new(&Point::new(50, 50), &Point::new(150, 150));
    let (p1, p2, p3, p4) = r.points();
    assert_eq!(p1, Point::new(50, 50));
    assert_eq!(p2, Point::new(150, 150));
    assert_eq!(p3, Point::new(50, 150));
    assert_eq!(p4, Point::new(150, 50));
}

#[test]
fn rectangle_draws_its_four_edges() {
    let mut img = canvas(200, 200);
    Rectangle::new(&Point::new(50, 50), &Point::new(150, 150)).draw(&mut img);
    for t in 50..=150 {
        assert!(!is_background(&img, 50, t));
        assert!(!is_background(&img, 150, t));
        assert!(!is_background(&img, t, 50));
        assert!(!is_background(&img, t, 150));
    }
    assert!(is_background(&img, 100, 100));
    assert!(is_background(&img, 49, 100));
    assert!(is_background(&img, 151, 100));
}

#[test]
fn triangle_draws_its_three_edges() {
    let mut img = canvas(20, 20);
    let tri = Triangle::new(&Point::new(1, 1), &Point::new(15, 1), &Point::new(1, 15));
    assert_eq!(tri.points(), (Point::new(1, 1), Point::new(15, 1), Point::new(1, 15)));
    tri.draw(&mut img);
    for t in 1..=15 {
        assert!(!is_background(&img, t, 1));
        assert!(!is_background(&img, 1, t));
    }
    for &(x, y) in &line_points(15, 1, 1, 15) {
        assert!(!is_background(&img, x, y));
    }
    assert!(is_background(&img, 4, 4));
}

#[test]
fn line_shape_draws_its_segment() {
    let mut img = canvas(10, 10);
    let line = Line::new(&Point::new(0, 9), &Point::new(9, 0));
    assert_eq!(line.points(), (Point::new(0, 9), Point::new(9, 0)));
    line.draw(&mut img);
    for i in 0..10 {
        assert!(!is_background(&img, i, 9 - i));
    }
    assert!(is_background(&img, 0, 0));
}

#[test]
fn circle_pixels_lie_near_the_radius() {
    let mut img = canvas(1000, 1000);
    let circle = Circle::new(&Point::new(500, 500), 10);
    assert_eq!(circle.center(), Point::new(500, 500));
    assert_eq!(circle.radius(), 10);
    circle.draw(&mut img);
    let mut count = 0;
    for y in 480..=520 {
        for x in 480..=520 {
            if !is_background(&img, x, y) {
                count += 1;
                let d2 = (x - 500) * (x - 500) + (y - 500) * (y - 500);
                assert!(81 <= d2 && d2 <= 100, "({}, {}) at squared distance {}", x, y, d2);
            }
        }
    }
    assert!(count >= 40);
    for &(x, y) in &[(510, 500), (490, 500), (500, 510), (500, 490)] {
        assert!(!is_background(&img, x, y));
    }
}

#[test]
fn circle_outline_is_closed() {
    let mut img = canvas(40, 40);
    Circle::new(&Point::new(20, 20), 7).draw(&mut img);
    let lit: Vec<(i32, i32)> = (0..40)
        .flat_map(|y| (0..40).map(move |x| (x, y)))
        .filter(|&(x, y)| !is_background(&img, x, y))
        .collect();
    for &p in &lit {
        let neighbours = lit.iter().filter(|&&q| touching(p, q)).count();
        assert!(neighbours >= 2);
    }
}

#[test]
fn circle_of_radius_one() {
    let mut img = canvas(5, 5);
    Circle::new(&Point::new(2, 2), 1).draw(&mut img);
    for &(x, y) in &[(1, 2), (3, 2), (2, 1), (2, 3)] {
        assert!(!is_background(&img, x, y));
    }
    assert!(is_background(&img, 2, 2));
    assert!(is_background(&img, 1, 1));
}

#[test]
fn shapes_outside_the_canvas_change_nothing() {
    let mut img = canvas(50, 50);
    let before = img.bytes.clone();
    Point::new(-5, 10).draw(&mut img);
    Point::new(10, 50).draw(&mut img);
    Line::new(&Point::new(-10, -10), &Point::new(-1, -30)).draw(&mut img);
    Triangle::new(&Point::new(60, 0), &Point::new(70, 40), &Point::new(90, 10)).draw(&mut img);
    Rectangle::new(&Point::new(-20, -20), &Point::new(-5, 60)).draw(&mut img);
    Circle::new(&Point::new(-100, 25), 20).draw(&mut img);
    Circle::new(&Point::new(i32::MAX, i32::MIN), 3).draw(&mut img);
    assert_eq!(img.bytes, before);
}

#[test]
fn shape_variants_draw_like_their_contents() {
    let mut img = canvas(30, 30);
    let shapes = vec![
        Shape::Point(Point::new(1, 1)),
        Shape::Line(Line::new(&Point::new(0, 29), &Point::new(29, 29))),
        Shape::Triangle(Triangle::new(&Point::new(5, 5), &Point::new(10, 5), &Point::new(5, 10))),
        Shape::Rectangle(Rectangle::new(&Point::new(20, 2), &Point::new(27, 8))),
        Shape::Circle(Circle::new(&Point::new(15, 18), 4)),
    ];
    for s in &shapes {
        s.draw(&mut img);
    }
    assert!(!is_background(&img, 1, 1));
    for x in 0..30 {
        assert!(!is_background(&img, x, 29));
    }
    assert!(!is_background(&img, 7, 5));
    assert!(!is_background(&img, 20, 5));
    assert!(!is_background(&img, 27, 5));
    assert!(!is_background(&img, 19, 18));
    assert!(!is_background(&img, 15, 14));
    assert!(is_background(&img, 15, 18));
    assert!(is_background(&img, 0, 15));
}
