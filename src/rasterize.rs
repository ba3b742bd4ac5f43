//! Integer line rasterisation by error accumulation.

use crate::canvas::{canvas_wf, grid, paint, rgba, Displayable};
use raster::{Color, Image};
use vstd::prelude::*;

verus! {

pub open spec fn abs(v: int) -> int {
    if v < 0 {
        -v
    } else {
        v
    }
}

/// The unit step from `a` toward `b`; equal coordinates step by -1.
pub open spec fn toward(a: int, b: int) -> int {
    if a < b {
        1
    } else {
        -1
    }
}

/// What stays fixed while a line from `(x0, y0)` to `(x1, y1)` is traced.
pub struct Course {
    pub x1: int,
    pub y1: int,
    pub dx: int,
    pub dy: int,
    pub sx: int,
    pub sy: int,
}

pub open spec fn course(x0: int, y0: int, x1: int, y1: int) -> Course {
    Course { x1, y1, dx: abs(x1 - x0), dy: abs(y1 - y0), sx: toward(x0, x1), sy: toward(y0, y1) }
}

/// The error term a trace starts with.
pub open spec fn start_error(dx: int, dy: int) -> int {
    if dx > dy {
        dx / 2
    } else {
        -(dy / 2)
    }
}

/// One step of the tracer: move along x, along y, or both, by the sign of the error.
pub open spec fn advance(c: Course, x: int, y: int, e: int) -> (int, int, int) {
    let x_moves = 2 * e > -c.dx;
    let y_moves = 2 * e < c.dy;
    let nx = if x_moves { x + c.sx } else { x };
    let ny = if y_moves { y + c.sy } else { y };
    let ne = e - (if x_moves { c.dy } else { 0 }) + (if y_moves { c.dx } else { 0 });
    (nx, ny, ne)
}

/// The pixels visited from `(x, y)` with error `e`, until the far end or until
/// `fuel` steps have been taken.
pub open spec fn trace(c: Course, x: int, y: int, e: int, fuel: nat) -> Seq<(int, int)>
    decreases fuel,
{
    if (x == c.x1 && y == c.y1) || fuel == 0 {
        seq![(x, y)]
    } else {
        let n = advance(c, x, y, e);
        seq![(x, y)] + trace(c, n.0, n.1, n.2, (fuel - 1) as nat)
    }
}

/// The pixels of the line from `(x0, y0)` to `(x1, y1)`, in the order they are written.
pub open spec fn line_pixels(x0: int, y0: int, x1: int, y1: int) -> Seq<(int, int)> {
    let c = course(x0, y0, x1, y1);
    trace(c, x0, y0, start_error(c.dx, c.dy), (c.dx + c.dy) as nat)
}

/// Two pixels that touch by an edge or a corner, and are not the same.
pub open spec fn adjacent(p: (int, int), q: (int, int)) -> bool {
    p != q && abs(q.0 - p.0) <= 1 && abs(q.1 - p.1) <= 1
}

/// A path of pixels in which each one touches the next.
pub open spec fn connected(s: Seq<(int, int)>) -> bool {
    forall|i: int| 0 <= i < s.len() - 1 ==> #[trigger] adjacent(s[i], s[i + 1])
}

pub open spec fn shifted(v0: int, sign: int, k: int) -> int {
    if sign > 0 {
        v0 + k
    } else {
        v0 - k
    }
}

/// The tracer has taken `a` steps along x and `b` along y from `(x0, y0)`, and the
/// error term records how far the visited pixel lies from the ideal segment.
pub open spec fn on_course(c: Course, x0: int, y0: int, x: int, y: int, e: int, a: int, b: int) -> bool {
    &&& c == course(x0, y0, c.x1, c.y1)
    &&& 0 <= a <= c.dx
    &&& 0 <= b <= c.dy
    &&& x == shifted(x0, c.sx, a)
    &&& y == shifted(y0, c.sy, b)
    &&& e == start_error(c.dx, c.dy) + b * c.dx - a * c.dy
    &&& -c.dx - c.dy <= e <= c.dx + c.dy
}

proof fn lemma_advance(c: Course, x0: int, y0: int, x: int, y: int, e: int, a: int, b: int)
    requires
        on_course(c, x0, y0, x, y, e, a, b),
        !(x == c.x1 && y == c.y1),
    ensures
        ({
            let n = advance(c, x, y, e);
            let a2 = if 2 * e > -c.dx { a + 1 } else { a };
            let b2 = if 2 * e < c.dy { b + 1 } else { b };
            &&& on_course(c, x0, y0, n.0, n.1, n.2, a2, b2)
            &&& a + b < a2 + b2
            &&& adjacent((x, y), (n.0, n.1))
        }),
{
    let dx = c.dx;
    let dy = c.dy;
    let e0 = start_error(dx, dy);
    assert(2 * e0 <= dx && -dy <= 2 * e0);
    assert(c.x1 == shifted(x0, c.sx, dx) && c.y1 == shifted(y0, c.sy, dy));
    if a == dx && b < dy {
        assert(dx * (dy - b) >= dx) by (nonlinear_arith)
            requires
                dy - b >= 1,
                dx >= 0,
        ;
        assert(b * dx - a * dy == -(dx * (dy - b))) by (nonlinear_arith)
            requires
                a == dx,
        ;
    }
    if b == dy && a < dx {
        assert(dy * (dx - a) >= dy) by (nonlinear_arith)
            requires
                dx - a >= 1,
                dy >= 0,
        ;
        assert(b * dx - a * dy == dy * (dx - a)) by (nonlinear_arith)
            requires
                b == dy,
        ;
    }
    assert((a + 1) * dy == a * dy + dy) by (nonlinear_arith);
    assert((b + 1) * dx == b * dx + dx) by (nonlinear_arith);
}

proof fn lemma_trace(c: Course, x0: int, y0: int, x: int, y: int, e: int, a: int, b: int, fuel: nat)
    requires
        on_course(c, x0, y0, x, y, e, a, b),
        fuel >= (c.dx - a) + (c.dy - b),
    ensures
        trace(c, x, y, e, fuel).len() >= 1,
        trace(c, x, y, e, fuel)[0] == (x, y),
        trace(c, x, y, e, fuel).last() == (c.x1, c.y1),
        connected(trace(c, x, y, e, fuel)),
    decreases fuel,
{
    assert(c.x1 == shifted(x0, c.sx, c.dx) && c.y1 == shifted(y0, c.sy, c.dy));
    if !(x == c.x1 && y == c.y1) {
        lemma_advance(c, x0, y0, x, y, e, a, b);
        let n = advance(c, x, y, e);
        let a2 = if 2 * e > -c.dx { a + 1 } else { a };
        let b2 = if 2 * e < c.dy { b + 1 } else { b };
        lemma_trace(c, x0, y0, n.0, n.1, n.2, a2, b2, (fuel - 1) as nat);
        let rest = trace(c, n.0, n.1, n.2, (fuel - 1) as nat);
        let t = trace(c, x, y, e, fuel);
        assert(t == seq![(x, y)] + rest);
        assert forall|i: int| 0 <= i < t.len() - 1 implies #[trigger] adjacent(t[i], t[i + 1]) by {
            if i > 0 {
                assert(t[i] == rest[i - 1] && t[i + 1] == rest[(i - 1) + 1]);
                assert(adjacent(rest[i - 1], rest[(i - 1) + 1]));
            } else {
                assert(t[1] == rest[0]);
            }
        }
    }
}

/// The pixels of a line start at its first end, finish at its second, and each one
/// touches the next without repeating it.
pub proof fn lemma_line_pixels(x0: int, y0: int, x1: int, y1: int)
    ensures
        line_pixels(x0, y0, x1, y1).len() >= 1,
        line_pixels(x0, y0, x1, y1)[0] == (x0, y0),
        line_pixels(x0, y0, x1, y1).last() == (x1, y1),
        connected(line_pixels(x0, y0, x1, y1)),
{
    let c = course(x0, y0, x1, y1);
    lemma_trace(c, x0, y0, x0, y0, start_error(c.dx, c.dy), 0, 0, (c.dx + c.dy) as nat);
}

/// The integer coordinates of a sequence of `i32` pairs.
pub open spec fn coords(v: Seq<(i32, i32)>) -> Seq<(int, int)> {
    v.map_values(|p: (i32, i32)| (p.0 as int, p.1 as int))
}

/// The pixels of the line from `(x0, y0)` to `(x1, y1)`, both ends included, found
/// with integer arithmetic only.
pub fn line_points(x0: i32, y0: i32, x1: i32, y1: i32) -> (r: Vec<(i32, i32)>)
    ensures
        coords(r@) == line_pixels(x0 as int, y0 as int, x1 as int, y1 as int),
        r@.len() == line_pixels(x0 as int, y0 as int, x1 as int, y1 as int).len(),
        forall|i: int|
            0 <= i < r@.len() ==> line_pixels(x0 as int, y0 as int, x1 as int, y1 as int)[i] == (
            #[trigger] r@[i].0 as int,
            r@[i].1 as int,
        ),
        r@.len() >= 1,
        r@[0] == (x0, y0),
        r@.last() == (x1, y1),
        connected(coords(r@)),
{
    let dx: i64 = if x0 > x1 { x0 as i64 - x1 as i64 } else { x1 as i64 - x0 as i64 };
    let dy: i64 = if y0 > y1 { y0 as i64 - y1 as i64 } else { y1 as i64 - y0 as i64 };
    let sx: i32 = if x0 < x1 { 1 } else { -1 };
    let sy: i32 = if y0 < y1 { 1 } else { -1 };
    let mut err: i64 = if dx > dy { dx / 2 } else { -(dy / 2) };
    let mut x: i32 = x0;
    let mut y: i32 = y0;
    let mut out: Vec<(i32, i32)> = Vec::new();
    let ghost c = course(x0 as int, y0 as int, x1 as int, y1 as int);
    let ghost whole = line_pixels(x0 as int, y0 as int, x1 as int, y1 as int);
    let ghost mut a: int = 0;
    let ghost mut b: int = 0;
    let ghost mut fuel: nat = (c.dx + c.dy) as nat;
    proof {
        assert(coords(out@) =~= Seq::<(int, int)>::empty());
        assert(coords(out@) + trace(c, x as int, y as int, err as int, fuel) =~= whole);
    }
    while !(x == x1 && y == y1)
        invariant
            on_course(c, x0 as int, y0 as int, x as int, y as int, err as int, a, b),
            fuel >= (c.dx - a) + (c.dy - b),
            coords(out@) + trace(c, x as int, y as int, err as int, fuel) == whole,
            whole == line_pixels(x0 as int, y0 as int, x1 as int, y1 as int),
            c == course(x0 as int, y0 as int, x1 as int, y1 as int),
            dx == c.dx,
            dy == c.dy,
            sx == c.sx,
            sy == c.sy,
        decreases (c.dx - a) + (c.dy - b),
    {
        let ghost before = coords(out@);
        let ghost n = advance(c, x as int, y as int, err as int);
        proof {
            lemma_advance(c, x0 as int, y0 as int, x as int, y as int, err as int, a, b);
        }
        out.push((x, y));
        proof {
            assert(coords(out@) =~= before.push((x as int, y as int)));
            assert(trace(c, x as int, y as int, err as int, fuel) == seq![(x as int, y as int)] + trace(
                c,
                n.0,
                n.1,
                n.2,
                (fuel - 1) as nat,
            ));
            assert(coords(out@) + trace(c, n.0, n.1, n.2, (fuel - 1) as nat) =~= before + trace(
                c,
                x as int,
                y as int,
                err as int,
                fuel,
            ));
        }
        let e2: i64 = 2 * err;
        if e2 > -dx {
            err = err - dy;
            x = x + sx;
            proof {
                a = a + 1;
            }
        }
        if e2 < dy {
            err = err + dx;
            y = y + sy;
            proof {
                b = b + 1;
            }
        }
        proof {
            fuel = (fuel - 1) as nat;
        }
    }
    let ghost before = coords(out@);
    out.push((x, y));
    proof {
        assert(coords(out@) =~= before.push((x as int, y as int)));
        assert(coords(out@) =~= whole);
        lemma_line_pixels(x0 as int, y0 as int, x1 as int, y1 as int);
        assert(coords(out@).len() == out@.len());
        assert forall|i: int| 0 <= i < out@.len() implies whole[i] == (#[trigger] out@[i].0 as int, out@[i].1 as int) by {
            assert(coords(out@)[i] == (out@[i].0 as int, out@[i].1 as int));
        }
        assert(out@[0] == (x0, y0) && out@.last() == (x1, y1)) by {
            assert(coords(out@)[0] == (out@[0].0 as int, out@[0].1 as int));
            let l = out@.len() - 1;
            assert(coords(out@)[l] == (out@[l].0 as int, out@[l].1 as int));
        }
    }
    out
}

/// Writes `color` at each pixel of the line from `(x0, y0)` to `(x1, y1)` that lies
/// inside the canvas.
pub fn draw_line(image: &mut Image, x0: i32, y0: i32, x1: i32, y1: i32, color: Color)
    requires
        canvas_wf(*old(image)),
    ensures
        canvas_wf(*final(image)),
        grid(*final(image)) == paint(
            grid(*old(image)),
            line_pixels(x0 as int, y0 as int, x1 as int, y1 as int),
            rgba(color),
        ),
{
    let pts = line_points(x0, y0, x1, y1);
    let ghost start = grid(*image);
    let mut i: usize = 0;
    proof {
        assert(coords(pts@).take(0) =~= Seq::<(int, int)>::empty());
    }
    while i < pts.len()
        invariant
            canvas_wf(*image),
            i <= pts.len(),
            grid(*image) == paint(start, coords(pts@).take(i as int), rgba(color)),
        decreases pts.len() - i,
    {
        let (px, py) = pts[i];
        image.display(px, py, Color { r: color.r, g: color.g, b: color.b, a: color.a });
        proof {
            assert(coords(pts@).take(i as int + 1).drop_last() =~= coords(pts@).take(i as int));
        }
        i = i + 1;
    }
    proof {
        assert(coords(pts@).take(i as int) =~= coords(pts@));
    }
}

} // verus!
