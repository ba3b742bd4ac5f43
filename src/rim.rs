//! Integer outlines of circles: the lattice points of a disc that lie on its edge.

use crate::canvas::{canvas_wf, grid, plot, rgba, Displayable, Grid, Rgba};
use crate::rasterize::abs;
use raster::{Color, Image};
use vstd::prelude::*;

verus! {

/// `(dx, dy)` lies in the disc of radius `r` and one more step away from the centre
/// along x leaves it.
pub open spec fn row_point(r: int, dx: int, dy: int) -> bool {
    &&& dx * dx + dy * dy <= r * r
    &&& (abs(dx) + 1) * (abs(dx) + 1) + dy * dy > r * r
}

/// `(dx, dy)` lies in the disc of radius `r` and one more step away from the centre
/// along y leaves it.
pub open spec fn column_point(r: int, dx: int, dy: int) -> bool {
    row_point(r, dy, dx)
}

/// The outline of the circle of radius `r` around `(cx, cy)`: the points of the disc
/// from which one step outward, along x or along y, leaves it.
pub open spec fn rim(cx: int, cy: int, r: int) -> Set<(int, int)> {
    Set::new(|p: (int, int)| 0 <= r && (row_point(r, p.0 - cx, p.1 - cy) || column_point(r, p.0 - cx, p.1 - cy)))
}

/// The grid `g` with colour `c` at each of its coordinates that belongs to `s`.
pub open spec fn fill(g: Grid, s: Set<(int, int)>, c: Rgba) -> Grid {
    Map::new(|p: (int, int)| g.dom().contains(p), |p: (int, int)| if s.contains(p) { c } else { g[p] })
}

spec fn rows_below(cx: int, cy: int, r: int, k: int) -> Set<(int, int)> {
    Set::new(|p: (int, int)| row_point(r, p.0 - cx, p.1 - cy) && p.1 - cy < k)
}

spec fn columns_below(cx: int, cy: int, r: int, k: int) -> Set<(int, int)> {
    Set::new(|p: (int, int)| column_point(r, p.0 - cx, p.1 - cy) && p.0 - cx < k)
}

proof fn lemma_square_bound(v: int, r: int)
    requires
        0 <= r,
        v * v <= r * r,
    ensures
        -r <= v <= r,
{
    if v > r {
        assert(v * v > r * r) by (nonlinear_arith)
            requires
                v > r,
                r >= 0,
        ;
    }
    if v < -r {
        assert(v * v > r * r) by (nonlinear_arith)
            requires
                v < -r,
                r >= 0,
        ;
    }
}

proof fn lemma_floor_sqrt_unique(n: int, u: int, w: int)
    requires
        0 <= u,
        0 <= w,
        u * u <= n < (u + 1) * (u + 1),
        w * w <= n < (w + 1) * (w + 1),
    ensures
        u == w,
{
    if u < w {
        assert((u + 1) * (u + 1) <= w * w) by (nonlinear_arith)
            requires
                0 <= u < w,
        ;
    }
    if w < u {
        assert((w + 1) * (w + 1) <= u * u) by (nonlinear_arith)
            requires
                0 <= w < u,
        ;
    }
}

/// On the row `dy = k`, the outline points are the two at distance `w` from the centre.
proof fn lemma_row(r: int, k: int, w: int, dx: int)
    requires
        0 <= w,
        w * w <= r * r - k * k < (w + 1) * (w + 1),
    ensures
        row_point(r, dx, k) <==> (dx == w || dx == -w),
{
    let u = abs(dx);
    assert(u * u == dx * dx) by (nonlinear_arith)
        requires
            u == abs(dx),
    ;
    assert((-w) * (-w) == w * w) by (nonlinear_arith);
    if row_point(r, dx, k) {
        lemma_floor_sqrt_unique(r * r - k * k, u, w);
    }
}

/// The largest `w` in `[0, hi]` with `w * w <= n`.
fn floor_sqrt(n: i64, hi: i64) -> (w: i64)
    requires
        0 <= hi <= i32::MAX,
        0 <= n <= hi * hi,
    ensures
        0 <= w <= hi,
        w * w <= n < (w + 1) * (w + 1),
{
    let mut w: i64 = hi;
    assert(hi * hi < (hi + 1) * (hi + 1) && hi * hi <= 0x4000_0000_0000_0000) by (nonlinear_arith)
        requires
            0 <= hi <= i32::MAX,
    ;
    while w * w > n
        invariant
            0 <= w <= hi <= i32::MAX,
            0 <= n,
            n < (w + 1) * (w + 1),
            w * w <= hi * hi <= 0x4000_0000_0000_0000,
        decreases w,
    {
        assert(w >= 1) by (nonlinear_arith)
            requires
                w * w > n,
                n >= 0,
                w >= 0,
        ;
        assert((w - 1) * (w - 1) <= w * w) by (nonlinear_arith)
            requires
                1 <= w,
        ;
        w = w - 1;
    }
    w
}

/// Writes `color` at `(x, y)` if that coordinate lies inside the canvas.
fn plot_wide(image: &mut Image, x: i64, y: i64, color: Color)
    requires
        canvas_wf(*old(image)),
    ensures
        canvas_wf(*final(image)),
        grid(*final(image)) == plot(grid(*old(image)), (x as int, y as int), rgba(color)),
{
    if i32::MIN as i64 <= x && x <= i32::MAX as i64 && i32::MIN as i64 <= y && y <= i32::MAX as i64 {
        image.display(x as i32, y as i32, color);
    }
}

proof fn lemma_fill_plot(g: Grid, s: Set<(int, int)>, p: (int, int), c: Rgba)
    ensures
        plot(fill(g, s, c), p, c) == fill(g, s.insert(p), c),
{
    assert(plot(fill(g, s, c), p, c) =~= fill(g, s.insert(p), c));
}

/// Writes `color` at each point of the outline of the circle of radius `r` around
/// `(cx, cy)` that lies inside the canvas.
pub fn draw_rim(image: &mut Image, cx: i32, cy: i32, r: i32, color: Color)
    requires
        canvas_wf(*old(image)),
    ensures
        canvas_wf(*final(image)),
        grid(*final(image)) == fill(grid(*old(image)), rim(cx as int, cy as int, r as int), rgba(color)),
{
    let ghost g0 = grid(*image);
    let ghost c = rgba(color);
    let ghost (ox, oy, rad) = (cx as int, cy as int, r as int);
    if r < 0 {
        assert(fill(g0, rim(ox, oy, rad), c) =~= g0);
        return;
    }
    let r64: i64 = r as i64;
    assert(0 <= rad * rad <= 0x4000_0000_0000_0000) by (nonlinear_arith)
        requires
            0 <= rad <= i32::MAX,
    ;
    let rr: i64 = r64 * r64;
    let mut k: i64 = -r64;
    proof {
        assert forall|p: (int, int)| !#[trigger] rows_below(ox, oy, rad, -rad).contains(p) by {
            if row_point(rad, p.0 - ox, p.1 - oy) {
                assert((p.1 - oy) * (p.1 - oy) <= rad * rad) by (nonlinear_arith)
                    requires
                        (p.0 - ox) * (p.0 - ox) + (p.1 - oy) * (p.1 - oy) <= rad * rad,
                ;
                lemma_square_bound(p.1 - oy, rad);
            }
        }
        assert forall|p: (int, int)| !#[trigger] columns_below(ox, oy, rad, -rad).contains(p) by {
            if column_point(rad, p.0 - ox, p.1 - oy) {
                assert((p.0 - ox) * (p.0 - ox) <= rad * rad) by (nonlinear_arith)
                    requires
                        (p.0 - ox) * (p.0 - ox) + (p.1 - oy) * (p.1 - oy) <= rad * rad,
                ;
                lemma_square_bound(p.0 - ox, rad);
            }
        }
        assert(fill(g0, rows_below(ox, oy, rad, -rad) + columns_below(ox, oy, rad, -rad), c) =~= g0);
    }
    while k <= r64
        invariant
            canvas_wf(*image),
            0 <= rad == r64 <= i32::MAX,
            rad == r as int,
            ox == cx as int,
            oy == cy as int,
            c == rgba(color),
            rr == rad * rad,
            -rad <= k <= rad + 1,
            grid(*image) == fill(g0, rows_below(ox, oy, rad, k as int) + columns_below(ox, oy, rad, k as int), c),
        decreases rad + 1 - k,
    {
        assert(0 <= k * k <= rad * rad) by (nonlinear_arith)
            requires
                -rad <= k <= rad,
        ;
        let w = floor_sqrt(rr - k * k, r64);
        let ghost s0 = rows_below(ox, oy, rad, k as int) + columns_below(ox, oy, rad, k as int);
        let ghost (kk, ww) = (k as int, w as int);
        let ghost p1 = (ox - ww, oy + kk);
        let ghost p2 = (ox + ww, oy + kk);
        let ghost p3 = (ox + kk, oy - ww);
        let ghost p4 = (ox + kk, oy + ww);
        let tint = Color { r: color.r, g: color.g, b: color.b, a: color.a };
        let px = cx as i64 - w;
        plot_wide(image, px, cy as i64 + k, tint);
        proof {
            lemma_fill_plot(g0, s0, p1, c);
        }
        plot_wide(image, cx as i64 + w, cy as i64 + k, Color { r: color.r, g: color.g, b: color.b, a: color.a });
        proof {
            lemma_fill_plot(g0, s0.insert(p1), p2, c);
        }
        plot_wide(image, cx as i64 + k, cy as i64 - w, Color { r: color.r, g: color.g, b: color.b, a: color.a });
        proof {
            lemma_fill_plot(g0, s0.insert(p1).insert(p2), p3, c);
        }
        plot_wide(image, cx as i64 + k, cy as i64 + w, Color { r: color.r, g: color.g, b: color.b, a: color.a });
        proof {
            lemma_fill_plot(g0, s0.insert(p1).insert(p2).insert(p3), p4, c);
        }
        assert(grid(*image) == fill(g0, s0.insert(p1).insert(p2).insert(p3).insert(p4), c));
        proof {
            assert forall|p: (int, int)| #[trigger] rows_below(ox, oy, rad, kk + 1).contains(p) <==> (rows_below(
                ox,
                oy,
                rad,
                kk,
            ).contains(p) || p == p1 || p == p2) by {
                lemma_row(rad, kk, ww, p.0 - ox);
            }
            assert forall|p: (int, int)| #[trigger] columns_below(ox, oy, rad, kk + 1).contains(p) <==> (
            columns_below(ox, oy, rad, kk).contains(p) || p == p3 || p == p4) by {
                lemma_row(rad, kk, ww, p.1 - oy);
            }
            assert(s0.insert(p1).insert(p2).insert(p3).insert(p4) =~= rows_below(ox, oy, rad, kk + 1)
                + columns_below(ox, oy, rad, kk + 1));
        }
        k = k + 1;
    }
    proof {
        assert forall|p: (int, int)| #[trigger] rim(ox, oy, rad).contains(p) <==> (rows_below(
            ox,
            oy,
            rad,
            rad + 1,
        ) + columns_below(ox, oy, rad, rad + 1)).contains(p) by {
            if row_point(rad, p.0 - ox, p.1 - oy) || column_point(rad, p.0 - ox, p.1 - oy) {
                assert((p.1 - oy) * (p.1 - oy) <= rad * rad && (p.0 - ox) * (p.0 - ox) <= rad * rad)
                    by (nonlinear_arith)
                    requires
                        (p.0 - ox) * (p.0 - ox) + (p.1 - oy) * (p.1 - oy) <= rad * rad,
                ;
                lemma_square_bound(p.1 - oy, rad);
                lemma_square_bound(p.0 - ox, rad);
            }
        }
        assert(rim(ox, oy, rad) =~= rows_below(ox, oy, rad, rad + 1) + columns_below(ox, oy, rad, rad + 1));
    }
}

proof fn lemma_row_distance(r: int, dx: int, dy: int)
    requires
        1 <= r,
        row_point(r, dx, dy),
    ensures
        (r - 1) * (r - 1) <= dx * dx + dy * dy <= r * r,
{
    let u = abs(dx);
    assert(u * u == dx * dx) by (nonlinear_arith)
        requires
            u == abs(dx),
    ;
    assert((u + 1) * (u + 1) == u * u + 2 * u + 1) by (nonlinear_arith);
    assert((r - 1) * (r - 1) == r * r - 2 * r + 1) by (nonlinear_arith);
    assert(dy * dy >= 0) by (nonlinear_arith);
    if u >= r {
        assert(u * u >= r * r) by (nonlinear_arith)
            requires
                u >= r >= 1,
        ;
    }
}

/// Every point of the outline of a circle of radius at least one lies at a distance
/// from the centre between `r - 1` and `r`.
pub proof fn lemma_rim_distance(cx: int, cy: int, r: int, p: (int, int))
    requires
        1 <= r,
        rim(cx, cy, r).contains(p),
    ensures
        (r - 1) * (r - 1) <= (p.0 - cx) * (p.0 - cx) + (p.1 - cy) * (p.1 - cy) <= r * r,
{
    if row_point(r, p.0 - cx, p.1 - cy) {
        lemma_row_distance(r, p.0 - cx, p.1 - cy);
    } else {
        lemma_row_distance(r, p.1 - cy, p.0 - cx);
    }
}

/// Filling a set that lies wholly outside the canvas leaves it as it is.
pub proof fn lemma_fill_outside(g: Grid, s: Set<(int, int)>, c: Rgba)
    requires
        forall|p: (int, int)| s.contains(p) ==> !g.dom().contains(p),
    ensures
        fill(g, s, c) == g,
{
    assert(fill(g, s, c) =~= g);
}

} // verus!
