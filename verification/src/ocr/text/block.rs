//! Blocks of pixels that fill an upright rectangle: their border has that rectangle around it.
use crate::bounds::{is_whole, lemma_exact_difference, lemma_exact_product};
use crate::ocr::text::cells::{corner_bends, side_keeps, turn_of, wrapped, Cell};
use crate::ocr::text::detection::map_points;
use crate::ocr::text::geometry::{
    along, direction, edge, enclosing, enclosing_area, greatest, hull_of, least, lemma_extremes,
    placed, quad_around, side, spread, tightest, turned, Point, SHORTEST_EDGE,
};
use crate::ocr::text::hull::{all_on_grid, cell, cells, on_grid};
use crate::ocr::text::rectangle::encircled;
use crate::ocr::text::upright::{
    at, lemma_exact_sum, lemma_long_enough, lemma_upright_sides, upright,
};
use crate::single::Single;
use vstd::arithmetic::power2::*;
use vstd::prelude::*;

verus! {

/// The place lies in a rectangle.
pub open spec fn inside(c: Cell, l: int, t: int, r: int, b: int) -> bool {
    l <= c.0 <= r && t <= c.1 <= b
}

/// A path that turns left at `a` and keeps a place straight ahead of `a` on its left has `a`
/// at that place.
proof fn lemma_edge_runs_on(o: Cell, a: Cell, b: Cell, end: Cell)
    requires
        turn_of(o, a, b) > 0,
        turn_of(a, b, end) >= 0,
        turn_of(o, a, end) == 0,
        (end.0 - a.0) * (a.0 - o.0) + (end.1 - a.1) * (a.1 - o.1) >= 0,
    ensures
        a == end,
{
    reveal(turn_of);
    let (ux, uy): (int, int) = (a.0 - o.0, a.1 - o.1);
    let (vx, vy): (int, int) = (b.0 - a.0, b.1 - a.1);
    let (wx, wy): (int, int) = (end.0 - a.0, end.1 - a.1);
    // turn(o, a, b) = u x (u + v) = u x v > 0, turn(a, b, end) = v x w >= 0,
    // turn(o, a, end) = u x w = 0 and w goes along u
    assert(ux * vy - uy * vx > 0) by (nonlinear_arith)
        requires
            (a.0 - o.0) * (b.1 - o.1) - (a.1 - o.1) * (b.0 - o.0) > 0,
            ux == a.0 - o.0,
            uy == a.1 - o.1,
            vx == b.0 - a.0,
            vy == b.1 - a.1,
    ;
    assert(ux * wy - uy * wx == 0) by (nonlinear_arith)
        requires
            (a.0 - o.0) * (end.1 - o.1) - (a.1 - o.1) * (end.0 - o.0) == 0,
            ux == a.0 - o.0,
            uy == a.1 - o.1,
            wx == end.0 - a.0,
            wy == end.1 - a.1,
    ;
    assert(vx * wy - vy * wx >= 0) by (nonlinear_arith)
        requires
            (b.0 - a.0) * (end.1 - a.1) - (b.1 - a.1) * (end.0 - a.0) >= 0,
            vx == b.0 - a.0,
            vy == b.1 - a.1,
            wx == end.0 - a.0,
            wy == end.1 - a.1,
    ;
    let (k, c): (int, int) = (ux * vy - uy * vx, wx * ux + wy * uy);
    let uu: int = ux * ux + uy * uy;
    // w |u|^2 = (w . u) u, so (v x w) |u|^2 = (w . u)(v x u) = -(w . u) k
    assert(wx * uu == c * ux && wy * uu == c * uy) by (nonlinear_arith)
        requires
            ux * wy - uy * wx == 0,
            c == wx * ux + wy * uy,
            uu == ux * ux + uy * uy,
    ;
    let x: int = vx * wy - vy * wx;
    let (wxu, wyu): (int, int) = (wx * uu, wy * uu);
    assert(x * uu == vx * wyu - vy * wxu) by (nonlinear_arith)
        requires
            x == vx * wy - vy * wx,
            wxu == wx * uu,
            wyu == wy * uu,
    ;
    assert(vx * (c * uy) - vy * (c * ux) == -(c * k)) by (nonlinear_arith)
        requires
            k == ux * vy - uy * vx,
    ;
    assert(x * uu == -(c * k));
    assert(uu > 0) by (nonlinear_arith)
        requires
            uu == ux * ux + uy * uy,
            ux * vy - uy * vx > 0,
    ;
    assert(c == 0) by (nonlinear_arith)
        requires
            x * uu == -(c * k),
            x >= 0,
            uu > 0,
            k > 0,
            c >= 0,
    ;
    assert(wx == 0 && wy == 0) by (nonlinear_arith)
        requires
            wx * uu == c * ux,
            wy * uu == c * uy,
            c == 0,
            uu > 0,
    ;
}

/// A product that is not negative and has a positive factor.
proof fn lemma_factor(x: int, w: int)
    requires
        x * w >= 0,
        w > 0,
    ensures
        x >= 0,
{
    assert(x >= 0) by (nonlinear_arith)
        requires
            x * w >= 0,
            w > 0,
    ;
}

/// The corners of a hull within a rectangle that encircles the corners of the rectangle and
/// begins at its top left one are the corners of the rectangle.
proof fn lemma_box_hull(h: Seq<Cell>, l: int, t: int, r: int, b: int)
    requires
        l < r,
        t < b,
        encircled(h, (l, t)),
        encircled(h, (r, t)),
        encircled(h, (r, b)),
        encircled(h, (l, b)),
        forall|i: int| 0 <= i < h.len() ==> inside(#[trigger] h[i], l, t, r, b),
        h.no_duplicates(),
        h[0] == (l, t),
    ensures
        h =~= seq![(l, t), (r, t), (r, b), (l, b)],
{
    let n: int = h.len() as int;
    let (w, k): (int, int) = (r - l, b - t);
    // along the top
    let (h0, h1, h2): (Cell, Cell, Cell) = (h[0], h[1], h[2]);
    assert(inside(h1, l, t, r, b) && inside(h2, l, t, r, b));
    assert(side_keeps(h, 0, (r, t)) && side_keeps(h, 1, (r, t)) && corner_bends(h, 0));
    assert(h0 != h1);
    assert(h1.1 == t) by {
        reveal(turn_of);
        assert((h1.0 - l) * (t - t) - (h1.1 - t) * (r - l) == (t - h1.1) * w) by (nonlinear_arith)
            requires
                w == r - l,
        ;
        lemma_factor(t - h1.1, w);
    }
    assert(turn_of(h0, h1, (r, t)) == 0 && (r - h1.0) * (h1.0 - h0.0) + (t - h1.1) * (h1.1 - h0.1)
        >= 0) by {
        reveal(turn_of);
        assert((h1.0 - l) * 0 - 0 * (r - l) == 0 && 0 * (h1.1 - h0.1) == 0);
        let (x, y): (int, int) = (r - h1.0, h1.0 - h0.0);
        assert(x * y >= 0) by (nonlinear_arith)
            requires
                x >= 0,
                y >= 0,
        ;
    }
    lemma_edge_runs_on(h0, h1, h2, (r, t));
    // along the right
    let h3: Cell = h[wrapped(3, n)];
    assert(inside(h3, l, t, r, b));
    assert(side_keeps(h, 1, (r, b)) && side_keeps(h, 2, (r, b)) && corner_bends(h, 1));
    assert(h1 != h2);
    assert(h2.0 == r) by {
        reveal(turn_of);
        assert((h2.0 - r) * (b - t) - (h2.1 - t) * (r - r) == (h2.0 - r) * k) by (nonlinear_arith)
            requires
                k == b - t,
        ;
        lemma_factor(h2.0 - r, k);
    }
    assert(turn_of(h1, h2, (r, b)) == 0 && (r - h2.0) * (h2.0 - h1.0) + (b - h2.1) * (h2.1 - h1.1)
        >= 0) by {
        reveal(turn_of);
        assert(0 * (b - t) - (h2.1 - t) * 0 == 0 && 0 * (h2.0 - h1.0) == 0);
        let (x, y): (int, int) = (b - h2.1, h2.1 - h1.1);
        assert(x * y >= 0) by (nonlinear_arith)
            requires
                x >= 0,
                y >= 0,
        ;
    }
    lemma_edge_runs_on(h1, h2, h3, (r, b));
    // along the bottom
    let h4: Cell = h[wrapped(wrapped(3, n) + 1, n)];
    assert(side_keeps(h, 2, (l, b)));
    assert(h3.1 == b) by {
        reveal(turn_of);
        assert((h3.0 - r) * (b - b) - (h3.1 - b) * (l - r) == (h3.1 - b) * w) by (nonlinear_arith)
            requires
                w == r - l,
        ;
        lemma_factor(h3.1 - b, w);
    }
    assert(n >= 4);
    assert(inside(h4, l, t, r, b));
    assert(h[2] != h[3]);
    assert(side_keeps(h, 3, (l, b)) && corner_bends(h, 2));
    assert(turn_of(h2, h3, (l, b)) == 0 && (l - h3.0) * (h3.0 - h2.0) + (b - h3.1) * (h3.1 - h2.1)
        >= 0) by {
        reveal(turn_of);
        assert((h3.0 - r) * 0 - 0 * (l - r) == 0 && 0 * (h3.1 - h2.1) == 0);
        let (x, y): (int, int) = (l - h3.0, h3.0 - h2.0);
        assert(x * y >= 0) by (nonlinear_arith)
            requires
                x <= 0,
                y <= 0,
        ;
    }
    lemma_edge_runs_on(h2, h3, h4, (l, b));
    // along the left, back to the start
    if n > 4 {
        let h5: Cell = h[wrapped(5, n)];
        assert(h4 == h[4]);
        assert(inside(h5, l, t, r, b));
        assert(h[3] != h[4] && h[0] != h[4]);
        assert(side_keeps(h, 3, (l, t)) && side_keeps(h, 4, (l, t)) && corner_bends(h, 3));
        assert(h4.0 == l) by {
            reveal(turn_of);
            assert((h4.0 - l) * (t - b) - (h4.1 - b) * (l - l) == (l - h4.0) * k)
                by (nonlinear_arith)
                requires
                    k == b - t,
            ;
            lemma_factor(l - h4.0, k);
        }
        assert(turn_of(h3, h4, (l, t)) == 0 && (l - h4.0) * (h4.0 - h3.0) + (t - h4.1) * (h4.1
            - h3.1) >= 0) by {
            reveal(turn_of);
            assert(0 * (t - b) - (h4.1 - b) * 0 == 0 && 0 * (h4.0 - h3.0) == 0);
            let (x, y): (int, int) = (t - h4.1, h4.1 - h3.1);
            assert(x * y >= 0) by (nonlinear_arith)
                requires
                    x <= 0,
                    y <= 0,
            ;
        }
        lemma_edge_runs_on(h3, h4, h5, (l, t));
        assert(false);
    }
}

/// Every point is in the rectangle, and each of its corners is one of them.
pub open spec fn fills(points: Seq<Point>, l: int, t: int, r: int, b: int) -> bool {
    &&& forall|i: int| 0 <= i < points.len() ==> inside(cell(#[trigger] points[i]), l, t, r, b)
    &&& exists|i: int| 0 <= i < points.len() && cell(#[trigger] points[i]) == (l, t)
    &&& exists|i: int| 0 <= i < points.len() && cell(#[trigger] points[i]) == (r, t)
    &&& exists|i: int| 0 <= i < points.len() && cell(#[trigger] points[i]) == (r, b)
    &&& exists|i: int| 0 <= i < points.len() && cell(#[trigger] points[i]) == (l, b)
}

/// Points at pixels are at one place where their pixels are the same.
proof fn lemma_same_cell(p: Point, q: Point)
    requires
        on_grid(p),
        on_grid(q),
    ensures
        crate::ocr::text::geometry::same_place(p, q) <==> cell(p) == cell(q),
        crate::ocr::text::hull::earlier(p, q) <==> cell(p).0 < cell(q).0 || cell(p).0 == cell(q).0
            && cell(p).1 < cell(q).1,
{
    let u: int = crate::single::unit() as int;
    lemma_pow2_pos(149);
    Single::lemma_key_orders(p.0, q.0);
    Single::lemma_key_orders(p.1, q.1);
    let (a, b, c, d): (int, int, int, int) = (cell(p).0, cell(p).1, cell(q).0, cell(q).1);
    assert((a * u < c * u <==> a < c) && (b * u < d * u <==> b < d) && (a * u == c * u <==> a == c)
        && (b * u == d * u <==> b == d)) by (nonlinear_arith)
        requires
            u > 0,
    ;
}

/// The hull of points that fill a rectangle has at least three corners.
proof fn lemma_block_corners(points: Seq<Point>, l: int, t: int, r: int, b: int)
    requires
        all_on_grid(points),
        points.len() <= usize::MAX,
        fills(points, l, t, r, b),
        l < r,
        t < b,
    ensures
        hull_of(points).len() >= 3,
{
    let hull: Seq<Point> = hull_of(points);
    crate::ocr::text::hull::lemma_hull(points);
    crate::ocr::text::hull::lemma_hull_on_grid(points);
    let i: int = choose|i: int| 0 <= i < points.len() && cell(#[trigger] points[i]) == (l, t);
    let j: int = choose|j: int| 0 <= j < points.len() && cell(#[trigger] points[j]) == (r, t);
    let k: int = choose|k: int| 0 <= k < points.len() && cell(#[trigger] points[k]) == (l, b);
    assert(on_grid(points[i]) && on_grid(points[j]) && on_grid(points[k]));
    if hull.len() == 1 {
        assert(on_grid(hull[0]));
        lemma_same_cell(hull[0], points[i]);
        lemma_same_cell(hull[0], points[j]);
        assert(crate::ocr::text::geometry::same_place(hull[0], points[i]));
        assert(crate::ocr::text::geometry::same_place(hull[0], points[j]));
        assert(false);
    } else if hull.len() == 2 {
        let (o, a): (Point, Point) = (hull[0], hull[1]);
        assert(on_grid(o) && on_grid(a));
        lemma_straight(points, o, a, i);
        lemma_straight(points, o, a, j);
        lemma_straight(points, o, a, k);
        reveal(turn_of);
        let (x, y): (int, int) = (cell(a).0 - cell(o).0, cell(a).1 - cell(o).1);
        let (p, q): (int, int) = (l - cell(o).0, t - cell(o).1);
        let (w, h): (int, int) = (r - l, b - t);
        assert(x == 0 && y == 0) by (nonlinear_arith)
            requires
                x * q - y * p == 0,
                x * q - y * (p + w) == 0,
                x * (q + h) - y * p == 0,
                w > 0,
                h > 0,
        ;
        lemma_same_cell(o, a);
        assert(!crate::ocr::text::geometry::same_place(hull[0], hull[1]));
        assert(false);
    }
}

/// Where there are two corners, all points are in line with them.
proof fn lemma_straight(points: Seq<Point>, o: Point, a: Point, k: int)
    requires
        all_on_grid(points),
        points.len() <= usize::MAX,
        hull_of(points).len() == 2,
        o == hull_of(points)[0],
        a == hull_of(points)[1],
        0 <= k < points.len(),
    ensures
        turn_of(cell(o), cell(a), cell(points[k])) == 0,
{
    let hull: Seq<Point> = hull_of(points);
    crate::ocr::text::hull::lemma_hull(points);
    let q: Point = points[k];
    assert(crate::ocr::text::hull::side_keeps(hull, 0, points[k]));
    assert(crate::ocr::text::hull::side_keeps(hull, 1, points[k]));
    assert(points.contains(hull[0]) && points.contains(hull[1]) && points.contains(q));
    crate::ocr::text::hull::lemma_listed(points, o, a);
    crate::ocr::text::hull::lemma_listed(points, a, o);
    crate::ocr::text::hull::lemma_listed(points, o, q);
    crate::ocr::text::hull::lemma_listed(points, a, q);
    crate::ocr::text::hull::lemma_turn_exact(o, a, q);
    crate::ocr::text::hull::lemma_turn_exact(a, o, q);
    reveal(turn_of);
    let (co, ca, cq): (Cell, Cell, Cell) = (cell(o), cell(a), cell(q));
    assert((ca.0 - co.0) * (cq.1 - co.1) - (ca.1 - co.1) * (cq.0 - co.0) == -((co.0 - ca.0) * (cq.1
        - ca.1) - (co.1 - ca.1) * (cq.0 - ca.0))) by (nonlinear_arith);
}

/// No two corners of a hull are at one pixel.
proof fn lemma_corners_distinct(points: Seq<Point>)
    requires
        all_on_grid(points),
        points.len() <= usize::MAX,
    ensures
        cells(hull_of(points)).no_duplicates(),
{
    let hull: Seq<Point> = hull_of(points);
    let h: Seq<Cell> = cells(hull);
    crate::ocr::text::hull::lemma_hull(points);
    crate::ocr::text::hull::lemma_hull_on_grid(points);
    assert forall|a: int, c: int| 0 <= a < h.len() && 0 <= c < h.len() && a != c implies h[a]
        != h[c] by {
        assert(on_grid(hull[a]) && on_grid(hull[c]));
        lemma_same_cell(hull[a], hull[c]);
        lemma_same_cell(hull[c], hull[a]);
        if a < c {
            assert(!crate::ocr::text::geometry::same_place(hull[a], hull[c]));
        } else {
            assert(!crate::ocr::text::geometry::same_place(hull[c], hull[a]));
        }
    }
}

/// The corners of a hull are in the rectangle, and the first is the top left one.
proof fn lemma_corners_inside(points: Seq<Point>, l: int, t: int, r: int, b: int)
    requires
        all_on_grid(points),
        points.len() <= usize::MAX,
        fills(points, l, t, r, b),
    ensures
        forall|a: int|
            0 <= a < cells(hull_of(points)).len() ==> inside(
                #[trigger] cells(hull_of(points))[a],
                l,
                t,
                r,
                b,
            ),
        cells(hull_of(points))[0] == (l, t),
{
    let hull: Seq<Point> = hull_of(points);
    let h: Seq<Cell> = cells(hull);
    crate::ocr::text::hull::lemma_hull(points);
    crate::ocr::text::hull::lemma_hull_on_grid(points);
    assert forall|a: int| 0 <= a < h.len() implies inside(#[trigger] h[a], l, t, r, b) by {
        assert(points.contains(hull[a]));
        let c: int = choose|c: int| 0 <= c < points.len() && points[c] == hull[a];
        assert(inside(cell(points[c]), l, t, r, b));
    }
    let i: int = choose|i: int| 0 <= i < points.len() && cell(#[trigger] points[i]) == (l, t);
    assert(on_grid(hull[0]) && on_grid(points[i]));
    assert(!crate::ocr::text::hull::earlier(points[i], hull[0]));
    lemma_same_cell(points[i], hull[0]);
    assert(inside(h[0], l, t, r, b));
}

/// The hull encircles the corners of the rectangle.
proof fn lemma_corners_encircled(points: Seq<Point>, l: int, t: int, r: int, b: int)
    requires
        all_on_grid(points),
        points.len() <= usize::MAX,
        fills(points, l, t, r, b),
        hull_of(points).len() >= 3,
    ensures
        encircled(cells(hull_of(points)), (l, t)),
        encircled(cells(hull_of(points)), (r, t)),
        encircled(cells(hull_of(points)), (r, b)),
        encircled(cells(hull_of(points)), (l, b)),
{
    let i: int = choose|i: int| 0 <= i < points.len() && cell(#[trigger] points[i]) == (l, t);
    let j: int = choose|j: int| 0 <= j < points.len() && cell(#[trigger] points[j]) == (r, t);
    let k: int = choose|k: int| 0 <= k < points.len() && cell(#[trigger] points[k]) == (r, b);
    let m: int = choose|m: int| 0 <= m < points.len() && cell(#[trigger] points[m]) == (l, b);
    crate::ocr::text::rectangle::lemma_encircled(points, i);
    crate::ocr::text::rectangle::lemma_encircled(points, j);
    crate::ocr::text::rectangle::lemma_encircled(points, k);
    crate::ocr::text::rectangle::lemma_encircled(points, m);
}

/// The hull of points that fill a rectangle is the rectangle.
pub proof fn lemma_block_hull(points: Seq<Point>, l: int, t: int, r: int, b: int)
    requires
        all_on_grid(points),
        points.len() <= usize::MAX,
        fills(points, l, t, r, b),
        l < r,
        t < b,
    ensures
        upright(hull_of(points), l, t, r, b),
{
    let hull: Seq<Point> = hull_of(points);
    let h: Seq<Cell> = cells(hull);
    lemma_block_corners(points, l, t, r, b);
    lemma_corners_distinct(points);
    lemma_corners_inside(points, l, t, r, b);
    lemma_corners_encircled(points, l, t, r, b);
    lemma_box_hull(h, l, t, r, b);
    assert(h.len() == 4);
    assert(cell(hull[0]) == h[0] && cell(hull[1]) == h[1] && cell(hull[2]) == h[2] && cell(hull[3])
        == h[3]);
    crate::ocr::text::hull::lemma_hull_on_grid(points);
    assert(on_grid(hull[0]) && on_grid(hull[1]) && on_grid(hull[2]) && on_grid(hull[3]));
}

/// The least and the greatest of some whole numbers.
proof fn lemma_whole_extremes(values: Seq<Single>, ns: Seq<int>, low: int, high: int)
    requires
        values.len() == ns.len(),
        forall|i: int| 0 <= i < ns.len() ==> is_whole(#[trigger] values[i], ns[i]),
        forall|i: int| 0 <= i < ns.len() ==> low <= #[trigger] ns[i] <= high,
        ns.contains(low),
        ns.contains(high),
    ensures
        is_whole(least(values), low),
        is_whole(greatest(values), high),
{
    let u: int = crate::single::unit() as int;
    lemma_pow2_pos(149);
    lemma_extremes(values);
    let i: int = choose|i: int| 0 <= i < ns.len() && ns[i] == low;
    let j: int = choose|j: int| 0 <= j < ns.len() && ns[j] == high;
    assert(is_whole(values[i], ns[i]) && is_whole(values[j], ns[j]));
    crate::bounds::lemma_top();
    crate::bounds::lemma_below_infinity(values[i]);
    crate::bounds::lemma_below_infinity(values[j]);
    assert(least(values).at_most(values[i]) && values[j].at_most(greatest(values)));
    assert(values.contains(least(values)) && values.contains(greatest(values)));
    let a: int = choose|a: int| 0 <= a < values.len() && values[a] == least(values);
    let c: int = choose|c: int| 0 <= c < values.len() && values[c] == greatest(values);
    assert(is_whole(values[a], ns[a]) && is_whole(values[c], ns[c]));
    let (x, y): (int, int) = (ns[a], ns[c]);
    assert(x * u >= low * u && y * u <= high * u) by (nonlinear_arith)
        requires
            x >= low,
            y <= high,
            u > 0,
    ;
}

/// How far a point at a pixel lies along an axis.
proof fn lemma_along_axis(p: Point, d: Point, x: int, y: int, dx: int, dy: int)
    requires
        at(p, x, y),
        at(d, dx, dy),
        0 <= x <= 4000,
        0 <= y <= 4000,
        -1 <= dx <= 1,
        -1 <= dy <= 1,
    ensures
        is_whole(along(p, d), x * dx + y * dy),
{
    assert(-4000 <= x * dx <= 4000 && -4000 <= y * dy <= 4000) by (nonlinear_arith)
        requires
            0 <= x <= 4000,
            0 <= y <= 4000,
            -1 <= dx <= 1,
            -1 <= dy <= 1,
    ;
    lemma_exact_product(p.0, d.0, x, dx);
    lemma_exact_product(p.1, d.1, y, dy);
    lemma_exact_sum(Single::product(p.0, d.0), Single::product(p.1, d.1), x * dx, y * dy);
}

/// How far the corners of an upright rectangle lie along an axis: from `low` to `high`.
proof fn lemma_spread_axis(
    h: Seq<Point>,
    d: Point,
    l: int,
    t: int,
    r: int,
    b: int,
    dx: int,
    dy: int,
    low: int,
    high: int,
)
    requires
        upright(h, l, t, r, b),
        0 <= l < r <= 4000,
        0 <= t < b <= 4000,
        at(d, dx, dy),
        dx == 1 && dy == 0 && low == l && high == r || dx == 0 && dy == 1 && low == t && high == b
            || dx == -1 && dy == 0 && low == -r && high == -l || dx == 0 && dy == -1 && low == -b
            && high == -t,
    ensures
        is_whole(least(spread(h, d)), low),
        is_whole(greatest(spread(h, d)), high),
{
    let values: Seq<Single> = spread(h, d);
    let ns: Seq<int> = seq![
        l * dx + t * dy,
        r * dx + t * dy,
        r * dx + b * dy,
        l * dx + b * dy,
    ];
    lemma_along_axis(h[0], d, l, t, dx, dy);
    lemma_along_axis(h[1], d, r, t, dx, dy);
    lemma_along_axis(h[2], d, r, b, dx, dy);
    lemma_along_axis(h[3], d, l, b, dx, dy);
    assert(values.len() == 4);
    assert forall|i: int| 0 <= i < ns.len() implies is_whole(#[trigger] values[i], ns[i]) by {
        assert(i == 0 || i == 1 || i == 2 || i == 3);
    }
    lemma_axis_product(l, dx);
    lemma_axis_product(r, dx);
    lemma_axis_product(t, dy);
    lemma_axis_product(b, dy);
    assert(ns.contains(low) && ns.contains(high)) by {
        if dx == 1 || dy == 1 {
            assert(ns[0] == low && ns[2] == high);
        } else {
            assert(ns[2] == low && ns[0] == high);
        }
    }
    assert forall|i: int| 0 <= i < ns.len() implies low <= #[trigger] ns[i] <= high by {
        assert(i == 0 || i == 1 || i == 2 || i == 3);
    }
    lemma_whole_extremes(values, ns, low, high);
}

proof fn lemma_axis_product(x: int, s: int)
    requires
        -1 <= s <= 1,
    ensures
        s == 1 ==> x * s == x,
        s == 0 ==> x * s == 0,
        s == -1 ==> x * s == -x,
{
    assert(s == -1 ==> x * s == -x) by (nonlinear_arith);
    assert(s == 0 ==> x * s == 0) by (nonlinear_arith);
    assert(s == 1 ==> x * s == x) by (nonlinear_arith);
}

/// The rectangle along an axis around an upright rectangle has its area.
proof fn lemma_axis_area(
    h: Seq<Point>,
    d: Point,
    l: int,
    t: int,
    r: int,
    b: int,
    dx: int,
    dy: int,
)
    requires
        upright(h, l, t, r, b),
        0 <= l < r <= 4000,
        0 <= t < b <= 4000,
        at(d, dx, dy),
        dx == 1 && dy == 0 || dx == 0 && dy == 1 || dx == -1 && dy == 0 || dx == 0 && dy == -1,
    ensures
        is_whole(enclosing_area(h, d), (r - l) * (b - t)),
{
    reveal(enclosing_area);
    let u: int = crate::single::unit() as int;
    let n: Point = turned(d);
    assert(at(n, -dy, dx)) by {
        assert((-dy) * u == -(dy * u)) by (nonlinear_arith);
    }
    let (us, vs): (Seq<Single>, Seq<Single>) = (spread(h, d), spread(h, n));
    let (a, c, e, f): (int, int, int, int) = if dx == 1 {
        (l, r, t, b)
    } else if dy == 1 {
        (t, b, -r, -l)
    } else if dx == -1 {
        (-r, -l, -b, -t)
    } else {
        (-b, -t, l, r)
    };
    lemma_spread_axis(h, d, l, t, r, b, dx, dy, a, c);
    lemma_spread_axis(h, n, l, t, r, b, -dy, dx, e, f);
    lemma_exact_difference(greatest(us), least(us), c, a);
    lemma_exact_difference(greatest(vs), least(vs), f, e);
    let (w, k): (int, int) = (c - a, f - e);
    let (x, y): (int, int) = (r - l, b - t);
    assert(w * k == x * y && 0 <= w * k <= 16_000_000) by (nonlinear_arith)
        requires
            w == x && k == y || w == y && k == x,
            0 < x <= 4000,
            0 < y <= 4000,
    ;
    lemma_exact_product(
        Single::difference(greatest(us), least(us)),
        Single::difference(greatest(vs), least(vs)),
        w,
        k,
    );
}

/// The rectangle along the top edge around an upright rectangle is the same.
proof fn lemma_enclosing_upright(h: Seq<Point>, d: Point, l: int, t: int, r: int, b: int)
    requires
        upright(h, l, t, r, b),
        0 <= l < r <= 4000,
        0 <= t < b <= 4000,
        at(d, 1, 0),
    ensures
        upright(enclosing(h, d), l, t, r, b),
{
    reveal(enclosing);
    let u: int = crate::single::unit() as int;
    let n: Point = turned(d);
    assert(0 * u == 0);
    assert(at(n, 0, 1));
    let (us, vs): (Seq<Single>, Seq<Single>) = (spread(h, d), spread(h, n));
    lemma_spread_axis(h, d, l, t, r, b, 1, 0, l, r);
    lemma_spread_axis(h, n, l, t, r, b, 0, 1, t, b);
    lemma_placed_whole(least(us), least(vs), d, l, t);
    lemma_placed_whole(greatest(us), least(vs), d, r, t);
    lemma_placed_whole(greatest(us), greatest(vs), d, r, b);
    lemma_placed_whole(least(us), greatest(vs), d, l, b);
}

proof fn lemma_placed_whole(u: Single, v: Single, d: Point, x: int, y: int)
    requires
        is_whole(u, x),
        is_whole(v, y),
        at(d, 1, 0),
        0 <= x <= 4000,
        0 <= y <= 4000,
    ensures
        at(placed(u, v, d), x, y),
{
    let n: Point = turned(d);
    assert(0 * crate::single::unit() == 0);
    assert(x * 1 == x && x * 0 == 0 && y * 1 == y && y * 0 == 0);
    lemma_exact_product(u, d.0, x, 1);
    lemma_exact_product(u, d.1, x, 0);
    lemma_exact_product(v, n.0, y, 0);
    lemma_exact_product(v, n.1, y, 1);
    lemma_exact_sum(Single::product(u, d.0), Single::product(v, n.0), x, 0);
    lemma_exact_sum(Single::product(u, d.1), Single::product(v, n.1), 0, y);
}

/// The smallest rectangle around an upright one is the same.
pub proof fn lemma_upright_quad(h: Seq<Point>, l: int, t: int, r: int, b: int)
    requires
        upright(h, l, t, r, b),
        0 <= l < r <= 4000,
        0 <= t < b <= 4000,
    ensures
        upright(quad_around(h), l, t, r, b),
{
    lemma_upright_sides(h, l, t, r, b);
    let d: Point = direction(edge(h, 0));
    lemma_axis_area(h, direction(edge(h, 0)), l, t, r, b, 1, 0);
    lemma_axis_area(h, direction(edge(h, 1)), l, t, r, b, 0, 1);
    lemma_axis_area(h, direction(edge(h, 2)), l, t, r, b, -1, 0);
    lemma_axis_area(h, direction(edge(h, 3)), l, t, r, b, 0, -1);
    lemma_enclosing_upright(h, d, l, t, r, b);
    lemma_long_enough(side(h, 0), r - l);
    lemma_first_chosen(h, (r - l) * (b - t));
}

/// Of rectangles of one area along all edges the first is chosen.
proof fn lemma_first_chosen(h: Seq<Point>, area: int)
    requires
        h.len() == 4,
        is_whole(enclosing_area(h, direction(edge(h, 0))), area),
        is_whole(enclosing_area(h, direction(edge(h, 1))), area),
        is_whole(enclosing_area(h, direction(edge(h, 2))), area),
        is_whole(enclosing_area(h, direction(edge(h, 3))), area),
        !side(h, 0).below(Single { bits: SHORTEST_EDGE }),
    ensures
        quad_around(h) == enclosing(h, direction(edge(h, 0))),
{
    let a: Single = enclosing_area(h, direction(edge(h, 0)));
    let q: Seq<Point> = enclosing(h, direction(edge(h, 0)));
    let none: Single = Single { bits: crate::single::INFINITY };
    crate::bounds::lemma_top();
    crate::bounds::lemma_below_infinity(a);
    reveal_with_fuel(tightest, 5);
    assert(tightest(h, 1) == (a, q));
    assert(tightest(h, 2) == (a, q));
    assert(tightest(h, 3) == (a, q));
    assert(tightest(h, 4) == (a, q));
}

/// A border that runs within a rectangle of pixels and through its corners has that rectangle
/// around it: one pixel less to the left and up than on the mask.
pub proof fn lemma_block_quad(border: Seq<(i32, i32)>, l: int, t: int, r: int, b: int)
    requires
        border.len() <= usize::MAX,
        0 <= l < r <= 4000,
        0 <= t < b <= 4000,
        forall|i: int|
            0 <= i < border.len() ==> l <= (#[trigger] border[i]).0 - 1 <= r && t <= border[i].1 - 1
                <= b,
        border.contains(((l + 1) as i32, (t + 1) as i32)),
        border.contains(((r + 1) as i32, (t + 1) as i32)),
        border.contains(((r + 1) as i32, (b + 1) as i32)),
        border.contains(((l + 1) as i32, (b + 1) as i32)),
    ensures
        upright(quad_around(hull_of(map_points(border))), l, t, r, b),
{
    let points: Seq<Point> = map_points(border);
    assert(crate::ocr::text::drawing::on_mask(border, 4001, 4001)) by {
        assert forall|i: int| 0 <= i < border.len() implies 0 <= (#[trigger] border[i]).0 < 4001 + 2
            && 0 <= border[i].1 < 4001 + 2 by {}
    }
    crate::ocr::text::hull::lemma_border_on_grid(border, 4001, 4001);
    assert forall|i: int| 0 <= i < border.len() implies cell(#[trigger] points[i]) == (
        border[i].0 - 1,
        border[i].1 - 1,
    ) by {
        lemma_border_cell(border, i);
    }
    assert forall|i: int| 0 <= i < points.len() implies inside(cell(#[trigger] points[i]), l, t, r, b) by {
        assert(l <= border[i].0 - 1 <= r);
    }
    let i: int = choose|i: int|
        0 <= i < border.len() && border[i] == ((l + 1) as i32, (t + 1) as i32);
    let j: int = choose|j: int|
        0 <= j < border.len() && border[j] == ((r + 1) as i32, (t + 1) as i32);
    let k: int = choose|k: int|
        0 <= k < border.len() && border[k] == ((r + 1) as i32, (b + 1) as i32);
    let m: int = choose|m: int|
        0 <= m < border.len() && border[m] == ((l + 1) as i32, (b + 1) as i32);
    assert(cell(points[i]) == (l, t) && cell(points[j]) == (r, t) && cell(points[k]) == (r, b)
        && cell(points[m]) == (l, b));
    lemma_block_hull(points, l, t, r, b);
    lemma_upright_quad(hull_of(points), l, t, r, b);
}

proof fn lemma_border_cell(border: Seq<(i32, i32)>, i: int)
    requires
        0 <= i < border.len(),
        0 <= border[i].0 <= 0x100_0000,
        0 <= border[i].1 <= 0x100_0000,
    ensures
        cell(map_points(border)[i]) == (border[i].0 - 1, border[i].1 - 1),
{
    crate::ocr::text::kept::lemma_map_points(border, i);
    let u: int = crate::single::unit() as int;
    lemma_pow2_pos(149);
    let (a, b): (int, int) = (border[i].0 - 1, border[i].1 - 1);
    assert((a * u) / u == a && (b * u) / u == b) by (nonlinear_arith)
        requires
            u > 0,
    ;
}

} // verus!
