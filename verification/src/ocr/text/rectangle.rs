//! The rectangle around the hull of pixels holds all of them, up to rounding.
use crate::ocr::text::cells::Cell;
use crate::ocr::text::geometry::Point;
use crate::single::Single;
use vstd::arithmetic::power2::*;
use vstd::prelude::*;

verus! {

/// How far a place lies along a direction.
pub open spec fn dot(d: Cell, c: Cell) -> int {
    d.0 * c.0 + d.1 * c.1
}

/// The place is on the left of every edge between the corners, or on it, and the path round
/// them turns left at each.
pub open spec fn encircled(hull: Seq<Cell>, q: Cell) -> bool {
    &&& hull.len() >= 3
    &&& forall|i: int|
        0 <= i < hull.len() ==> #[trigger] crate::ocr::text::cells::side_keeps(hull, i, q)
    &&& forall|i: int|
        0 <= i < hull.len() ==> #[trigger] crate::ocr::text::cells::corner_bends(hull, i)
}

/// The corner that lies farthest along a direction.
pub proof fn lemma_farthest(hull: Seq<Cell>, d: Cell) -> (i: int)
    requires
        hull.len() > 0,
    ensures
        0 <= i < hull.len(),
        forall|j: int| 0 <= j < hull.len() ==> dot(d, #[trigger] hull[j]) <= dot(d, hull[i]),
    decreases hull.len(),
{
    let n: int = hull.len() - 1;
    if n == 0 {
        0
    } else {
        let rest: Seq<Cell> = hull.drop_last();
        let r: int = lemma_farthest(rest, d);
        let i: int = if dot(d, hull[r]) < dot(d, hull[n]) {
            n
        } else {
            r
        };
        assert forall|j: int| 0 <= j < hull.len() implies dot(d, #[trigger] hull[j]) <= dot(
            d,
            hull[i],
        ) by {
            if j < n {
                assert(dot(d, rest[j]) <= dot(d, rest[r]));
            }
        }
        i
    }
}

/// Between two edges that lead back along a direction, everything lies back.
pub proof fn lemma_wedge(d: Cell, o: Cell, next: Cell, prev: Cell, q: Cell)
    requires
        crate::ocr::text::cells::turn_of(o, next, prev) > 0,
        crate::ocr::text::cells::turn_of(o, next, q) >= 0,
        crate::ocr::text::cells::turn_of(o, q, prev) >= 0,
        dot(d, next) <= dot(d, o),
        dot(d, prev) <= dot(d, o),
    ensures
        dot(d, q) <= dot(d, o),
{
    let a: Cell = crate::ocr::text::cells::step_to(o, next);
    let b: Cell = crate::ocr::text::cells::step_to(o, prev);
    let w: Cell = crate::ocr::text::cells::step_to(o, q);
    reveal(crate::ocr::text::cells::turn_of);
    let ab: int = crate::ocr::text::cells::wedge_of(a, b);
    let aw: int = crate::ocr::text::cells::wedge_of(a, w);
    let wb: int = crate::ocr::text::cells::wedge_of(w, b);
    crate::ocr::text::cells::lemma_three_steps(a, w, b);
    lemma_dot_step(d, o, next);
    lemma_dot_step(d, o, prev);
    lemma_dot_step(d, o, q);
    let (fa, fb, fw): (int, int, int) = (dot(d, a), dot(d, b), dot(d, w));
    assert(ab * fw == wb * fa + aw * fb) by {
        let (x, y): (int, int) = (d.0, d.1);
        let (a0, a1, b0, b1, w0, w1) = (a.0, a.1, b.0, b.1, w.0, w.1);
        assert(ab * (x * w0 + y * w1) == x * (ab * w0) + y * (ab * w1)) by (nonlinear_arith);
        assert(wb * (x * a0 + y * a1) == x * (wb * a0) + y * (wb * a1)) by (nonlinear_arith);
        assert(aw * (x * b0 + y * b1) == x * (aw * b0) + y * (aw * b1)) by (nonlinear_arith);
        let (p0, q0, r0): (int, int, int) = (ab * w0, wb * a0, aw * b0);
        let (p1, q1, r1): (int, int, int) = (ab * w1, wb * a1, aw * b1);
        assert(x * p0 == x * q0 + x * r0 && y * p1 == y * q1 + y * r1) by (nonlinear_arith)
            requires
                p0 == q0 + r0,
                p1 == q1 + r1,
        ;
    }
    assert(wb * fa <= 0 && aw * fb <= 0) by (nonlinear_arith)
        requires
            wb >= 0,
            aw >= 0,
            fa <= 0,
            fb <= 0,
    ;
    assert(fw <= 0) by (nonlinear_arith)
        requires
            ab * fw <= 0,
            ab > 0,
    ;
}

pub proof fn lemma_dot_step(d: Cell, from: Cell, to: Cell)
    ensures
        dot(d, crate::ocr::text::cells::step_to(from, to)) == dot(d, to) - dot(d, from),
{
    let (x, y): (int, int) = (d.0, d.1);
    let (a, b, c, e): (int, int, int, int) = (from.0, from.1, to.0, to.1);
    assert(x * (c - a) + y * (e - b) == (x * c + y * e) - (x * a + y * b)) by (nonlinear_arith);
}

/// Of what the corners encircle, nothing lies farther along a direction than some corner.
pub proof fn lemma_corner_farthest(hull: Seq<Cell>, d: Cell, i: int, q: Cell)
    requires
        encircled(hull, q),
        0 <= i < hull.len(),
        forall|j: int| 0 <= j < hull.len() ==> dot(d, #[trigger] hull[j]) <= dot(d, hull[i]),
    ensures
        dot(d, q) <= dot(d, hull[i]),
{
    let n: int = hull.len() as int;
    let before: int = if i == 0 {
        n - 1
    } else {
        i - 1
    };
    let (o, prev): (Cell, Cell) = (hull[i], hull[before]);
    let next: Cell = hull[crate::ocr::text::cells::wrapped(i + 1, n)];
    assert(crate::ocr::text::cells::side_keeps(hull, i, q));
    assert(crate::ocr::text::cells::side_keeps(hull, before, q));
    assert(crate::ocr::text::cells::corner_bends(hull, before));
    crate::ocr::text::cells::lemma_turn_steps(prev, o, next);
    crate::ocr::text::cells::lemma_turn_steps(prev, o, q);
    lemma_wedge(d, o, next, prev, q);
}

/// The whole numbers are at most `2^12` from zero.
pub open spec fn small(c: Cell) -> bool {
    -4096 <= c.0 <= 4096 && -4096 <= c.1 <= 4096
}

/// A product with a whole number errs by at most one part in `2^12`.
proof fn lemma_product_close(x: Single, n: int, y: Single)
    requires
        crate::bounds::is_whole(x, n),
        -4096 <= n <= 4096,
        crate::ocr::text::drawing::within(y, 0),
    ensures
        crate::ocr::text::drawing::within(Single::product(x, y), 12),
        4096 * (Single::product(x, y).units() - n * y.units()) <= crate::single::unit(),
        4096 * (n * y.units() - Single::product(x, y).units()) <= crate::single::unit(),
{
    let u: nat = crate::single::unit();
    lemma2_to64();
    lemma_pow2_pos(149);
    lemma_pow2_adds(12, 149);
    lemma_pow2_strictly_increases(23, 149);
    let (sn, sy): (nat, nat) = (crate::single::size(n), crate::single::size(y.units()));
    assert(crate::single::size(x.units()) == sn * u) by (nonlinear_arith)
        requires
            x.units() == n * u,
            sn == crate::single::size(n),
            crate::single::size(x.units()) == (if x.units() < 0 {
                -x.units()
            } else {
                x.units()
            }),
            sn == (if n < 0 {
                -n
            } else {
                n
            }),
            u > 0,
    ;
    assert(sn * u <= 4096 * u) by (nonlinear_arith)
        requires
            sn <= 4096,
            u >= 0,
    ;
    crate::ocr::text::drawing::lemma_product_within(x, y, 12);
    crate::bounds::lemma_product(x, y);
    let p: Single = Single::product(x, y);
    let num: nat = (sn * u) * sy;
    crate::bounds::lemma_nearest_close(num, u);
    let s: nat = crate::single::step(crate::single::nearest(num, u));
    let t: nat = sn * sy;
    assert(num == t * u) by (nonlinear_arith)
        requires
            num == (sn * u) * sy,
            t == sn * sy,
    ;
    let scale: nat = if s < 0x80_0000 { 0x80_0000nat } else { s };
    assert(0x100_0000 * (t - s) <= scale && 0x100_0000 * (s - t) <= scale) by (nonlinear_arith)
        requires
            0x100_0000 * (t * u - s * u) <= scale * u,
            0x100_0000 * (s * u - t * u) <= scale * u,
            u > 0,
    ;
    assert(scale <= 4096 * u);
    // with the sign
    let e: int = n * y.units();
    assert(e == t || e == -t) by (nonlinear_arith)
        requires
            e == n * y.units(),
            t == sn * sy,
            sn == n || sn == -n,
            sy == y.units() || sy == -y.units(),
    ;
    lemma_same_sign(x, n, y, p, e);
}

/// A product has the sign of the exact product, where it is not zero.
proof fn lemma_same_sign(x: Single, n: int, y: Single, p: Single, e: int)
    requires
        crate::bounds::is_whole(x, n),
        y.finite(),
        p == Single::product(x, y),
        e == n * y.units(),
    ensures
        e > 0 ==> p.units() >= 0,
        e < 0 ==> p.units() <= 0,
        e == 0 ==> p.units() == 0,
{
    let u: int = crate::single::unit() as int;
    lemma_pow2_pos(149);
    crate::bounds::lemma_product(x, y);
    assert((n > 0 ==> n * u > 0) && (n < 0 ==> n * u < 0) && (n == 0 ==> n * u == 0))
        by (nonlinear_arith)
        requires
            u > 0,
    ;
    let v: int = y.units();
    assert((e > 0 ==> (n > 0 && v > 0 || n < 0 && v < 0)) && (e < 0 ==> (n > 0 && v < 0 || n < 0
        && v > 0)) && (e == 0 ==> n == 0 || v == 0)) by (nonlinear_arith)
        requires
            e == n * v,
    ;
    if e == 0 {
        let (sx, sy): (nat, nat) = (
            crate::single::size(x.units()),
            crate::single::size(y.units()),
        );
        assert(sx * sy == 0) by (nonlinear_arith)
            requires
                sx == 0 || sy == 0,
        ;
        crate::single::lemma_nearest_zero(crate::single::unit());
        assert(crate::single::step(0) == 0);
    }
}

/// How far a pixel is measured to lie along a direction errs by at most one part in `2^10`.
pub proof fn lemma_along_close(p: Point, d: Point)
    requires
        crate::ocr::text::hull::on_grid(p),
        small(crate::ocr::text::hull::cell(p)),
        crate::ocr::text::drawing::near(d, 0),
    ensures
        ({
            let a = crate::ocr::text::geometry::along(p, d);
            let exact = dot((d.0.units(), d.1.units()), crate::ocr::text::hull::cell(p));
            &&& a.finite()
            &&& 1024 * (a.units() - exact) <= crate::single::unit()
            &&& 1024 * (exact - a.units()) <= crate::single::unit()
        }),
{
    let u: nat = crate::single::unit();
    let c: Cell = crate::ocr::text::hull::cell(p);
    let (x, y): (Single, Single) = (Single::product(p.0, d.0), Single::product(p.1, d.1));
    lemma_product_close(p.0, c.0, d.0);
    lemma_product_close(p.1, c.1, d.1);
    crate::ocr::text::drawing::lemma_sum_within(x, y, 12);
    crate::bounds::lemma_sum(x, y);
    lemma2_to64();
    lemma_pow2_pos(149);
    lemma_pow2_adds(13, 149);
    lemma_pow2_strictly_increases(23, 149);
    let total: int = x.units() + y.units();
    let n: nat = crate::single::size(total);
    crate::bounds::lemma_nearest_close(n, 1);
    let s: nat = crate::single::step(crate::single::nearest(n, 1));
    let a: Single = Single::sum(x, y);
    assert(s <= 0x2000 * u);
    let scale: nat = if s < 0x80_0000 { 0x80_0000nat } else { s };
    assert(n * 1 == n && s * 1 == s && scale * 1 == scale);
    assert(0x100_0000 * (n - s) <= 0x2000 * u && 0x100_0000 * (s - n) <= 0x2000 * u);
    assert(2048 * (a.units() - total) <= u && 2048 * (total - a.units()) <= u);
    let (d0, d1): (int, int) = (d.0.units(), d.1.units());
    let (c0, c1): (int, int) = (c.0, c.1);
    assert(c0 * d0 == d0 * c0 && c1 * d1 == d1 * c1) by (nonlinear_arith);
}

/// The values are measured within the sides, up to one part in `2^9`.
pub open spec fn held(values: Seq<Single>, v: Single) -> bool {
    let u = crate::single::unit();
    &&& v.finite()
    &&& 512 * (v.units() - crate::ocr::text::geometry::greatest(values).units()) <= u
    &&& 512 * (crate::ocr::text::geometry::least(values).units() - v.units()) <= u
}

/// What near corners of pixels encircle is measured within their extent along a direction.
proof fn lemma_held(hull: Seq<Point>, d: Point, q: Point)
    requires
        crate::ocr::text::hull::all_on_grid(hull),
        forall|i: int|
            0 <= i < hull.len() ==> small(crate::ocr::text::hull::cell(#[trigger] hull[i])),
        crate::ocr::text::hull::on_grid(q),
        small(crate::ocr::text::hull::cell(q)),
        crate::ocr::text::drawing::near(d, 0),
        encircled(crate::ocr::text::hull::cells(hull), crate::ocr::text::hull::cell(q)),
    ensures
        held(
            crate::ocr::text::geometry::spread(hull, d),
            crate::ocr::text::geometry::along(q, d),
        ),
{
    let hc: Seq<Cell> = crate::ocr::text::hull::cells(hull);
    let c: Cell = crate::ocr::text::hull::cell(q);
    let us: Seq<Single> = crate::ocr::text::geometry::spread(hull, d);
    let (up, down): (Cell, Cell) = (
        (d.0.units(), d.1.units()),
        (-d.0.units(), -d.1.units()),
    );
    let i: int = lemma_farthest(hc, up);
    let j: int = lemma_farthest(hc, down);
    lemma_corner_farthest(hc, up, i, c);
    lemma_corner_farthest(hc, down, j, c);
    lemma_dot_down(up, c);
    lemma_dot_down(up, hc[j]);
    assert(crate::ocr::text::hull::on_grid(hull[i]) && small(crate::ocr::text::hull::cell(hull[i])));
    assert(crate::ocr::text::hull::on_grid(hull[j]) && small(crate::ocr::text::hull::cell(hull[j])));
    lemma_along_close(hull[i], d);
    lemma_along_close(hull[j], d);
    lemma_along_close(q, d);
    crate::ocr::text::geometry::lemma_extremes(us);
    assert(us[i] == crate::ocr::text::geometry::along(hull[i], d));
    assert(us[j] == crate::ocr::text::geometry::along(hull[j], d));
    assert(!us[i].nan() && !us[j].nan());
    assert(us[i].at_most(crate::ocr::text::geometry::greatest(us)));
    assert(crate::ocr::text::geometry::least(us).at_most(us[j]));
}

pub proof fn lemma_dot_down(d: Cell, c: Cell)
    ensures
        dot((-d.0, -d.1), c) == -dot(d, c),
{
    let (x, y, a, b): (int, int, int, int) = (d.0, d.1, c.0, c.1);
    assert((-x) * a + (-y) * b == -(x * a + y * b)) by (nonlinear_arith);
}

/// The hull of pixels encircles all of them.
pub proof fn lemma_encircled(points: Seq<Point>, k: int)
    requires
        crate::ocr::text::hull::all_on_grid(points),
        points.len() <= usize::MAX,
        crate::ocr::text::geometry::hull_of(points).len() >= 3,
        0 <= k < points.len(),
    ensures
        encircled(
            crate::ocr::text::hull::cells(crate::ocr::text::geometry::hull_of(points)),
            crate::ocr::text::hull::cell(points[k]),
        ),
{
    let hull: Seq<Point> = crate::ocr::text::geometry::hull_of(points);
    let hc: Seq<Cell> = crate::ocr::text::hull::cells(hull);
    let n: int = hull.len() as int;
    let q: Point = points[k];
    crate::ocr::text::hull::lemma_hull(points);
    assert forall|i: int| 0 <= i < n implies #[trigger] crate::ocr::text::cells::side_keeps(
        hc,
        i,
        crate::ocr::text::hull::cell(q),
    ) by {
        let next: Point = hull[crate::ocr::text::cells::wrapped(i + 1, n)];
        assert(crate::ocr::text::hull::side_keeps(hull, i, points[k]));
        assert(points.contains(hull[i]) && points.contains(next) && points.contains(points[k]));
        crate::ocr::text::hull::lemma_listed(points, hull[i], next);
        crate::ocr::text::hull::lemma_listed(points, hull[i], q);
        crate::ocr::text::hull::lemma_turn_exact(hull[i], next, q);
    }
    assert forall|i: int| 0 <= i < n implies #[trigger] crate::ocr::text::cells::corner_bends(
        hc,
        i,
    ) by {
        let next: Point = hull[crate::ocr::text::cells::wrapped(i + 1, n)];
        let third: Point = hull[crate::ocr::text::cells::wrapped(i + 2, n)];
        assert(crate::ocr::text::hull::corner_bends(hull, i));
        assert(points.contains(hull[i]) && points.contains(next) && points.contains(third));
        crate::ocr::text::hull::lemma_listed(points, hull[i], next);
        crate::ocr::text::hull::lemma_listed(points, hull[i], third);
        crate::ocr::text::hull::lemma_turn_exact(hull[i], next, third);
    }
}

/// A whole number that is near is small.
proof fn lemma_small(p: Point)
    requires
        crate::ocr::text::hull::on_grid(p),
        crate::ocr::text::drawing::near(p, 12),
    ensures
        small(crate::ocr::text::hull::cell(p)),
{
    let u: int = crate::single::unit() as int;
    lemma2_to64();
    lemma_pow2_pos(149);
    lemma_pow2_adds(12, 149);
    let c: Cell = crate::ocr::text::hull::cell(p);
    let (x, y): (int, int) = (c.0, c.1);
    assert(-4096 <= x <= 4096 && -4096 <= y <= 4096) by (nonlinear_arith)
        requires
            -(4096 * u) <= x * u <= 4096 * u,
            -(4096 * u) <= y * u <= 4096 * u,
            u > 0,
    ;
}

/// Of pixels at most 4096 from the origin, the rectangle along any edge of their hull, and so
/// the smallest, holds all of them: each is measured between its sides, up to one part in 512
/// of a pixel.
pub proof fn lemma_rectangle_encloses(points: Seq<Point>, j: int, k: int)
    requires
        crate::ocr::text::hull::all_on_grid(points),
        crate::ocr::text::drawing::all_near(points, 12),
        points.len() <= usize::MAX,
        crate::ocr::text::geometry::hull_of(points).len() >= 3,
        crate::ocr::text::geometry::directed(crate::ocr::text::geometry::hull_of(points), j),
        0 <= k < points.len(),
    ensures
        ({
            let hull = crate::ocr::text::geometry::hull_of(points);
            let d = crate::ocr::text::geometry::direction(
                crate::ocr::text::geometry::edge(hull, j),
            );
            let n = crate::ocr::text::geometry::turned(d);
            &&& held(
                crate::ocr::text::geometry::spread(hull, d),
                crate::ocr::text::geometry::along(points[k], d),
            )
            &&& held(
                crate::ocr::text::geometry::spread(hull, n),
                crate::ocr::text::geometry::along(points[k], n),
            )
        }),
{
    let hull: Seq<Point> = crate::ocr::text::geometry::hull_of(points);
    let d: Point = crate::ocr::text::geometry::direction(
        crate::ocr::text::geometry::edge(hull, j),
    );
    crate::ocr::text::drawing::lemma_hull_near(points, 12);
    crate::ocr::text::hull::lemma_hull_on_grid(points);
    lemma_directions(hull, j);
    lemma_all_small(hull);
    lemma_encircled(points, k);
    assert(crate::ocr::text::hull::on_grid(points[k]));
    assert(crate::ocr::text::drawing::near(points[k], 12));
    lemma_small(points[k]);
    lemma_held(hull, d, points[k]);
    lemma_held(hull, crate::ocr::text::geometry::turned(d), points[k]);
}

/// The direction of an edge between near points, and the one to its left, are near.
proof fn lemma_directions(hull: Seq<Point>, j: int)
    requires
        crate::ocr::text::drawing::all_near(hull, 12),
        crate::ocr::text::geometry::directed(hull, j),
    ensures
        ({
            let d = crate::ocr::text::geometry::direction(
                crate::ocr::text::geometry::edge(hull, j),
            );
            &&& crate::ocr::text::drawing::near(d, 0)
            &&& crate::ocr::text::drawing::near(crate::ocr::text::geometry::turned(d), 0)
        }),
{
    let e: Point = crate::ocr::text::geometry::edge(hull, j);
    let d: Point = crate::ocr::text::geometry::direction(e);
    crate::ocr::text::drawing::lemma_edge_near(hull, j, 12);
    crate::ocr::text::drawing::lemma_direction(e, 13);
    assert(d.1.negated().units() == -d.1.units());
}

/// Whole numbers that are near are small.
pub proof fn lemma_all_small(hull: Seq<Point>)
    requires
        crate::ocr::text::hull::all_on_grid(hull),
        crate::ocr::text::drawing::all_near(hull, 12),
    ensures
        forall|i: int|
            0 <= i < hull.len() ==> small(crate::ocr::text::hull::cell(#[trigger] hull[i])),
{
    assert forall|i: int| 0 <= i < hull.len() implies small(
        crate::ocr::text::hull::cell(#[trigger] hull[i]),
    ) by {
        assert(crate::ocr::text::hull::on_grid(hull[i]));
        assert(crate::ocr::text::drawing::near(hull[i], 12));
        lemma_small(hull[i]);
    }
}

} // verus!
