//! Expanding an upright rectangle moves each of its sides outward by the same distance.
use crate::bounds::is_whole;
use crate::close::{about, lemma_about, lemma_difference_close, lemma_sum_close, ordinary};
use crate::ocr::text::geometry::{
    counterclockwise, direction, edge, length, meeting, moved_corner, pushed, reach, side, sine,
    unclipped, Point,
};
use crate::ocr::text::upright::{
    at, lemma_exact_quotient, lemma_times_sign, lemma_upright_area, lemma_upright_corners,
    lemma_upright_movable, lemma_upright_reach, lemma_upright_sides, upright,
};
use crate::single::Single;
use vstd::arithmetic::power2::*;
use vstd::prelude::*;

verus! {

/// The number is a value in units, up to `e` parts in 512 of one.
pub open spec fn around(x: Single, want: int, e: int) -> bool {
    let u = crate::single::unit();
    &&& x.finite()
    &&& 512 * (x.units() - want) <= e * u
    &&& 512 * (want - x.units()) <= e * u
}

/// The value in units is not beyond 12288.
pub open spec fn modest(want: int) -> bool {
    -0x3000 * crate::single::unit() <= want <= 0x3000 * crate::single::unit()
}

proof fn lemma_parts(e: int, f: int, u: int)
    requires
        0 <= e <= f,
        u > 0,
    ensures
        0 <= e * u <= f * u,
{
    assert(0 <= e * u <= f * u) by (nonlinear_arith)
        requires
            0 <= e <= f,
            u > 0,
    ;
}

/// A sum of two such numbers errs by one part more.
pub proof fn lemma_add_around(x: Single, y: Single, a: int, b: int, e: int, f: int)
    requires
        around(x, a, e),
        around(y, b, f),
        modest(a),
        modest(b),
        0 <= e <= 16,
        0 <= f <= 16,
    ensures
        around(Single::sum(x, y), a + b, e + f + 1),
        around(Single::difference(x, y), a - b, e + f + 1),
{
    let u: int = crate::single::unit() as int;
    lemma_pow2_pos(149);
    lemma2_to64();
    lemma_pow2_adds(14, 149);
    assert(pow2(14) * pow2(149) == 0x4000 * pow2(149)) by (nonlinear_arith)
        requires
            pow2(14) == 0x4000,
    ;
    lemma_parts(e, 16, u);
    lemma_parts(f, 16, u);
    assert((e + f + 1) * u == e * u + f * u + u) by (nonlinear_arith);
    assert(crate::ocr::text::drawing::within(x, 14) && crate::ocr::text::drawing::within(y, 14));
    crate::ocr::text::drawing::lemma_sum_within(x, y, 14);
    crate::ocr::text::drawing::lemma_difference_within(x, y, 14);
    lemma_sum_close(x, y);
    lemma_difference_close(x, y);
}

/// Times zero, one or minus one such a number errs as before.
proof fn lemma_sign_around(x: Single, y: Single, a: int, e: int, s: int)
    requires
        around(x, a, e),
        is_whole(y, s),
        -1 <= s <= 1,
        0 <= e,
    ensures
        around(Single::product(x, y), s * a, e),
        around(Single::product(y, x), s * a, e),
{
    let u: int = crate::single::unit() as int;
    lemma_pow2_pos(149);
    lemma_times_sign(x, y, s);
    lemma_parts(0, e, u);
    let v: int = x.units();
    if s == 0 {
        assert(s * a == 0 && s * v == 0) by (nonlinear_arith)
            requires
                s == 0,
        ;
    } else if s == 1 {
        assert(s * a == a && s * v == v) by (nonlinear_arith)
            requires
                s == 1,
        ;
    } else {
        assert(s * a == -a && s * v == -v) by (nonlinear_arith)
            requires
                s == -1,
        ;
    }
}

/// A number divided by one.
proof fn lemma_over_one(x: Single, y: Single)
    requires
        x.finite(),
        is_whole(y, 1),
    ensures
        Single::quotient(x, y).finite(),
        Single::quotient(x, y).units() == x.units(),
{
    let u: nat = crate::single::unit();
    lemma_pow2_pos(149);
    assert(1 * u == u);
    crate::close::lemma_not_zero(y);
    crate::bounds::lemma_quotient(x, y);
    crate::single::lemma_nearest_step(x.magnitude(), u);
}

/// The start of a side along an axis after the side moved outward.
proof fn lemma_pushed_around(
    q: Seq<Point>,
    i: int,
    d: Single,
    x: int,
    y: int,
    ex: int,
    ey: int,
    n: int,
    sx: int,
    sy: int,
)
    requires
        0 <= i < q.len(),
        at(q[i], x, y),
        0 <= x <= 4000,
        0 <= y <= 4000,
        at(edge(q, i), ex, ey),
        is_whole(length(edge(q, i)), n),
        n > 0,
        ex == sx * n,
        ey == sy * n,
        -1 <= sx <= 1,
        -1 <= sy <= 1,
        d.finite(),
        modest(d.units()),
    ensures
        around(pushed(q, i, d).0, x * crate::single::unit() + sy * d.units(), 1),
        around(pushed(q, i, d).1, y * crate::single::unit() + (-sx) * d.units(), 1),
{
    reveal(pushed);
    let u: int = crate::single::unit() as int;
    lemma_pow2_pos(149);
    let e: Point = edge(q, i);
    let len: Single = length(e);
    lemma_exact_quotient(e.1, len, ey, n, sy);
    assert(is_whole(e.0.negated(), -ex)) by {
        assert((-ex) * u == -(ex * u)) by (nonlinear_arith);
    }
    assert(-ex == (-sx) * n) by (nonlinear_arith)
        requires
            ex == sx * n,
    ;
    lemma_exact_quotient(e.0.negated(), len, -ex, n, -sx);
    let v: int = d.units();
    assert(around(d, v, 0)) by {
        assert(0 * u == 0);
    }
    lemma_sign_around(d, Single::quotient(e.1, len), v, 0, sy);
    lemma_sign_around(d, Single::quotient(e.0.negated(), len), v, 0, -sx);
    assert(around(q[i].0, x * u, 0) && around(q[i].1, y * u, 0)) by {
        assert(0 * u == 0);
    }
    lemma_modest_sign(v, sy);
    lemma_modest_sign(v, -sx);
    lemma_modest_whole(x);
    lemma_modest_whole(y);
    lemma_add_around(
        q[i].0,
        Single::product(Single::quotient(e.1, len), d),
        x * u,
        sy * v,
        0,
        0,
    );
    lemma_add_around(
        q[i].1,
        Single::product(Single::quotient(e.0.negated(), len), d),
        y * u,
        (-sx) * v,
        0,
        0,
    );
}

proof fn lemma_modest_sign(v: int, s: int)
    requires
        modest(v),
        -1 <= s <= 1,
    ensures
        modest(s * v),
        s * v == v || s * v == -v || s * v == 0,
{
    assert(s * v == v || s * v == -v || s * v == 0) by (nonlinear_arith)
        requires
            -1 <= s <= 1,
    ;
    lemma_pow2_pos(149);
}

proof fn lemma_modest_whole(n: int)
    requires
        -0x3000 <= n <= 0x3000,
    ensures
        modest(n * crate::single::unit()),
{
    let u: int = crate::single::unit() as int;
    lemma_pow2_pos(149);
    assert(-0x3000 * u <= n * u <= 0x3000 * u) by (nonlinear_arith)
        requires
            -0x3000 <= n <= 0x3000,
            u > 0,
    ;
}

/// Where two lines along the axes meet.
proof fn lemma_meeting_around(
    p: Point,
    d: Point,
    q: Point,
    f: Point,
    px: int,
    py: int,
    qx: int,
    qy: int,
    dx: int,
    dy: int,
    fx: int,
    fy: int,
)
    requires
        around(p.0, px, 1),
        around(p.1, py, 1),
        around(q.0, qx, 1),
        around(q.1, qy, 1),
        at(d, dx, dy),
        at(f, fx, fy),
        -1 <= dx <= 1,
        -1 <= dy <= 1,
        -1 <= fx <= 1,
        -1 <= fy <= 1,
        is_whole(sine(d, f), 1),
        modest(px),
        modest(py),
        modest(qx),
        modest(qy),
        modest(qx - px),
        modest(qy - py),
        modest(fy * (qx - px) - fx * (qy - py)),
    ensures
        ({
            let along = fy * (qx - px) - fx * (qy - py);
            let m = meeting(p, d, q, f);
            around(m.0, px + dx * along, 9) && around(m.1, py + dy * along, 9)
        }),
{
    reveal(meeting);
    let u: int = crate::single::unit() as int;
    lemma_add_around(q.0, p.0, qx, px, 1, 1);
    lemma_add_around(q.1, p.1, qy, py, 1, 1);
    let (x, y): (Single, Single) = (Single::difference(q.0, p.0), Single::difference(q.1, p.1));
    lemma_sign_around(x, f.1, qx - px, 3, fy);
    lemma_sign_around(y, f.0, qy - py, 3, fx);
    lemma_modest_sign(qx - px, fy);
    lemma_modest_sign(qy - py, fx);
    lemma_add_around(
        Single::product(x, f.1),
        Single::product(y, f.0),
        fy * (qx - px),
        fx * (qy - py),
        3,
        3,
    );
    let along: int = fy * (qx - px) - fx * (qy - py);
    let s: Single = Single::difference(Single::product(x, f.1), Single::product(y, f.0));
    lemma_over_one(s, sine(d, f));
    let t: Single = Single::quotient(s, sine(d, f));
    assert(around(t, along, 7));
    lemma_sign_around(t, d.0, along, 7, dx);
    lemma_sign_around(t, d.1, along, 7, dy);
    lemma_modest_sign(along, dx);
    lemma_modest_sign(along, dy);
    lemma_add_around(p.0, Single::product(t, d.0), px, dx * along, 1, 7);
    lemma_add_around(p.1, Single::product(t, d.1), py, dy * along, 1, 7);
}

/// The point is within a fiftieth of a place in units.
pub open spec fn placed_at(p: Point, x: int, y: int) -> bool {
    around(p.0, x, 9) && around(p.1, y, 9)
}

/// The starts of the sides of an upright rectangle after every side moved outward by `d`.
proof fn lemma_upright_pushed(q: Seq<Point>, d: Single, l: int, t: int, r: int, b: int)
    requires
        upright(q, l, t, r, b),
        0 <= l < r <= 4000,
        0 <= t < b <= 4000,
        d.finite(),
        modest(d.units()),
    ensures
        ({
            let (u, v) = (crate::single::unit(), d.units());
            &&& around(pushed(q, 0, d).0, l * u, 1) && around(pushed(q, 0, d).1, t * u - v, 1)
            &&& around(pushed(q, 1, d).0, r * u + v, 1) && around(pushed(q, 1, d).1, t * u, 1)
            &&& around(pushed(q, 2, d).0, r * u, 1) && around(pushed(q, 2, d).1, b * u + v, 1)
            &&& around(pushed(q, 3, d).0, l * u - v, 1) && around(pushed(q, 3, d).1, b * u, 1)
        }),
{
    let v: int = d.units();
    lemma_upright_sides(q, l, t, r, b);
    let (w, h): (int, int) = (r - l, b - t);
    lemma_pushed_around(q, 0, d, l, t, w, 0, w, 1, 0);
    lemma_pushed_around(q, 1, d, r, t, 0, h, h, 0, 1);
    lemma_pushed_around(q, 2, d, r, b, -w, 0, w, -1, 0);
    lemma_pushed_around(q, 3, d, l, b, 0, -h, h, 0, -1);
    assert(0 * v == 0 && 1 * v == v && (-1) * v == -v && (-0) * v == 0);
}

/// Where the moved sides of an upright rectangle meet.
proof fn lemma_four_meetings(
    p0: Point,
    p1: Point,
    p2: Point,
    p3: Point,
    d0: Point,
    d1: Point,
    d2: Point,
    d3: Point,
    l: int,
    t: int,
    r: int,
    b: int,
    v: int,
)
    requires
        around(p0.0, l, 1) && around(p0.1, t - v, 1),
        around(p1.0, r + v, 1) && around(p1.1, t, 1),
        around(p2.0, r, 1) && around(p2.1, b + v, 1),
        around(p3.0, l - v, 1) && around(p3.1, b, 1),
        at(d0, 1, 0),
        at(d1, 0, 1),
        at(d2, -1, 0),
        at(d3, 0, -1),
        is_whole(sine(d3, d0), 1),
        is_whole(sine(d0, d1), 1),
        is_whole(sine(d1, d2), 1),
        is_whole(sine(d2, d3), 1),
        0 <= l <= 4000 * crate::single::unit(),
        0 <= r <= 4000 * crate::single::unit(),
        0 <= t <= 4000 * crate::single::unit(),
        0 <= b <= 4000 * crate::single::unit(),
        0 <= v <= 8010 * crate::single::unit(),
    ensures
        placed_at(meeting(p3, d3, p0, d0), l - v, t - v),
        placed_at(meeting(p0, d0, p1, d1), r + v, t - v),
        placed_at(meeting(p1, d1, p2, d2), r + v, b + v),
        placed_at(meeting(p2, d2, p3, d3), l - v, b + v),
{
    lemma_meeting_around(p3, d3, p0, d0, l - v, b, l, t - v, 0, -1, 1, 0);
    lemma_meeting_around(p0, d0, p1, d1, l, t - v, r + v, t, 1, 0, 0, 1);
    lemma_meeting_around(p1, d1, p2, d2, r + v, t, r, b + v, 0, 1, -1, 0);
    lemma_meeting_around(p2, d2, p3, d3, r, b + v, l - v, b, -1, 0, 0, -1);
}

/// The corners of an upright rectangle after every side moved outward by `d`.
proof fn lemma_upright_moved(q: Seq<Point>, d: Single, l: int, t: int, r: int, b: int)
    requires
        upright(q, l, t, r, b),
        0 <= l < r <= 4000,
        0 <= t < b <= 4000,
        d.finite(),
        0 <= d.units() <= 8010 * crate::single::unit(),
    ensures
        ({
            let (u, v) = (crate::single::unit(), d.units());
            &&& placed_at(moved_corner(q, 0, d), l * u - v, t * u - v)
            &&& placed_at(moved_corner(q, 1, d), r * u + v, t * u - v)
            &&& placed_at(moved_corner(q, 2, d), r * u + v, b * u + v)
            &&& placed_at(moved_corner(q, 3, d), l * u - v, b * u + v)
        }),
{
    let u: int = crate::single::unit() as int;
    lemma_pow2_pos(149);
    let v: int = d.units();
    lemma_upright_sides(q, l, t, r, b);
    lemma_upright_corners(q, l, t, r, b);
    lemma_upright_pushed(q, d, l, t, r, b);
    let (lu, tu, ru, bu): (int, int, int, int) = (l * u, t * u, r * u, b * u);
    lemma_parts(l, 4000, u);
    lemma_parts(r, 4000, u);
    lemma_parts(t, 4000, u);
    lemma_parts(b, 4000, u);
    lemma_four_meetings(
        pushed(q, 0, d),
        pushed(q, 1, d),
        pushed(q, 2, d),
        pushed(q, 3, d),
        direction(edge(q, 0)),
        direction(edge(q, 1)),
        direction(edge(q, 2)),
        direction(edge(q, 3)),
        lu,
        tu,
        ru,
        bu,
        v,
    );
    lemma_corners_meet(q, d);
}

proof fn lemma_corners_meet(q: Seq<Point>, d: Single)
    ensures
        moved_corner(q, 0, d) == meeting(
            pushed(q, 3, d),
            direction(edge(q, 3)),
            pushed(q, 0, d),
            direction(edge(q, 0)),
        ),
        moved_corner(q, 1, d) == meeting(
            pushed(q, 0, d),
            direction(edge(q, 0)),
            pushed(q, 1, d),
            direction(edge(q, 1)),
        ),
        moved_corner(q, 2, d) == meeting(
            pushed(q, 1, d),
            direction(edge(q, 1)),
            pushed(q, 2, d),
            direction(edge(q, 2)),
        ),
        moved_corner(q, 3, d) == meeting(
            pushed(q, 2, d),
            direction(edge(q, 2)),
            pushed(q, 3, d),
            direction(edge(q, 3)),
        ),
{
    reveal(moved_corner);
}

/// An upright rectangle with whole corners, run through either way, expands by moving each of
/// its sides outward by one distance `d`: its area times the ratio, over its perimeter. Twice
/// the area, `n`, is off by two at most, and by nothing where the area is below 2000. Each
/// corner comes out within a fiftieth of a pixel of its place.
pub proof fn lemma_upright_expands(
    q: Seq<Point>,
    ratio: Single,
    num: int,
    den: int,
    l: int,
    t: int,
    r: int,
    b: int,
    p: int,
) -> (moved: (Single, int))
    requires
        upright(q, l, t, r, b),
        0 <= l < r <= 4000,
        0 <= t < b <= 4000,
        about(ratio, num, den, 1),
        0 < num <= 8 * den,
        den <= 0x1_0000,
        p == 2 * ((r - l) + (b - t)),
    ensures
        about(moved.0, moved.1 * num, (2 * den) * p, 3),
        moved.0.units() >= 0,
        0 < moved.1,
        -2 <= moved.1 - 2 * ((r - l) * (b - t)) <= 2,
        moved.1 == 2 * ((r - l) * (b - t)) || (r - l) * (b - t) >= 2000,
        unclipped(seq![q[0], q[3], q[2], q[1]], ratio) == unclipped(q, ratio),
        ({
            let g = unclipped(q, ratio);
            let (u, v) = (crate::single::unit(), moved.0.units());
            &&& g.len() == 4
            &&& placed_at(g[0], l * u - v, t * u - v)
            &&& placed_at(g[1], r * u + v, t * u - v)
            &&& placed_at(g[2], r * u + v, b * u + v)
            &&& placed_at(g[3], l * u - v, b * u + v)
        }),
{
    let d: Single = reach(q, ratio);
    let n: int = lemma_upright_reach(q, ratio, num, den, l, t, r, b, p);
    lemma_reach_limits(d, num, den, r - l, b - t, n, p);
    lemma_upright_moved(q, d, l, t, r, b);
    lemma_upright_movable(q, l, t, r, b);
    lemma_upright_turned(q, l, t, r, b);
    (d, n)
}

proof fn lemma_upright_turned(q: Seq<Point>, l: int, t: int, r: int, b: int)
    requires
        upright(q, l, t, r, b),
        0 <= l < r <= 4000,
        0 <= t < b <= 4000,
    ensures
        counterclockwise(q) == q,
        counterclockwise(seq![q[0], q[3], q[2], q[1]]) == q,
{
    let n: int = lemma_upright_area(q, l, t, r, b);
    let u: int = crate::single::unit() as int;
    lemma_pow2_pos(149);
    assert(n * u > 0) by (nonlinear_arith)
        requires
            n > 0,
            u > 0,
    ;
    let zero: Single = Single { bits: 0 };
    assert(zero.units() == 0);
    assert(counterclockwise(seq![q[0], q[3], q[2], q[1]]) =~= q);
}

proof fn lemma_reach_limits(d: Single, num: int, den: int, w: int, h: int, n: int, p: int)
    requires
        0 < w <= 4000,
        0 < h <= 4000,
        0 < num <= 8 * den,
        p == 2 * (w + h),
        0 < n,
        n <= 2 * (w * h) + 2,
        about(d, n * num, (2 * den) * p, 3),
        ordinary(n * num, (2 * den) * p),
    ensures
        0 <= d.units() <= 8010 * crate::single::unit(),
{
    lemma_about(d, n * num, (2 * den) * p, 3);
    lemma_pow2_pos(100);
    assert(n <= 2001 * p) by (nonlinear_arith)
        requires
            n <= 2 * (w * h) + 2,
            p == 2 * (w + h),
            0 < w <= 4000,
            0 < h <= 4000,
    ;
    let (c, e): (int, int) = (n * num, (2 * den) * p);
    assert(c <= 8004 * e) by (nonlinear_arith)
        requires
            c == n * num,
            e == (2 * den) * p,
            0 < n <= 2001 * p,
            0 < num <= 8 * den,
    ;
    lemma_reach_bound(d, c, e);
}

proof fn lemma_reach_bound(d: Single, c: int, e: int)
    requires
        about(d, c, e, 3),
        0 < c <= 8004 * e,
        e > 0,
    ensures
        d.units() <= 8010 * crate::single::unit(),
{
    let u: int = crate::single::unit() as int;
    lemma_pow2_pos(149);
    let v: int = d.units();
    assert(v <= 8010 * u) by (nonlinear_arith)
        requires
            0x80_0000 * (v * e) <= (0x80_0000 + 3) * (c * u),
            0 < c <= 8004 * e,
            e > 0,
            u > 0,
    ;
}

} // verus!
