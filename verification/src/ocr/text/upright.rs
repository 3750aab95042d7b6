//! Upright rectangles with whole corners: their sides, their area and how they expand.
use crate::bounds::{is_whole, lemma_exact_difference, lemma_exact_product};
use crate::close::{about, lemma_product_about, lemma_quotient_about, ordinary};
use crate::ocr::text::geometry::{
    direction, edge, length, movable, offset, parallel_at, perimeter, reach, side, signed_area_of,
    sine, wedge, Point, PARALLEL, SHORTEST_EDGE, TWO,
};
use crate::single::Single;
use vstd::arithmetic::power2::*;
use vstd::prelude::*;

verus! {

/// The point is at whole coordinates.
pub open spec fn at(p: Point, x: int, y: int) -> bool {
    is_whole(p.0, x) && is_whole(p.1, y)
}

/// The corners of an upright rectangle, from its top left one along the top edge.
pub open spec fn upright(q: Seq<Point>, l: int, t: int, r: int, b: int) -> bool {
    &&& q.len() == 4
    &&& at(q[0], l, t)
    &&& at(q[1], r, t)
    &&& at(q[2], r, b)
    &&& at(q[3], l, b)
}

/// Sums of whole numbers are exact as long as they have at most twenty-four bits.
pub proof fn lemma_exact_sum(x: Single, y: Single, a: int, b: int)
    requires
        is_whole(x, a),
        is_whole(y, b),
        -0x100_0000 <= a + b <= 0x100_0000,
    ensures
        is_whole(Single::sum(x, y), a + b),
{
    let u: int = crate::single::unit() as int;
    lemma_pow2_pos(149);
    crate::bounds::lemma_sum(x, y);
    assert(a * u + b * u == (a + b) * u) by (nonlinear_arith);
    let n: nat = crate::single::size(a + b);
    let m: nat = crate::bounds::lemma_whole_on_scale(n);
    crate::single::lemma_nearest_step(m, 1);
    crate::bounds::lemma_top();
    let c: int = a + b;
    assert((-c) * u == -(c * u)) by (nonlinear_arith);
    assert(c > 0 ==> c * u > 0) by (nonlinear_arith)
        requires
            u > 0,
    ;
    assert(c < 0 ==> c * u < 0) by (nonlinear_arith)
        requires
            u > 0,
    ;
    assert(c == 0 ==> c * u == 0) by (nonlinear_arith);
    lemma_finite_whole(Single::sum(x, y), n);
}

pub proof fn lemma_finite_whole(x: Single, n: nat)
    requires
        !x.nan(),
        n <= 0x100_0000,
        crate::single::size(x.units()) == n * crate::single::unit(),
    ensures
        x.finite(),
{
    let u: int = crate::single::unit() as int;
    lemma_pow2_pos(149);
    lemma2_to64();
    crate::bounds::lemma_top();
    lemma_pow2_adds(24, 149);
    lemma_pow2_strictly_increases(173, 277);
    assert(n * u <= 0x100_0000 * u) by (nonlinear_arith)
        requires
            n <= 0x100_0000,
            u > 0,
    ;
    assert(pow2(24) * pow2(149) == 0x100_0000 * pow2(149)) by (nonlinear_arith)
        requires
            pow2(24) == 0x100_0000,
    ;
    if !x.finite() {
        assert(x.magnitude() == 0x7f80_0000);
        assert(false);
    }
}

/// A quotient of whole numbers that is whole is exact.
pub proof fn lemma_exact_quotient(x: Single, y: Single, a: int, b: int, c: int)
    requires
        is_whole(x, a),
        is_whole(y, b),
        b > 0,
        a == c * b,
        -0x100_0000 <= c <= 0x100_0000,
    ensures
        is_whole(Single::quotient(x, y), c),
{
    let u: int = crate::single::unit() as int;
    lemma_pow2_pos(149);
    let bu: int = b * u;
    assert(bu > 0) by (nonlinear_arith)
        requires
            bu == b * u,
            b > 0,
            u > 0,
    ;
    crate::close::lemma_not_zero(y);
    crate::bounds::lemma_quotient(x, y);
    let n: nat = crate::single::size(c);
    let m: nat = crate::bounds::lemma_whole_on_scale(n);
    crate::single::lemma_nearest_step(m, bu as nat);
    let sa: nat = crate::single::size(x.units());
    assert(sa * u == (n * u) * bu) by (nonlinear_arith)
        requires
            sa == (if a * u < 0 {
                -(a * u)
            } else {
                a * u
            }),
            n == (if c < 0 {
                -c
            } else {
                c
            }),
            a == c * b,
            bu == b * u,
            b > 0,
            u > 0,
    ;
    let q: Single = Single::quotient(x, y);
    lemma_finite_whole(q, n);
    crate::close::lemma_quotient_close(x, y);
    let (au, cu): (int, int) = (a * u, c * u);
    assert((-c) * u == -cu) by (nonlinear_arith)
        requires
            cu == c * u,
    ;
    assert(c >= 0 ==> au >= 0 && cu >= 0) by (nonlinear_arith)
        requires
            au == a * u,
            cu == c * u,
            a == c * b,
            b > 0,
            u > 0,
    ;
    assert(c <= 0 ==> au <= 0 && cu <= 0) by (nonlinear_arith)
        requires
            au == a * u,
            cu == c * u,
            a == c * b,
            b > 0,
            u > 0,
    ;
}

/// Times zero, one or minus one is exact.
pub proof fn lemma_times_sign(x: Single, y: Single, s: int)
    requires
        x.finite(),
        is_whole(y, s),
        -1 <= s <= 1,
    ensures
        Single::product(x, y).finite(),
        Single::product(x, y).units() == s * x.units(),
        Single::product(y, x).finite(),
        Single::product(y, x).units() == s * x.units(),
{
    let u: nat = crate::single::unit();
    lemma_pow2_pos(149);
    crate::bounds::lemma_product(x, y);
    crate::bounds::lemma_product(y, x);
    let (sx, sy): (nat, nat) = (crate::single::size(x.units()), crate::single::size(y.units()));
    crate::single::lemma_nearest_step(x.magnitude(), u);
    crate::single::lemma_nearest_zero(u);
    assert(crate::single::step(0) == 0);
    if s == 0 {
        assert(0 * u == 0);
        assert(sx * 0 == 0 && 0 * sx == 0);
    } else {
        assert(1 * u == u && (-1) * u == -u);
        assert(sx * u == u * sx) by (nonlinear_arith);
        crate::close::lemma_not_zero(y);
    }
    crate::close::lemma_not_zero(x);
}

/// Adding zero is exact.
pub proof fn lemma_plus_zero(x: Single, y: Single)
    requires
        x.finite(),
        y.finite(),
        y.units() == 0,
    ensures
        Single::sum(x, y).finite(),
        Single::sum(x, y).units() == x.units(),
        Single::difference(x, y).finite(),
        Single::difference(x, y).units() == x.units(),
        Single::difference(y, x).finite(),
        Single::difference(y, x).units() == -x.units(),
{
    crate::bounds::lemma_sum(x, y);
    crate::bounds::lemma_difference(x, y);
    crate::bounds::lemma_difference(y, x);
    crate::single::lemma_nearest_step(x.magnitude(), 1);
    assert(crate::single::step(x.magnitude()) * 1 == crate::single::step(x.magnitude()));
}

/// The length of a vector along an axis.
pub proof fn lemma_axis_length(v: Point, x: int, y: int)
    requires
        at(v, x, y),
        x == 0 || y == 0,
        -0x100_0000 <= x <= 0x100_0000,
        -0x100_0000 <= y <= 0x100_0000,
    ensures
        is_whole(length(v), crate::single::size(x + y) as int),
{
    let u: int = crate::single::unit() as int;
    assert(0 * u == 0);
    crate::ocr::text::drawing::lemma_length(v);
    let (a, b): (int, int) = (v.0.units(), v.1.units());
    let (m, k): (nat, nat) = (v.0.magnitude(), v.1.magnitude());
    let (s, z): (nat, nat) = (crate::single::step(m), crate::single::step(k));
    let n: nat = (a * a + b * b) as nat;
    assert(a * a == s * s && b * b == z * z) by (nonlinear_arith)
        requires
            a == s || a == -s,
            b == z || b == -z,
    ;
    assert(0int * 0 == 0);
    if y == 0 {
        assert(z == 0);
        crate::ocr::text::drawing::lemma_root_at_most(n, m);
    } else {
        assert(s == 0);
        crate::ocr::text::drawing::lemma_root_at_most(n, k);
    }
    let c: int = x + y;
    assert((-c) * u == -(c * u)) by (nonlinear_arith);
    assert(c >= 0 ==> c * u >= 0) by (nonlinear_arith)
        requires
            u >= 0,
    ;
    assert(c <= 0 ==> c * u <= 0) by (nonlinear_arith)
        requires
            u >= 0,
    ;
}

/// An edge between whole points along an axis: it is exact, so is its length, and its direction
/// is one of the four.
pub proof fn lemma_axis_edge(
    q: Seq<Point>,
    i: int,
    x: int,
    y: int,
    z: int,
    w: int,
)
    requires
        q.len() == 4,
        0 <= i < 4,
        at(q[i], x, y),
        at(q[(i + 1) % 4], z, w),
        (x == z) != (y == w),
        -0x100_0000 <= z - x <= 0x100_0000,
        -0x100_0000 <= w - y <= 0x100_0000,
    ensures
        ({
            let n = crate::single::size((z - x) + (w - y)) as int;
            &&& at(edge(q, i), z - x, w - y)
            &&& is_whole(side(q, i), n)
            &&& n > 0
            &&& at(direction(edge(q, i)), (z - x) / n, (w - y) / n)
            &&& (z - x) / n == (if z > x { 1int } else if z < x { -1int } else { 0int })
            &&& (w - y) / n == (if w > y { 1int } else if w < y { -1int } else { 0int })
        }),
{
    reveal(edge);
    reveal(direction);
    let (a, b): (Point, Point) = (q[i], q[(i + 1) % 4]);
    lemma_exact_difference(b.0, a.0, z, x);
    lemma_exact_difference(b.1, a.1, w, y);
    let e: Point = edge(q, i);
    assert(e == offset(a, b));
    let (dx, dy): (int, int) = (z - x, w - y);
    let n: int = crate::single::size(dx + dy) as int;
    lemma_axis_length(e, dx, dy);
    let sx: int = if dx > 0 {
        1
    } else if dx < 0 {
        -1
    } else {
        0
    };
    let sy: int = if dy > 0 {
        1
    } else if dy < 0 {
        -1
    } else {
        0
    };
    assert(dx == sx * n && dy == sy * n);
    lemma_exact_quotient(e.0, length(e), dx, n, sx);
    lemma_exact_quotient(e.1, length(e), dy, n, sy);
    assert(dx / n == sx && dy / n == sy) by (nonlinear_arith)
        requires
            dx == sx * n,
            dy == sy * n,
            n > 0,
    ;
}

/// Twice the area under an edge between whole points.
proof fn lemma_exact_wedge(q: Seq<Point>, i: int, x: int, y: int, z: int, w: int)
    requires
        q.len() == 4,
        0 <= i < 4,
        at(q[i], x, y),
        at(q[(i + 1) % 4], z, w),
        0 <= x <= 4000,
        0 <= y <= 4000,
        0 <= z <= 4000,
        0 <= w <= 4000,
    ensures
        is_whole(wedge(q, i), x * w - z * y),
        -16_000_000 <= x * w - z * y <= 16_000_000,
{
    reveal(wedge);
    let (a, b): (Point, Point) = (q[i], q[(i + 1) % 4]);
    assert(0 <= x * w <= 4000 * 4000 && 0 <= z * y <= 4000 * 4000) by (nonlinear_arith)
        requires
            0 <= x <= 4000,
            0 <= y <= 4000,
            0 <= z <= 4000,
            0 <= w <= 4000,
    ;
    lemma_exact_product(a.0, b.1, x, w);
    lemma_exact_product(b.0, a.1, z, y);
    lemma_exact_difference(Single::product(a.0, b.1), Single::product(b.0, a.1), x * w, z * y);
}

/// Two is whole.
proof fn lemma_two_whole()
    ensures
        is_whole(Single { bits: TWO }, 2),
{
    crate::ocr::text::kept::lemma_two_is_whole();
    crate::bounds::lemma_whole(2);
}

/// A sum of whole numbers below `2^25` is whole and off by one at most; beyond `2^24` it is
/// even, up to there exact.
proof fn lemma_near_sum(x: Single, y: Single, a: int, b: int) -> (n: int)
    requires
        is_whole(x, a),
        is_whole(y, b),
        -0x1ff_0000 <= a + b <= 0x1ff_0000,
    ensures
        is_whole(Single::sum(x, y), n),
        -1 <= n - (a + b) <= 1,
        -0x100_0000 <= a + b <= 0x100_0000 ==> n == a + b,
        n > 0x100_0000 || n < -0x100_0000 ==> n % 2 == 0,
{
    let u: int = crate::single::unit() as int;
    lemma_pow2_pos(149);
    let c: int = a + b;
    if -0x100_0000 <= c <= 0x100_0000 {
        lemma_exact_sum(x, y, a, b);
        c
    } else {
        crate::bounds::lemma_sum(x, y);
        assert(a * u + b * u == c * u) by (nonlinear_arith)
            requires
                c == a + b,
        ;
        let z: int = crate::single::size(c) as int;
        assert(c * u == z * u || c * u == -(z * u)) by (nonlinear_arith)
            requires
                z == c || z == -c,
        ;
        let f: nat = (z / 2) as nat;
        lemma_pow2_adds(1, 149);
        lemma2_to64();
        let p: nat = pow2(150);
        assert(p == 2 * u);
        crate::single::lemma_step_scaled(f, 150);
        crate::single::lemma_step_scaled(f + 1, 150);
        let m: nat = f + 150 * 0x80_0000;
        assert(f * p == (2 * f) * u && (f + 1) * p == (2 * f + 2) * u) by (nonlinear_arith)
            requires
                p == 2 * u,
        ;
        let total: nat = crate::single::size(c * u);
        assert((2 * f) * u <= z * u && z * u <= (2 * f + 2) * u && z * u > 0) by (nonlinear_arith)
            requires
                2 * f <= z <= 2 * f + 2,
                z > 0,
                u > 0,
        ;
        assert(total == z * u);
        crate::bounds::lemma_nearest_at_least(total, 1, m);
        crate::bounds::lemma_nearest_at_most(total, 1, m + 1);
        let k: nat = crate::single::nearest(total, 1);
        assert(k == m || k == m + 1);
        if z == 2 * f {
            crate::single::lemma_nearest_step(m, 1);
            assert(k == m);
        }
        let w: int = if k == m {
            2 * f as int
        } else {
            2 * f as int + 2
        };
        let r: Single = Single::sum(x, y);
        assert(crate::single::size(r.units()) == w * u);
        assert((-w) * u == -(w * u)) by (nonlinear_arith);
        let n: int = if c > 0 {
            w
        } else {
            -w
        };
        assert(c > 0 ==> c * u > 0) by (nonlinear_arith)
            requires
                u > 0,
        ;
        assert(c < 0 ==> c * u < 0) by (nonlinear_arith)
            requires
                u > 0,
        ;
        assert(r.units() == n * u);
        assert(r.finite());
        n
    }
}

/// Half of a whole number below `2^25` that is even beyond `2^24`.
proof fn lemma_half(x: Single, n: int)
    requires
        is_whole(x, n),
        -0x1ff_0001 <= n <= 0x1ff_0001,
        n > 0x100_0000 || n < -0x100_0000 ==> n % 2 == 0,
    ensures
        Single::quotient(x, Single { bits: TWO }).finite(),
        2 * Single::quotient(x, Single { bits: TWO }).units() == n * crate::single::unit(),
{
    let u: int = crate::single::unit() as int;
    lemma_pow2_pos(149);
    lemma2_to64();
    lemma_pow2_adds(1, 148);
    let two: Single = Single { bits: TWO };
    lemma_two_whole();
    crate::close::lemma_not_zero(two);
    crate::bounds::lemma_quotient(x, two);
    let z: int = crate::single::size(n) as int;
    let h: int = pow2(148) as int;
    assert(u == 2 * h);
    lemma_pow2_adds(24, 149);
    lemma_pow2_strictly_increases(173, 277);
    assert(n * u == z * u || n * u == -(z * u)) by (nonlinear_arith)
        requires
            z == n || z == -n,
    ;
    assert(0 <= z * u && z * h <= 0x100_0000 * u && z * u == 2 * (z * h)) by (nonlinear_arith)
        requires
            0 <= z <= 0x1ff_0001,
            u == 2 * h,
            h > 0,
    ;
    assert(pow2(24) * pow2(149) == 0x100_0000 * pow2(149)) by (nonlinear_arith)
        requires
            pow2(24) == 0x100_0000,
    ;
    let m: nat = if z <= 0x100_0000 {
        crate::bounds::lemma_on_scale(z as nat, 148)
    } else {
        let f: nat = (z / 2) as nat;
        assert(f * u == z * h) by (nonlinear_arith)
            requires
                z == 2 * f,
                u == 2 * h,
        ;
        crate::bounds::lemma_on_scale(f, 149)
    };
    let s: int = crate::single::step(m) as int;
    assert(s == z * h);
    let den: nat = (2 * u) as nat;
    crate::single::lemma_nearest_step(m, den);
    let zu: int = z * u;
    assert(zu * u == s * den) by (nonlinear_arith)
        requires
            zu == 2 * s,
            den == 2 * u,
    ;
    let r: Single = Single::quotient(x, two);
    assert(crate::single::size(r.units()) == s);
    crate::bounds::lemma_top();
    if !r.finite() {
        assert(r.magnitude() == 0x7f80_0000);
        assert(false);
    }
    crate::close::lemma_quotient_close(x, two);
    assert(n >= 0 ==> n * u >= 0) by (nonlinear_arith)
        requires
            u > 0,
    ;
    assert(n <= 0 ==> n * u <= 0) by (nonlinear_arith)
        requires
            u > 0,
    ;
}

/// The area of an upright rectangle: positive, twice it is off by two at most, and by nothing
/// where it is below 2000. Run through the other way the area is negative.
pub proof fn lemma_upright_area(q: Seq<Point>, l: int, t: int, r: int, b: int) -> (n: int)
    requires
        upright(q, l, t, r, b),
        0 <= l < r <= 4000,
        0 <= t < b <= 4000,
    ensures
        signed_area_of(q).finite(),
        2 * signed_area_of(q).units() == n * crate::single::unit(),
        0 < n <= 32_000_002,
        -2 <= n - 2 * ((r - l) * (b - t)) <= 2,
        n == 2 * ((r - l) * (b - t)) || (r - l) * (b - t) >= 2000,
        signed_area_of(seq![q[0], q[3], q[2], q[1]]).finite(),
        signed_area_of(seq![q[0], q[3], q[2], q[1]]).units() < 0,
{
    let u: int = crate::single::unit() as int;
    lemma_pow2_pos(149);
    let (w, h): (int, int) = (r - l, b - t);
    assert(0 < w * h <= 16_000_000) by (nonlinear_arith)
        requires
            0 < w <= 4000,
            0 < h <= 4000,
    ;
    lemma_exact_wedge(q, 0, l, t, r, t);
    lemma_exact_wedge(q, 1, r, t, r, b);
    lemma_exact_wedge(q, 2, r, b, l, b);
    lemma_exact_wedge(q, 3, l, b, l, t);
    lemma_wedge_sums(l, t, r, b, w, h);
    let n: int = lemma_area_of_wedges(
        q,
        l * t - r * t,
        r * b - r * t,
        r * b - l * b,
        l * t - l * b,
    );
    let p: Seq<Point> = seq![q[0], q[3], q[2], q[1]];
    lemma_exact_wedge(p, 0, l, t, l, b);
    lemma_exact_wedge(p, 1, l, b, r, b);
    lemma_exact_wedge(p, 2, r, b, r, t);
    lemma_exact_wedge(p, 3, r, t, l, t);
    let m: int = lemma_area_of_wedges(
        p,
        l * b - l * t,
        l * b - r * b,
        r * t - r * b,
        r * t - l * t,
    );
    assert(m * u < 0) by (nonlinear_arith)
        requires
            m < 0,
            u > 0,
    ;
    n
}

/// How the areas under the edges of an upright rectangle add up.
proof fn lemma_wedge_sums(l: int, t: int, r: int, b: int, w: int, h: int)
    requires
        0 <= l < r <= 4000,
        0 <= t < b <= 4000,
        w == r - l,
        h == b - t,
    ensures
        ({
            let (a, c, d, e) = (l * t - r * t, r * b - r * t, r * b - l * b, l * t - l * b);
            &&& -16_000_000 <= a + c <= 16_000_000
            &&& 0 <= a + c + d <= 32_000_000
            &&& a + c + d + e == 2 * (w * h)
            &&& a + c + d > 0x100_0000 ==> w * h >= 2000
        }),
        ({
            let (a, c, d, e) = (l * b - l * t, l * b - r * b, r * t - r * b, r * t - l * t);
            &&& -16_000_000 <= a + c <= 16_000_000
            &&& -32_000_000 <= a + c + d <= 0
            &&& a + c + d + e == -(2 * (w * h))
            &&& a + c + d < -0x100_0000 ==> w * h >= 2000
        }),
{
    let (wt, rh, wb, lh, wh): (int, int, int, int, int) = (w * t, r * h, w * b, l * h, w * h);
    assert(l * t - r * t == -wt && r * b - r * t == rh && r * b - l * b == wb && l * t - l * b
        == -lh) by (nonlinear_arith)
        requires
            wt == w * t,
            rh == r * h,
            wb == w * b,
            lh == l * h,
            w == r - l,
            h == b - t,
    ;
    assert(l * b - l * t == lh && l * b - r * b == -wb && r * t - r * b == -rh && r * t - l * t
        == wt) by (nonlinear_arith)
        requires
            wt == w * t,
            rh == r * h,
            wb == w * b,
            lh == l * h,
            w == r - l,
            h == b - t,
    ;
    assert(wb - wt == wh && rh - lh == wh) by (nonlinear_arith)
        requires
            wt == w * t,
            rh == r * h,
            wb == w * b,
            lh == l * h,
            wh == w * h,
            w == r - l,
            h == b - t,
    ;
    assert(0 <= wt <= 16_000_000 && 0 <= rh <= 16_000_000 && 0 <= wb <= 16_000_000 && 0 <= lh
        <= 16_000_000 && 0 <= wh <= 16_000_000) by (nonlinear_arith)
        requires
            wt == w * t,
            rh == r * h,
            wb == w * b,
            lh == l * h,
            wh == w * h,
            0 <= w <= 4000,
            0 <= h <= 4000,
            0 <= t <= 4000,
            0 <= r <= 4000,
            0 <= b <= 4000,
            0 <= l <= 4000,
    ;
    assert(rh + wh > 0x100_0000 ==> wh >= 2000) by (nonlinear_arith)
        requires
            rh == r * h,
            wh == w * h,
            0 <= r <= 4000,
            1 <= w <= 4000,
            0 <= h <= 4000,
    ;
    assert(wb + wh > 0x100_0000 ==> wh >= 2000) by (nonlinear_arith)
        requires
            wb == w * b,
            wh == w * h,
            0 <= b <= 4000,
            0 <= w <= 4000,
            1 <= h <= 4000,
    ;
}

proof fn lemma_area_of_wedges(q: Seq<Point>, a: int, b: int, c: int, d: int) -> (n: int)
    requires
        is_whole(wedge(q, 0), a),
        is_whole(wedge(q, 1), b),
        is_whole(wedge(q, 2), c),
        is_whole(wedge(q, 3), d),
        -0x100_0000 <= a + b <= 0x100_0000,
        -32_000_000 <= a + b + c <= 32_000_000,
        -32_000_000 <= a + b + c + d <= 32_000_000,
    ensures
        signed_area_of(q).finite(),
        2 * signed_area_of(q).units() == n * crate::single::unit(),
        -2 <= n - (a + b + c + d) <= 2,
        -0x100_0000 <= a + b + c <= 0x100_0000 && -0x100_0000 <= a + b + c + d <= 0x100_0000 ==> n
            == a + b + c + d,
{
    reveal(signed_area_of);
    lemma_exact_sum(wedge(q, 0), wedge(q, 1), a, b);
    let ab: Single = Single::sum(wedge(q, 0), wedge(q, 1));
    let k: int = lemma_near_sum(ab, wedge(q, 2), a + b, c);
    let abc: Single = Single::sum(ab, wedge(q, 2));
    let n: int = lemma_near_sum(abc, wedge(q, 3), k, d);
    lemma_half(Single::sum(abc, wedge(q, 3)), n);
    n
}

/// The sides of an upright rectangle: their lengths and directions, and their sum.
pub proof fn lemma_upright_sides(q: Seq<Point>, l: int, t: int, r: int, b: int)
    requires
        upright(q, l, t, r, b),
        0 <= l < r <= 4000,
        0 <= t < b <= 4000,
    ensures
        is_whole(side(q, 0), r - l),
        is_whole(side(q, 1), b - t),
        is_whole(side(q, 2), r - l),
        is_whole(side(q, 3), b - t),
        at(edge(q, 0), r - l, 0),
        at(edge(q, 1), 0, b - t),
        at(edge(q, 2), l - r, 0),
        at(edge(q, 3), 0, t - b),
        at(direction(edge(q, 0)), 1, 0),
        at(direction(edge(q, 1)), 0, 1),
        at(direction(edge(q, 2)), -1, 0),
        at(direction(edge(q, 3)), 0, -1),
        is_whole(perimeter(q), 2 * ((r - l) + (b - t))),
{
    lemma_axis_edge(q, 0, l, t, r, t);
    lemma_axis_edge(q, 1, r, t, r, b);
    lemma_axis_edge(q, 2, r, b, l, b);
    lemma_axis_edge(q, 3, l, b, l, t);
    reveal(perimeter);
    let (w, h): (int, int) = (r - l, b - t);
    lemma_exact_sum(side(q, 0), side(q, 1), w, h);
    let two: Single = Single::sum(side(q, 0), side(q, 1));
    lemma_exact_sum(two, side(q, 2), w + h, w);
    let three: Single = Single::sum(two, side(q, 2));
    lemma_exact_sum(three, side(q, 3), w + h + w, h);
}

/// The sine between neighbouring sides of an upright rectangle is one.
proof fn lemma_square_corner(a: Point, b: Point, x: int, y: int, z: int, w: int)
    requires
        at(a, x, y),
        at(b, z, w),
        -1 <= x <= 1,
        -1 <= y <= 1,
        -1 <= z <= 1,
        -1 <= w <= 1,
        x * w - y * z == 1,
    ensures
        is_whole(sine(a, b), 1),
{
    reveal(sine);
    assert(-1 <= x * w <= 1 && -1 <= y * z <= 1) by (nonlinear_arith)
        requires
            -1 <= x <= 1,
            -1 <= y <= 1,
            -1 <= z <= 1,
            -1 <= w <= 1,
    ;
    lemma_exact_product(a.0, b.1, x, w);
    lemma_exact_product(a.1, b.0, y, z);
    lemma_exact_difference(Single::product(a.0, b.1), Single::product(a.1, b.0), x * w, y * z);
}

/// A whole number from one on is no shortest edge.
pub proof fn lemma_long_enough(x: Single, n: int)
    requires
        is_whole(x, n),
        n >= 1,
    ensures
        !x.below(Single { bits: SHORTEST_EDGE }),
{
    let u: int = crate::single::unit() as int;
    lemma_pow2_pos(149);
    crate::bounds::lemma_one();
    crate::single::lemma_step_increases(SHORTEST_EDGE as nat, crate::single::ONE as nat);
    assert(n * u >= u) by (nonlinear_arith)
        requires
            n >= 1,
            u > 0,
    ;
}

/// A sine of one is that of no parallel sides.
proof fn lemma_not_parallel(s: Single)
    requires
        is_whole(s, 1),
    ensures
        !s.unsigned().below(Single { bits: PARALLEL }),
{
    let u: int = crate::single::unit() as int;
    lemma_pow2_pos(149);
    crate::bounds::lemma_one();
    crate::single::lemma_step_increases(PARALLEL as nat, crate::single::ONE as nat);
    crate::close::lemma_not_zero(s);
    assert(1 * u == u);
}

/// The sides of an upright rectangle meet squarely.
pub proof fn lemma_upright_corners(q: Seq<Point>, l: int, t: int, r: int, b: int)
    requires
        upright(q, l, t, r, b),
        0 <= l < r <= 4000,
        0 <= t < b <= 4000,
    ensures
        is_whole(sine(direction(edge(q, 3)), direction(edge(q, 0))), 1),
        is_whole(sine(direction(edge(q, 0)), direction(edge(q, 1))), 1),
        is_whole(sine(direction(edge(q, 1)), direction(edge(q, 2))), 1),
        is_whole(sine(direction(edge(q, 2)), direction(edge(q, 3))), 1),
{
    lemma_upright_sides(q, l, t, r, b);
    let (d0, d1, d2, d3): (Point, Point, Point, Point) = (
        direction(edge(q, 0)),
        direction(edge(q, 1)),
        direction(edge(q, 2)),
        direction(edge(q, 3)),
    );
    lemma_square_corner(d3, d0, 0, -1, 1, 0);
    lemma_square_corner(d0, d1, 1, 0, 0, 1);
    lemma_square_corner(d1, d2, 0, 1, -1, 0);
    lemma_square_corner(d2, d3, -1, 0, 0, -1);
}

/// An upright rectangle can be expanded.
pub proof fn lemma_upright_movable(q: Seq<Point>, l: int, t: int, r: int, b: int)
    requires
        upright(q, l, t, r, b),
        0 <= l < r <= 4000,
        0 <= t < b <= 4000,
    ensures
        movable(q),
{
    lemma_upright_sides(q, l, t, r, b);
    lemma_upright_corners(q, l, t, r, b);
    lemma_long_enough(side(q, 0), r - l);
    lemma_long_enough(side(q, 1), b - t);
    lemma_long_enough(side(q, 2), r - l);
    lemma_long_enough(side(q, 3), b - t);
    lemma_long_enough(perimeter(q), 2 * ((r - l) + (b - t)));
    lemma_not_parallel(sine(direction(edge(q, 3)), direction(edge(q, 0))));
    lemma_not_parallel(sine(direction(edge(q, 0)), direction(edge(q, 1))));
    lemma_not_parallel(sine(direction(edge(q, 1)), direction(edge(q, 2))));
    lemma_not_parallel(sine(direction(edge(q, 2)), direction(edge(q, 3))));
    lemma_movable_by_sides(q);
}

proof fn lemma_movable_by_sides(q: Seq<Point>)
    requires
        !perimeter(q).below(Single { bits: SHORTEST_EDGE }),
        !side(q, 0).below(Single { bits: SHORTEST_EDGE }),
        !side(q, 1).below(Single { bits: SHORTEST_EDGE }),
        !side(q, 2).below(Single { bits: SHORTEST_EDGE }),
        !side(q, 3).below(Single { bits: SHORTEST_EDGE }),
        !sine(direction(edge(q, 3)), direction(edge(q, 0))).unsigned().below(
            Single { bits: PARALLEL },
        ),
        !sine(direction(edge(q, 0)), direction(edge(q, 1))).unsigned().below(
            Single { bits: PARALLEL },
        ),
        !sine(direction(edge(q, 1)), direction(edge(q, 2))).unsigned().below(
            Single { bits: PARALLEL },
        ),
        !sine(direction(edge(q, 2)), direction(edge(q, 3))).unsigned().below(
            Single { bits: PARALLEL },
        ),
    ensures
        movable(q),
{
    reveal(movable);
    reveal(parallel_at);
    assert forall|i: int| 0 <= i < 4 implies !(#[trigger] side(q, i)).below(
        Single { bits: SHORTEST_EDGE },
    ) by {
        assert(i == 0 || i == 1 || i == 2 || i == 3);
    }
    assert forall|i: int| 0 <= i < 4 implies !#[trigger] parallel_at(q, i) by {
        assert(i == 0 || i == 1 || i == 2 || i == 3);
    }
}

/// A positive number without its sign is the same.
proof fn lemma_unsigned(x: Single, n: int)
    requires
        x.finite(),
        2 * x.units() == n * crate::single::unit(),
        n > 0,
    ensures
        x.unsigned().finite(),
        2 * x.unsigned().units() == n * crate::single::unit(),
{
    let u: int = crate::single::unit() as int;
    lemma_pow2_pos(149);
    assert(n * u > 0) by (nonlinear_arith)
        requires
            n > 0,
            u > 0,
    ;
    crate::close::lemma_not_zero(x);
}

/// How far an upright rectangle expands: its area times the ratio, over its perimeter. Twice
/// the area, `n`, is off by two at most.
pub proof fn lemma_upright_reach(
    q: Seq<Point>,
    ratio: Single,
    num: int,
    den: int,
    l: int,
    t: int,
    r: int,
    b: int,
    p: int,
) -> (n: int)
    requires
        upright(q, l, t, r, b),
        0 <= l < r <= 4000,
        0 <= t < b <= 4000,
        about(ratio, num, den, 1),
        0 < num <= 8 * den,
        den <= 0x1_0000,
        p == 2 * ((r - l) + (b - t)),
    ensures
        about(reach(q, ratio), n * num, (2 * den) * p, 3),
        ordinary(n * num, (2 * den) * p),
        0 < n,
        -2 <= n - 2 * ((r - l) * (b - t)) <= 2,
        n == 2 * ((r - l) * (b - t)) || (r - l) * (b - t) >= 2000,
{
    let n: int = lemma_upright_area(q, l, t, r, b);
    assert(is_whole(perimeter(q), p)) by {
        lemma_upright_sides(q, l, t, r, b);
    }
    let a: Single = signed_area_of(q).unsigned();
    lemma_unsigned(signed_area_of(q), n);
    lemma_reach_about(a, n, ratio, num, den, perimeter(q), p);
    assert(reach(q, ratio) == Single::quotient(Single::product(a, ratio), perimeter(q))) by {
        reveal(reach);
    }
    n
}

proof fn lemma_reach_about(
    a: Single,
    n: int,
    ratio: Single,
    num: int,
    den: int,
    around: Single,
    p: int,
)
    requires
        a.finite(),
        2 * a.units() == n * crate::single::unit(),
        0 < n <= 0x200_0000,
        about(ratio, num, den, 1),
        0 < num <= 8 * den,
        den <= 0x1_0000,
        is_whole(around, p),
        0 < p <= 0x4000,
    ensures
        about(Single::quotient(Single::product(a, ratio), around), n * num, (2 * den) * p, 3),
        ordinary(n * num, (2 * den) * p),
{
    let u: int = crate::single::unit() as int;
    assert(a.units() * 2 == n * u);
    assert(about(a, n, 2, 0));
    let c: int = n * num;
    assert(0 < c <= 0x200_0000 * 0x8_0000) by (nonlinear_arith)
        requires
            c == n * num,
            0 < n <= 0x200_0000,
            0 < num <= 0x8_0000,
    ;
    lemma_product_about(a, ratio, n, 2, 0, num, den, 1);
    let product: Single = Single::product(a, ratio);
    assert(around.units() * 1 == p * u);
    assert(about(around, p, 1, 0));
    let (e, d): (int, int) = (2 * den, (2 * den) * p);
    assert(0 < d <= 0x2_0000 * 0x4000) by (nonlinear_arith)
        requires
            d == e * p,
            0 < e <= 0x2_0000,
            0 < p <= 0x4000,
    ;
    assert(c * 1 == c);
    lemma_quotient_about(product, around, c, e, 2, p, 1, 0);
}

} // verus!
