//! The rectangle that is chosen around pixels is the smallest there is, up to rounding.
use crate::ocr::text::calipers::{area_along, edge_of, extent, opposite, quarter};
use crate::ocr::text::cells::{step_to, wrapped, Cell};
use crate::ocr::text::geometry::Point;
use crate::ocr::text::rectangle::{dot, small};
use crate::single::Single;
use vstd::arithmetic::power2::*;
use vstd::prelude::*;

verus! {

/// The direction, in units, is the step divided by the length, up to rounding.
spec fn parallel(d: Cell, e: Cell, l: int) -> bool {
    let u = crate::single::unit() as int;
    &&& 0x100_0000 * (d.0 * l - e.0 * (u * u)) <= u * l
    &&& 0x100_0000 * (e.0 * (u * u) - d.0 * l) <= u * l
    &&& 0x100_0000 * (d.1 * l - e.1 * (u * u)) <= u * l
    &&& 0x100_0000 * (e.1 * (u * u) - d.1 * l) <= u * l
}

/// A quotient errs by at most half of its last place.
proof fn lemma_quotient_close(a: Single, n: int, l: Single)
    requires
        crate::bounds::is_whole(a, n),
        l.finite(),
        !l.negative(),
        l.units() > 0,
        a.magnitude() <= l.magnitude(),
    ensures
        ({
            let u = crate::single::unit() as int;
            let q = Single::quotient(a, l).units();
            &&& 0x100_0000 * (q * l.units() - n * (u * u)) <= u * l.units()
            &&& 0x100_0000 * (n * (u * u) - q * l.units()) <= u * l.units()
        }),
{
    let u: int = crate::single::unit() as int;
    lemma_pow2_pos(149);
    lemma2_to64();
    lemma_pow2_strictly_increases(23, 149);
    assert(!l.zero());
    crate::ocr::text::drawing::lemma_part(a, l);
    crate::bounds::lemma_quotient(a, l);
    let q: Single = Single::quotient(a, l);
    let (sa, z): (nat, nat) = (crate::single::size(a.units()), crate::single::size(l.units()));
    let num: nat = sa * crate::single::unit();
    crate::bounds::lemma_nearest_close(num, z);
    let s: nat = crate::single::step(crate::single::nearest(num, z));
    let scale: nat = if s < 0x80_0000 { 0x80_0000nat } else { s };
    lemma_pow2_adds(0, 149);
    assert(s <= u);
    assert(scale * z <= u * z) by (nonlinear_arith)
        requires
            scale <= u,
            z >= 0,
    ;
    let t: int = n * (u * u);
    assert(n * u * u == t) by (nonlinear_arith)
        requires
            t == n * (u * u),
    ;
    let m: int = n * u;
    assert((n > 0 ==> m > 0) && (n < 0 ==> m < 0) && (n == 0 ==> m == 0)) by (nonlinear_arith)
        requires
            m == n * u,
            u > 0,
    ;
    assert((-m) * u == -(m * u)) by (nonlinear_arith);
    let qs: int = s as int;
    let zl: int = l.units();
    assert((-qs) * zl == -(qs * zl)) by (nonlinear_arith);
    if n == 0 {
        assert(num == 0);
        crate::single::lemma_nearest_zero(z);
        assert(crate::single::step(0) == 0);
    }
}

/// A root is rounded down by less than one part in `2^23`.
proof fn lemma_root_close(n: nat)
    requires
        0x80_0000 <= crate::single::nearest_root(n) < 0x7f80_0000,
    ensures
        ({
            let l = crate::single::step(crate::single::nearest_root(n)) as int;
            0x40_0000 * n <= 0x40_0001 * (l * l)
        }),
{
    let m: nat = crate::single::nearest_root(n);
    crate::root::lemma_nearest_root(n);
    let k: nat = (m / 0x80_0000 - 1) as nat;
    let f: nat = 0x80_0000 + m % 0x80_0000;
    assert(m == f + k * 0x80_0000);
    crate::single::lemma_step_scaled(f, k);
    crate::single::lemma_step_scaled(f + 1, k);
    let (p, l, next): (int, int, int) = (
        pow2(k) as int,
        crate::single::step(m) as int,
        crate::single::step(m + 1) as int,
    );
    lemma_pow2_pos(k);
    assert(next == l + p && 0x80_0000 * p <= l) by (nonlinear_arith)
        requires
            l == f * p,
            next == (f + 1) * p,
            f >= 0x80_0000,
            p > 0,
    ;
    let twice: int = l + next;
    assert(0x80_0000 * twice <= 0x100_0001 * l);
    assert(0x4000_0000_0000 * (twice * twice) <= 0x1_0000_0200_0001 * (l * l))
        by (nonlinear_arith)
        requires
            0 <= 0x80_0000 * twice <= 0x100_0001 * l,
            l >= 0,
            twice >= 0,
    ;
    let ll: int = l * l;
    assert(ll >= 0) by (nonlinear_arith)
        requires
            ll == l * l,
    ;
    assert(4 * n <= twice * twice);
}

/// The direction of a vector of whole numbers.
proof fn lemma_parallel(v: Point, e: Cell)
    requires
        crate::bounds::is_whole(v.0, e.0),
        crate::bounds::is_whole(v.1, e.1),
        small(e),
        e != (0int, 0int),
    ensures
        ({
            let u = crate::single::unit() as int;
            let l = crate::ocr::text::geometry::length(v).units();
            let d = crate::ocr::text::geometry::direction(v);
            &&& crate::ocr::text::drawing::near(d, 0)
            &&& l > 0
            &&& parallel((d.0.units(), d.1.units()), e, l)
            &&& crate::single::size(e.0) * u <= l
            &&& crate::single::size(e.1) * u <= l
            &&& 0x40_0000 * (dot(e, e) * (u * u)) <= 0x40_0001 * (l * l)
        }),
{
    reveal(crate::ocr::text::geometry::direction);
    let u: int = crate::single::unit() as int;
    lemma_pow2_pos(149);
    lemma2_to64();
    lemma_pow2_adds(12, 149);
    let (x, y): (int, int) = (e.0, e.1);
    assert(-4096 * u <= x * u <= 4096 * u && -4096 * u <= y * u <= 4096 * u) by (nonlinear_arith)
        requires
            -4096 <= x <= 4096,
            -4096 <= y <= 4096,
            u > 0,
    ;
    assert(crate::ocr::text::drawing::near(v, 12));
    crate::ocr::text::drawing::lemma_whole_directed(v, x, y);
    crate::ocr::text::drawing::lemma_direction(v, 12);
    crate::ocr::text::drawing::lemma_length(v);
    let l: Single = crate::ocr::text::geometry::length(v);
    lemma_parts_below(v, l);
    assert(crate::single::size(x) * u == crate::single::size(x * u)
        && crate::single::size(y) * u == crate::single::size(y * u)) by {
        lemma_size_scaled(x, u);
        lemma_size_scaled(y, u);
    }
    lemma_quotient_close(v.0, x, l);
    lemma_quotient_close(v.1, y, l);
    let n: nat = (v.0.units() * v.0.units() + v.1.units() * v.1.units()) as nat;
    assert((x * u) * (x * u) + (y * u) * (y * u) == (x * x + y * y) * (u * u)) by (nonlinear_arith);
    assert((x * x + y * y) * (u * u) >= 0) by (nonlinear_arith);
    // a length that is not tiny has all its places
    let tiny: Single = Single { bits: crate::ocr::text::geometry::SHORTEST_EDGE };
    if l.magnitude() < tiny.magnitude() {
        crate::single::lemma_step_increases(l.magnitude(), tiny.magnitude());
    }
    lemma_root_close(n);
}

proof fn lemma_size_scaled(x: int, u: int)
    requires
        u > 0,
    ensures
        crate::single::size(x * u) == crate::single::size(x) * u,
{
    assert((x < 0 ==> x * u < 0 && (-x) * u == -(x * u)) && (x >= 0 ==> x * u >= 0))
        by (nonlinear_arith)
        requires
            u > 0,
    ;
}

/// The parts of a vector do not exceed its length.
proof fn lemma_parts_below(v: Point, l: Single)
    requires
        v.0.finite(),
        v.1.finite(),
        l.finite(),
        !l.negative(),
        v.0.magnitude() <= l.magnitude(),
        v.1.magnitude() <= l.magnitude(),
    ensures
        crate::single::size(v.0.units()) <= l.units(),
        crate::single::size(v.1.units()) <= l.units(),
{
    if v.0.magnitude() < l.magnitude() {
        crate::single::lemma_step_increases(v.0.magnitude(), l.magnitude());
    }
    if v.1.magnitude() < l.magnitude() {
        crate::single::lemma_step_increases(v.1.magnitude(), l.magnitude());
    }
}

/// How far along a step a direction says that a pixel lies.
proof fn lemma_parallel_dot(d: Cell, e: Cell, l: int, c: Cell)
    requires
        parallel(d, e, l),
        small(c),
        l > 0,
    ensures
        ({
            let u = crate::single::unit() as int;
            &&& 0x800 * (l * dot(d, c) - (u * u) * dot(e, c)) <= u * l
            &&& 0x800 * ((u * u) * dot(e, c) - l * dot(d, c)) <= u * l
        }),
{
    let u: int = crate::single::unit() as int;
    lemma_pow2_pos(149);
    let (ul, uu): (int, int) = (u * l, u * u);
    assert(ul >= 0) by (nonlinear_arith)
        requires
            ul == u * l,
            u > 0,
            l > 0,
    ;
    let (p, q): (int, int) = (d.0 * l - e.0 * uu, d.1 * l - e.1 * uu);
    let (x, y): (int, int) = (c.0, c.1);
    lemma_small_times(x, p, ul);
    lemma_small_times(y, q, ul);
    let (d0, d1, e0, e1): (int, int, int, int) = (d.0, d.1, e.0, e.1);
    assert(l * (d0 * x + d1 * y) - uu * (e0 * x + e1 * y) == x * p + y * q) by {
        assert(l * (d0 * x + d1 * y) == x * (d0 * l) + y * (d1 * l)) by (nonlinear_arith);
        assert(uu * (e0 * x + e1 * y) == x * (e0 * uu) + y * (e1 * uu)) by (nonlinear_arith);
        let (a, b): (int, int) = (d0 * l, e0 * uu);
        assert(x * (a - b) == x * a - x * b) by (nonlinear_arith);
        let (a, b): (int, int) = (d1 * l, e1 * uu);
        assert(y * (a - b) == y * a - y * b) by (nonlinear_arith);
    }
}

proof fn lemma_small_times(x: int, p: int, m: int)
    requires
        -4096 <= x <= 4096,
        m >= 0,
        0x100_0000 * p <= m,
        -0x100_0000 * p <= m,
    ensures
        0x1000 * (x * p) <= m,
        -0x1000 * (x * p) <= m,
{
    let k: int = x * p;
    assert(0x1000 * k <= m && -0x1000 * k <= m) by (nonlinear_arith)
        requires
            k == x * p,
            -4096 <= x <= 4096,
            m >= 0,
            0x100_0000 * p <= m,
            -0x100_0000 * p <= m,
    ;
}

/// How far a pixel is measured to lie along the direction of a step.
proof fn lemma_along_step(p: Point, d: Point, e: Cell, l: int)
    requires
        crate::ocr::text::hull::on_grid(p),
        small(crate::ocr::text::hull::cell(p)),
        crate::ocr::text::drawing::near(d, 0),
        parallel((d.0.units(), d.1.units()), e, l),
        l > 0,
    ensures
        ({
            let u = crate::single::unit() as int;
            let a = crate::ocr::text::geometry::along(p, d);
            let exact = (u * u) * dot(e, crate::ocr::text::hull::cell(p));
            &&& a.finite()
            &&& 0x800 * (l * a.units() - exact) <= 3 * (u * l)
            &&& 0x800 * (exact - l * a.units()) <= 3 * (u * l)
        }),
{
    let u: int = crate::single::unit() as int;
    let c: Cell = crate::ocr::text::hull::cell(p);
    let dd: Cell = (d.0.units(), d.1.units());
    crate::ocr::text::rectangle::lemma_along_close(p, d);
    lemma_parallel_dot(dd, e, l, c);
    let (a, b): (int, int) = (crate::ocr::text::geometry::along(p, d).units(), dot(dd, c));
    assert(1024 * (l * a - l * b) <= u * l && 1024 * (l * b - l * a) <= u * l) by (nonlinear_arith)
        requires
            1024 * (a - b) <= u,
            1024 * (b - a) <= u,
            l > 0,
    ;
}

/// A side is measured no longer than it is, up to one part in 256 of a pixel.
proof fn lemma_side_close(hull: Seq<Point>, d: Point, e: Cell, l: int)
    requires
        hull.len() > 0,
        crate::ocr::text::hull::all_on_grid(hull),
        forall|i: int|
            0 <= i < hull.len() ==> small(crate::ocr::text::hull::cell(#[trigger] hull[i])),
        crate::ocr::text::drawing::all_near(hull, 12),
        crate::ocr::text::drawing::near(d, 0),
        parallel((d.0.units(), d.1.units()), e, l),
        l > 0,
    ensures
        ({
            let u = crate::single::unit() as int;
            let us = crate::ocr::text::geometry::spread(hull, d);
            let side = Single::difference(
                crate::ocr::text::geometry::greatest(us),
                crate::ocr::text::geometry::least(us),
            );
            &&& crate::ocr::text::drawing::within(side, 14)
            &&& side.units() >= 0
            &&& 0x100 * (l * side.units() - (u * u) * extent(crate::ocr::text::hull::cells(hull), e))
                <= u * l
        }),
{
    let u: int = crate::single::unit() as int;
    let places: Seq<Cell> = crate::ocr::text::hull::cells(hull);
    let us: Seq<Single> = crate::ocr::text::geometry::spread(hull, d);
    let (high, low): (Single, Single) = (
        crate::ocr::text::geometry::greatest(us),
        crate::ocr::text::geometry::least(us),
    );
    crate::ocr::text::drawing::lemma_spread(hull, d, 12);
    crate::ocr::text::geometry::lemma_extremes(us);
    lemma_pow2_pos(149);
    lemma2_to64();
    assert(us.contains(high) && us.contains(low));
    let i: int = choose|i: int| 0 <= i < us.len() && us[i] == high;
    let j: int = choose|j: int| 0 <= j < us.len() && us[j] == low;
    assert(us[i] == crate::ocr::text::geometry::along(hull[i], d));
    assert(us[j] == crate::ocr::text::geometry::along(hull[j], d));
    assert(crate::ocr::text::hull::on_grid(hull[i]) && small(crate::ocr::text::hull::cell(hull[i])));
    assert(crate::ocr::text::hull::on_grid(hull[j]) && small(crate::ocr::text::hull::cell(hull[j])));
    lemma_along_step(hull[i], d, e, l);
    lemma_along_step(hull[j], d, e, l);
    lemma_reaches(places, e, i, j);
    lemma_rounded_side(high, low);
    let side: Single = Single::difference(high, low);
    let (h, o, t): (int, int, int) = (high.units(), low.units(), side.units());
    let (uu, w): (int, int) = (u * u, extent(places, e));
    let (ei, ej): (int, int) = (dot(e, places[i]), dot(e, places[j]));
    assert(uu * (ei - ej) <= uu * w) by (nonlinear_arith)
        requires
            ei - ej <= w,
            uu == u * u,
    ;
    assert(uu * (ei - ej) == uu * ei - uu * ej) by (nonlinear_arith);
    assert(1024 * (l * t - (l * h - l * o)) <= u * l) by (nonlinear_arith)
        requires
            1024 * (t - (h - o)) <= u,
            l > 0,
    ;
}

/// No two places lie farther apart along a step than the extent.
proof fn lemma_reaches(places: Seq<Cell>, e: Cell, i: int, j: int)
    requires
        0 <= i < places.len(),
        0 <= j < places.len(),
    ensures
        dot(e, places[i]) - dot(e, places[j]) <= extent(places, e),
{
    lemma_reaches_one(places, e, i);
    lemma_reaches_one(places, opposite(e), j);
    crate::ocr::text::rectangle::lemma_dot_down(e, places[j]);
}

proof fn lemma_reaches_one(places: Seq<Cell>, e: Cell, i: int)
    requires
        0 <= i < places.len(),
    ensures
        dot(e, places[i]) <= crate::ocr::text::calipers::farthest(places, e),
    decreases places.len(),
{
    if places.len() > 1 && i < places.len() - 1 {
        lemma_reaches_one(places.drop_last(), e, i);
    }
}

/// The distance of two measures errs by at most one part in `2^10`.
proof fn lemma_rounded_side(high: Single, low: Single)
    requires
        crate::ocr::text::drawing::within(high, 13),
        crate::ocr::text::drawing::within(low, 13),
        low.units() <= high.units(),
    ensures
        ({
            let side = Single::difference(high, low);
            &&& crate::ocr::text::drawing::within(side, 14)
            &&& side.units() >= 0
            &&& 1024 * (side.units() - (high.units() - low.units())) <= crate::single::unit()
        }),
{
    crate::ocr::text::drawing::lemma_difference_within(high, low, 13);
    crate::bounds::lemma_difference(high, low);
    lemma2_to64();
    lemma_pow2_pos(149);
    lemma_pow2_adds(14, 149);
    lemma_pow2_strictly_increases(23, 149);
    let side: Single = Single::difference(high, low);
    let total: int = high.units() - low.units();
    let n: nat = crate::single::size(total);
    crate::bounds::lemma_nearest_close(n, 1);
    let s: nat = crate::single::step(crate::single::nearest(n, 1));
    let scale: nat = if s < 0x80_0000 { 0x80_0000nat } else { s };
    assert(s * 1 == s && scale * 1 == scale);
    assert(scale <= 0x4000 * crate::single::unit());
}

/// A side is not much longer than twice the size of what it spans.
proof fn lemma_side_bound(u: int, l: int, w: int, p: int, s: int)
    requires
        u > 0,
        l > 0,
        s >= 1,
        0x100 * (l * p - (u * u) * w) <= u * l,
        u * w <= 2 * (s * l),
    ensures
        p <= 3 * (s * u),
{
    let (uw, sl, su): (int, int, int) = (u * w, s * l, s * u);
    assert((u * u) * w == u * uw) by (nonlinear_arith)
        requires
            uw == u * w,
    ;
    assert(u * uw <= 2 * (u * sl)) by (nonlinear_arith)
        requires
            uw <= 2 * sl,
            u > 0,
    ;
    assert(u * sl == l * su) by (nonlinear_arith)
        requires
            sl == s * l,
            su == s * u,
    ;
    assert(u * l <= l * su) by (nonlinear_arith)
        requires
            su == s * u,
            s >= 1,
            u > 0,
            l > 0,
    ;
    assert(su > 0) by (nonlinear_arith)
        requires
            su == s * u,
            s >= 1,
            u > 0,
    ;
    assert(p <= 3 * su) by (nonlinear_arith)
        requires
            256 * (l * p) <= 513 * (l * su),
            l > 0,
            su > 0,
    ;
}

/// Two sides together: their product and the extents it comes from.
proof fn lemma_sides_product(u: int, l: int, w: int, h: int, p: int, r: int, s: int)
    requires
        u > 0,
        l > 0,
        w >= 0,
        h >= 0,
        p >= 0,
        r >= 0,
        s >= 1,
        0x100 * (l * p - (u * u) * w) <= u * l,
        0x100 * (l * r - (u * u) * h) <= u * l,
        u * w <= 2 * (s * l),
        u * h <= 2 * (s * l),
    ensures
        0x1_0000 * ((l * l) * (p * r)) <= 0x1_0000 * (((u * u) * (u * u)) * (w * h)) + 1024 * (s * (
        (u * u) * (l * l))) + (u * u) * (l * l),
{
    let (uu, ul, ll): (int, int, int) = (u * u, u * l, l * l);
    let (x, y): (int, int) = (uu * w, uu * h);
    let (lp, lr): (int, int) = (l * p, l * r);
    assert(uu >= 0 && ul >= 0 && ll >= 0) by (nonlinear_arith)
        requires
            uu == u * u,
            ul == u * l,
            ll == l * l,
            u > 0,
            l > 0,
    ;
    assert(x >= 0 && y >= 0 && lp >= 0 && lr >= 0) by (nonlinear_arith)
        requires
            x == uu * w,
            y == uu * h,
            lp == l * p,
            lr == l * r,
            uu >= 0,
            w >= 0,
            h >= 0,
            l > 0,
            p >= 0,
            r >= 0,
    ;
    let (a, b): (int, int) = (0x100 * x + ul, 0x100 * y + ul);
    assert((0x100 * lp) * (0x100 * lr) <= a * b) by (nonlinear_arith)
        requires
            0 <= 0x100 * lp <= a,
            0 <= 0x100 * lr <= b,
    ;
    assert(a * b == 0x1_0000 * (x * y) + 0x100 * (x * ul) + 0x100 * (y * ul) + ul * ul)
        by (nonlinear_arith)
        requires
            a == 0x100 * x + ul,
            b == 0x100 * y + ul,
    ;
    assert((0x100 * lp) * (0x100 * lr) == 0x1_0000 * (lp * lr)) by (nonlinear_arith);
    assert(lp * lr == ll * (p * r)) by (nonlinear_arith)
        requires
            lp == l * p,
            lr == l * r,
            ll == l * l,
    ;
    assert(x * y == (uu * uu) * (w * h)) by (nonlinear_arith)
        requires
            x == uu * w,
            y == uu * h,
    ;
    assert(ul * ul == uu * ll) by (nonlinear_arith)
        requires
            ul == u * l,
            uu == u * u,
            ll == l * l,
    ;
    lemma_side_share(u, l, w, s);
    lemma_side_share(u, l, h, s);
}

proof fn lemma_side_share(u: int, l: int, w: int, s: int)
    requires
        u > 0,
        l > 0,
        u * w <= 2 * (s * l),
    ensures
        ((u * u) * w) * (u * l) <= 2 * (s * ((u * u) * (l * l))),
{
    let (uu, ll, uw, sl): (int, int, int, int) = (u * u, l * l, u * w, s * l);
    assert((uu * w) * (u * l) == (uu * l) * uw) by (nonlinear_arith)
        requires
            uw == u * w,
    ;
    let k: int = uu * l;
    assert(k >= 0) by (nonlinear_arith)
        requires
            k == uu * l,
            uu == u * u,
            l > 0,
    ;
    assert(k * uw <= 2 * (k * sl)) by (nonlinear_arith)
        requires
            uw <= 2 * sl,
            k >= 0,
    ;
    assert(k * sl == s * (uu * ll)) by (nonlinear_arith)
        requires
            k == uu * l,
            sl == s * l,
            ll == l * l,
    ;
}

/// The product of two sides is not much larger than the exact area.
proof fn lemma_product_bound(uu: int, ll: int, wh: int, q: int, pr: int, s: int)
    requires
        uu > 0,
        ll > 0,
        q > 0,
        1 <= s <= 4096,
        0x1_0000 * (ll * pr) <= 0x1_0000 * ((uu * uu) * wh) + 1024 * (s * (uu * ll)) + uu * ll,
        0x40_0000 * (q * uu) <= 0x40_0001 * ll,
        0 <= wh <= 2 * ((s * s) * q),
    ensures
        0x1_0000 * (pr * q) <= 0x1_0000 * (uu * wh) + 1152 * (s * (uu * q)) + uu * q,
{
    let (um, uq): (int, int) = (uu * wh, uu * q);
    let (prq, sq): (int, int) = (pr * q, s * uq);
    // times q
    let (t1, t2, t3): (int, int, int) = (ll * pr, (uu * uu) * wh, uu * ll);
    assert(0x1_0000 * (t1 * q) <= 0x1_0000 * (t2 * q) + 1024 * ((s * t3) * q) + t3 * q)
        by (nonlinear_arith)
        requires
            0x1_0000 * t1 <= 0x1_0000 * t2 + 1024 * (s * t3) + t3,
            q > 0,
    ;
    assert(t1 * q == ll * prq) by (nonlinear_arith)
        requires
            t1 == ll * pr,
            prq == pr * q,
    ;
    assert(t2 * q == um * uq) by (nonlinear_arith)
        requires
            t2 == (uu * uu) * wh,
            um == uu * wh,
            uq == uu * q,
    ;
    assert(t3 * q == ll * uq && (s * t3) * q == ll * sq) by (nonlinear_arith)
        requires
            t3 == uu * ll,
            uq == uu * q,
            sq == s * uq,
    ;
    // the exact length for the measured one
    assert(um >= 0) by (nonlinear_arith)
        requires
            um == uu * wh,
            uu > 0,
            wh >= 0,
    ;
    assert(q * uu == uq) by (nonlinear_arith)
        requires
            uq == uu * q,
    ;
    assert(0x40_0000 * (um * uq) <= 0x40_0001 * (um * ll)) by (nonlinear_arith)
        requires
            0x40_0000 * uq <= 0x40_0001 * ll,
            um >= 0,
    ;
    assert(um * ll == ll * um) by (nonlinear_arith);
    let left: int = 0x40_0000 * (0x1_0000 * prq);
    let right: int = 0x1_0000 * (0x40_0001 * um) + 0x40_0000 * (1024 * sq + uq);
    assert(ll * left == 0x40_0000 * (0x1_0000 * (ll * prq))) by (nonlinear_arith)
        requires
            left == 0x40_0000 * (0x1_0000 * prq),
    ;
    assert(ll * right == 0x1_0000 * (0x40_0001 * (ll * um)) + 0x40_0000 * (1024 * (ll * sq) + ll
        * uq)) by (nonlinear_arith)
        requires
            right == 0x1_0000 * (0x40_0001 * um) + 0x40_0000 * (1024 * sq + uq),
    ;
    assert(left <= right) by (nonlinear_arith)
        requires
            ll * left <= ll * right,
            ll > 0,
    ;
    // the rest is small against the size
    let ss: int = (s * s) * q;
    assert(ss <= 4096 * (s * q)) by (nonlinear_arith)
        requires
            ss == (s * s) * q,
            1 <= s <= 4096,
            q > 0,
    ;
    assert(um <= 8192 * sq) by (nonlinear_arith)
        requires
            um == uu * wh,
            wh <= 8192 * (s * q),
            uu > 0,
            sq == s * uq,
            uq == uu * q,
    ;
}

/// The area is measured not much larger than it is: by at most one part in 32 of `s + 1`.
proof fn lemma_area_bound(
    u: int,
    l: int,
    w: int,
    h: int,
    q: int,
    p: int,
    r: int,
    a: int,
    s: int,
)
    requires
        u >= 0x80_0000,
        l > 0,
        w >= 0,
        h >= 0,
        q > 0,
        p >= 0,
        r >= 0,
        a >= 0,
        1 <= s <= 4096,
        0x100 * (l * p - (u * u) * w) <= u * l,
        0x100 * (l * r - (u * u) * h) <= u * l,
        u * w <= 2 * (s * l),
        u * h <= 2 * (s * l),
        0x40_0000 * (q * (u * u)) <= 0x40_0001 * (l * l),
        w * h <= 2 * ((s * s) * q),
        0x100_0000 * (a * u - p * r) <= 0x80_0000 * u || 0x100_0000 * (a * u - p * r) <= a * u,
    ensures
        32 * (a * q) <= (32 * (w * h) + (s + 1) * q) * u,
{
    let (uu, ll, wh, pr): (int, int, int, int) = (u * u, l * l, w * h, p * r);
    assert(uu > 0 && ll > 0 && wh >= 0 && pr >= 0 && 0x80_0000 * u <= uu) by (nonlinear_arith)
        requires
            uu == u * u,
            ll == l * l,
            wh == w * h,
            pr == p * r,
            u >= 0x80_0000,
            l > 0,
            w >= 0,
            h >= 0,
            p >= 0,
            r >= 0,
    ;
    lemma_sides_product(u, l, w, h, p, r, s);
    lemma_product_bound(uu, ll, wh, q, pr, s);
    lemma_side_bound(u, l, w, p, s);
    lemma_side_bound(u, l, h, r, s);
    // the product of the sides is rounded
    let (su, suu, au): (int, int, int) = (s * u, s * uu, a * u);
    assert(pr <= 9 * (su * su)) by (nonlinear_arith)
        requires
            pr == p * r,
            0 <= p <= 3 * su,
            0 <= r <= 3 * su,
    ;
    assert(su * su <= 4096 * suu) by (nonlinear_arith)
        requires
            su == s * u,
            suu == s * uu,
            uu == u * u,
            1 <= s <= 4096,
            u > 0,
    ;
    assert(suu >= 0) by (nonlinear_arith)
        requires
            suu == s * uu,
            s >= 1,
            uu > 0,
    ;
    assert(0x100_0000 * (au - pr) <= 73728 * suu + uu);
    // times q
    let (auq, prq, uq): (int, int, int) = (au * q, pr * q, uu * q);
    let sq: int = s * uq;
    assert(suu * q == sq) by (nonlinear_arith)
        requires
            suu == s * uu,
            sq == s * uq,
            uq == uu * q,
    ;
    assert(0x100_0000 * (auq - prq) <= 73728 * (suu * q) + uq) by (nonlinear_arith)
        requires
            0x100_0000 * (au - pr) <= 73728 * suu + uu,
            auq == au * q,
            prq == pr * q,
            uq == uu * q,
            q > 0,
    ;
    assert(0x1_0000 * auq <= 0x1_0000 * (uu * wh) + 1440 * sq + 2 * uq) by {
        assert(uq >= 0 && sq >= 0) by (nonlinear_arith)
            requires
                uq == uu * q,
                sq == s * uq,
                uu > 0,
                q > 0,
                s >= 1,
        ;
    }
    // one unit is taken out
    let aq: int = a * q;
    let right: int = 0x1_0000 * wh + 1440 * (s * q) + 2 * q;
    assert(auq == u * aq) by (nonlinear_arith)
        requires
            auq == au * q,
            au == a * u,
            aq == a * q,
    ;
    assert(0x1_0000 * (uu * wh) + 1440 * sq + 2 * uq == u * (u * right)) by (nonlinear_arith)
        requires
            right == 0x1_0000 * wh + 1440 * (s * q) + 2 * q,
            uu == u * u,
            sq == s * uq,
            uq == uu * q,
    ;
    let ur: int = u * right;
    assert(0x1_0000 * aq <= ur) by (nonlinear_arith)
        requires
            0x1_0000 * (u * aq) <= u * ur,
            u > 0,
    ;
    let most: int = 32 * wh + (s + 1) * q;
    assert(right <= 2048 * most) by (nonlinear_arith)
        requires
            right == 0x1_0000 * wh + 1440 * (s * q) + 2 * q,
            most == 32 * wh + (s + 1) * q,
            q > 0,
            s >= 1,
    ;
    assert(u * right <= 2048 * (most * u)) by (nonlinear_arith)
        requires
            right <= 2048 * most,
            u > 0,
    ;
}

/// No two of the places are farther apart than `s`, in either direction.
pub open spec fn sized(places: Seq<Cell>, s: int) -> bool {
    forall|i: int, j: int|
        0 <= i < places.len() && 0 <= j < places.len() ==> {
            let v = step_to(#[trigger] places[i], #[trigger] places[j]);
            -s <= v.0 <= s && -s <= v.1 <= s
        }
}

/// How far places extend along a step is bounded by their size.
proof fn lemma_extent_bound(places: Seq<Cell>, e: Cell, s: int)
    requires
        places.len() > 0,
        sized(places, s),
        s >= 0,
    ensures
        0 <= extent(places, e) <= s * (crate::single::size(e.0) + crate::single::size(e.1)),
{
    let i: int = crate::ocr::text::rectangle::lemma_farthest(places, e);
    let j: int = crate::ocr::text::rectangle::lemma_farthest(places, opposite(e));
    assert(crate::ocr::text::calipers::is_farthest(places, e, i));
    assert(crate::ocr::text::calipers::is_farthest(places, opposite(e), j));
    crate::ocr::text::calipers::lemma_extent_is(places, e, i, j);
    let v: Cell = step_to(places[j], places[i]);
    let (a, b, x, y): (int, int, int, int) = (e.0, e.1, v.0, v.1);
    let (p, q): (nat, nat) = (crate::single::size(a), crate::single::size(b));
    assert(a * x <= s * p) by (nonlinear_arith)
        requires
            -s <= x <= s,
            p == a || p == -a,
            p >= 0,
    ;
    assert(b * y <= s * q) by (nonlinear_arith)
        requires
            -s <= y <= s,
            q == b || q == -b,
            q >= 0,
    ;
    assert(s * (p + q) == s * p + s * q) by (nonlinear_arith);
}

/// Both extents of places along a step, against its measured and its exact length.
proof fn lemma_extents(places: Seq<Cell>, e: Cell, s: int, u: int, l: int)
    requires
        places.len() > 0,
        sized(places, s),
        s >= 0,
        u > 0,
        crate::single::size(e.0) * u <= l,
        crate::single::size(e.1) * u <= l,
    ensures
        ({
            let (w, h) = (extent(places, e), extent(places, quarter(e)));
            &&& w >= 0
            &&& h >= 0
            &&& u * w <= 2 * (s * l)
            &&& u * h <= 2 * (s * l)
            &&& w * h <= 2 * ((s * s) * dot(e, e))
        }),
{
    lemma_extent_bound(places, e, s);
    lemma_extent_bound(places, quarter(e), s);
    let (p, q): (int, int) = (
        crate::single::size(e.0) as int,
        crate::single::size(e.1) as int,
    );
    let (w, h, m): (int, int, int) = (
        extent(places, e),
        extent(places, quarter(e)),
        s * (p + q),
    );
    assert(s * (q + p) == m);
    assert(u * m <= 2 * (s * l)) by (nonlinear_arith)
        requires
            m == s * (p + q),
            p * u <= l,
            q * u <= l,
            s >= 0,
    ;
    assert(u * w <= u * m && u * h <= u * m) by (nonlinear_arith)
        requires
            w <= m,
            h <= m,
            u > 0,
    ;
    assert(w * h <= m * m) by (nonlinear_arith)
        requires
            0 <= w <= m,
            0 <= h <= m,
    ;
    let t: int = p * p + q * q;
    assert(m * m <= 2 * ((s * s) * t)) by {
        let (k, ss): (int, int) = (p + q, s * s);
        assert(k * k <= 2 * t) by (nonlinear_arith)
            requires
                k == p + q,
                t == p * p + q * q,
        ;
        assert(m * m == ss * (k * k)) by (nonlinear_arith)
            requires
                m == s * k,
                ss == s * s,
        ;
        let kk: int = k * k;
        assert(ss * kk <= 2 * (ss * t)) by (nonlinear_arith)
            requires
                kk <= 2 * t,
                ss == s * s,
        ;
    }
    let (a, b): (int, int) = (e.0, e.1);
    assert(a * a + b * b == t) by (nonlinear_arith)
        requires
            t == p * p + q * q,
            p == a || p == -a,
            q == b || q == -b,
    ;
}

/// An edge between two pixels is the step between them.
proof fn lemma_edge_whole(hull: Seq<Point>, i: int)
    requires
        0 <= i < hull.len(),
        crate::ocr::text::hull::all_on_grid(hull),
    ensures
        ({
            let v = crate::ocr::text::geometry::edge(hull, i);
            let e = edge_of(crate::ocr::text::hull::cells(hull), i);
            &&& crate::bounds::is_whole(v.0, e.0)
            &&& crate::bounds::is_whole(v.1, e.1)
            &&& small(e)
        }),
{
    reveal(crate::ocr::text::geometry::edge);
    let n: int = hull.len() as int;
    if i + 1 == n {
        vstd::arithmetic::div_mod::lemma_mod_self_0(n);
    } else {
        vstd::arithmetic::div_mod::lemma_small_mod((i + 1) as nat, n as nat);
    }
    let j: int = wrapped(i + 1, n);
    assert((i + 1) % n == j);
    let (a, b): (Cell, Cell) = (
        crate::ocr::text::hull::cell(hull[i]),
        crate::ocr::text::hull::cell(hull[j]),
    );
    assert(crate::ocr::text::hull::on_grid(hull[i]) && crate::ocr::text::hull::on_grid(hull[j]));
    assert(crate::ocr::text::hull::close(
        crate::ocr::text::hull::cell(hull[i]),
        crate::ocr::text::hull::cell(hull[j]),
    ));
    crate::bounds::lemma_exact_difference(hull[j].0, hull[i].0, b.0, a.0);
    crate::bounds::lemma_exact_difference(hull[j].1, hull[i].1, b.1, a.1);
}

/// A product of two sides is rounded by at most half of its last place.
proof fn lemma_rounded_area(a: Single, b: Single)
    requires
        crate::ocr::text::drawing::within(a, 14),
        crate::ocr::text::drawing::within(b, 14),
        a.units() >= 0,
        b.units() >= 0,
    ensures
        ({
            let u = crate::single::unit() as int;
            let t = Single::product(a, b).units();
            let e = 0x100_0000 * (t * u - a.units() * b.units());
            &&& Single::product(a, b).finite()
            &&& e <= 0x80_0000 * u || e <= t * u && t >= 0
        }),
{
    let u: nat = crate::single::unit();
    lemma_pow2_pos(149);
    crate::ocr::text::drawing::lemma_area_within(a, b, 14);
    crate::bounds::lemma_product(a, b);
    let (sa, sb): (nat, nat) = (crate::single::size(a.units()), crate::single::size(b.units()));
    crate::bounds::lemma_nearest_close(sa * sb, u);
    let s: nat = crate::single::step(crate::single::nearest(sa * sb, u));
    let t: int = Single::product(a, b).units();
    let scale: nat = if s < 0x80_0000 { 0x80_0000nat } else { s };
    assert(sa * sb >= 0) by (nonlinear_arith)
        requires
            sa >= 0,
            sb >= 0,
    ;
    if t < 0 {
        assert(t * u <= 0) by (nonlinear_arith)
            requires
                t < 0,
                u > 0,
        ;
    }
}

/// The rectangle along an edge of a hull of pixels is measured no larger than it is, up to one
/// part in 32 of `s + 1` square pixels, where the corners are at most `s` apart.
proof fn lemma_measured_area(hull: Seq<Point>, i: int, s: int)
    requires
        0 <= i < hull.len(),
        crate::ocr::text::hull::all_on_grid(hull),
        crate::ocr::text::drawing::all_near(hull, 12),
        sized(crate::ocr::text::hull::cells(hull), s),
        1 <= s <= 4096,
        edge_of(crate::ocr::text::hull::cells(hull), i) != (0int, 0int),
    ensures
        ({
            let u = crate::single::unit() as int;
            let places = crate::ocr::text::hull::cells(hull);
            let e = edge_of(places, i);
            let area = crate::ocr::text::geometry::enclosing_area(
                hull,
                crate::ocr::text::geometry::direction(crate::ocr::text::geometry::edge(hull, i)),
            );
            &&& crate::ocr::text::geometry::directed(hull, i)
            &&& area.finite()
            &&& 32 * (area.units() * dot(e, e)) <= (32 * area_along(places, e) + (s + 1) * dot(
                e,
                e,
            )) * u
        }),
{
    reveal(crate::ocr::text::geometry::enclosing_area);
    let u: int = crate::single::unit() as int;
    lemma_pow2_pos(149);
    lemma2_to64();
    lemma_pow2_strictly_increases(23, 149);
    let places: Seq<Cell> = crate::ocr::text::hull::cells(hull);
    let (v, e): (Point, Cell) = (crate::ocr::text::geometry::edge(hull, i), edge_of(places, i));
    let (d, l): (Point, int) = (
        crate::ocr::text::geometry::direction(v),
        crate::ocr::text::geometry::length(v).units(),
    );
    let n: Point = crate::ocr::text::geometry::turned(d);
    lemma_edge_whole(hull, i);
    crate::ocr::text::drawing::lemma_whole_directed(v, e.0, e.1);
    lemma_parallel(v, e);
    assert(n.0.units() == -d.1.units());
    lemma_turned_parallel((d.0.units(), d.1.units()), e, l);
    crate::ocr::text::rectangle::lemma_all_small(hull);
    lemma_side_close(hull, d, e, l);
    lemma_side_close(hull, n, quarter(e), l);
    lemma_extents(places, e, s, u, l);
    let us: Seq<Single> = crate::ocr::text::geometry::spread(hull, d);
    let vs: Seq<Single> = crate::ocr::text::geometry::spread(hull, n);
    let p: Single = Single::difference(
        crate::ocr::text::geometry::greatest(us),
        crate::ocr::text::geometry::least(us),
    );
    let r: Single = Single::difference(
        crate::ocr::text::geometry::greatest(vs),
        crate::ocr::text::geometry::least(vs),
    );
    lemma_rounded_area(p, r);
    let (x, y): (int, int) = (e.0, e.1);
    assert(x * x + y * y > 0) by (nonlinear_arith)
        requires
            x != 0 || y != 0,
    ;
    let a: int = Single::product(p, r).units();
    let (w, h, q): (int, int, int) = (extent(places, e), extent(places, quarter(e)), dot(e, e));
    if a >= 0 {
        lemma_area_bound(u, l, w, h, q, p.units(), r.units(), a, s);
    } else {
        assert(a * q <= 0 && (32 * (w * h) + (s + 1) * q) * u >= 0) by (nonlinear_arith)
            requires
                a < 0,
                q > 0,
                w >= 0,
                h >= 0,
                s >= 1,
                u > 0,
        ;
    }
}

/// A quarter turn keeps a direction along its step.
proof fn lemma_turned_parallel(d: Cell, e: Cell, l: int)
    requires
        parallel(d, e, l),
    ensures
        parallel(quarter(d), quarter(e), l),
{
    let u: int = crate::single::unit() as int;
    let (x, y, uu): (int, int, int) = (d.1, e.1, u * u);
    assert((-x) * l == -(x * l) && (-y) * uu == -(y * uu)) by (nonlinear_arith);
}

/// No rectangle around pixels is smaller than the one that is chosen, up to rounding: along
/// whatever direction the tight rectangle around them lies, the area that is measured for the
/// chosen one exceeds its area by at most one part in 32 of `s + 1` square pixels, where the
/// pixels are at most `s` apart in either direction, and 4096 from the origin.
pub proof fn lemma_smallest_of_all(points: Seq<Point>, d: Cell, s: int) -> (j: int)
    requires
        crate::ocr::text::hull::all_on_grid(points),
        crate::ocr::text::drawing::all_near(points, 12),
        points.len() <= usize::MAX,
        crate::ocr::text::geometry::hull_of(points).len() >= 3,
        sized(crate::ocr::text::hull::cells(points), s),
        1 <= s <= 4096,
        d != (0int, 0int),
    ensures
        ({
            let hull = crate::ocr::text::geometry::hull_of(points);
            let area = crate::ocr::text::geometry::enclosing_area(
                hull,
                crate::ocr::text::geometry::direction(crate::ocr::text::geometry::edge(hull, j)),
            );
            &&& crate::ocr::text::geometry::smallest_along(
                hull,
                crate::ocr::text::geometry::quad_around(hull),
                j,
            )
            &&& area.finite()
            &&& 32 * (area.units() * dot(d, d)) <= (32 * area_along(
                crate::ocr::text::hull::cells(points),
                d,
            ) + (s + 1) * dot(d, d)) * crate::single::unit()
        }),
{
    let hull: Seq<Point> = crate::ocr::text::geometry::hull_of(points);
    let corners: Seq<Cell> = crate::ocr::text::hull::cells(hull);
    let places: Seq<Cell> = crate::ocr::text::hull::cells(points);
    crate::ocr::text::drawing::lemma_rectangle_holds(points, 12);
    let quad: Seq<Point> = crate::ocr::text::geometry::quad_around(hull);
    let j: int = choose|j: int| #[trigger]
        crate::ocr::text::geometry::smallest_along(hull, quad, j);
    let i: int = crate::ocr::text::calipers::lemma_smallest_along_edge(points, d);
    crate::ocr::text::calipers::lemma_hull_convex(points);
    crate::ocr::text::drawing::lemma_hull_near(points, 12);
    crate::ocr::text::hull::lemma_hull_on_grid(points);
    lemma_sized_among(corners, places, s);
    crate::ocr::text::calipers::lemma_edge_length(corners, i);
    crate::ocr::text::calipers::lemma_edge_length(corners, j);
    let e: Cell = edge_of(corners, i);
    lemma_not_none(e);
    lemma_not_none(edge_of(corners, j));
    lemma_measured_area(hull, i, s);
    lemma_measured_area(hull, j, s);
    crate::ocr::text::calipers::lemma_same_area(corners, places, e);
    let chosen: Single = crate::ocr::text::geometry::enclosing_area(
        hull,
        crate::ocr::text::geometry::direction(crate::ocr::text::geometry::edge(hull, j)),
    );
    let other: Single = crate::ocr::text::geometry::enclosing_area(
        hull,
        crate::ocr::text::geometry::direction(crate::ocr::text::geometry::edge(hull, i)),
    );
    assert(crate::ocr::text::geometry::directed(hull, i));
    assert(!other.below(chosen));
    let (x, y): (int, int) = (d.0, d.1);
    assert(x * x + y * y > 0) by (nonlinear_arith)
        requires
            x != 0 || y != 0,
    ;
    lemma_carried(
        chosen.units(),
        other.units(),
        area_along(places, e),
        area_along(places, d),
        dot(e, e),
        dot(d, d),
        s,
        crate::single::unit() as int,
    );
    j
}

proof fn lemma_not_none(e: Cell)
    requires
        dot(e, e) > 0,
    ensures
        e != (0int, 0int),
{
    assert(0int * 0int + 0int * 0int == 0);
}

/// Some of the places are no larger than all.
proof fn lemma_sized_among(some: Seq<Cell>, all: Seq<Cell>, s: int)
    requires
        sized(all, s),
        forall|i: int| 0 <= i < some.len() ==> all.contains(#[trigger] some[i]),
    ensures
        sized(some, s),
{
    assert forall|i: int, j: int| 0 <= i < some.len() && 0 <= j < some.len() implies {
        let v = step_to(#[trigger] some[i], #[trigger] some[j]);
        -s <= v.0 <= s && -s <= v.1 <= s
    } by {
        assert(all.contains(some[i]) && all.contains(some[j]));
        let k: int = choose|k: int| 0 <= k < all.len() && all[k] == some[i];
        let m: int = choose|m: int| 0 <= m < all.len() && all[m] == some[j];
        let v: Cell = step_to(all[k], all[m]);
        assert(-s <= v.0 <= s && -s <= v.1 <= s);
    }
}

/// What is measured no larger than one rectangle is no larger than one that is larger.
proof fn lemma_carried(c: int, o: int, ae: int, ad: int, qe: int, qd: int, s: int, u: int)
    requires
        c <= o,
        qe > 0,
        qd > 0,
        u > 0,
        32 * (o * qe) <= (32 * ae + (s + 1) * qe) * u,
        ae * qd <= ad * qe,
    ensures
        32 * (c * qd) <= (32 * ad + (s + 1) * qd) * u,
{
    let (x, y): (int, int) = (32 * ae + (s + 1) * qe, 32 * ad + (s + 1) * qd);
    assert(c * qe <= o * qe) by (nonlinear_arith)
        requires
            c <= o,
            qe > 0,
    ;
    let ce: int = c * qe;
    assert((32 * ce) * qd <= (x * u) * qd) by (nonlinear_arith)
        requires
            32 * ce <= x * u,
            qd > 0,
    ;
    assert(x * qd <= y * qe) by {
        assert(x * qd == 32 * (ae * qd) + ((s + 1) * qe) * qd) by (nonlinear_arith)
            requires
                x == 32 * ae + (s + 1) * qe,
        ;
        assert(y * qe == 32 * (ad * qe) + ((s + 1) * qd) * qe) by (nonlinear_arith)
            requires
                y == 32 * ad + (s + 1) * qd,
        ;
        assert(((s + 1) * qe) * qd == ((s + 1) * qd) * qe) by (nonlinear_arith);
    }
    let (xd, ye): (int, int) = (x * qd, y * qe);
    assert((x * u) * qd == xd * u) by (nonlinear_arith)
        requires
            xd == x * qd,
    ;
    assert(xd * u <= ye * u) by (nonlinear_arith)
        requires
            xd <= ye,
            u > 0,
    ;
    let (cd, yu): (int, int) = (c * qd, y * u);
    assert((32 * ce) * qd == (32 * cd) * qe) by (nonlinear_arith)
        requires
            ce == c * qe,
            cd == c * qd,
    ;
    assert(ye * u == yu * qe) by (nonlinear_arith)
        requires
            ye == y * qe,
            yu == y * u,
    ;
    assert(32 * cd <= yu) by (nonlinear_arith)
        requires
            (32 * cd) * qe <= yu * qe,
            qe > 0,
    ;
}

} // verus!
