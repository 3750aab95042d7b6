//! The rectangle around a border of a moderate map can be drawn on it.
//!
//! Borders have whole coordinates, so the rectangle stays close to the map; and where its
//! sides are at least three pixels long, its corners stay apart when they are rounded.
use crate::ocr::text::geometry::Point;
use crate::single::Single;
use vstd::arithmetic::power2::*;
use vstd::prelude::*;

verus! {

/// The number is finite and at most `2^k` from zero.
pub open spec fn within(x: Single, k: nat) -> bool {
    x.finite() && crate::single::size(x.units()) <= pow2(k + 149)
}

/// Both coordinates are at most `2^k` from zero.
pub open spec fn near(p: Point, k: nat) -> bool {
    within(p.0, k) && within(p.1, k)
}

/// Every point is near.
pub open spec fn all_near(points: Seq<Point>, k: nat) -> bool {
    forall|i: int| 0 <= i < points.len() ==> near(#[trigger] points[i], k)
}

/// Powers of two are on the scale.
proof fn lemma_power(k: nat) -> (m: nat)
    requires
        k <= 127,
    ensures
        m < 0x7f80_0000,
        crate::single::step(m) == pow2(k + 149),
{
    lemma_pow2_strictly_increases(k + 149, 277);
    assert(1 * pow2(k + 149) == pow2(k + 149));
    let m: nat = crate::bounds::lemma_on_scale(1, k + 149);
    crate::bounds::lemma_top();
    m
}

/// What rounds a size of at most `2^k` is at most `2^k`.
pub proof fn lemma_rounds_within(num: nat, den: nat, k: nat)
    requires
        den > 0,
        k <= 127,
        num <= pow2(k + 149) * den,
    ensures
        crate::single::nearest(num, den) < 0x7f80_0000,
        crate::single::step(crate::single::nearest(num, den)) <= pow2(k + 149),
{
    let m: nat = lemma_power(k);
    crate::bounds::lemma_nearest_at_most(num, den, m);
    let n: nat = crate::single::nearest(num, den);
    if n < m {
        crate::single::lemma_step_increases(n, m);
    }
}

proof fn lemma_within_more(x: Single, k: nat, l: nat)
    requires
        within(x, k),
        k <= l,
    ensures
        within(x, l),
{
    if k < l {
        lemma_pow2_strictly_increases(k + 149, l + 149);
    }
}

pub proof fn lemma_sum_within(a: Single, b: Single, k: nat)
    requires
        within(a, k),
        within(b, k),
        k < 127,
    ensures
        within(Single::sum(a, b), k + 1),
{
    crate::bounds::lemma_sum(a, b);
    lemma_pow2_unfold(k + 150);
    let total: nat = crate::single::size(a.units() + b.units());
    assert(pow2(k + 1 + 149) * 1 == pow2(k + 1 + 149));
    lemma_rounds_within(total, 1, k + 1);
}

pub proof fn lemma_difference_within(a: Single, b: Single, k: nat)
    requires
        within(a, k),
        within(b, k),
        k < 127,
    ensures
        within(Single::difference(a, b), k + 1),
{
    assert(b.negated().units() == -b.units());
    lemma_sum_within(a, b.negated(), k);
}

pub proof fn lemma_product_within(a: Single, b: Single, k: nat)
    requires
        within(a, k),
        within(b, 0),
        k <= 127,
    ensures
        within(Single::product(a, b), k),
{
    crate::bounds::lemma_product(a, b);
    lemma_pow2_pos(149);
    let (sa, sb): (nat, nat) = (crate::single::size(a.units()), crate::single::size(b.units()));
    let (p, u): (nat, nat) = (pow2(k + 149), pow2(149));
    assert(sa * sb <= p * u) by (nonlinear_arith)
        requires
            sa <= p,
            sb <= u,
    ;
    lemma_rounds_within(sa * sb, u, k);
}

/// Half the root of a sum of squares is at least either part: rounding keeps the order.
proof fn lemma_root_at_least(n: nat, m: nat)
    requires
        m <= 0x7f80_0000,
        n >= crate::single::step(m) * crate::single::step(m),
    ensures
        crate::single::nearest_root(n) >= m,
        crate::single::nearest_root(n) <= 0x7f80_0000,
{
    let k: nat = crate::single::nearest_root(n);
    crate::root::lemma_nearest_root(n);
    if k < m {
        let low: nat = crate::single::step(k) + crate::single::step(k + 1);
        crate::single::lemma_step_next(k);
        if k + 1 < m {
            crate::single::lemma_step_increases(k + 1, m);
        }
        let s: nat = crate::single::step(m);
        assert(low < 2 * s);
        assert(low * low < 4 * (s * s)) by (nonlinear_arith)
            requires
                0 <= low < 2 * s,
        ;
        assert(false);
    }
}

/// A root of at most a value of the scale does not round beyond it.
pub proof fn lemma_root_at_most(n: nat, m: nat)
    requires
        m <= 0x7f80_0000,
        n <= crate::single::step(m) * crate::single::step(m),
    ensures
        crate::single::nearest_root(n) <= m,
{
    let k: nat = crate::single::nearest_root(n);
    crate::root::lemma_nearest_root(n);
    if k > m {
        let high: nat = crate::single::step((k - 1) as nat) + crate::single::step(k);
        crate::single::lemma_step_next((k - 1) as nat);
        if m < k - 1 {
            crate::single::lemma_step_increases(m, (k - 1) as nat);
        }
        let s: nat = crate::single::step(m);
        assert(high > 2 * s);
        assert(high * high > 4 * (s * s)) by (nonlinear_arith)
            requires
                high > 2 * s,
                s >= 0,
        ;
        assert(false);
    }
}

/// A vector is no shorter than either of its parts.
pub proof fn lemma_length(v: Point)
    requires
        v.0.finite(),
        v.1.finite(),
    ensures
        ({
            let l = crate::ocr::text::geometry::length(v);
            &&& !l.nan()
            &&& !l.negative()
            &&& l.magnitude() >= v.0.magnitude()
            &&& l.magnitude() >= v.1.magnitude()
            &&& l.magnitude() == crate::single::nearest_root(
                (v.0.units() * v.0.units() + v.1.units() * v.1.units()) as nat,
            )
        }),
{
    reveal(Single::hypotenuse);
    let (x, y): (int, int) = (v.0.units(), v.1.units());
    let (a, b): (nat, nat) = (
        crate::single::step(v.0.magnitude()),
        crate::single::step(v.1.magnitude()),
    );
    assert(x * x == a * a && y * y == b * b) by (nonlinear_arith)
        requires
            x == a || x == -a,
            y == b || y == -b,
    ;
    assert(a * a >= 0 && b * b >= 0) by (nonlinear_arith);
    let n: nat = (x * x + y * y) as nat;
    lemma_root_at_least(n, v.0.magnitude());
    lemma_root_at_least(n, v.1.magnitude());
}

/// The parts of a direction are at most one, and the length it is divided by is a positive
/// number.
pub proof fn lemma_direction(v: Point, k: nat)
    requires
        near(v, k),
        k <= 120,
        !crate::ocr::text::geometry::length(v).below(
            Single { bits: crate::ocr::text::geometry::SHORTEST_EDGE },
        ),
    ensures
        near(crate::ocr::text::geometry::direction(v), 0),
        crate::ocr::text::geometry::length(v).finite(),
        crate::ocr::text::geometry::length(v).units() > 0,
{
    reveal(crate::ocr::text::geometry::direction);
    lemma_length(v);
    let l: Single = crate::ocr::text::geometry::length(v);
    // not zero
    let tiny: Single = Single { bits: crate::ocr::text::geometry::SHORTEST_EDGE };
    assert(tiny.magnitude() > 0);
    crate::single::lemma_step_increases(0, tiny.magnitude());
    assert(crate::single::step(0) == 0);
    assert(l.units() > 0);
    assert(!l.zero());
    // not infinite: at most the sum of the parts
    let (x, y): (int, int) = (v.0.units(), v.1.units());
    let p: nat = pow2(k + 149);
    lemma_pow2_unfold(k + 1 + 149);
    let m: nat = lemma_power(k + 1);
    let n: nat = (x * x + y * y) as nat;
    assert(x * x + y * y <= (2 * p) * (2 * p) && x * x + y * y >= 0) by (nonlinear_arith)
        requires
            -p <= x <= p,
            -p <= y <= p,
    ;
    lemma_root_at_most(n, m);
    assert(l.finite());
    lemma_part(v.0, l);
    lemma_part(v.1, l);
}

pub proof fn lemma_part(x: Single, l: Single)
    requires
        x.finite(),
        l.finite(),
        !l.zero(),
        x.magnitude() <= l.magnitude(),
    ensures
        within(Single::quotient(x, l), 0),
{
    crate::bounds::lemma_quotient(x, l);
    let (sx, sl): (nat, nat) = (crate::single::size(x.units()), crate::single::size(l.units()));
    if x.magnitude() < l.magnitude() {
        crate::single::lemma_step_increases(x.magnitude(), l.magnitude());
    }
    let u: nat = crate::single::unit();
    assert(sx * u <= pow2(149) * sl) by (nonlinear_arith)
        requires
            sx <= sl,
            u == pow2(149),
    ;
    lemma_rounds_within(sx * u, sl, 0);
}

proof fn lemma_sorted_near(points: Seq<Point>, k: nat)
    requires
        all_near(points, k),
        points.len() <= usize::MAX,
    ensures
        all_near(crate::ocr::text::geometry::sorted_points(points), k),
{
    let keys: Seq<(i64, i64)> = crate::ocr::text::geometry::point_keys(points);
    crate::order::lemma_stable_order(keys);
    let order: Seq<usize> = crate::order::stable_order_of(keys);
    let sorted: Seq<Point> = crate::ocr::text::geometry::sorted_points(points);
    assert forall|i: int| 0 <= i < sorted.len() implies near(#[trigger] sorted[i], k) by {
        assert(sorted[i] == points[order[i] as int]);
    }
}

pub proof fn lemma_hull_near(points: Seq<Point>, k: nat)
    requires
        all_near(points, k),
        points.len() <= usize::MAX,
    ensures
        all_near(crate::ocr::text::geometry::hull_of(points), k),
{
    let sorted: Seq<Point> = crate::ocr::text::geometry::sorted_points(points);
    lemma_sorted_near(points, k);
    lemma_without_repeats_near(sorted, k);
    lemma_hull_of_sorted_near(crate::ocr::text::geometry::without_repeats(sorted), k);
}

proof fn lemma_hull_of_sorted_near(list: Seq<Point>, k: nat)
    requires
        all_near(list, k),
    ensures
        all_near(crate::ocr::text::geometry::hull_of_sorted(list), k),
{
    if list.len() > 1 {
        lemma_chained_near(Seq::empty(), 1, list, k);
        let lower: Seq<Point> = crate::ocr::text::geometry::chained(Seq::empty(), 1, list);
        let back: Seq<Point> = list.drop_last().reverse();
        assert forall|i: int| 0 <= i < back.len() implies near(#[trigger] back[i], k) by {
            assert(back[i] == list[list.len() - 2 - i]);
        }
        lemma_chained_near(lower, lower.len(), back, k);
        let whole: Seq<Point> = crate::ocr::text::geometry::chained(lower, lower.len(), back);
        crate::ocr::text::geometry::lemma_settled_length(
            crate::ocr::text::geometry::chained(lower, lower.len(), back.drop_last()),
            lower.len(),
            back.last(),
        );
        assert(whole.len() >= 1);
        assert forall|i: int| 0 <= i < whole.drop_last().len() implies near(
            #[trigger] whole.drop_last()[i],
            k,
        ) by {
            assert(whole.drop_last()[i] == whole[i]);
        }
    }
}

proof fn lemma_without_repeats_near(points: Seq<Point>, k: nat)
    requires
        all_near(points, k),
    ensures
        all_near(crate::ocr::text::geometry::without_repeats(points), k),
    decreases points.len(),
{
    if points.len() > 0 {
        assert(all_near(points.drop_last(), k));
        lemma_without_repeats_near(points.drop_last(), k);
        assert(near(points[points.len() - 1], k));
    }
}

proof fn lemma_settled_near(chain: Seq<Point>, kept: nat, p: Point, k: nat)
    requires
        all_near(chain, k),
        near(p, k),
    ensures
        all_near(crate::ocr::text::geometry::settled(chain, kept, p), k),
    decreases chain.len(),
{
    if chain.len() > 0 {
        assert(all_near(chain.drop_last(), k));
        lemma_settled_near(chain.drop_last(), kept, p, k);
    }
}

proof fn lemma_chained_near(chain: Seq<Point>, kept: nat, points: Seq<Point>, k: nat)
    requires
        all_near(chain, k),
        all_near(points, k),
    ensures
        all_near(crate::ocr::text::geometry::chained(chain, kept, points), k),
    decreases points.len(),
{
    if points.len() > 0 {
        assert(all_near(points.drop_last(), k));
        lemma_chained_near(chain, kept, points.drop_last(), k);
        assert(near(points[points.len() - 1], k));
        lemma_settled_near(
            crate::ocr::text::geometry::chained(chain, kept, points.drop_last()),
            kept,
            points.last(),
            k,
        );
    }
}

/// Every value is near.
pub open spec fn values_within(values: Seq<Single>, k: nat) -> bool {
    forall|i: int| 0 <= i < values.len() ==> within(#[trigger] values[i], k)
}

/// The extremes of near values are near and in order.
proof fn lemma_extremes_within(values: Seq<Single>, k: nat)
    requires
        values.len() > 0,
        values_within(values, k),
        k <= 127,
    ensures
        within(crate::ocr::text::geometry::least(values), k),
        within(crate::ocr::text::geometry::greatest(values), k),
        crate::ocr::text::geometry::least(values).units()
            <= crate::ocr::text::geometry::greatest(values).units(),
    decreases values.len(),
{
    let rest: Seq<Single> = values.drop_last();
    assert(within(values[values.len() - 1], k));
    if rest.len() > 0 {
        assert(values_within(rest, k));
        lemma_extremes_within(rest, k);
    } else {
        lemma_pow2_strictly_increases(k + 149, 277);
        crate::bounds::lemma_top();
        assert((Single { bits: crate::single::INFINITY }).units() == pow2(277));
        assert((Single { bits: crate::single::NEG_INFINITY }).units() == -(pow2(277) as int));
        let v: Single = values.last();
        assert(crate::ocr::text::geometry::least(rest) == (Single { bits: crate::single::INFINITY }));
        assert(crate::ocr::text::geometry::greatest(rest) == (Single {
            bits: crate::single::NEG_INFINITY,
        }));
        assert(v.below(Single { bits: crate::single::INFINITY }));
        assert((Single { bits: crate::single::NEG_INFINITY }).below(v));
        assert(crate::ocr::text::geometry::least(values) == v);
        assert(crate::ocr::text::geometry::greatest(values) == v);
    }
}

proof fn lemma_along(p: Point, d: Point, k: nat)
    requires
        near(p, k),
        near(d, 0),
        k <= 120,
    ensures
        within(crate::ocr::text::geometry::along(p, d), k + 1),
{
    lemma_product_within(p.0, d.0, k);
    lemma_product_within(p.1, d.1, k);
    lemma_sum_within(Single::product(p.0, d.0), Single::product(p.1, d.1), k);
}

proof fn lemma_placed(u: Single, v: Single, d: Point, k: nat)
    requires
        within(u, k),
        within(v, k),
        near(d, 0),
        k <= 120,
    ensures
        near(crate::ocr::text::geometry::placed(u, v, d), k + 1),
{
    let n: Point = crate::ocr::text::geometry::turned(d);
    assert(n.0.units() == -d.1.units());
    lemma_product_within(u, d.0, k);
    lemma_product_within(v, n.0, k);
    lemma_product_within(u, d.1, k);
    lemma_product_within(v, n.1, k);
    lemma_sum_within(Single::product(u, d.0), Single::product(v, n.0), k);
    lemma_sum_within(Single::product(u, d.1), Single::product(v, n.1), k);
}

pub proof fn lemma_spread(points: Seq<Point>, d: Point, k: nat)
    requires
        points.len() > 0,
        all_near(points, k),
        near(d, 0),
        k <= 120,
    ensures
        ({
            let all = crate::ocr::text::geometry::spread(points, d);
            &&& within(crate::ocr::text::geometry::least(all), k + 1)
            &&& within(crate::ocr::text::geometry::greatest(all), k + 1)
        }),
{
    let all: Seq<Single> = crate::ocr::text::geometry::spread(points, d);
    assert forall|i: int| 0 <= i < all.len() implies within(#[trigger] all[i], k + 1) by {
        assert(near(points[i], k));
        lemma_along(points[i], d, k);
    }
    lemma_extremes_within(all, k + 1);
}

proof fn lemma_enclosing(points: Seq<Point>, d: Point, k: nat)
    requires
        points.len() > 0,
        all_near(points, k),
        near(d, 0),
        k <= 100,
    ensures
        crate::ocr::text::geometry::enclosing(points, d).len() == 4,
        all_near(crate::ocr::text::geometry::enclosing(points, d), k + 2),
{
    reveal(crate::ocr::text::geometry::enclosing);
    let n: Point = crate::ocr::text::geometry::turned(d);
    assert(n.0.units() == -d.1.units());
    lemma_spread(points, d, k);
    lemma_spread(points, n, k);
    let us: Seq<Single> = crate::ocr::text::geometry::spread(points, d);
    let vs: Seq<Single> = crate::ocr::text::geometry::spread(points, n);
    let (u0, u1) = (
        crate::ocr::text::geometry::least(us),
        crate::ocr::text::geometry::greatest(us),
    );
    let (v0, v1) = (
        crate::ocr::text::geometry::least(vs),
        crate::ocr::text::geometry::greatest(vs),
    );
    lemma_placed(u0, v0, d, k + 1);
    lemma_placed(u1, v0, d, k + 1);
    lemma_placed(u1, v1, d, k + 1);
    lemma_placed(u0, v1, d, k + 1);
}

proof fn lemma_tightest(hull: Seq<Point>, n: nat, k: nat)
    requires
        hull.len() > 0,
        n <= hull.len(),
        all_near(hull, k),
        k <= 100,
    ensures
        crate::ocr::text::geometry::tightest(hull, n).1.len() == 4,
        all_near(crate::ocr::text::geometry::tightest(hull, n).1, k + 2),
    decreases n,
{
    if n > 0 {
        lemma_tightest(hull, (n - 1) as nat, k);
        let e: Point = crate::ocr::text::geometry::edge(hull, n - 1);
        if !crate::ocr::text::geometry::length(e).below(
            Single { bits: crate::ocr::text::geometry::SHORTEST_EDGE },
        ) {
            lemma_edge_near(hull, n - 1, k);
            lemma_direction(e, k + 1);
            lemma_enclosing(hull, crate::ocr::text::geometry::direction(e), k);
        }
    } else {
        lemma_pow2_pos(k + 2 + 149);
        assert((Single { bits: 0 }).units() == 0);
    }
}

/// The rectangle around near points is near.
pub proof fn lemma_rectangle_near(points: Seq<Point>, k: nat)
    requires
        all_near(points, k),
        points.len() <= usize::MAX,
        k <= 100,
    ensures
        ({
            let quad = crate::ocr::text::geometry::quad_around(
                crate::ocr::text::geometry::hull_of(points),
            );
            quad.len() == 4 && all_near(quad, k + 2)
        }),
{
    let hull: Seq<Point> = crate::ocr::text::geometry::hull_of(points);
    lemma_hull_near(points, k);
    if hull.len() == 0 {
        lemma_pow2_pos(k + 2 + 149);
        assert((Single { bits: 0 }).units() == 0);
    } else if hull.len() < 3 {
        let (a, b) = (hull.first(), hull.last());
        assert(near(hull[0], k) && near(hull[hull.len() - 1], k));
        lemma_within_more(a.0, k, k + 2);
        lemma_within_more(a.1, k, k + 2);
        lemma_within_more(b.0, k, k + 2);
        lemma_within_more(b.1, k, k + 2);
    } else {
        lemma_tightest(hull, hull.len(), k);
    }
}

pub proof fn lemma_area_within(a: Single, b: Single, k: nat)
    requires
        within(a, k),
        within(b, k),
        2 * k <= 127,
    ensures
        within(Single::product(a, b), 2 * k),
{
    crate::bounds::lemma_product(a, b);
    lemma_pow2_pos(149);
    let (sa, sb): (nat, nat) = (crate::single::size(a.units()), crate::single::size(b.units()));
    let p: nat = pow2(k + 149);
    lemma_pow2_adds(k + 149, k + 149);
    lemma_pow2_adds(2 * k + 149, 149);
    assert(sa * sb <= p * p) by (nonlinear_arith)
        requires
            sa <= p,
            sb <= p,
    ;
    lemma_rounds_within(sa * sb, pow2(149), 2 * k);
}

/// The area of a rectangle around near points is finite.
proof fn lemma_area(hull: Seq<Point>, d: Point, k: nat)
    requires
        hull.len() > 0,
        all_near(hull, k),
        near(d, 0),
        k <= 60,
    ensures
        crate::ocr::text::geometry::enclosing_area(hull, d).finite(),
{
    reveal(crate::ocr::text::geometry::enclosing_area);
    let n: Point = crate::ocr::text::geometry::turned(d);
    assert(n.0.units() == -d.1.units());
    lemma_spread(hull, d, k);
    lemma_spread(hull, n, k);
    let us: Seq<Single> = crate::ocr::text::geometry::spread(hull, d);
    let vs: Seq<Single> = crate::ocr::text::geometry::spread(hull, n);
    let (u0, u1) = (
        crate::ocr::text::geometry::least(us),
        crate::ocr::text::geometry::greatest(us),
    );
    let (v0, v1) = (
        crate::ocr::text::geometry::least(vs),
        crate::ocr::text::geometry::greatest(vs),
    );
    lemma_difference_within(u1, u0, k + 1);
    lemma_difference_within(v1, v0, k + 1);
    lemma_area_within(Single::difference(u1, u0), Single::difference(v1, v0), k + 2);
}

/// An edge between near points is near.
pub proof fn lemma_edge_near(hull: Seq<Point>, i: int, k: nat)
    requires
        0 <= i < hull.len(),
        all_near(hull, k),
        k <= 100,
    ensures
        near(crate::ocr::text::geometry::edge(hull, i), k + 1),
{
    reveal(crate::ocr::text::geometry::edge);
    vstd::arithmetic::div_mod::lemma_mod_bound(i + 1, hull.len() as int);
    let (a, b) = (hull[i], hull[(i + 1) % hull.len() as int]);
    assert(near(a, k) && near(b, k));
    lemma_difference_within(b.0, a.0, k);
    lemma_difference_within(b.1, a.1, k);
}

/// A vector of whole numbers that are not both zero is long enough to have a direction.
pub proof fn lemma_whole_directed(v: Point, x: int, y: int)
    requires
        crate::bounds::is_whole(v.0, x),
        crate::bounds::is_whole(v.1, y),
        x != 0 || y != 0,
    ensures
        !crate::ocr::text::geometry::length(v).below(
            Single { bits: crate::ocr::text::geometry::SHORTEST_EDGE },
        ),
{
    let l: Single = crate::ocr::text::geometry::length(v);
    lemma_length(v);
    let u: int = crate::single::unit() as int;
    lemma_pow2_pos(149);
    let far: Single = if x != 0 {
        v.0
    } else {
        v.1
    };
    let w: int = if x != 0 {
        x
    } else {
        y
    };
    assert(far.units() == w * u);
    assert(crate::single::size(w * u) >= u) by {
        assert(w >= 1 ==> w * u >= u) by (nonlinear_arith)
            requires
                u > 0,
        ;
        assert(w <= -1 ==> w * u <= -u) by (nonlinear_arith)
            requires
                u > 0,
        ;
    }
    if far.magnitude() < l.magnitude() {
        crate::single::lemma_step_increases(far.magnitude(), l.magnitude());
    }
    assert(l.units() >= u);
    // one exceeds the shortest edge
    let tiny: Single = Single { bits: crate::ocr::text::geometry::SHORTEST_EDGE };
    crate::bounds::lemma_one();
    crate::single::lemma_step_increases(
        tiny.magnitude(),
        (Single { bits: crate::single::ONE }).magnitude(),
    );
    assert(tiny.units() < u);
}

/// An edge between two pixels is long enough to have a direction.
proof fn lemma_edge_directed(hull: Seq<Point>, i: int)
    requires
        0 <= i < hull.len() - 1,
        crate::ocr::text::hull::all_on_grid(hull),
        !crate::ocr::text::geometry::same_place(hull[i], hull[i + 1]),
    ensures
        crate::ocr::text::geometry::directed(hull, i),
{
    reveal(crate::ocr::text::geometry::edge);
    vstd::arithmetic::div_mod::lemma_small_mod((i + 1) as nat, hull.len());
    let (a, b) = (hull[i], hull[i + 1]);
    let (ca, cb) = (crate::ocr::text::hull::cell(a), crate::ocr::text::hull::cell(b));
    assert(crate::ocr::text::hull::on_grid(hull[i]) && crate::ocr::text::hull::on_grid(hull[i + 1]));
    assert(crate::ocr::text::hull::close(
        crate::ocr::text::hull::cell(hull[i]),
        crate::ocr::text::hull::cell(hull[i + 1]),
    ));
    crate::bounds::lemma_exact_difference(b.0, a.0, cb.0, ca.0);
    crate::bounds::lemma_exact_difference(b.1, a.1, cb.1, ca.1);
    Single::lemma_key_orders(a.0, b.0);
    Single::lemma_key_orders(a.1, b.1);
    let v: Point = crate::ocr::text::geometry::edge(hull, i);
    lemma_whole_directed(v, cb.0 - ca.0, cb.1 - ca.1);
}

/// Some rectangle along an edge of a hull of near pixels has a finite area, so one is chosen.
proof fn lemma_some_chosen(hull: Seq<Point>, k: nat)
    requires
        crate::ocr::text::hull::all_on_grid(hull),
        all_near(hull, k),
        k <= 60,
        hull.len() >= 2,
        !crate::ocr::text::geometry::same_place(hull[0], hull[1]),
    ensures
        crate::ocr::text::geometry::tightest(hull, hull.len()).0.bits != crate::single::INFINITY,
{
    let e: Point = crate::ocr::text::geometry::edge(hull, 0);
    let d: Point = crate::ocr::text::geometry::direction(e);
    lemma_edge_directed(hull, 0);
    lemma_edge_near(hull, 0, k);
    lemma_direction(e, k + 1);
    lemma_area(hull, d, k);
    let area: Single = crate::ocr::text::geometry::enclosing_area(hull, d);
    let top: Single = crate::ocr::text::geometry::tightest(hull, hull.len()).0;
    assert(!area.below(top)) by {
        crate::ocr::text::geometry::lemma_tightest(hull, hull.len());
    }
    if top.bits == crate::single::INFINITY {
        crate::bounds::lemma_below_infinity(area);
        crate::bounds::lemma_top();
        assert(area.below(top));
    }
}

/// The corner is measured along the direction of the edge, and along the one to its left.
pub open spec fn measured(hull: Seq<Point>, j: int, i: int) -> bool {
    let d = crate::ocr::text::geometry::direction(crate::ocr::text::geometry::edge(hull, j));
    &&& crate::ocr::text::geometry::along(hull[i], d).finite()
    &&& crate::ocr::text::geometry::along(
        hull[i],
        crate::ocr::text::geometry::turned(d),
    ).finite()
}

/// Near corners are measured along every edge that has a direction.
proof fn lemma_measured(hull: Seq<Point>, k: nat, j: int, i: int)
    requires
        all_near(hull, k),
        k <= 60,
        crate::ocr::text::geometry::directed(hull, j),
        0 <= i < hull.len(),
    ensures
        measured(hull, j, i),
{
    let e: Point = crate::ocr::text::geometry::edge(hull, j);
    let d: Point = crate::ocr::text::geometry::direction(e);
    let n: Point = crate::ocr::text::geometry::turned(d);
    lemma_edge_near(hull, j, k);
    lemma_direction(e, k + 1);
    assert(n.0.units() == -d.1.units());
    assert(near(hull[i], k));
    lemma_along(hull[i], d, k);
    lemma_along(hull[i], n, k);
}

/// The rectangle around pixels whose hull has at least three corners lies along an edge of the
/// hull, is the smallest that does, and has the corners of the hull between its sides: none is
/// measured as "not a number".
pub proof fn lemma_rectangle_holds(points: Seq<Point>, k: nat)
    requires
        crate::ocr::text::hull::all_on_grid(points),
        all_near(points, k),
        points.len() <= usize::MAX,
        k <= 60,
        crate::ocr::text::geometry::hull_of(points).len() >= 3,
    ensures
        ({
            let hull = crate::ocr::text::geometry::hull_of(points);
            &&& crate::ocr::text::geometry::is_smallest(
                hull,
                crate::ocr::text::geometry::quad_around(hull),
            )
            &&& forall|j: int, i: int|
                crate::ocr::text::geometry::directed(hull, j) && 0 <= i < hull.len()
                    ==> #[trigger] measured(hull, j, i)
        }),
{
    let hull: Seq<Point> = crate::ocr::text::geometry::hull_of(points);
    lemma_hull_near(points, k);
    assert(!crate::ocr::text::geometry::same_place(hull[0], hull[1])) by {
        crate::ocr::text::hull::lemma_hull(points);
    }
    crate::ocr::text::hull::lemma_hull_on_grid(points);
    lemma_some_chosen(hull, k);
    crate::ocr::text::geometry::lemma_smallest_rectangle(hull);
    assert forall|j: int, i: int|
        crate::ocr::text::geometry::directed(hull, j) && 0 <= i < hull.len()
            implies #[trigger] measured(hull, j, i) by {
        lemma_measured(hull, k, j, i);
    }
}

/// A moderate number rounds off to a whole number that is at most one half away.
proof fn lemma_rounded_off(x: Single) -> (t: int)
    requires
        within(x, 15),
    ensures
        x.rounded_off().to_whole(i32::MIN as int, i32::MAX as int) == t,
        -0x8000 <= t <= 0x8000,
        2 * (t * crate::single::unit() - x.units()) <= crate::single::unit(),
        2 * (x.units() - t * crate::single::unit()) <= crate::single::unit(),
{
    reveal(Single::rounded_off);
    reveal(Single::to_whole);
    lemma2_to64();
    lemma_pow2_pos(149);
    lemma_pow2_adds(15, 149);
    let u: nat = crate::single::unit();
    let z: nat = crate::single::size(x.units());
    let n: nat = (2 * z + u) / (2 * u);
    assert(z <= 0x8000 * u);
    assert(n <= 0x8000 && 2 * (n * u) <= 2 * z + u && 2 * z <= 2 * (n * u) + u)
        by (nonlinear_arith)
        requires
            n == (2 * z + u) / (2 * u),
            z <= 0x8000 * u,
            u > 0,
    ;
    let m: nat = crate::bounds::lemma_whole_on_scale(n);
    crate::bounds::lemma_rounded(x.negative(), n * u, 1);
    assert((n * u) / u == n) by (nonlinear_arith)
        requires
            u > 0,
    ;
    let t: int = if x.negative() {
        -(n as int)
    } else {
        n as int
    };
    assert((-(n as int)) * u == -(n * u)) by (nonlinear_arith);
    t
}

/// The distance of two numbers that are rounded to nearly one apart survives.
proof fn lemma_difference_close(a: Single, b: Single)
    requires
        within(a, 14),
        within(b, 14),
    ensures
        within(Single::difference(a, b), 15),
        512 * (Single::difference(a, b).units() - (a.units() - b.units()))
            <= crate::single::unit(),
        512 * ((a.units() - b.units()) - Single::difference(a, b).units())
            <= crate::single::unit(),
{
    lemma_difference_within(a, b, 14);
    crate::bounds::lemma_difference(a, b);
    lemma2_to64();
    lemma_pow2_adds(15, 149);
    lemma_pow2_adds(23, 126);
    let d: Single = Single::difference(a, b);
    let total: int = a.units() - b.units();
    let z: nat = crate::single::size(total);
    crate::bounds::lemma_nearest_close(z, 1);
    let r: nat = crate::single::size(d.units());
    let u: nat = crate::single::unit();
    let scale: nat = if r < 0x80_0000 { 0x80_0000nat } else { r };
    assert(0x100_0000 * (z - r) <= scale);
    assert(0x100_0000 * (r - z) <= scale);
    assert(scale <= 0x8000 * u) by {
        lemma_pow2_pos(126);
    }
}

/// A quadrilateral with sides of at least three keeps its first corner from its last when
/// both are rounded off.
proof fn lemma_corners_apart(quad: Seq<Point>, x0: int, y0: int)
    requires
        quad.len() == 4,
        all_near(quad, 14),
        0 <= x0 <= 4096,
        0 <= y0 <= 4096,
        !crate::ocr::text::geometry::shortest_side(quad).below(Single { bits: 0x4040_0000 }),
    ensures
        ({
            let corner = |p: Point|
                (
                    crate::ocr::text::detection::relative(p.0, x0),
                    crate::ocr::text::detection::relative(p.1, y0),
                );
            corner(quad[0]) != corner(quad[3])
        }),
{
    let (a, b) = (quad[0], quad[3]);
    assert(near(a, 14) && near(b, 14));
    let side: Single = crate::ocr::text::geometry::side(quad, 3);
    lemma_last_side(quad);
    let v: Point = (Single::difference(a.0, b.0), Single::difference(a.1, b.1));
    lemma_difference_close(a.0, b.0);
    lemma_difference_close(a.1, b.1);
    lemma_difference_within(a.0, b.0, 14);
    lemma_difference_within(a.1, b.1, 14);
    lemma_length(v);
    lemma_long_part(v);
    let u: int = crate::single::unit() as int;
    if crate::single::size(v.0.units()) >= 2 * u {
        lemma_parted(a.0, b.0, x0);
    } else {
        lemma_parted(a.1, b.1, y0);
    }
}

/// The last side of a quadrilateral is one of those that the shortest is found among.
proof fn lemma_last_side(quad: Seq<Point>)
    requires
        quad.len() == 4,
        !crate::ocr::text::geometry::shortest_side(quad).below(Single { bits: 0x4040_0000 }),
    ensures
        !crate::ocr::text::geometry::length(
            (
                Single::difference(quad[0].0, quad[3].0),
                Single::difference(quad[0].1, quad[3].1),
            ),
        ).below(Single { bits: 0x4040_0000 }),
{
    reveal(crate::ocr::text::geometry::edge);
    let sides: Seq<Single> = seq![
        crate::ocr::text::geometry::side(quad, 0),
        crate::ocr::text::geometry::side(quad, 1),
        crate::ocr::text::geometry::side(quad, 2),
        crate::ocr::text::geometry::side(quad, 3),
    ];
    let rest: Seq<Single> = sides.drop_last();
    crate::ocr::text::geometry::lemma_extremes(rest);
    crate::ocr::text::geometry::lemma_extremes(sides);
    assert(sides.last() == crate::ocr::text::geometry::side(quad, 3));
    assert((3int + 1) % 4 == 0);
}

/// A vector of length three or more has a part of two or more.
proof fn lemma_long_part(v: Point)
    requires
        near(v, 15),
        !crate::ocr::text::geometry::length(v).below(Single { bits: 0x4040_0000 }),
    ensures
        crate::single::size(v.0.units()) >= 2 * crate::single::unit() || crate::single::size(
            v.1.units(),
        ) >= 2 * crate::single::unit(),
{
    let u: int = crate::single::unit() as int;
    let (x, y): (int, int) = (v.0.units(), v.1.units());
    let three: Single = Single { bits: 0x4040_0000 };
    lemma_pow2_pos(149);
    lemma2_to64();
    if -2 * u < x < 2 * u && -2 * u < y < 2 * u {
        lemma_length(v);
        let n: nat = (x * x + y * y) as nat;
        // 23 / 8 is on the scale, above the root of eight and below three
        lemma_pow2_adds(3, 146);
        lemma_pow2_pos(146);
        let h: nat = pow2(146);
        assert(u == 8 * h);
        lemma_pow2_adds(5, 146);
        lemma_pow2_strictly_increases(151, 277);
        let m: nat = crate::bounds::lemma_on_scale(23, 146);
        assert(x * x + y * y <= (23 * h) * (23 * h) && x * x + y * y >= 0) by (nonlinear_arith)
            requires
                -16 * h < x < 16 * h,
                -16 * h < y < 16 * h,
        ;
        lemma_root_at_most(n, m);
        crate::single::lemma_step_scaled(0xc0_0000, 127);
        lemma_pow2_adds(22, 127);
        assert(three.units() == 3 * u);
        let l: Single = crate::ocr::text::geometry::length(v);
        if l.magnitude() < m {
            crate::single::lemma_step_increases(l.magnitude(), m);
        }
        assert(l.units() <= 23 * h);
        assert(false);
    }
}

/// Coordinates whose rounded distance is two or more stay apart when both are moved and
/// rounded off.
proof fn lemma_parted(a: Single, b: Single, from: int)
    requires
        within(a, 14),
        within(b, 14),
        0 <= from <= 4096,
        crate::single::size(Single::difference(a, b).units()) >= 2 * crate::single::unit(),
    ensures
        crate::ocr::text::detection::relative(a, from)
            != crate::ocr::text::detection::relative(b, from),
{
    let u: int = crate::single::unit() as int;
    lemma_pow2_pos(149);
    lemma_difference_close(a, b);
    let w: Single = Single::whole(from);
    crate::bounds::lemma_whole(from);
    lemma2_to64();
    lemma_pow2_adds(14, 149);
    assert(0 <= from * u <= 4096 * u) by (nonlinear_arith)
        requires
            0 <= from <= 4096,
            u > 0,
    ;
    assert(within(w, 14));
    lemma_difference_close(a, w);
    lemma_difference_close(b, w);
    let (da, db) = (Single::difference(a, w), Single::difference(b, w));
    let ta: int = lemma_rounded_off(da);
    let tb: int = lemma_rounded_off(db);
    if ta == tb {
        // 2 u <= |a - b| + u / 512 <= |da - db| + 3 u / 512 <= u + 3 u / 512
        assert(false);
    }
}

/// A number of at most `2^k` rounds off to a whole number of at most `2^k`.
proof fn lemma_rounded_off_within(x: Single, k: nat) -> (t: int)
    requires
        within(x, k),
        k <= 30,
    ensures
        x.rounded_off().to_whole(i32::MIN as int, i32::MAX as int) == t,
        -(pow2(k) as int) <= t <= pow2(k),
{
    reveal(Single::rounded_off);
    reveal(Single::to_whole);
    lemma2_to64();
    lemma_pow2_pos(149);
    lemma_pow2_adds(k, 149);
    if k < 30 {
        lemma_pow2_strictly_increases(k, 30);
    }
    let (u, p): (nat, nat) = (crate::single::unit(), pow2(k));
    let z: nat = crate::single::size(x.units());
    let n: nat = (2 * z + u) / (2 * u);
    assert(n * u <= p * u) by (nonlinear_arith)
        requires
            n == (2 * z + u) / (2 * u),
            z <= p * u,
            u > 0,
    ;
    lemma_rounds_within(n * u, 1, k);
    crate::bounds::lemma_rounded(x.negative(), n * u, 1);
    let s: nat = crate::single::size(x.rounded_off().units());
    assert(s / u <= p) by (nonlinear_arith)
        requires
            s <= p * u,
            u > 0,
    ;
    x.rounded_off().to_whole(i32::MIN as int, i32::MAX as int)
}

/// Every corner of a near quadrilateral is near the first column and row that it spans.
proof fn lemma_corner_near(v: Single, from: int)
    requires
        within(v, 28),
        0 <= from <= 0x100_0000,
    ensures
        -0x2000_0000 <= crate::ocr::text::detection::relative(v, from) <= 0x2000_0000,
{
    let u: int = crate::single::unit() as int;
    lemma_pow2_pos(149);
    crate::bounds::lemma_whole(from);
    lemma2_to64();
    lemma_pow2_adds(28, 149);
    assert(0 <= from * u <= 0x100_0000 * u) by (nonlinear_arith)
        requires
            0 <= from <= 0x100_0000,
            u > 0,
    ;
    lemma_difference_within(v, Single::whole(from), 28);
    let t: int = lemma_rounded_off_within(Single::difference(v, Single::whole(from)), 29);
}

/// Rounding down goes down, and rounding up goes up.
proof fn lemma_outward(x: Single)
    requires
        x.finite(),
    ensures
        x.floored().units() <= x.units() <= x.ceiled().units(),
        !x.floored().nan(),
        !x.ceiled().nan(),
{
    reveal(Single::floored);
    reveal(Single::ceiled);
    crate::bounds::lemma_whole_parts(x);
    lemma_pow2_pos(149);
    let (a, u): (int, int) = (x.units(), crate::single::unit() as int);
    let m: nat = x.magnitude();
    let (f, c): (nat, nat) = (crate::single::size(a / u), crate::single::size((-a) / u));
    assert(a >= 0 ==> f * u <= a && c * u >= a) by (nonlinear_arith)
        requires
            u > 0,
            f == (if a / u < 0 {
                -(a / u)
            } else {
                a / u
            }),
            c == (if (-a) / u < 0 {
                -((-a) / u)
            } else {
                (-a) / u
            }),
    ;
    assert(a <= 0 ==> f * u >= -a && c * u <= -a) by (nonlinear_arith)
        requires
            u > 0,
            f == (if a / u < 0 {
                -(a / u)
            } else {
                a / u
            }),
            c == (if (-a) / u < 0 {
                -((-a) / u)
            } else {
                (-a) / u
            }),
    ;
    let (nf, nc): (nat, nat) = (f * crate::single::unit(), c * crate::single::unit());
    crate::bounds::lemma_rounded(x.negative(), nf, 1);
    crate::bounds::lemma_rounded(x.negative(), nc, 1);
    lemma_rounds_toward(nf, m);
    lemma_rounds_toward(nc, m);
}

/// Rounding keeps a size on its side of a value of the scale.
proof fn lemma_rounds_toward(num: nat, m: nat)
    requires
        m <= 0x7f80_0000,
    ensures
        num <= crate::single::step(m) ==> crate::single::step(crate::single::nearest(num, 1))
            <= crate::single::step(m),
        num >= crate::single::step(m) ==> crate::single::step(crate::single::nearest(num, 1))
            >= crate::single::step(m),
{
    let n: nat = crate::single::nearest(num, 1);
    crate::single::lemma_nearest(num, 1);
    if num <= crate::single::step(m) {
        crate::bounds::lemma_nearest_at_most(num, 1, m);
        if n < m {
            crate::single::lemma_step_increases(n, m);
        }
    }
    if num >= crate::single::step(m) {
        crate::bounds::lemma_nearest_at_least(num, 1, m);
        if m < n {
            crate::single::lemma_step_increases(m, n);
        }
    }
}

/// Rounding down and up keeps numbers in order, and so does moving them into a range.
proof fn lemma_span_ordered(low: Single, high: Single, limit: int)
    requires
        low.finite(),
        high.finite(),
        low.units() <= high.units(),
        1 <= limit <= 0x100_0000,
    ensures
        ({
            let span = crate::ocr::text::detection::whole_span(low, high, limit);
            0 <= span.0 <= span.1 < limit
        }),
{
    let u: int = crate::single::unit() as int;
    lemma_pow2_pos(149);
    let last: Single = Single::difference(
        Single::whole(limit),
        Single { bits: crate::single::ONE },
    );
    let zero: Single = Single { bits: 0 };
    assert(zero.units() == 0);
    crate::bounds::lemma_less_one(limit);
    lemma_outward(low);
    lemma_outward(high);
    let x: Single = low.floored().clamped(zero, last);
    let y: Single = high.ceiled().clamped(zero, last);
    let n: nat = (limit - 1) as nat;
    assert(0 <= n * u) by (nonlinear_arith)
        requires
            u > 0,
    ;
    assert(0 <= x.units() <= y.units() <= n * u);
    crate::bounds::lemma_whole_part(x, n, i32::MIN as int, i32::MAX as int);
    crate::bounds::lemma_whole_part(y, n, i32::MIN as int, i32::MAX as int);
    reveal(Single::to_whole);
    let (p, q): (int, int) = (x.units(), y.units());
    assert(0 <= p / u <= q / u) by (nonlinear_arith)
        requires
            0 <= p <= q,
            u > 0,
    ;
    if y.negative() {
        assert(q == 0 && p == 0);
    }
    if x.negative() {
        assert(p == 0);
        assert(p / u == 0) by (nonlinear_arith)
            requires
                p == 0,
                u > 0,
        ;
    }
}

/// The longest side of a map whose rectangles are sure to be drawn.
pub const MODERATE: usize = 4096;

/// A near quadrilateral spans columns and rows of the map.
proof fn lemma_spans(quad: Seq<Point>, pw: int, ph: int)
    requires
        quad.len() == 4,
        all_near(quad, 28),
        1 <= pw <= 0x100_0000,
        1 <= ph <= 0x100_0000,
    ensures
        ({
            let (c, r) = (
                crate::ocr::text::detection::columns(quad, pw),
                crate::ocr::text::detection::rows(quad, ph),
            );
            0 <= c.0 <= c.1 < pw && 0 <= r.0 <= r.1 < ph
        }),
{
    let xs: Seq<Single> = quad.map_values(|p: Point| p.0);
    let ys: Seq<Single> = quad.map_values(|p: Point| p.1);
    assert forall|i: int| 0 <= i < xs.len() implies within(#[trigger] xs[i], 28) && within(
        ys[i],
        28,
    ) by {
        assert(near(quad[i], 28));
    }
    lemma_extremes_within(xs, 28);
    lemma_extremes_within(ys, 28);
    lemma_span_ordered(
        crate::ocr::text::geometry::least(xs),
        crate::ocr::text::geometry::greatest(xs),
        pw,
    );
    lemma_span_ordered(
        crate::ocr::text::geometry::least(ys),
        crate::ocr::text::geometry::greatest(ys),
        ph,
    );
}

/// A quadrilateral near a moderate map with sides of at least three keeps its corners apart.
proof fn lemma_open(quad: Seq<Point>, pw: int, ph: int)
    requires
        quad.len() == 4,
        all_near(quad, 14),
        1 <= pw <= MODERATE,
        1 <= ph <= MODERATE,
        !crate::ocr::text::geometry::shortest_side(quad).below(Single { bits: 0x4040_0000 }),
    ensures
        !crate::ocr::text::detection::closed(quad, pw, ph),
{
    assert forall|i: int| 0 <= i < quad.len() implies near(#[trigger] quad[i], 28) by {
        assert(near(quad[i], 14));
        lemma_within_more(quad[i].0, 14, 28);
        lemma_within_more(quad[i].1, 14, 28);
    }
    lemma_spans(quad, pw, ph);
    lemma_corners_apart(
        quad,
        crate::ocr::text::detection::columns(quad, pw).0,
        crate::ocr::text::detection::rows(quad, ph).0,
    );
}

/// A quadrilateral near the map can be drawn, unless its first corner falls on its last.
pub proof fn lemma_scorable(quad: Seq<Point>, pw: int, ph: int)
    requires
        quad.len() == 4,
        all_near(quad, 28),
        1 <= pw <= 0x100_0000,
        1 <= ph <= 0x100_0000,
    ensures
        crate::ocr::text::detection::scorable(quad, pw, ph)
            <==> !crate::ocr::text::detection::closed(quad, pw, ph),
{
    lemma_spans(quad, pw, ph);
    let x0: int = crate::ocr::text::detection::columns(quad, pw).0;
    let y0: int = crate::ocr::text::detection::rows(quad, ph).0;
    let corners: Seq<(i32, i32)> = crate::ocr::text::detection::corners(quad, pw, ph);
    assert forall|i: int| 0 <= i < corners.len() implies -0x2000_0000 <= (
    #[trigger] corners[i]).0 <= 0x2000_0000 && -0x2000_0000 <= corners[i].1 <= 0x2000_0000 by {
        assert(near(quad[i], 28));
        lemma_corner_near(quad[i].0, x0);
        lemma_corner_near(quad[i].1, y0);
    }
    assert(crate::raster::followable(corners[3], corners[0]));
    assert forall|i: int, j: int|
        0 <= i < corners.len() && j == i + 1 && j < corners.len() implies crate::raster::followable(
        #[trigger] corners[i],
        #[trigger] corners[j],
    ) by {
    }
}

/// The points lie on a mask with a frame of one pixel around a map.
pub open spec fn on_mask(border: Seq<(i32, i32)>, pw: int, ph: int) -> bool {
    forall|i: int|
        0 <= i < border.len() ==> 0 <= (#[trigger] border[i]).0 < pw + 2 && 0 <= border[i].1 < ph
            + 2
}

/// The rectangle around a border of a map can be drawn on it, unless its first corner falls
/// on its last.
pub proof fn lemma_border_scorable(border: Seq<(i32, i32)>, pw: int, ph: int)
    requires
        1 <= pw <= 0x100_0000,
        1 <= ph <= 0x100_0000,
        on_mask(border, pw, ph),
        border.len() <= usize::MAX,
    ensures
        ({
            let quad = crate::ocr::text::geometry::quad_around(
                crate::ocr::text::geometry::hull_of(
                    crate::ocr::text::detection::map_points(border),
                ),
            );
            crate::ocr::text::detection::scorable(quad, pw, ph)
                <==> !crate::ocr::text::detection::closed(quad, pw, ph)
        }),
{
    let points: Seq<Point> = crate::ocr::text::detection::map_points(border);
    assert forall|i: int| 0 <= i < points.len() implies near(#[trigger] points[i], 26) by {
        let p: (i32, i32) = border[i];
        lemma_any_coordinate(p.0 as int);
        lemma_any_coordinate(p.1 as int);
    }
    lemma_rectangle_near(points, 26);
    lemma_scorable(
        crate::ocr::text::geometry::quad_around(crate::ocr::text::geometry::hull_of(points)),
        pw,
        ph,
    );
}

proof fn lemma_any_coordinate(n: int)
    requires
        0 <= n <= 0x100_0001,
    ensures
        within(
            Single::difference(Single::whole(n), Single { bits: crate::single::ONE }),
            26,
        ),
{
    reveal(Single::whole);
    let one: Single = Single { bits: crate::single::ONE };
    let u: nat = crate::single::unit();
    lemma_pow2_pos(149);
    lemma2_to64();
    lemma_pow2_adds(25, 149);
    crate::bounds::lemma_one();
    assert(0 <= n * u <= 0x200_0000 * u) by (nonlinear_arith)
        requires
            0 <= n <= 0x200_0000,
    ;
    lemma_rounds_within((n * u) as nat, 1, 25);
    crate::bounds::lemma_rounded(n < 0, (n * u) as nat, 1);
    assert(within(one, 25));
    lemma_difference_within(Single::whole(n), one, 25);
}

/// No border of a moderate map makes a rectangle that cannot be drawn.
pub proof fn lemma_candidate_drawn(
    settings: crate::ocr::text::detection::TextDetector,
    ow: u32,
    oh: u32,
    pw: int,
    ph: int,
    pred: Seq<Single>,
    border: Seq<(i32, i32)>,
)
    requires
        settings.min_box_size.bits == crate::ocr::text::detection::MIN_BOX_SIZE,
        1 <= pw <= MODERATE,
        1 <= ph <= MODERATE,
        on_mask(border, pw, ph),
        border.len() <= usize::MAX,
    ensures
        crate::ocr::text::detection::candidate_of(settings, ow, oh, pw, ph, pred, border) is Ok,
{
    reveal(crate::ocr::text::detection::candidate_of);
    let points: Seq<Point> = crate::ocr::text::detection::map_points(border);
    assert forall|i: int| 0 <= i < points.len() implies near(#[trigger] points[i], 12) by {
        let p: (i32, i32) = border[i];
        lemma_map_coordinate(p.0 as int);
        lemma_map_coordinate(p.1 as int);
    }
    lemma_rectangle_near(points, 12);
    let quad: Seq<Point> = crate::ocr::text::geometry::quad_around(
        crate::ocr::text::geometry::hull_of(points),
    );
    if !crate::ocr::text::geometry::shortest_side(quad).below(settings.min_box_size) {
        lemma_open(quad, pw, ph);
    }
}

proof fn lemma_map_coordinate(n: int)
    requires
        0 <= n <= MODERATE + 1,
    ensures
        within(
            Single::difference(Single::whole(n), Single { bits: crate::single::ONE }),
            12,
        ),
{
    let one: Single = Single { bits: crate::single::ONE };
    let u: int = crate::single::unit() as int;
    lemma_pow2_pos(149);
    lemma2_to64();
    lemma_pow2_adds(12, 149);
    crate::bounds::lemma_one();
    crate::bounds::lemma_whole(n);
    assert(1 * u == u);
    crate::bounds::lemma_exact_difference(Single::whole(n), one, n, 1);
    let c: int = n - 1;
    assert(-4096 * u <= c * u <= 4096 * u) by (nonlinear_arith)
        requires
            -4096 <= c <= 4096,
            u > 0,
    ;
}

/// No border of a moderate map stops its lines from being found.
pub proof fn lemma_lines_found(
    settings: crate::ocr::text::detection::TextDetector,
    ow: u32,
    oh: u32,
    pw: int,
    ph: int,
    pred: Seq<Single>,
    borders: Seq<Seq<(i32, i32)>>,
    n: nat,
)
    requires
        settings.min_box_size.bits == crate::ocr::text::detection::MIN_BOX_SIZE,
        1 <= pw <= MODERATE,
        1 <= ph <= MODERATE,
        n <= borders.len(),
        forall|i: int|
            0 <= i < borders.len() ==> on_mask(#[trigger] borders[i], pw, ph) && borders[i].len()
                <= usize::MAX,
    ensures
        crate::ocr::text::detection::found_lines(settings, ow, oh, pw, ph, pred, borders, n)
            is Some,
    decreases n,
{
    if n > 0 {
        lemma_lines_found(settings, ow, oh, pw, ph, pred, borders, (n - 1) as nat);
        assert(on_mask(borders[n - 1], pw, ph));
        lemma_candidate_drawn(settings, ow, oh, pw, ph, pred, borders[n - 1]);
    }
}

} // verus!
