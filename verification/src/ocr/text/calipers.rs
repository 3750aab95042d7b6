//! The smallest rectangle around places on a grid lies along an edge of their hull.
//!
//! Turn any rectangle to the left and to the right, keeping it tight, until a side meets an
//! edge of the hull. In between it touches the same four corners, so that its sides are linear
//! in its direction, and it is no smaller than the smaller of the two it is turned to.
use crate::ocr::text::cells::{step_to, wedge_of, wrapped, Cell};
use crate::ocr::text::geometry::Point;
use crate::ocr::text::rectangle::{dot, encircled};
use vstd::prelude::*;

verus! {

/// The direction turned left by a quarter.
pub open spec fn quarter(d: Cell) -> Cell {
    (-d.1, d.0)
}

/// The other way.
pub open spec fn opposite(d: Cell) -> Cell {
    (-d.0, -d.1)
}

/// How far the farthest of the places lies along a direction, in multiples of its length.
pub open spec fn farthest(places: Seq<Cell>, d: Cell) -> int
    decreases places.len(),
{
    if places.len() <= 1 {
        dot(d, places.last())
    } else {
        let rest = farthest(places.drop_last(), d);
        let last = dot(d, places.last());
        if rest < last {
            last
        } else {
            rest
        }
    }
}

/// How far the places extend along a direction, in multiples of its length.
pub open spec fn extent(places: Seq<Cell>, d: Cell) -> int {
    farthest(places, d) + farthest(places, opposite(d))
}

/// The area of the tight rectangle around the places with a side along a direction, in
/// multiples of the square of its length.
pub open spec fn area_along(places: Seq<Cell>, d: Cell) -> int {
    extent(places, d) * extent(places, quarter(d))
}

/// The tight rectangle around the places along `a` is no larger than the one along `b`.
pub open spec fn no_larger(places: Seq<Cell>, a: Cell, b: Cell) -> bool {
    area_along(places, a) * dot(b, b) <= area_along(places, b) * dot(a, a)
}

/// The edge from corner `i` to the next.
pub open spec fn edge_of(hull: Seq<Cell>, i: int) -> Cell {
    step_to(hull[i], hull[wrapped(i + 1, hull.len() as int)])
}

/// The corners encircle all of them.
pub open spec fn convex(hull: Seq<Cell>) -> bool {
    &&& hull.len() >= 3
    &&& forall|k: int| 0 <= k < hull.len() ==> encircled(hull, #[trigger] hull[k])
}

/// No place lies farther along a direction than the one at `i`.
pub open spec fn is_farthest(places: Seq<Cell>, d: Cell, i: int) -> bool {
    &&& 0 <= i < places.len()
    &&& forall|j: int| 0 <= j < places.len() ==> dot(d, #[trigger] places[j]) <= dot(d, places[i])
}

proof fn lemma_farthest_is(places: Seq<Cell>, d: Cell, i: int)
    requires
        is_farthest(places, d, i),
    ensures
        farthest(places, d) == dot(d, places[i]),
    decreases places.len(),
{
    let n: int = places.len() - 1;
    if n > 0 {
        let rest: Seq<Cell> = places.drop_last();
        let r: int = crate::ocr::text::rectangle::lemma_farthest(rest, d);
        assert(is_farthest(rest, d, r));
        lemma_farthest_is(rest, d, r);
        assert(dot(d, places[r]) <= dot(d, places[i]));
        assert(dot(d, places[n]) <= dot(d, places[i]));
        if i < n {
            assert(dot(d, rest[i]) <= dot(d, rest[r]));
        }
    }
}

/// The extent lies between the farthest places.
pub proof fn lemma_extent_is(places: Seq<Cell>, d: Cell, i: int, j: int)
    requires
        is_farthest(places, d, i),
        is_farthest(places, opposite(d), j),
    ensures
        extent(places, d) == dot(d, step_to(places[j], places[i])),
        extent(places, d) >= 0,
{
    lemma_farthest_is(places, d, i);
    lemma_farthest_is(places, opposite(d), j);
    crate::ocr::text::rectangle::lemma_dot_down(d, places[j]);
    crate::ocr::text::rectangle::lemma_dot_step(d, places[j], places[i]);
    assert(dot(d, places[j]) <= dot(d, places[i]));
}

/// A quarter turn keeps a tight rectangle and the length of its direction.
proof fn lemma_quarter(places: Seq<Cell>, d: Cell)
    ensures
        area_along(places, quarter(d)) == area_along(places, d),
        dot(quarter(d), quarter(d)) == dot(d, d),
        quarter(opposite(d)) == opposite(quarter(d)),
        opposite(opposite(d)) == d,
        quarter(quarter(d)) == opposite(d),
{
    let (x, y): (int, int) = (d.0, d.1);
    assert((-y) * (-y) + x * x == x * x + y * y) by (nonlinear_arith);
    let (a, b): (int, int) = (extent(places, d), extent(places, quarter(d)));
    assert(extent(places, opposite(d)) == a);
    assert(a * b == b * a) by (nonlinear_arith);
}

/// What lies along and to the left of a direction tells lengths and turns.
proof fn lemma_frame(d: Cell, u: Cell, v: Cell)
    ensures
        dot(d, d) * dot(u, v) == dot(d, u) * dot(d, v) + wedge_of(d, u) * wedge_of(d, v),
        dot(d, d) * wedge_of(u, v) == dot(d, u) * wedge_of(d, v) - wedge_of(d, u) * dot(d, v),
{
    let (a, b): (int, int) = (d.0, d.1);
    let (p, q, r, s): (int, int, int, int) = (u.0, u.1, v.0, v.1);
    let (aa, bb): (int, int) = (a * a, b * b);
    let (ap, aq, ar, as_): (int, int, int, int) = (a * p, a * q, a * r, a * s);
    let (bp, bq, br, bs): (int, int, int, int) = (b * p, b * q, b * r, b * s);
    let (pr, ps, qr, qs): (int, int, int, int) = (p * r, p * s, q * r, q * s);
    lemma_sums(aa, bb, pr, qs);
    lemma_sums(ap, bq, ar, bs);
    lemma_sums(aq, -bp, as_, -br);
    lemma_sums(aa, bb, ps, -qr);
    lemma_sums(ap, bq, as_, -br);
    lemma_sums(aq, -bp, ar, bs);
    lemma_signs(aq, br);
    lemma_signs(bp, as_);
    lemma_signs(bp, br);
    lemma_signs(aa, qr);
    lemma_signs(bb, qr);
    lemma_signs(ap, br);
    lemma_signs(bq, br);
    lemma_signs(bp, ar);
    lemma_signs(bp, bs);
    lemma_regrouped(a, p, a, r);
    lemma_regrouped(b, q, b, s);
    lemma_regrouped(a, q, a, s);
    lemma_regrouped(b, p, b, r);
    lemma_regrouped(a, p, b, s);
    lemma_regrouped(b, q, a, r);
    lemma_regrouped(a, p, a, s);
    lemma_regrouped(b, q, b, r);
    lemma_regrouped(a, q, a, r);
    lemma_regrouped(b, p, b, s);
    lemma_regrouped(a, p, b, r);
    lemma_regrouped(b, q, a, s);
}

proof fn lemma_sums(a: int, b: int, c: int, d: int)
    ensures
        (a + b) * (c + d) == a * c + a * d + b * c + b * d,
{
    assert((a + b) * (c + d) == a * c + a * d + b * c + b * d) by (nonlinear_arith);
}

proof fn lemma_signs(a: int, b: int)
    ensures
        a * (-b) == -(a * b),
        (-a) * b == -(a * b),
        (-a) * (-b) == a * b,
{
    assert(a * (-b) == -(a * b) && (-a) * b == -(a * b) && (-a) * (-b) == a * b)
        by (nonlinear_arith);
}

proof fn lemma_regrouped(a: int, b: int, c: int, d: int)
    ensures
        (a * b) * (c * d) == (a * c) * (b * d),
        (a * b) * (c * d) == (c * b) * (a * d),
{
    assert((a * b) * (c * d) == (a * c) * (b * d)) by (nonlinear_arith);
    assert((a * b) * (c * d) == (c * b) * (a * d)) by (nonlinear_arith);
}

/// The step turned by quarters until it goes along a direction, or to its left by less than a
/// quarter.
pub open spec fn ahead(d: Cell, v: Cell) -> Cell {
    let (x, y) = (dot(d, v), wedge_of(d, v));
    if x > 0 && y >= 0 {
        v
    } else if x <= 0 && y > 0 {
        opposite(quarter(v))
    } else if x < 0 && y <= 0 {
        opposite(v)
    } else {
        quarter(v)
    }
}

/// How quarters and the other way are measured along a direction and to its left.
proof fn lemma_turned(d: Cell, v: Cell)
    ensures
        dot(d, quarter(v)) == -wedge_of(d, v),
        wedge_of(d, quarter(v)) == dot(d, v),
        dot(d, opposite(v)) == -dot(d, v),
        wedge_of(d, opposite(v)) == -wedge_of(d, v),
        dot(quarter(d), v) == wedge_of(d, v),
        dot(opposite(d), v) == -dot(d, v),
        wedge_of(v, d) == -wedge_of(d, v),
        dot(v, d) == dot(d, v),
{
    let (a, b, x, y): (int, int, int, int) = (d.0, d.1, v.0, v.1);
    assert(a * (-y) + b * x == -(a * y - b * x) && a * x - b * (-y) == a * x + b * y && a * (-x) + b
        * (-y) == -(a * x + b * y) && a * (-y) - b * (-x) == -(a * y - b * x) && (-b) * x + a * y
        == a * y - b * x && (-a) * x + (-b) * y == -(a * x + b * y) && x * b - y * a == -(a * y - b
        * x) && x * a + y * b == a * x + b * y) by (nonlinear_arith);
}

/// A step that is not none is ahead after some quarters.
proof fn lemma_ahead(d: Cell, v: Cell)
    requires
        dot(d, d) > 0,
        dot(v, v) > 0,
    ensures
        dot(d, ahead(d, v)) > 0,
        wedge_of(d, ahead(d, v)) >= 0,
        ahead(d, quarter(v)) == ahead(d, v),
        ahead(d, opposite(v)) == ahead(d, v),
{
    let (x, y): (int, int) = (dot(d, v), wedge_of(d, v));
    lemma_frame(d, v, v);
    lemma_turned(d, v);
    lemma_turned(d, quarter(v));
    let (l, m): (int, int) = (dot(d, d), dot(v, v));
    assert(l * m > 0) by (nonlinear_arith)
        requires
            l > 0,
            m > 0,
    ;
    assert(x != 0 || y != 0) by (nonlinear_arith)
        requires
            x * x + y * y > 0,
    ;
    assert(opposite(opposite(v)) == v && quarter(quarter(v)) == opposite(v));
    assert(quarter(opposite(v)) == opposite(quarter(v)));
    assert(opposite(quarter(quarter(v))) == v);
}

/// What is ahead of the first is ahead of the last, where all are turned by less than a
/// quarter from a direction.
proof fn lemma_ahead_orders(d: Cell, a: Cell, b: Cell, c: Cell)
    requires
        dot(d, d) > 0,
        dot(d, a) > 0,
        dot(d, b) > 0,
        dot(d, c) > 0,
        wedge_of(a, b) >= 0,
        wedge_of(b, c) >= 0,
    ensures
        wedge_of(a, c) >= 0,
{
    lemma_frame(d, a, b);
    lemma_frame(d, b, c);
    lemma_frame(d, a, c);
    let l: int = dot(d, d);
    let (xa, xb, xc): (int, int, int) = (dot(d, a), dot(d, b), dot(d, c));
    let (ya, yb, yc): (int, int, int) = (wedge_of(d, a), wedge_of(d, b), wedge_of(d, c));
    let (ab, bc, ac): (int, int, int) = (
        xa * yb - ya * xb,
        xb * yc - yb * xc,
        xa * yc - ya * xc,
    );
    lemma_positive(l, wedge_of(a, b));
    lemma_positive(l, wedge_of(b, c));
    assert(xb * ac == xa * bc + xc * ab) by (nonlinear_arith)
        requires
            ab == xa * yb - ya * xb,
            bc == xb * yc - yb * xc,
            ac == xa * yc - ya * xc,
    ;
    assert(xa * bc >= 0 && xc * ab >= 0) by (nonlinear_arith)
        requires
            xa > 0,
            xc > 0,
            bc >= 0,
            ab >= 0,
    ;
    assert(ac >= 0) by (nonlinear_arith)
        requires
            xb * ac >= 0,
            xb > 0,
    ;
    lemma_positive(l, wedge_of(a, c));
}

/// A positive factor keeps the sign.
proof fn lemma_positive(l: int, x: int)
    requires
        l > 0,
    ensures
        l * x > 0 <==> x > 0,
        l * x < 0 <==> x < 0,
{
    assert((x > 0 ==> l * x > 0) && (x < 0 ==> l * x < 0) && (x == 0 ==> l * x == 0))
        by (nonlinear_arith)
        requires
            l > 0,
    ;
}

/// The edge that is ahead of none of the first `n`, and the one that none of them is ahead of.
proof fn lemma_outermost(hull: Seq<Cell>, d: Cell, n: nat) -> (r: (int, int))
    requires
        dot(d, d) > 0,
        1 <= n <= hull.len(),
        forall|i: int|
            0 <= i < hull.len() ==> dot(#[trigger] edge_of(hull, i), edge_of(hull, i)) > 0,
    ensures
        0 <= r.0 < n,
        0 <= r.1 < n,
        forall|i: int|
            0 <= i < n ==> wedge_of(
                ahead(d, edge_of(hull, r.0)),
                ahead(d, #[trigger] edge_of(hull, i)),
            ) >= 0 && wedge_of(ahead(d, edge_of(hull, i)), ahead(d, edge_of(hull, r.1))) >= 0,
    decreases n,
{
    let v: Cell = ahead(d, edge_of(hull, n - 1));
    lemma_ahead(d, edge_of(hull, n - 1));
    lemma_turned(v, v);
    assert(wedge_of(v, v) == 0);
    if n == 1 {
        (0, 0)
    } else {
        let before: (int, int) = lemma_outermost(hull, d, (n - 1) as nat);
        let (a, b): (Cell, Cell) = (
            ahead(d, edge_of(hull, before.0)),
            ahead(d, edge_of(hull, before.1)),
        );
        lemma_ahead(d, edge_of(hull, before.0));
        lemma_ahead(d, edge_of(hull, before.1));
        lemma_turned(a, v);
        lemma_turned(v, b);
        let r: (int, int) = (
            if wedge_of(a, v) >= 0 {
                before.0
            } else {
                n - 1
            },
            if wedge_of(v, b) >= 0 {
                before.1
            } else {
                n - 1
            },
        );
        assert forall|i: int| 0 <= i < n implies wedge_of(
            ahead(d, edge_of(hull, r.0)),
            ahead(d, #[trigger] edge_of(hull, i)),
        ) >= 0 && wedge_of(ahead(d, edge_of(hull, i)), ahead(d, edge_of(hull, r.1))) >= 0 by {
            let w: Cell = ahead(d, edge_of(hull, i));
            lemma_ahead(d, edge_of(hull, i));
            if i < n - 1 {
                if r.0 == n - 1 {
                    lemma_ahead_orders(d, v, a, w);
                }
                if r.1 == n - 1 {
                    lemma_ahead_orders(d, w, b, v);
                }
            }
        }
        r
    }
}

/// The step does not go back along one direction where it goes on along the other.
spec fn agree(f: Cell, g: Cell, v: Cell) -> bool {
    &&& dot(f, v) <= 0 ==> dot(g, v) <= 0
    &&& dot(f, v) >= 0 ==> dot(g, v) >= 0
}

/// Turned to the left no farther than to the first edge, a direction agrees with it.
proof fn lemma_agrees_left(d: Cell, t: Cell, v: Cell)
    requires
        dot(d, d) > 0,
        dot(d, t) > 0,
        wedge_of(d, t) >= 0,
        wedge_of(t, ahead(d, v)) >= 0,
    ensures
        agree(d, t, v),
{
    let l: int = dot(d, d);
    let (x, y): (int, int) = (dot(d, v), wedge_of(d, v));
    let (p, q): (int, int) = (dot(d, t), wedge_of(d, t));
    lemma_frame(d, t, v);
    lemma_frame(d, t, ahead(d, v));
    lemma_turned(d, v);
    lemma_turned(d, quarter(v));
    lemma_positive(l, dot(t, v));
    lemma_positive(l, wedge_of(t, ahead(d, v)));
    assert((x <= 0 && y <= 0 ==> p * x + q * y <= 0) && (x >= 0 && y >= 0 ==> p * x + q * y >= 0))
        by (nonlinear_arith)
        requires
            p > 0,
            q >= 0,
    ;
    if x <= 0 && y > 0 {
        assert(p * (-x) - q * y >= 0);
        lemma_signs(p, x);
    } else if x >= 0 && y < 0 {
        assert(p * x - q * (-y) >= 0);
        lemma_signs(q, y);
    }
}

/// Turned to the right no farther than to the first edge, a direction agrees with it, where no
/// edge lies along it or across.
proof fn lemma_agrees_right(d: Cell, m: Cell, v: Cell)
    requires
        dot(d, d) > 0,
        dot(d, m) > 0,
        wedge_of(d, m) >= 0,
        wedge_of(ahead(d, v), m) >= 0,
        wedge_of(d, ahead(d, v)) > 0,
    ensures
        agree(d, opposite(quarter(m)), v),
{
    let l: int = dot(d, d);
    let (x, y): (int, int) = (dot(d, v), wedge_of(d, v));
    let (p, q): (int, int) = (dot(d, m), wedge_of(d, m));
    lemma_turned(quarter(m), v);
    lemma_turned(m, v);
    assert(dot(opposite(quarter(m)), v) == wedge_of(v, m));
    lemma_frame(d, v, m);
    lemma_frame(d, ahead(d, v), m);
    lemma_turned(d, v);
    lemma_turned(d, quarter(v));
    lemma_positive(l, wedge_of(v, m));
    lemma_positive(l, wedge_of(ahead(d, v), m));
    assert((x <= 0 && y >= 0 ==> x * q - y * p <= 0) && (x >= 0 && y <= 0 ==> x * q - y * p >= 0))
        by (nonlinear_arith)
        requires
            p > 0,
            q >= 0,
    ;
    lemma_signs(x, q);
    lemma_signs(y, p);
}

/// The corner that is farthest along one direction is so along another that agrees with it.
proof fn lemma_stays(hull: Seq<Cell>, f: Cell, g: Cell, i: int)
    requires
        convex(hull),
        is_farthest(hull, f, i),
        forall|j: int| 0 <= j < hull.len() ==> agree(f, g, #[trigger] edge_of(hull, j)),
    ensures
        is_farthest(hull, g, i),
{
    let n: int = hull.len() as int;
    let before: int = if i == 0 {
        n - 1
    } else {
        i - 1
    };
    let (o, prev): (Cell, Cell) = (hull[i], hull[before]);
    let next: Cell = hull[wrapped(i + 1, n)];
    assert(edge_of(hull, i) == step_to(o, next));
    assert(edge_of(hull, before) == step_to(prev, o));
    crate::ocr::text::rectangle::lemma_dot_step(f, o, next);
    crate::ocr::text::rectangle::lemma_dot_step(g, o, next);
    crate::ocr::text::rectangle::lemma_dot_step(f, prev, o);
    crate::ocr::text::rectangle::lemma_dot_step(g, prev, o);
    assert(dot(f, next) <= dot(f, o) && dot(f, prev) <= dot(f, o));
    assert(agree(f, g, edge_of(hull, i)) && agree(f, g, edge_of(hull, before)));
    assert forall|k: int| 0 <= k < n implies dot(g, #[trigger] hull[k]) <= dot(g, hull[i]) by {
        let q: Cell = hull[k];
        assert(encircled(hull, hull[k]));
        assert(crate::ocr::text::cells::side_keeps(hull, i, q));
        assert(crate::ocr::text::cells::side_keeps(hull, before, q));
        assert(crate::ocr::text::cells::corner_bends(hull, before));
        crate::ocr::text::cells::lemma_turn_steps(prev, o, next);
        crate::ocr::text::cells::lemma_turn_steps(prev, o, q);
        crate::ocr::text::rectangle::lemma_wedge(g, o, next, prev, q);
    }
}

/// The corners that a tight rectangle touches: those farthest along its direction, the other
/// way, to the left, and to the right.
spec fn touches(hull: Seq<Cell>, d: Cell, a: int, b: int, c: int, e: int) -> bool {
    &&& is_farthest(hull, d, a)
    &&& is_farthest(hull, opposite(d), b)
    &&& is_farthest(hull, quarter(d), c)
    &&& is_farthest(hull, opposite(quarter(d)), e)
}

/// All edges and their quarter turns agree on two directions.
spec fn all_agree(hull: Seq<Cell>, d: Cell, g: Cell) -> bool {
    forall|j: int|
        0 <= j < hull.len() ==> agree(d, g, #[trigger] edge_of(hull, j)) && agree(
            d,
            g,
            opposite(quarter(edge_of(hull, j))),
        )
}

/// A tight rectangle touches the same corners along a direction that agrees with its own.
proof fn lemma_touches(hull: Seq<Cell>, d: Cell, g: Cell, a: int, b: int, c: int, e: int)
    requires
        convex(hull),
        touches(hull, d, a, b, c, e),
        all_agree(hull, d, g),
    ensures
        touches(hull, g, a, b, c, e),
{
    assert forall|j: int| 0 <= j < hull.len() implies agree(
        opposite(d),
        opposite(g),
        #[trigger] edge_of(hull, j),
    ) && agree(quarter(d), quarter(g), edge_of(hull, j)) && agree(
        opposite(quarter(d)),
        opposite(quarter(g)),
        edge_of(hull, j),
    ) by {
        let v: Cell = edge_of(hull, j);
        assert(agree(d, g, v) && agree(d, g, opposite(quarter(v))));
        lemma_turned(d, v);
        lemma_turned(g, v);
        lemma_turned(d, quarter(v));
        lemma_turned(g, quarter(v));
        lemma_turned(quarter(d), v);
        lemma_turned(quarter(g), v);
    }
    lemma_stays(hull, d, g, a);
    lemma_stays(hull, opposite(d), opposite(g), b);
    lemma_stays(hull, quarter(d), quarter(g), c);
    lemma_stays(hull, opposite(quarter(d)), opposite(quarter(g)), e);
}

/// The square of a product of lengths is at least that of how far one lies along the other.
proof fn lemma_at_most_lengths(s: Cell, t: Cell)
    ensures
        dot(s, t) * dot(s, t) <= dot(s, s) * dot(t, t),
{
    lemma_frame(s, t, t);
    let w: int = wedge_of(s, t);
    assert(w * w >= 0) by (nonlinear_arith);
}

/// Two numbers add up to more than twice a third, where their product exceeds its square.
proof fn lemma_mean(x: int, y: int, r: int)
    requires
        x >= 0,
        y >= 0,
        r >= 0,
        x * y > r * r,
    ensures
        x + y > 2 * r,
{
    let z: int = x + y;
    assert(z * z >= 4 * (x * y)) by (nonlinear_arith)
        requires
            z == x + y,
    ;
    assert(z > 2 * r) by (nonlinear_arith)
        requires
            z * z > 4 * (r * r),
            z >= 0,
            r >= 0,
    ;
}

/// Two sides that are mixtures of the sides at two ends span no less than the smaller of the
/// ends does, measured by the squared length of the direction, which is mixed alike.
///
/// At the ends the sides are `a1`, `a2` and `b1`, `b2`, the squared lengths `s` and `t`; the
/// ends lie `r` along each other. Mixed by `l` and `m` they make `c` times the sides `d1`, `d2`,
/// and `c` squared times the squared length `q`.
proof fn lemma_between(
    a1: int,
    a2: int,
    b1: int,
    b2: int,
    s: int,
    t: int,
    r: int,
    l: int,
    m: int,
    c: int,
    d1: int,
    d2: int,
    q: int,
)
    requires
        a1 >= 0,
        a2 >= 0,
        b1 >= 0,
        b2 >= 0,
        s > 0,
        t > 0,
        r >= 0,
        r * r <= s * t,
        l >= 0,
        m > 0,
        c > 0,
        d1 >= 0,
        d2 >= 0,
        q > 0,
        c * d1 == l * a1 + m * b1,
        c * d2 == l * a2 + m * b2,
        (c * c) * q == (l * l) * s + 2 * ((l * m) * r) + (m * m) * t,
    ensures
        (a1 * a2) * q <= (d1 * d2) * s || (b1 * b2) * q <= (d1 * d2) * t,
{
    let (pa, pb, pd): (int, int, int) = (a1 * a2, b1 * b2, d1 * d2);
    let (ea, eb): (int, int) = (pa * q, pb * q);
    let (xs, xt): (int, int) = (pd * s, pd * t);
    assert(pd >= 0 && pa >= 0 && pb >= 0) by (nonlinear_arith)
        requires
            pd == d1 * d2,
            pa == a1 * a2,
            pb == b1 * b2,
            d1 >= 0,
            d2 >= 0,
            a1 >= 0,
            a2 >= 0,
            b1 >= 0,
            b2 >= 0,
    ;
    if ea > xs && eb > xt {
        let (u, v): (int, int) = (a1 * b2, b1 * a2);
        assert(u >= 0 && v >= 0) by (nonlinear_arith)
            requires
                u == a1 * b2,
                v == b1 * a2,
                a1 >= 0,
                a2 >= 0,
                b1 >= 0,
                b2 >= 0,
        ;
        let (uq, vq): (int, int) = (u * q, v * q);
        assert(uq >= 0 && vq >= 0) by (nonlinear_arith)
            requires
                uq == u * q,
                vq == v * q,
                u >= 0,
                v >= 0,
                q > 0,
        ;
        // the product of the mixed parts is that of the ends
        assert(u * v == pa * pb) by {
            lemma_regrouped(a1, b2, b1, a2);
            lemma_regrouped(a1, a2, b1, b2);
            assert((a1 * b1) * (b2 * a2) == (a1 * b1) * (a2 * b2)) by (nonlinear_arith);
        }
        assert(uq * vq == ea * eb) by {
            lemma_regrouped(u, q, v, q);
            lemma_regrouped(pa, q, pb, q);
        }
        let dr: int = pd * r;
        assert(dr >= 0 && xs >= 0 && xt >= 0) by (nonlinear_arith)
            requires
                dr == pd * r,
                xs == pd * s,
                xt == pd * t,
                pd >= 0,
                r >= 0,
                s > 0,
                t > 0,
        ;
        assert(ea * eb > xs * xt) by (nonlinear_arith)
            requires
                ea > xs,
                eb > xt,
                xs >= 0,
                xt >= 0,
        ;
        assert(xs * xt >= dr * dr) by {
            lemma_regrouped(pd, s, pd, t);
            lemma_regrouped(pd, r, pd, r);
            let (dd, st, rr): (int, int, int) = (pd * pd, s * t, r * r);
            assert(dd * st >= dd * rr) by (nonlinear_arith)
                requires
                    dd == pd * pd,
                    st >= rr,
            ;
        }
        lemma_mean(uq, vq, dr);
        // the mixture exceeds itself
        let (ll, mm, lm): (int, int, int) = (l * l, m * m, l * m);
        lemma_mixture(a1, a2, b1, b2, l, m, c, d1, d2, q);
        lemma_mixed_length(pd, s, t, r, ll, mm, lm, (c * c) * q);
        assert(ll * ea >= ll * xs && mm * eb > mm * xt && lm * (uq + vq) >= lm * (2 * dr))
            by (nonlinear_arith)
            requires
                ea > xs,
                eb > xt,
                uq + vq > 2 * dr,
                ll == l * l,
                mm == m * m,
                lm == l * m,
                l >= 0,
                m > 0,
        ;
        assert(false);
    }
}

/// The sides mixed, times the squared length.
proof fn lemma_mixture(
    a1: int,
    a2: int,
    b1: int,
    b2: int,
    l: int,
    m: int,
    c: int,
    d1: int,
    d2: int,
    q: int,
)
    requires
        c * d1 == l * a1 + m * b1,
        c * d2 == l * a2 + m * b2,
    ensures
        (d1 * d2) * ((c * c) * q) == (l * l) * ((a1 * a2) * q) + (m * m) * ((b1 * b2) * q) + (l * m)
            * ((a1 * b2) * q + (b1 * a2) * q),
{
    lemma_regrouped(c, d1, c, d2);
    lemma_sums(l * a1, m * b1, l * a2, m * b2);
    lemma_regrouped(l, a1, l, a2);
    lemma_regrouped(m, b1, m, b2);
    lemma_regrouped(l, a1, m, b2);
    lemma_regrouped(m, b1, l, a2);
    let (cc, dd, ll, mm, lm): (int, int, int, int, int) = (c * c, d1 * d2, l * l, m * m, l * m);
    let (x, y, u, v): (int, int, int, int) = (a1 * a2, b1 * b2, a1 * b2, b1 * a2);
    assert(m * l == lm) by (nonlinear_arith)
        requires
            lm == l * m,
    ;
    assert(cc * dd == ll * x + lm * u + lm * v + mm * y);
    assert(dd * (cc * q) == (cc * dd) * q) by (nonlinear_arith);
    lemma_four(ll * x, lm * u, lm * v, mm * y, q);
    lemma_third(ll, x, q);
    lemma_third(lm, u, q);
    lemma_third(lm, v, q);
    lemma_third(mm, y, q);
    let (uq, vq): (int, int) = (u * q, v * q);
    assert(lm * (uq + vq) == lm * uq + lm * vq) by (nonlinear_arith);
}

/// The squared length mixed, times an area.
proof fn lemma_mixed_length(
    pd: int,
    s: int,
    t: int,
    r: int,
    ll: int,
    mm: int,
    lm: int,
    cq: int,
)
    requires
        cq == ll * s + 2 * (lm * r) + mm * t,
    ensures
        pd * cq == ll * (pd * s) + mm * (pd * t) + lm * (2 * (pd * r)),
{
    let (x, y, z, dr): (int, int, int, int) = (ll * s, lm * r, mm * t, pd * r);
    assert(pd * (x + 2 * y + z) == pd * x + 2 * (pd * y) + pd * z) by (nonlinear_arith);
    assert(pd * (ll * s) == ll * (pd * s)) by (nonlinear_arith);
    assert(pd * (lm * r) == lm * (pd * r)) by (nonlinear_arith);
    assert(pd * (mm * t) == mm * (pd * t)) by (nonlinear_arith);
    assert(lm * (2 * dr) == 2 * (lm * dr)) by (nonlinear_arith);
}

proof fn lemma_four(a: int, b: int, c: int, d: int, q: int)
    ensures
        (a + b + c + d) * q == a * q + b * q + c * q + d * q,
{
    assert((a + b + c + d) * q == a * q + b * q + c * q + d * q) by (nonlinear_arith);
}

proof fn lemma_third(a: int, b: int, c: int)
    ensures
        (a * b) * c == a * (b * c),
{
    assert((a * b) * c == a * (b * c)) by (nonlinear_arith);
}

/// How far a mixture of two directions reaches.
proof fn lemma_mixed_dot(c: int, l: int, m: int, d: Cell, s: Cell, t: Cell, v: Cell)
    requires
        c * d.0 == l * s.0 + m * t.0,
        c * d.1 == l * s.1 + m * t.1,
    ensures
        c * dot(d, v) == l * dot(s, v) + m * dot(t, v),
{
    lemma_scaled(c, d, v);
    lemma_scaled(l, s, v);
    lemma_scaled(m, t, v);
    let (x, y): (int, int) = (v.0, v.1);
    let (p, q, r): (int, int, int) = (c * d.0, l * s.0, m * t.0);
    assert(p * x == q * x + r * x) by (nonlinear_arith)
        requires
            p == q + r,
    ;
    let (p, q, r): (int, int, int) = (c * d.1, l * s.1, m * t.1);
    assert(p * y == q * y + r * y) by (nonlinear_arith)
        requires
            p == q + r,
    ;
}

proof fn lemma_scaled(c: int, d: Cell, v: Cell)
    ensures
        c * dot(d, v) == (c * d.0) * v.0 + (c * d.1) * v.1,
{
    let (a, b, x, y): (int, int, int, int) = (d.0, d.1, v.0, v.1);
    assert(c * (a * x + b * y) == (c * a) * x + (c * b) * y) by (nonlinear_arith);
}

/// The squared length of a mixture of two directions.
proof fn lemma_mixed_square(c: int, l: int, m: int, d: Cell, s: Cell, t: Cell)
    requires
        c * d.0 == l * s.0 + m * t.0,
        c * d.1 == l * s.1 + m * t.1,
    ensures
        (c * c) * dot(d, d) == (l * l) * dot(s, s) + 2 * ((l * m) * dot(s, t)) + (m * m) * dot(
            t,
            t,
        ),
{
    lemma_mixed_dot(c, l, m, d, s, t, d);
    lemma_mixed_dot(c, l, m, d, s, t, s);
    lemma_mixed_dot(c, l, m, d, s, t, t);
    lemma_turned(d, s);
    lemma_turned(d, t);
    lemma_turned(s, t);
    let (dd, ds, dt): (int, int, int) = (dot(d, d), dot(d, s), dot(d, t));
    let (ss, st, tt): (int, int, int) = (dot(s, s), dot(s, t), dot(t, t));
    lemma_third(c, c, dd);
    let (x, y): (int, int) = (l * ds, m * dt);
    assert(c * (x + y) == c * x + c * y) by (nonlinear_arith);
    assert(c * (l * ds) == l * (c * ds)) by (nonlinear_arith);
    assert(c * (m * dt) == m * (c * dt)) by (nonlinear_arith);
    let (p, q, r): (int, int, int) = (l * ss, m * st, l * st);
    let z: int = m * tt;
    assert(l * (p + q) == l * p + l * q) by (nonlinear_arith);
    assert(m * (r + z) == m * r + m * z) by (nonlinear_arith);
    lemma_third(l, l, ss);
    lemma_third(l, m, st);
    lemma_third(m, m, tt);
    assert(m * (l * st) == (l * m) * st) by (nonlinear_arith);
}

/// A tight rectangle that is turned to the left to `t` and to the right to `s` touching the
/// same corners is no smaller than one of the two it is turned to.
proof fn lemma_turning(hull: Seq<Cell>, s: Cell, d: Cell, t: Cell, c: int, l: int, m: int)
    requires
        convex(hull),
        all_agree(hull, d, s),
        all_agree(hull, d, t),
        dot(d, d) > 0,
        dot(s, s) > 0,
        dot(t, t) > 0,
        dot(s, t) >= 0,
        c > 0,
        l >= 0,
        m > 0,
        c * d.0 == l * s.0 + m * t.0,
        c * d.1 == l * s.1 + m * t.1,
    ensures
        no_larger(hull, s, d) || no_larger(hull, t, d),
{
    let a: int = crate::ocr::text::rectangle::lemma_farthest(hull, d);
    let b: int = crate::ocr::text::rectangle::lemma_farthest(hull, opposite(d));
    let e: int = crate::ocr::text::rectangle::lemma_farthest(hull, quarter(d));
    let f: int = crate::ocr::text::rectangle::lemma_farthest(hull, opposite(quarter(d)));
    assert(touches(hull, d, a, b, e, f));
    lemma_touches(hull, d, s, a, b, e, f);
    lemma_touches(hull, d, t, a, b, e, f);
    lemma_extent_is(hull, d, a, b);
    lemma_extent_is(hull, quarter(d), e, f);
    lemma_extent_is(hull, s, a, b);
    lemma_extent_is(hull, quarter(s), e, f);
    lemma_extent_is(hull, t, a, b);
    lemma_extent_is(hull, quarter(t), e, f);
    let (p, q): (Cell, Cell) = (step_to(hull[b], hull[a]), step_to(hull[f], hull[e]));
    lemma_mixed_dot(c, l, m, d, s, t, p);
    lemma_signs(c, d.1);
    lemma_signs(l, s.1);
    lemma_signs(m, t.1);
    lemma_mixed_dot(c, l, m, quarter(d), quarter(s), quarter(t), q);
    lemma_mixed_square(c, l, m, d, s, t);
    lemma_at_most_lengths(s, t);
    lemma_between(
        extent(hull, s),
        extent(hull, quarter(s)),
        extent(hull, t),
        extent(hull, quarter(t)),
        dot(s, s),
        dot(t, t),
        dot(s, t),
        l,
        m,
        c,
        extent(hull, d),
        extent(hull, quarter(d)),
        dot(d, d),
    );
}

/// Quarter turns and the other way keep a tight rectangle and the length of its direction.
proof fn lemma_turns_keep(places: Seq<Cell>, d: Cell)
    ensures
        area_along(places, quarter(d)) == area_along(places, d),
        area_along(places, opposite(d)) == area_along(places, d),
        area_along(places, opposite(quarter(d))) == area_along(places, d),
        dot(quarter(d), quarter(d)) == dot(d, d),
        dot(opposite(d), opposite(d)) == dot(d, d),
        dot(opposite(quarter(d)), opposite(quarter(d))) == dot(d, d),
{
    lemma_quarter(places, d);
    lemma_quarter(places, quarter(d));
    lemma_quarter(places, opposite(d));
}

/// The path round has a length at every edge.
pub proof fn lemma_edge_length(hull: Seq<Cell>, i: int)
    requires
        convex(hull),
        0 <= i < hull.len(),
    ensures
        dot(edge_of(hull, i), edge_of(hull, i)) > 0,
{
    reveal(crate::ocr::text::cells::turn_of);
    assert(encircled(hull, hull[0]));
    assert(crate::ocr::text::cells::corner_bends(hull, i));
    let v: Cell = edge_of(hull, i);
    let (x, y): (int, int) = (v.0, v.1);
    if x == 0 && y == 0 {
        let w: Cell = step_to(hull[i], hull[wrapped(i + 2, hull.len() as int)]);
        let (a, b): (int, int) = (w.0, w.1);
        assert(x * b - y * a == 0) by (nonlinear_arith)
            requires
                x == 0,
                y == 0,
        ;
    }
    assert(x * x + y * y > 0) by (nonlinear_arith)
        requires
            x != 0 || y != 0,
    ;
}

/// The first edge that a direction is turned to on its left agrees with it.
proof fn lemma_first_left(hull: Seq<Cell>, d: Cell, t: Cell)
    requires
        convex(hull),
        dot(d, d) > 0,
        dot(d, t) > 0,
        wedge_of(d, t) >= 0,
        forall|j: int|
            0 <= j < hull.len() ==> wedge_of(t, ahead(d, #[trigger] edge_of(hull, j))) >= 0,
    ensures
        all_agree(hull, d, t),
{
    assert forall|j: int| 0 <= j < hull.len() implies agree(d, t, #[trigger] edge_of(hull, j))
        && agree(d, t, opposite(quarter(edge_of(hull, j)))) by {
        let v: Cell = edge_of(hull, j);
        lemma_edge_length(hull, j);
        lemma_ahead(d, v);
        lemma_quarter(hull, v);
        lemma_ahead(d, quarter(v));
        assert(wedge_of(t, ahead(d, edge_of(hull, j))) >= 0);
        lemma_agrees_left(d, t, v);
        lemma_agrees_left(d, t, opposite(quarter(v)));
    }
}

/// The first edge that a direction is turned to on its right agrees with it, where no edge
/// lies along it or across.
proof fn lemma_first_right(hull: Seq<Cell>, d: Cell, m: Cell)
    requires
        convex(hull),
        dot(d, d) > 0,
        dot(d, m) > 0,
        wedge_of(d, m) >= 0,
        forall|j: int|
            0 <= j < hull.len() ==> wedge_of(ahead(d, #[trigger] edge_of(hull, j)), m) >= 0
                && wedge_of(d, ahead(d, edge_of(hull, j))) > 0,
    ensures
        all_agree(hull, d, opposite(quarter(m))),
{
    let s: Cell = opposite(quarter(m));
    assert forall|j: int| 0 <= j < hull.len() implies agree(d, s, #[trigger] edge_of(hull, j))
        && agree(d, s, opposite(quarter(edge_of(hull, j)))) by {
        let v: Cell = edge_of(hull, j);
        lemma_edge_length(hull, j);
        lemma_ahead(d, v);
        lemma_quarter(hull, v);
        lemma_ahead(d, quarter(v));
        assert(wedge_of(ahead(d, edge_of(hull, j)), m) >= 0);
        lemma_agrees_right(d, m, v);
        lemma_agrees_right(d, m, opposite(quarter(v)));
    }
}

/// Along any direction the tight rectangle around the corners of a hull is no smaller than the
/// one along some edge.
proof fn lemma_along_edge(hull: Seq<Cell>, d: Cell) -> (i: int)
    requires
        convex(hull),
        dot(d, d) > 0,
    ensures
        0 <= i < hull.len(),
        no_larger(hull, edge_of(hull, i), d),
{
    assert forall|i: int| 0 <= i < hull.len() implies dot(
        #[trigger] edge_of(hull, i),
        edge_of(hull, i),
    ) > 0 by {
        lemma_edge_length(hull, i);
    }
    let ends: (int, int) = lemma_outermost(hull, d, hull.len());
    let (v, w): (Cell, Cell) = (edge_of(hull, ends.0), edge_of(hull, ends.1));
    let (t, m): (Cell, Cell) = (ahead(d, v), ahead(d, w));
    lemma_ahead(d, v);
    lemma_ahead(d, w);
    lemma_turns_keep(hull, v);
    lemma_turns_keep(hull, w);
    lemma_turns_keep(hull, m);
    lemma_first_left(hull, d, t);
    if wedge_of(d, t) == 0 {
        // the direction is that of an edge, up to quarters
        lemma_along_itself(d, t);
        lemma_turning(hull, t, d, t, dot(d, t), 0, dot(d, d));
        ends.0
    } else {
        assert forall|j: int| 0 <= j < hull.len() implies wedge_of(
            ahead(d, #[trigger] edge_of(hull, j)),
            m,
        ) >= 0 && wedge_of(d, ahead(d, edge_of(hull, j))) > 0 by {
            let a: Cell = ahead(d, edge_of(hull, j));
            lemma_edge_length(hull, j);
            lemma_ahead(d, edge_of(hull, j));
            lemma_strictly_ahead(d, t, a);
        }
        lemma_first_right(hull, d, m);
        let s: Cell = opposite(quarter(m));
        lemma_sides(d, m, t);
        crate::ocr::text::cells::lemma_three_steps(s, d, t);
        lemma_turning(hull, s, d, t, wedge_of(s, t), wedge_of(d, t), wedge_of(s, d));
        if no_larger(hull, t, d) {
            ends.0
        } else {
            ends.1
        }
    }
}

/// A direction that is not turned from another is a multiple of it.
proof fn lemma_along_itself(d: Cell, t: Cell)
    requires
        wedge_of(d, t) == 0,
        dot(d, t) > 0,
    ensures
        dot(d, t) * d.0 == 0 * t.0 + dot(d, d) * t.0,
        dot(d, t) * d.1 == 0 * t.1 + dot(d, d) * t.1,
        dot(t, t) >= 0,
{
    let (a, b, x, y): (int, int, int, int) = (d.0, d.1, t.0, t.1);
    assert((a * x + b * y) * a == (a * a + b * b) * x) by (nonlinear_arith)
        requires
            a * y - b * x == 0,
    ;
    assert((a * x + b * y) * b == (a * a + b * b) * y) by (nonlinear_arith)
        requires
            a * y - b * x == 0,
    ;
    assert(x * x + y * y >= 0) by (nonlinear_arith);
}

/// What is ahead of a direction that is turned to the left is turned to the left.
proof fn lemma_strictly_ahead(d: Cell, t: Cell, a: Cell)
    requires
        dot(d, d) > 0,
        dot(d, t) > 0,
        dot(d, a) > 0,
        wedge_of(d, t) > 0,
        wedge_of(t, a) >= 0,
    ensures
        wedge_of(d, a) > 0,
{
    lemma_frame(d, t, a);
    lemma_positive(dot(d, d), wedge_of(t, a));
    let (p, q, x, y): (int, int, int, int) = (
        dot(d, t),
        wedge_of(d, t),
        dot(d, a),
        wedge_of(d, a),
    );
    assert(y > 0) by (nonlinear_arith)
        requires
            p * y - q * x >= 0,
            p > 0,
            q > 0,
            x > 0,
    ;
}

/// The direction lies between the two that it is turned to, which are no more than a quarter
/// apart.
proof fn lemma_sides(d: Cell, m: Cell, t: Cell)
    requires
        dot(d, d) > 0,
        dot(d, m) > 0,
        dot(d, t) > 0,
        wedge_of(d, m) >= 0,
        wedge_of(d, t) >= 0,
        wedge_of(t, m) >= 0,
    ensures
        ({
            let s = opposite(quarter(m));
            &&& wedge_of(s, t) > 0
            &&& wedge_of(s, d) > 0
            &&& dot(s, t) >= 0
        }),
{
    lemma_turned(t, m);
    lemma_turned(t, quarter(m));
    lemma_turned(d, m);
    lemma_turned(d, quarter(m));
    let s: Cell = opposite(quarter(m));
    lemma_turned(d, s);
    lemma_turned(t, s);
    lemma_frame(d, t, m);
    let (p, q, x, y): (int, int, int, int) = (
        dot(d, t),
        wedge_of(d, t),
        dot(d, m),
        wedge_of(d, m),
    );
    assert(p * x + q * y > 0) by (nonlinear_arith)
        requires
            p > 0,
            x > 0,
            q >= 0,
            y >= 0,
    ;
    lemma_positive(dot(d, d), dot(t, m));
}

/// The corners of a hull extend as far along a direction as all that they encircle.
proof fn lemma_same_extent(hull: Seq<Cell>, places: Seq<Cell>, d: Cell)
    requires
        hull.len() > 0,
        places.len() > 0,
        forall|i: int| 0 <= i < hull.len() ==> places.contains(#[trigger] hull[i]),
        forall|k: int| 0 <= k < places.len() ==> encircled(hull, #[trigger] places[k]),
    ensures
        farthest(hull, d) == farthest(places, d),
{
    let i: int = crate::ocr::text::rectangle::lemma_farthest(hull, d);
    assert(places.contains(hull[i]));
    let j: int = choose|j: int| 0 <= j < places.len() && places[j] == hull[i];
    assert forall|k: int| 0 <= k < places.len() implies dot(d, #[trigger] places[k]) <= dot(
        d,
        places[j],
    ) by {
        assert(encircled(hull, places[k]));
        crate::ocr::text::rectangle::lemma_corner_farthest(hull, d, i, places[k]);
    }
    assert(is_farthest(hull, d, i));
    assert(is_farthest(places, d, j));
    lemma_farthest_is(hull, d, i);
    lemma_farthest_is(places, d, j);
}

/// The hull of pixels is convex, its corners are among them, and it encircles all of them.
pub proof fn lemma_hull_convex(points: Seq<Point>)
    requires
        crate::ocr::text::hull::all_on_grid(points),
        points.len() <= usize::MAX,
        crate::ocr::text::geometry::hull_of(points).len() >= 3,
    ensures
        ({
            let corners = crate::ocr::text::hull::cells(crate::ocr::text::geometry::hull_of(points));
            let places = crate::ocr::text::hull::cells(points);
            &&& convex(corners)
            &&& places.len() > 0
            &&& forall|i: int| 0 <= i < corners.len() ==> places.contains(#[trigger] corners[i])
            &&& forall|k: int| 0 <= k < places.len() ==> encircled(corners, #[trigger] places[k])
        }),
{
    let hull: Seq<Point> = crate::ocr::text::geometry::hull_of(points);
    let corners: Seq<Cell> = crate::ocr::text::hull::cells(hull);
    let places: Seq<Cell> = crate::ocr::text::hull::cells(points);
    crate::ocr::text::hull::lemma_hull(points);
    assert forall|i: int| 0 <= i < corners.len() implies places.contains(#[trigger] corners[i]) by {
        assert(points.contains(hull[i]));
        let k: int = choose|k: int| 0 <= k < points.len() && points[k] == hull[i];
        assert(places[k] == corners[i]);
    }
    assert forall|k: int| 0 <= k < places.len() implies encircled(corners, #[trigger] places[k]) by {
        crate::ocr::text::rectangle::lemma_encircled(points, k);
    }
    assert forall|i: int| 0 <= i < corners.len() implies encircled(corners, #[trigger] corners[i]) by {
        assert(places.contains(corners[i]));
        let k: int = choose|k: int| 0 <= k < places.len() && places[k] == corners[i];
        assert(encircled(corners, places[k]));
    }
    assert(places.contains(corners[0]));
}

/// No rectangle around pixels is smaller than all those along the edges of their hull: for
/// every direction, given by a step of whole numbers, there is an edge such that the tight
/// rectangle along the edge is no larger than the one along the direction.
pub proof fn lemma_smallest_along_edge(points: Seq<Point>, d: Cell) -> (i: int)
    requires
        crate::ocr::text::hull::all_on_grid(points),
        points.len() <= usize::MAX,
        crate::ocr::text::geometry::hull_of(points).len() >= 3,
        d != (0int, 0int),
    ensures
        0 <= i < crate::ocr::text::geometry::hull_of(points).len(),
        no_larger(
            crate::ocr::text::hull::cells(points),
            edge_of(crate::ocr::text::hull::cells(crate::ocr::text::geometry::hull_of(points)), i),
            d,
        ),
{
    let hull: Seq<Point> = crate::ocr::text::geometry::hull_of(points);
    let corners: Seq<Cell> = crate::ocr::text::hull::cells(hull);
    let places: Seq<Cell> = crate::ocr::text::hull::cells(points);
    lemma_hull_convex(points);
    let (x, y): (int, int) = (d.0, d.1);
    assert(x * x + y * y > 0) by (nonlinear_arith)
        requires
            x != 0 || y != 0,
    ;
    let i: int = lemma_along_edge(corners, d);
    lemma_same_area(corners, places, d);
    lemma_same_area(corners, places, edge_of(corners, i));
    i
}

pub proof fn lemma_same_area(hull: Seq<Cell>, places: Seq<Cell>, d: Cell)
    requires
        hull.len() > 0,
        places.len() > 0,
        forall|i: int| 0 <= i < hull.len() ==> places.contains(#[trigger] hull[i]),
        forall|k: int| 0 <= k < places.len() ==> encircled(hull, #[trigger] places[k]),
    ensures
        area_along(hull, d) == area_along(places, d),
{
    lemma_same_extent(hull, places, d);
    lemma_same_extent(hull, places, opposite(d));
    lemma_same_extent(hull, places, quarter(d));
    lemma_same_extent(hull, places, opposite(quarter(d)));
}

} // verus!
