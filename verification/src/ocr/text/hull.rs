//! What the hull of points with whole coordinates is.
//!
//! Where the points are pixels that are not too far apart, every turn is computed with the
//! right sign. There the corners are the convex hull: they are some of the points, all points
//! lie on the left of every edge, and every corner is a turn to the left.
use crate::ocr::text::cells::Cell;
use crate::ocr::text::geometry::Point;
use crate::single::Single;
use vstd::arithmetic::power2::*;
use vstd::prelude::*;

verus! {

/// How far pixels may be apart, in either direction, for the turn between any three of them to
/// have the right sign.
pub const EXACT: u32 = 4096;

/// The pixel at which the point is.
pub open spec fn cell(p: Point) -> Cell {
    (p.0.units() / crate::single::unit() as int, p.1.units() / crate::single::unit() as int)
}

/// The point is at a pixel: its coordinates are whole numbers.
pub open spec fn on_grid(p: Point) -> bool {
    &&& crate::bounds::is_whole(p.0, cell(p).0)
    &&& crate::bounds::is_whole(p.1, cell(p).1)
}

/// The pixels are at most `EXACT` apart in either direction.
pub open spec fn close(a: Cell, b: Cell) -> bool {
    -EXACT <= b.0 - a.0 <= EXACT && -EXACT <= b.1 - a.1 <= EXACT
}

/// All points are at pixels that are close to each other.
pub open spec fn all_on_grid(points: Seq<Point>) -> bool {
    &&& forall|i: int| 0 <= i < points.len() ==> on_grid(#[trigger] points[i])
    &&& forall|i: int, j: int|
        0 <= i < points.len() && 0 <= j < points.len() ==> close(
            cell(#[trigger] points[i]),
            cell(#[trigger] points[j]),
        )
}

/// The pixels at which the points are.
pub open spec fn cells(points: Seq<Point>) -> Seq<Cell> {
    points.map_values(|p: Point| cell(p))
}

/// The first point comes before the second, by `x` and then by `y`.
pub open spec fn earlier(a: Point, b: Point) -> bool {
    a.0.key() < b.0.key() || a.0.key() == b.0.key() && a.1.key() < b.1.key()
}

/// The path from `o` over `a` to `b` goes straight on, or straight back.
pub open spec fn straight(o: Point, a: Point, b: Point) -> bool {
    let t = crate::ocr::text::geometry::turn(o, a, b);
    !t.below(crate::ocr::text::geometry::zero()) && !crate::ocr::text::geometry::zero().below(t)
}

/// No three of the points make a turn.
pub open spec fn in_line(points: Seq<Point>) -> bool {
    forall|i: int, j: int, k: int|
        0 <= i < points.len() && 0 <= j < points.len() && 0 <= k < points.len()
            ==> #[trigger] straight(points[i], points[j], points[k])
}

/// The edge from corner `i` to the next has the point on its left or on it.
pub open spec fn side_keeps(hull: Seq<Point>, i: int, p: Point) -> bool {
    !crate::ocr::text::geometry::turn(
        hull[i],
        hull[crate::ocr::text::cells::wrapped(i + 1, hull.len() as int)],
        p,
    ).below(crate::ocr::text::geometry::zero())
}

/// The path round turns left at the corner after `i`.
pub open spec fn corner_bends(hull: Seq<Point>, i: int) -> bool {
    let n = hull.len() as int;
    crate::ocr::text::geometry::zero().below(
        crate::ocr::text::geometry::turn(
            hull[i],
            hull[crate::ocr::text::cells::wrapped(i + 1, n)],
            hull[crate::ocr::text::cells::wrapped(i + 2, n)],
        ),
    )
}

/// The corners are the convex hull of the points, counterclockwise: each is one of the points,
/// all points are on the left of each edge or on it, and the path round turns left at each
/// corner.
///
/// No two corners are at one place, and the first is the leftmost point, the lowest of these.
/// Where there is one corner only, all points are there. Of points in line there are at most
/// two corners; where there are two, the second is the rightmost point, the highest of these.
pub open spec fn is_hull(hull: Seq<Point>, points: Seq<Point>) -> bool {
    let n = hull.len() as int;
    &&& points.len() > 0 ==> n > 0
    &&& forall|i: int| 0 <= i < n ==> points.contains(#[trigger] hull[i])
    &&& forall|i: int, j: int|
        0 <= i < j < n ==> !crate::ocr::text::geometry::same_place(
            #[trigger] hull[i],
            #[trigger] hull[j],
        )
    &&& forall|k: int| 0 <= k < points.len() ==> !earlier(#[trigger] points[k], hull[0])
    &&& n == 1 ==> forall|k: int|
        0 <= k < points.len() ==> crate::ocr::text::geometry::same_place(
            hull[0],
            #[trigger] points[k],
        )
    &&& n == 2 ==> forall|k: int| 0 <= k < points.len() ==> !earlier(hull[1], #[trigger] points[k])
    &&& in_line(points) ==> n <= 2
    &&& n >= 2 ==> forall|i: int, k: int|
        0 <= i < n && 0 <= k < points.len() ==> #[trigger] side_keeps(hull, i, points[k])
    &&& n >= 3 ==> forall|i: int| 0 <= i < n ==> #[trigger] corner_bends(hull, i)
}

/// The turn between three close pixels has the right sign.
pub proof fn lemma_turn_exact(o: Point, a: Point, b: Point)
    requires
        on_grid(o),
        on_grid(a),
        on_grid(b),
        close(cell(o), cell(a)),
        close(cell(o), cell(b)),
    ensures
        ({
            let t = crate::ocr::text::geometry::turn(o, a, b);
            let c = crate::ocr::text::cells::turn_of(cell(o), cell(a), cell(b));
            &&& t.at_most(crate::ocr::text::geometry::zero()) <==> c <= 0
            &&& t.below(crate::ocr::text::geometry::zero()) <==> c < 0
            &&& crate::ocr::text::geometry::zero().below(t) <==> c > 0
        }),
{
    let (co, ca, cb): (Cell, Cell, Cell) = (cell(o), cell(a), cell(b));
    let (ax, ay): (int, int) = (ca.0 - co.0, ca.1 - co.1);
    let (bx, by_): (int, int) = (cb.0 - co.0, cb.1 - co.1);
    crate::bounds::lemma_exact_difference(a.0, o.0, ca.0, co.0);
    crate::bounds::lemma_exact_difference(b.1, o.1, cb.1, co.1);
    crate::bounds::lemma_exact_difference(a.1, o.1, ca.1, co.1);
    crate::bounds::lemma_exact_difference(b.0, o.0, cb.0, co.0);
    lemma_small_product(ax, by_);
    lemma_small_product(ay, bx);
    let p: Single = Single::product(Single::difference(a.0, o.0), Single::difference(b.1, o.1));
    let q: Single = Single::product(Single::difference(a.1, o.1), Single::difference(b.0, o.0));
    crate::bounds::lemma_exact_product(
        Single::difference(a.0, o.0),
        Single::difference(b.1, o.1),
        ax,
        by_,
    );
    crate::bounds::lemma_exact_product(
        Single::difference(a.1, o.1),
        Single::difference(b.0, o.0),
        ay,
        bx,
    );
    crate::bounds::lemma_difference_sign(p, q);
    let (x, y): (int, int) = (ax * by_, ay * bx);
    assert(x - y == crate::ocr::text::cells::turn_of(co, ca, cb)) by {
        reveal(crate::ocr::text::cells::turn_of);
    }
    let u: int = crate::single::unit() as int;
    lemma_pow2_pos(149);
    assert((x > y <==> x * u > y * u) && (x < y <==> x * u < y * u)) by (nonlinear_arith)
        requires
            u > 0,
    ;
    assert(crate::ocr::text::geometry::zero().units() == 0);
}

/// Distances of close pixels have products that are exact.
proof fn lemma_small_product(a: int, b: int)
    requires
        -EXACT <= a <= EXACT,
        -EXACT <= b <= EXACT,
    ensures
        -0x100_0000 <= a * b <= 0x100_0000,
{
    assert(-0x100_0000 <= a * b <= 0x100_0000) by (nonlinear_arith)
        requires
            -4096 <= a <= 4096,
            -4096 <= b <= 4096,
    ;
}

/// Points that are listed are at close pixels.
pub proof fn lemma_listed(all: Seq<Point>, p: Point, q: Point)
    requires
        all_on_grid(all),
        all.contains(p),
        all.contains(q),
    ensures
        on_grid(p),
        on_grid(q),
        close(cell(p), cell(q)),
{
    let i: int = choose|i: int| 0 <= i < all.len() && all[i] == p;
    let j: int = choose|j: int| 0 <= j < all.len() && all[j] == q;
    assert(on_grid(all[i]) && on_grid(all[j]));
    assert(close(cell(all[i]), cell(all[j])));
}

/// Taking a point in is taking its pixel in.
proof fn lemma_settled_cells(chain: Seq<Point>, kept: nat, p: Point, all: Seq<Point>)
    requires
        all_on_grid(all),
        among(chain, all),
        all.contains(p),
    ensures
        cells(crate::ocr::text::geometry::settled(chain, kept, p))
            == crate::ocr::text::cells::settled_cells(cells(chain), kept, cell(p)),
    decreases chain.len(),
{
    let n: int = chain.len() as int;
    if n >= 2 {
        assert(all.contains(chain[n - 2]) && all.contains(chain[n - 1]));
        lemma_listed(all, chain[n - 2], chain[n - 1]);
        lemma_listed(all, chain[n - 2], p);
        lemma_turn_exact(chain[n - 2], chain[n - 1], p);
    }
    if chain.len() > kept && n >= 2 && crate::ocr::text::geometry::turn(
        chain[n - 2],
        chain[n - 1],
        p,
    ).at_most(crate::ocr::text::geometry::zero()) {
        lemma_settled_cells(chain.drop_last(), kept, p, all);
        assert(cells(chain).drop_last() =~= cells(chain.drop_last()));
    } else {
        assert(cells(chain).push(cell(p)) =~= cells(chain.push(p)));
    }
}

/// Taking points in is taking their pixels in.
proof fn lemma_chained_cells(chain: Seq<Point>, kept: nat, points: Seq<Point>, all: Seq<Point>)
    requires
        all_on_grid(all),
        among(chain, all),
        among(points, all),
    ensures
        cells(crate::ocr::text::geometry::chained(chain, kept, points))
            == crate::ocr::text::cells::chained_cells(cells(chain), kept, cells(points)),
    decreases points.len(),
{
    if points.len() > 0 {
        let rest: Seq<Point> = points.drop_last();
        assert(all.contains(points[points.len() - 1]));
        lemma_chained_cells(chain, kept, rest, all);
        lemma_chained_among(chain, kept, rest, all);
        lemma_settled_cells(
            crate::ocr::text::geometry::chained(chain, kept, rest),
            kept,
            points.last(),
            all,
        );
        assert(cells(points).drop_last() =~= cells(rest));
    }
}

/// All points of the chain are among the points.
pub open spec fn among(chain: Seq<Point>, all: Seq<Point>) -> bool {
    forall|i: int| 0 <= i < chain.len() ==> all.contains(#[trigger] chain[i])
}

/// A chain holds only the points that it began with or has taken in.
proof fn lemma_settled_among(chain: Seq<Point>, kept: nat, p: Point, all: Seq<Point>)
    requires
        among(chain, all),
        all.contains(p),
    ensures
        among(crate::ocr::text::geometry::settled(chain, kept, p), all),
    decreases chain.len(),
{
    let n: int = chain.len() as int;
    if chain.len() > kept && n >= 2 && crate::ocr::text::geometry::turn(
        chain[n - 2],
        chain[n - 1],
        p,
    ).at_most(crate::ocr::text::geometry::zero()) {
        lemma_settled_among(chain.drop_last(), kept, p, all);
    } else {
        assert forall|i: int| 0 <= i <= n implies all.contains(#[trigger] chain.push(p)[i]) by {
            if i < n {
                assert(all.contains(chain[i]));
            }
        }
    }
}

/// A chain holds only the points that it began with or has taken in.
proof fn lemma_chained_among(chain: Seq<Point>, kept: nat, points: Seq<Point>, all: Seq<Point>)
    requires
        among(chain, all),
        among(points, all),
    ensures
        among(crate::ocr::text::geometry::chained(chain, kept, points), all),
    decreases points.len(),
{
    if points.len() > 0 {
        lemma_chained_among(chain, kept, points.drop_last(), all);
        assert(all.contains(points[points.len() - 1]));
        lemma_settled_among(
            crate::ocr::text::geometry::chained(chain, kept, points.drop_last()),
            kept,
            points.last(),
            all,
        );
    }
}

/// The points are in order.
spec fn in_order(points: Seq<Point>) -> bool {
    forall|i: int, j: int|
        0 <= i < j < points.len() ==> !earlier(#[trigger] points[j], #[trigger] points[i])
}

/// The points are in order and distinct.
spec fn strictly_in_order(points: Seq<Point>) -> bool {
    forall|i: int, j: int|
        0 <= i < j < points.len() ==> earlier(#[trigger] points[i], #[trigger] points[j])
}

/// Some of the listed points has the place.
spec fn has_place(points: Seq<Point>, p: Point) -> bool {
    exists|j: int|
        0 <= j < points.len() && crate::ocr::text::geometry::same_place(#[trigger] points[j], p)
}

/// Every point has a place among the listed ones.
spec fn covers(listed: Seq<Point>, points: Seq<Point>) -> bool {
    forall|k: int| 0 <= k < points.len() ==> has_place(listed, #[trigger] points[k])
}

/// Among is transitive.
proof fn lemma_among(a: Seq<Point>, b: Seq<Point>, c: Seq<Point>)
    requires
        among(a, b),
        among(b, c),
    ensures
        among(a, c),
{
    assert forall|i: int| 0 <= i < a.len() implies c.contains(#[trigger] a[i]) by {
        assert(b.contains(a[i]));
        let k: int = choose|k: int| 0 <= k < b.len() && b[k] == a[i];
        assert(c.contains(b[k]));
    }
}

/// A place that a listed point has is listed.
proof fn lemma_has_place(listed: Seq<Point>, points: Seq<Point>, p: Point)
    requires
        covers(listed, points),
        has_place(points, p),
    ensures
        has_place(listed, p),
{
    let j: int = choose|j: int|
        0 <= j < points.len() && crate::ocr::text::geometry::same_place(#[trigger] points[j], p);
    assert(has_place(listed, points[j]));
    let m: int = choose|m: int|
        0 <= m < listed.len() && crate::ocr::text::geometry::same_place(
            #[trigger] listed[m],
            points[j],
        );
    assert(crate::ocr::text::geometry::same_place(listed[m], p));
}

/// Covering is transitive.
proof fn lemma_covers(a: Seq<Point>, b: Seq<Point>, c: Seq<Point>)
    requires
        covers(a, b),
        covers(b, c),
    ensures
        covers(a, c),
{
    assert forall|k: int| 0 <= k < c.len() implies has_place(a, #[trigger] c[k]) by {
        lemma_has_place(a, b, c[k]);
    }
}

/// A longer list covers what a shorter one does.
proof fn lemma_covers_more(listed: Seq<Point>, p: Point, points: Seq<Point>)
    requires
        covers(listed, points),
    ensures
        covers(listed.push(p), points.push(p)),
{
    let more: Seq<Point> = listed.push(p);
    let all: Seq<Point> = points.push(p);
    assert forall|k: int| 0 <= k < all.len() implies has_place(more, #[trigger] all[k]) by {
        if k < points.len() {
            assert(has_place(listed, points[k]));
            let j: int = choose|j: int|
                0 <= j < listed.len() && crate::ocr::text::geometry::same_place(
                    #[trigger] listed[j],
                    points[k],
                );
            assert(more[j] == listed[j]);
        } else {
            assert(more[listed.len() as int] == p);
        }
    }
}

/// A list covers one point more where its last has the same place.
proof fn lemma_covers_same(listed: Seq<Point>, p: Point, points: Seq<Point>)
    requires
        covers(listed, points),
        listed.len() > 0,
        crate::ocr::text::geometry::same_place(listed.last(), p),
    ensures
        covers(listed, points.push(p)),
{
    let all: Seq<Point> = points.push(p);
    assert forall|k: int| 0 <= k < all.len() implies has_place(listed, #[trigger] all[k]) by {
        if k < points.len() {
            assert(has_place(listed, points[k]));
        } else {
            assert(crate::ocr::text::geometry::same_place(listed[listed.len() - 1], p));
        }
    }
}

/// Points in order stay so with a later one at the end.
proof fn lemma_strict_more(points: Seq<Point>, p: Point)
    requires
        strictly_in_order(points),
        points.len() > 0 ==> earlier(points.last(), p),
    ensures
        strictly_in_order(points.push(p)),
{
    let all: Seq<Point> = points.push(p);
    let last: int = points.len() - 1;
    assert forall|i: int, j: int| 0 <= i < j < all.len() implies earlier(
        #[trigger] all[i],
        #[trigger] all[j],
    ) by {
        if j <= last {
            assert(earlier(points[i], points[j]));
        } else if i < last {
            assert(earlier(points[i], points[last]));
        }
    }
}

/// A point that is listed is still listed in a longer list.
proof fn lemma_among_more(some: Seq<Point>, points: Seq<Point>, p: Point)
    requires
        among(some, points),
    ensures
        among(some, points.push(p)),
        among(some.push(p), points.push(p)),
{
    let all: Seq<Point> = points.push(p);
    assert forall|i: int| 0 <= i < some.len() implies all.contains(#[trigger] some[i]) by {
        assert(points.contains(some[i]));
        let k: int = choose|k: int| 0 <= k < points.len() && points[k] == some[i];
        assert(all[k] == some[i]);
    }
    assert forall|i: int| 0 <= i < some.push(p).len() implies all.contains(
        #[trigger] some.push(p)[i],
    ) by {
        if i < some.len() {
            assert(all.contains(some[i]));
        } else {
            assert(all[points.len() as int] == p);
        }
    }
}

/// Points in order are in order without the last.
proof fn lemma_in_order_rest(points: Seq<Point>)
    requires
        in_order(points),
        points.len() > 0,
    ensures
        in_order(points.drop_last()),
{
    let rest: Seq<Point> = points.drop_last();
    assert forall|i: int, j: int| 0 <= i < j < rest.len() implies !earlier(
        #[trigger] rest[j],
        #[trigger] rest[i],
    ) by {
        assert(!earlier(points[j], points[i]));
    }
}

/// A point that does not come before one at the same place, and is at another, comes after.
proof fn lemma_later(a: Point, same: Point, p: Point)
    requires
        crate::ocr::text::geometry::same_place(a, same),
        !earlier(p, same),
        !crate::ocr::text::geometry::same_place(a, p),
    ensures
        earlier(a, p),
{
}

/// What leaving repeats out of points in order gives.
spec fn is_distinct(r: Seq<Point>, points: Seq<Point>) -> bool {
    &&& strictly_in_order(r)
    &&& covers(r, points)
    &&& among(r, points)
    &&& points.len() > 0 ==> r.len() > 0 && crate::ocr::text::geometry::same_place(
        r.last(),
        points.last(),
    )
}

/// One more point in order, where it repeats the last and where it does not.
proof fn lemma_distinct_more(r: Seq<Point>, points: Seq<Point>, p: Point)
    requires
        is_distinct(r, points),
        points.len() > 0 ==> !earlier(p, points.last()),
    ensures
        r.len() > 0 && crate::ocr::text::geometry::same_place(r.last(), p) ==> is_distinct(
            r,
            points.push(p),
        ),
        !(r.len() > 0 && crate::ocr::text::geometry::same_place(r.last(), p)) ==> is_distinct(
            r.push(p),
            points.push(p),
        ),
{
    lemma_among_more(r, points, p);
    assert(points.push(p).last() == p);
    if r.len() > 0 && crate::ocr::text::geometry::same_place(r.last(), p) {
        lemma_covers_same(r, p, points);
    } else {
        lemma_covers_more(r, p, points);
        if r.len() > 0 {
            assert(points.contains(r[0]));
            lemma_later(r.last(), points.last(), p);
        }
        lemma_strict_more(r, p);
        assert(r.push(p).last() == p);
    }
}

/// Without repeats, points in order are distinct, and no place is lost.
proof fn lemma_without_repeats(points: Seq<Point>)
    requires
        in_order(points),
    ensures
        is_distinct(crate::ocr::text::geometry::without_repeats(points), points),
    decreases points.len(),
{
    if points.len() > 0 {
        let rest: Seq<Point> = points.drop_last();
        let n: int = points.len() - 1;
        lemma_in_order_rest(points);
        lemma_without_repeats(rest);
        if n > 0 {
            assert(!earlier(points[n], points[n - 1]));
        }
        lemma_distinct_more(
            crate::ocr::text::geometry::without_repeats(rest),
            rest,
            points.last(),
        );
        assert(points =~= rest.push(points.last()));
    }
}

/// Sorting orders the points and loses none.
proof fn lemma_sorted(points: Seq<Point>)
    requires
        points.len() <= usize::MAX,
    ensures
        ({
            let s = crate::ocr::text::geometry::sorted_points(points);
            &&& in_order(s)
            &&& covers(s, points)
            &&& among(s, points)
            &&& s.len() == points.len()
        }),
{
    let keys: Seq<(i64, i64)> = crate::ocr::text::geometry::point_keys(points);
    crate::order::lemma_stable_order(keys);
    let order: Seq<usize> = crate::order::stable_order_of(keys);
    let s: Seq<Point> = crate::ocr::text::geometry::sorted_points(points);
    assert forall|i: int, j: int| 0 <= i < j < s.len() implies !earlier(
        #[trigger] s[j],
        #[trigger] s[i],
    ) by {
        assert(crate::order::precedes(keys, order[i] as int, order[j] as int));
        assert(s[i] == points[order[i] as int] && s[j] == points[order[j] as int]);
    }
    assert forall|k: int| 0 <= k < points.len() implies has_place(s, #[trigger] points[k]) by {
        crate::order::lemma_order_complete(keys, order, k as usize);
        let j: int = choose|j: int| 0 <= j < order.len() && order[j] == k as usize;
        assert(crate::ocr::text::geometry::same_place(s[j], points[k]));
    }
    assert forall|i: int| 0 <= i < s.len() implies points.contains(#[trigger] s[i]) by {
        assert(s[i] == points[order[i] as int]);
    }
}

/// Pixels are in order as the points are, and the same where the points are.
proof fn lemma_cell_order(a: Point, b: Point)
    requires
        on_grid(a),
        on_grid(b),
    ensures
        earlier(a, b) ==> crate::ocr::text::cells::after(cell(a), cell(b), true),
        crate::ocr::text::geometry::same_place(a, b) ==> cell(a) == cell(b),
{
    Single::lemma_key_orders(a.0, b.0);
    Single::lemma_key_orders(a.1, b.1);
    let u: int = crate::single::unit() as int;
    lemma_pow2_pos(149);
    let (ca, cb): (Cell, Cell) = (cell(a), cell(b));
    let (ax, ay, bx, by_) = (ca.0, ca.1, cb.0, cb.1);
    assert((ax * u < bx * u ==> ax < bx) && (ax * u == bx * u ==> ax == bx) && (ay * u < by_ * u
        ==> ay < by_)) by (nonlinear_arith)
        requires
            u > 0,
    ;
    reveal(crate::ocr::text::cells::after);
}

/// Points among points at close pixels are at close pixels.
proof fn lemma_among_on_grid(some: Seq<Point>, points: Seq<Point>)
    requires
        among(some, points),
        all_on_grid(points),
    ensures
        all_on_grid(some),
{
    assert forall|i: int| 0 <= i < some.len() implies on_grid(#[trigger] some[i]) by {
        assert(points.contains(some[i]));
        lemma_listed(points, some[i], some[i]);
    }
    assert forall|i: int, j: int| 0 <= i < some.len() && 0 <= j < some.len() implies close(
        cell(#[trigger] some[i]),
        cell(#[trigger] some[j]),
    ) by {
        assert(points.contains(some[i]) && points.contains(some[j]));
        lemma_listed(points, some[i], some[j]);
    }
}

/// The pixels of distinct points in order are in order.
proof fn lemma_cells_increase(points: Seq<Point>)
    requires
        strictly_in_order(points),
        all_on_grid(points),
    ensures
        crate::ocr::text::cells::increasing(cells(points), true),
{
    let all: Seq<Cell> = cells(points);
    assert forall|i: int, j: int| 0 <= i < j < all.len() implies crate::ocr::text::cells::after(
        #[trigger] all[i],
        #[trigger] all[j],
        true,
    ) by {
        assert(earlier(points[i], points[j]));
        lemma_cell_order(points[i], points[j]);
    }
}

/// The hull of distinct points in order goes round their pixels, and is some of the points.
proof fn lemma_hull_cells(points: Seq<Point>)
    requires
        points.len() >= 2,
        strictly_in_order(points),
        all_on_grid(points),
    ensures
        ({
            let hull = crate::ocr::text::geometry::hull_of_sorted(points);
            &&& among(hull, points)
            &&& crate::ocr::text::cells::goes_round(cells(hull), cells(points))
        }),
{
    let all: Seq<Cell> = cells(points);
    let lower: Seq<Point> = crate::ocr::text::geometry::chained(Seq::empty(), 1, points);
    let back: Seq<Point> = points.drop_last().reverse();
    let whole: Seq<Point> = crate::ocr::text::geometry::chained(lower, lower.len(), back);
    let hull: Seq<Point> = crate::ocr::text::geometry::hull_of_sorted(points);
    assert(cells(Seq::<Point>::empty()) =~= Seq::<Cell>::empty());
    assert(among(points, points));
    lemma_chained_among(Seq::empty(), 1, points, points);
    lemma_chained_cells(Seq::empty(), 1, points, points);
    assert(among(back, points)) by {
        assert forall|i: int| 0 <= i < back.len() implies points.contains(#[trigger] back[i]) by {
            assert(back[i] == points[points.len() - 2 - i]);
        }
    }
    lemma_chained_cells(lower, lower.len(), back, points);
    assert(cells(back) =~= all.drop_last().reverse());
    lemma_chained_among(lower, lower.len(), back, points);
    lemma_chained_long(lower, lower.len(), back);
    assert(cells(whole).drop_last() =~= cells(whole.drop_last()));
    assert(among(hull, points)) by {
        assert forall|i: int| 0 <= i < hull.len() implies points.contains(#[trigger] hull[i]) by {
            assert(points.contains(whole[i]));
        }
    }
    assert(crate::ocr::text::cells::increasing(all, true)) by {
        lemma_cells_increase(points);
    }
    crate::ocr::text::cells::lemma_goes_round(all);
}

/// Taking points in leaves a chain of at least one.
proof fn lemma_chained_long(chain: Seq<Point>, kept: nat, points: Seq<Point>)
    requires
        points.len() > 0,
    ensures
        crate::ocr::text::geometry::chained(chain, kept, points).len() >= 1,
{
    crate::ocr::text::geometry::lemma_settled_length(
        crate::ocr::text::geometry::chained(chain, kept, points.drop_last()),
        kept,
        points.last(),
    );
}

/// Of points at pixels of an image that is not too large, the corners are the convex hull,
/// counterclockwise.
pub proof fn lemma_hull(points: Seq<Point>)
    requires
        all_on_grid(points),
        points.len() <= usize::MAX,
    ensures
        is_hull(crate::ocr::text::geometry::hull_of(points), points),
{
    let sorted: Seq<Point> = crate::ocr::text::geometry::sorted_points(points);
    let distinct: Seq<Point> = crate::ocr::text::geometry::without_repeats(sorted);
    let hull: Seq<Point> = crate::ocr::text::geometry::hull_of(points);
    lemma_sorted(points);
    lemma_without_repeats(sorted);
    lemma_among(distinct, sorted, points);
    lemma_among_on_grid(distinct, points);
    lemma_covers(distinct, sorted, points);
    if distinct.len() >= 2 {
        lemma_hull_cells(distinct);
        lemma_round_points(hull, distinct, points);
    } else {
        lemma_one_place(distinct, points);
    }
}

/// The corners of points at close pixels are at close pixels.
pub proof fn lemma_hull_on_grid(points: Seq<Point>)
    requires
        all_on_grid(points),
        points.len() <= usize::MAX,
    ensures
        all_on_grid(crate::ocr::text::geometry::hull_of(points)),
{
    let hull: Seq<Point> = crate::ocr::text::geometry::hull_of(points);
    lemma_hull(points);
    assert(among(hull, points));
    lemma_among_on_grid(hull, points);
}

/// The points of a border on a mask that is not too large are at close pixels.
pub proof fn lemma_border_on_grid(border: Seq<(i32, i32)>, pw: int, ph: int)
    requires
        crate::ocr::text::drawing::on_mask(border, pw, ph),
        0 <= pw < EXACT,
        0 <= ph < EXACT,
    ensures
        all_on_grid(crate::ocr::text::detection::map_points(border)),
{
    let points: Seq<Point> = crate::ocr::text::detection::map_points(border);
    let u: int = crate::single::unit() as int;
    lemma_pow2_pos(149);
    assert forall|i: int| 0 <= i < points.len() implies on_grid(#[trigger] points[i]) && cell(
        points[i],
    ) == (border[i].0 - 1, border[i].1 - 1) by {
        let (x, y): (int, int) = (border[i].0 as int, border[i].1 as int);
        let one: Single = Single { bits: crate::single::ONE };
        assert(0 <= border[i].0 < pw + 2 && 0 <= border[i].1 < ph + 2);
        crate::bounds::lemma_whole(x);
        crate::bounds::lemma_whole(y);
        crate::bounds::lemma_one();
        assert(1 * u == u);
        crate::bounds::lemma_exact_difference(Single::whole(x), one, x, 1);
        crate::bounds::lemma_exact_difference(Single::whole(y), one, y, 1);
        let (a, b): (int, int) = (x - 1, y - 1);
        assert((a * u) / u == a && (b * u) / u == b) by (nonlinear_arith)
            requires
                u > 0,
        ;
    }
    assert forall|i: int, j: int| 0 <= i < points.len() && 0 <= j < points.len() implies close(
        cell(#[trigger] points[i]),
        cell(#[trigger] points[j]),
    ) by {
        assert(0 <= border[i].0 < pw + 2 && 0 <= border[j].0 < pw + 2);
    }
}

/// At most one point, which has all the places, is their hull.
proof fn lemma_one_place(distinct: Seq<Point>, points: Seq<Point>)
    requires
        distinct.len() <= 1,
        points.len() > 0 ==> distinct.len() > 0,
        among(distinct, points),
        covers(distinct, points),
    ensures
        is_hull(distinct, points),
{
    assert forall|k: int| 0 <= k < points.len() implies crate::ocr::text::geometry::same_place(
        distinct[0],
        #[trigger] points[k],
    ) by {
        assert(has_place(distinct, points[k]));
    }
}

/// The pixel of every point is that of a listed point which has the places.
proof fn lemma_place_cell(distinct: Seq<Point>, points: Seq<Point>, k: int) -> (m: int)
    requires
        all_on_grid(points),
        among(distinct, points),
        covers(distinct, points),
        0 <= k < points.len(),
    ensures
        0 <= m < distinct.len(),
        cell(distinct[m]) == cell(points[k]),
{
    assert(has_place(distinct, points[k]));
    let m: int = choose|m: int|
        0 <= m < distinct.len() && crate::ocr::text::geometry::same_place(
            #[trigger] distinct[m],
            points[k],
        );
    assert(points.contains(distinct[m]) && points.contains(points[k]));
    lemma_listed(points, distinct[m], points[k]);
    lemma_cell_order(distinct[m], points[k]);
    m
}

/// No place comes twice among points at different pixels.
proof fn lemma_places_apart(hull: Seq<Point>)
    requires
        all_on_grid(hull),
        cells(hull).no_duplicates(),
    ensures
        forall|i: int, j: int|
            0 <= i < j < hull.len() ==> !crate::ocr::text::geometry::same_place(
                #[trigger] hull[i],
                #[trigger] hull[j],
            ),
{
    let hc: Seq<Cell> = cells(hull);
    assert forall|i: int, j: int|
        0 <= i < j < hull.len() implies !crate::ocr::text::geometry::same_place(
        #[trigger] hull[i],
        #[trigger] hull[j],
    ) by {
        assert(hc[i] != hc[j]);
        lemma_cell_order(hull[i], hull[j]);
    }
}

/// No point comes before one at the first pixel, and none after one at the last.
proof fn lemma_first_and_last(
    corner: Point,
    distinct: Seq<Point>,
    points: Seq<Point>,
    k: int,
)
    requires
        all_on_grid(points),
        among(distinct, points),
        covers(distinct, points),
        strictly_in_order(distinct),
        points.contains(corner),
        0 <= k < points.len(),
        distinct.len() > 0,
    ensures
        cell(corner) == cell(distinct.first()) ==> !earlier(points[k], corner),
        cell(corner) == cell(distinct.last()) ==> !earlier(corner, points[k]),
{
    let dc: Seq<Cell> = cells(distinct);
    let m: int = lemma_place_cell(distinct, points, k);
    assert(crate::ocr::text::cells::increasing(dc, true)) by {
        lemma_among_on_grid(distinct, points);
        lemma_cells_increase(distinct);
    }
    crate::ocr::text::cells::lemma_ends(dc, m, true);
    assert(dc.first() == cell(distinct.first()) && dc.last() == cell(distinct.last()));
    assert(dc[m] == cell(points[k]));
    assert(on_grid(points[k]) && on_grid(corner)) by {
        assert(points.contains(points[k]));
        lemma_listed(points, points[k], corner);
    }
    lemma_cell_order(points[k], corner);
    lemma_cell_order(corner, points[k]);
}

/// What goes round the pixels of some points begins with the first and has no place twice.
proof fn lemma_round_order(hull: Seq<Point>, distinct: Seq<Point>, points: Seq<Point>)
    requires
        all_on_grid(points),
        among(distinct, points),
        among(hull, points),
        covers(distinct, points),
        strictly_in_order(distinct),
        distinct.len() >= 2,
        crate::ocr::text::cells::goes_round(cells(hull), cells(distinct)),
    ensures
        forall|i: int, j: int|
            0 <= i < j < hull.len() ==> !crate::ocr::text::geometry::same_place(
                #[trigger] hull[i],
                #[trigger] hull[j],
            ),
        forall|k: int| 0 <= k < points.len() ==> !earlier(#[trigger] points[k], hull[0]),
        hull.len() == 2 ==> forall|k: int|
            0 <= k < points.len() ==> !earlier(hull[1], #[trigger] points[k]),
{
    let (hc, dc): (Seq<Cell>, Seq<Cell>) = (cells(hull), cells(distinct));
    lemma_among_on_grid(hull, points);
    lemma_places_apart(hull);
    assert(hc[0] == dc[0] && hc[0] == cell(hull[0]) && dc[0] == cell(distinct[0]));
    assert(points.contains(hull[0]));
    assert forall|k: int| 0 <= k < points.len() implies !earlier(#[trigger] points[k], hull[0]) by {
        lemma_first_and_last(hull[0], distinct, points, k);
    }
    if hull.len() == 2 {
        let last: int = dc.len() - 1;
        assert(hc[1] == dc[last] && hc[1] == cell(hull[1]) && dc[last] == cell(distinct[last]));
        assert(points.contains(hull[1]));
        assert forall|k: int| 0 <= k < points.len() implies !earlier(
            hull[1],
            #[trigger] points[k],
        ) by {
            lemma_first_and_last(hull[1], distinct, points, k);
        }
    }
}

/// Points in line are at pixels in line.
proof fn lemma_line_cells(distinct: Seq<Point>, points: Seq<Point>)
    requires
        all_on_grid(points),
        among(distinct, points),
        in_line(points),
    ensures
        crate::ocr::text::cells::in_line(cells(distinct)),
{
    let dc: Seq<Cell> = cells(distinct);
    assert forall|i: int, j: int, k: int|
        0 <= i < dc.len() && 0 <= j < dc.len() && 0 <= k < dc.len()
            implies #[trigger] crate::ocr::text::cells::turn_of(dc[i], dc[j], dc[k]) == 0 by {
        let (p, q, r): (Point, Point, Point) = (distinct[i], distinct[j], distinct[k]);
        assert(points.contains(distinct[i]) && points.contains(distinct[j]) && points.contains(
            distinct[k],
        ));
        let a: int = choose|a: int| 0 <= a < points.len() && points[a] == p;
        let b: int = choose|b: int| 0 <= b < points.len() && points[b] == q;
        let c: int = choose|c: int| 0 <= c < points.len() && points[c] == r;
        assert(straight(points[a], points[b], points[c]));
        lemma_listed(points, p, q);
        lemma_listed(points, p, r);
        lemma_turn_exact(p, q, r);
    }
}

/// What goes round the pixels of some points, which have all the places, is their hull.
proof fn lemma_round_points(hull: Seq<Point>, distinct: Seq<Point>, points: Seq<Point>)
    requires
        all_on_grid(points),
        among(distinct, points),
        among(hull, distinct),
        covers(distinct, points),
        strictly_in_order(distinct),
        distinct.len() >= 2,
        crate::ocr::text::cells::goes_round(cells(hull), cells(distinct)),
    ensures
        is_hull(hull, points),
{
    let n: int = hull.len() as int;
    let (hc, dc): (Seq<Cell>, Seq<Cell>) = (cells(hull), cells(distinct));
    lemma_among(hull, distinct, points);
    lemma_round_order(hull, distinct, points);
    if in_line(points) {
        lemma_line_cells(distinct, points);
    }
    assert forall|i: int, k: int| 0 <= i < n && 0 <= k < points.len() implies #[trigger] side_keeps(
        hull,
        i,
        points[k],
    ) by {
        let p: Point = points[k];
        let next: Point = hull[crate::ocr::text::cells::wrapped(i + 1, n)];
        let m: int = lemma_place_cell(distinct, points, k);
        assert(crate::ocr::text::cells::side_keeps(hc, i, dc[m]));
        assert(points.contains(hull[i]) && points.contains(next) && points.contains(points[k]));
        lemma_listed(points, hull[i], next);
        lemma_listed(points, hull[i], p);
        lemma_turn_exact(hull[i], next, p);
    }
    if n >= 3 {
        assert forall|i: int| 0 <= i < n implies #[trigger] corner_bends(hull, i) by {
            let next: Point = hull[crate::ocr::text::cells::wrapped(i + 1, n)];
            let third: Point = hull[crate::ocr::text::cells::wrapped(i + 2, n)];
            assert(crate::ocr::text::cells::corner_bends(hc, i));
            assert(points.contains(hull[i]) && points.contains(next) && points.contains(third));
            lemma_listed(points, hull[i], next);
            lemma_listed(points, hull[i], third);
            lemma_turn_exact(hull[i], next, third);
        }
    }
}

} // verus!
