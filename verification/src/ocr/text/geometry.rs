//! Plane geometry on single-precision coordinates: hulls, enclosing rectangles and
//! the outward expansion of quadrilaterals.
//!
//! Every function rounds at each step as binary32 arithmetic does, so the
//! specifications name the operations in their order.
use crate::single::Single;
use vstd::arithmetic::div_mod::*;
use vstd::prelude::*;

verus! {

/// The bit pattern of `1e-6`: edges shorter than this have no direction.
pub const SHORTEST_EDGE: u32 = 0x3586_37bd;

/// The bit pattern of `1e-8`: directions with a smaller cross product are parallel.
pub const PARALLEL: u32 = 0x322b_cc77;

/// The bit pattern of two.
pub const TWO: u32 = 0x4000_0000;

/// A point of the plane.
pub type Point = (Single, Single);

/// Four corners in order.
pub type Quad = [Point; 4];

/// Zero.
pub open spec fn zero() -> Single {
    Single { bits: 0 }
}

/// The origin.
pub open spec fn origin() -> Point {
    (zero(), zero())
}

/// The smallest of the values, positive infinity where there is none.
pub open spec fn least(values: Seq<Single>) -> Single
    decreases values.len(),
{
    if values.len() == 0 {
        Single { bits: crate::single::INFINITY }
    } else {
        Single::smaller(least(values.drop_last()), values.last())
    }
}

/// The largest of the values, negative infinity where there is none.
pub open spec fn greatest(values: Seq<Single>) -> Single
    decreases values.len(),
{
    if values.len() == 0 {
        Single { bits: crate::single::NEG_INFINITY }
    } else {
        Single::larger(greatest(values.drop_last()), values.last())
    }
}

/// The smallest and the largest of some values are numbers. Every value that is a number lies
/// between them, and each is one of the values unless it is infinite.
pub proof fn lemma_extremes(values: Seq<Single>)
    ensures
        !least(values).nan(),
        !greatest(values).nan(),
        forall|i: int|
            0 <= i < values.len() && !(#[trigger] values[i]).nan() ==> least(values).at_most(
                values[i],
            ) && values[i].at_most(greatest(values)),
        least(values).bits == crate::single::INFINITY || values.contains(least(values)),
        greatest(values).bits == crate::single::NEG_INFINITY || values.contains(greatest(values)),
    decreases values.len(),
{
    if values.len() > 0 {
        let rest: Seq<Single> = values.drop_last();
        let n: int = rest.len() as int;
        lemma_extremes(rest);
        assert forall|i: int| 0 <= i < values.len() && !(#[trigger] values[i]).nan() implies least(
            values,
        ).at_most(values[i]) && values[i].at_most(greatest(values)) by {
            if i < n {
                assert(rest[i] == values[i]);
            }
        }
        assert forall|x: Single| rest.contains(x) implies #[trigger] values.contains(x) by {
            let k: int = choose|k: int| 0 <= k < rest.len() && rest[k] == x;
            assert(values[k] == x);
        }
        assert(values.contains(values[n]));
    }
}

/// The smallest of the values, positive infinity where there is none.
pub fn minf(values: &[Single]) -> (r: Single)
    ensures
        r == least(values@),
{
    let mut r: Single = Single::from_bits(crate::single::INFINITY);
    let mut i: usize = 0;
    assert(values@.take(0) =~= Seq::<Single>::empty());
    while i < values.len()
        invariant
            i <= values.len(),
            r == least(values@.take(i as int)),
        decreases values.len() - i,
    {
        assert(values@.take(i + 1).drop_last() =~= values@.take(i as int));
        r = r.min(values[i]);
        i = i + 1;
    }
    assert(values@.take(i as int) =~= values@);
    r
}

/// The largest of the values, negative infinity where there is none.
pub fn maxf(values: &[Single]) -> (r: Single)
    ensures
        r == greatest(values@),
{
    let mut r: Single = Single::from_bits(crate::single::NEG_INFINITY);
    let mut i: usize = 0;
    assert(values@.take(0) =~= Seq::<Single>::empty());
    while i < values.len()
        invariant
            i <= values.len(),
            r == greatest(values@.take(i as int)),
        decreases values.len() - i,
    {
        assert(values@.take(i + 1).drop_last() =~= values@.take(i as int));
        r = r.max(values[i]);
        i = i + 1;
    }
    assert(values@.take(i as int) =~= values@);
    r
}

/// Which way the path `o`, `a`, `b` turns at `a`: positive to the left.
pub open spec fn turn(o: Point, a: Point, b: Point) -> Single {
    Single::difference(
        Single::product(Single::difference(a.0, o.0), Single::difference(b.1, o.1)),
        Single::product(Single::difference(a.1, o.1), Single::difference(b.0, o.0)),
    )
}

/// Which way the path `o`, `a`, `b` turns at `a`: positive to the left.
pub fn cross(o: Point, a: Point, b: Point) -> (r: Single)
    ensures
        r == turn(o, a, b),
{
    a.0.minus(o.0).times(b.1.minus(o.1)).minus(a.1.minus(o.1).times(b.0.minus(o.0)))
}

/// The keys by which points are sorted: first by `x`, then by `y`.
pub open spec fn point_keys(points: Seq<Point>) -> Seq<(i64, i64)> {
    points.map_values(|p: Point| (p.0.key() as i64, p.1.key() as i64))
}

/// The points in order of `x`, then `y`.
pub open spec fn sorted_points(points: Seq<Point>) -> Seq<Point> {
    crate::order::stable_order_of(point_keys(points)).map_values(|i: usize| points[i as int])
}

/// The two points have equal coordinates; the two zeros are equal.
pub open spec fn same_place(a: Point, b: Point) -> bool {
    a.0.key() == b.0.key() && a.1.key() == b.1.key()
}

/// The points without those that repeat the one before.
pub open spec fn without_repeats(points: Seq<Point>) -> Seq<Point>
    decreases points.len(),
{
    if points.len() == 0 {
        Seq::empty()
    } else {
        let rest = without_repeats(points.drop_last());
        if rest.len() > 0 && same_place(rest.last(), points.last()) {
            rest
        } else {
            rest.push(points.last())
        }
    }
}

/// The chain with `p` at its end, after dropping the end points at which the path to
/// `p` would not turn left, down to `kept` points.
pub open spec fn settled(chain: Seq<Point>, kept: nat, p: Point) -> Seq<Point>
    decreases chain.len(),
{
    if chain.len() > kept && chain.len() >= 2 && turn(
        chain[chain.len() - 2],
        chain[chain.len() - 1],
        p,
    ).at_most(zero()) {
        settled(chain.drop_last(), kept, p)
    } else {
        chain.push(p)
    }
}

/// The chain after taking in the points one by one.
pub open spec fn chained(chain: Seq<Point>, kept: nat, points: Seq<Point>) -> Seq<Point>
    decreases points.len(),
{
    if points.len() == 0 {
        chain
    } else {
        settled(chained(chain, kept, points.drop_last()), kept, points.last())
    }
}

/// The hull of points that are sorted and distinct: the chain below from left to right,
/// then the chain above back to the start, which is not repeated.
pub open spec fn hull_of_sorted(points: Seq<Point>) -> Seq<Point> {
    if points.len() <= 1 {
        points
    } else {
        let lower = chained(Seq::empty(), 1, points);
        chained(lower, lower.len(), points.drop_last().reverse()).drop_last()
    }
}

/// The corners of the convex hull, counterclockwise.
pub open spec fn hull_of(points: Seq<Point>) -> Seq<Point> {
    hull_of_sorted(without_repeats(sorted_points(points)))
}

/// No coordinate is "not a number".
pub open spec fn ordered(points: Seq<Point>) -> bool {
    forall|i: int|
        0 <= i < points.len() ==> !(#[trigger] points[i]).0.nan() && !points[i].1.nan()
}

/// Taking a point in leaves a chain of more than `kept` points.
pub proof fn lemma_settled_length(chain: Seq<Point>, kept: nat, p: Point)
    ensures
        settled(chain, kept, p).len() >= 1,
        chain.len() >= kept ==> settled(chain, kept, p).len() > kept,
    decreases chain.len(),
{
    if chain.len() > kept && chain.len() >= 2 && turn(
        chain[chain.len() - 2],
        chain[chain.len() - 1],
        p,
    ).at_most(zero()) {
        lemma_settled_length(chain.drop_last(), kept, p);
    }
}

/// Takes one point into the chain.
fn settle(chain: &mut Vec<Point>, kept: usize, p: Point)
    requires
        kept >= 1,
    ensures
        final(chain)@ == settled(old(chain)@, kept as nat, p),
        final(chain).len() >= 1,
        old(chain).len() >= kept ==> final(chain).len() > kept,
{
    let ghost target: Seq<Point> = settled(chain@, kept as nat, p);
    proof {
        lemma_settled_length(chain@, kept as nat, p);
    }
    while chain.len() > kept && cross(chain[chain.len() - 2], chain[chain.len() - 1], p).le(
        Single::from_bits(0),
    )
        invariant
            kept >= 1,
            settled(chain@, kept as nat, p) == target,
        ensures
            chain@.push(p) == target,
        decreases chain.len(),
    {
        let ghost before: Seq<Point> = chain@;
        chain.pop();
        assert(chain@ =~= before.drop_last());
    }
    chain.push(p);
}

/// The points in order of `x`, then `y`, without repeats.
fn sort_points(points: &[Point]) -> (r: Vec<Point>)
    requires
        ordered(points@),
    ensures
        r@ == without_repeats(sorted_points(points@)),
{
    let mut keys: Vec<(i64, i64)> = Vec::new();
    let mut i: usize = 0;
    while i < points.len()
        invariant
            i <= points.len(),
            ordered(points@),
            keys@ =~= point_keys(points@).take(i as int),
        decreases points.len() - i,
    {
        keys.push((points[i].0.order_key(), points[i].1.order_key()));
        i = i + 1;
    }
    assert(keys@ =~= point_keys(points@));
    let order: Vec<usize> = crate::order::stable_order(&keys);
    let ghost all: Seq<Point> = sorted_points(points@);
    let mut r: Vec<Point> = Vec::new();
    let mut k: usize = 0;
    assert(all.take(0) =~= Seq::<Point>::empty());
    while k < order.len()
        invariant
            k <= order.len(),
            ordered(points@),
            crate::order::is_stable_order(point_keys(points@), order@),
            all == order@.map_values(|i: usize| points@[i as int]),
            r@ == without_repeats(all.take(k as int)),
            ordered(r@),
        decreases order.len() - k,
    {
        let p: Point = points[order[k]];
        assert(all.take(k + 1).drop_last() =~= all.take(k as int));
        assert(all.take(k + 1).last() == p);
        if r.len() == 0 || r[r.len() - 1].0.order_key() != p.0.order_key() || r[r.len()
            - 1].1.order_key() != p.1.order_key() {
            r.push(p);
        }
        k = k + 1;
    }
    assert(all.take(k as int) =~= all);
    r
}

/// The corners of the convex hull, counterclockwise, without repeating the first.
///
/// Turns are rounded. Of pixels of an image that is not too large they are exact, and the
/// corners are the convex hull.
pub fn convex_hull(points: &[Point]) -> (hull: Vec<Point>)
    requires
        ordered(points@),
    ensures
        hull@ == hull_of(points@),
        crate::ocr::text::hull::all_on_grid(points@) ==> crate::ocr::text::hull::is_hull(
            hull@,
            points@,
        ),
{
    proof {
        assert(points.len() <= usize::MAX);
        if crate::ocr::text::hull::all_on_grid(points@) {
            crate::ocr::text::hull::lemma_hull(points@);
        }
    }
    let pts: Vec<Point> = sort_points(points);
    if pts.len() <= 1 {
        return pts;
    }
    let mut hull: Vec<Point> = Vec::new();
    let mut i: usize = 0;
    assert(pts@.take(0) =~= Seq::<Point>::empty());
    while i < pts.len()
        invariant
            i <= pts.len(),
            hull@ == chained(Seq::empty(), 1, pts@.take(i as int)),
            i >= 1 ==> hull.len() >= 1,
            i >= 2 ==> hull.len() >= 2,
        decreases pts.len() - i,
    {
        assert(pts@.take(i + 1).drop_last() =~= pts@.take(i as int));
        settle(&mut hull, 1, pts[i]);
        i = i + 1;
    }
    assert(pts@.take(i as int) =~= pts@);
    let kept: usize = hull.len();
    let ghost lower: Seq<Point> = hull@;
    let ghost back: Seq<Point> = pts@.drop_last().reverse();
    let mut j: usize = pts.len() - 1;
    assert(back.take(0) =~= Seq::<Point>::empty());
    while j > 0
        invariant
            j < pts.len(),
            kept >= 2,
            kept == lower.len(),
            back == pts@.drop_last().reverse(),
            hull@ == chained(lower, kept as nat, back.take(pts.len() - 1 - j)),
            hull.len() >= kept,
        decreases j,
    {
        j = j - 1;
        let ghost done: int = pts.len() - 1 - j;
        assert(back.take(done).drop_last() =~= back.take(done - 1));
        assert(back.take(done).last() == pts@[j as int]);
        settle(&mut hull, kept, pts[j]);
    }
    assert(back.take(pts.len() - 1) =~= back);
    let ghost whole: Seq<Point> = hull@;
    hull.pop();
    assert(hull@ =~= whole.drop_last());
    hull
}

/// The vector from one point to another.
pub open spec fn offset(from: Point, to: Point) -> Point {
    (Single::difference(to.0, from.0), Single::difference(to.1, from.1))
}

/// The length of a vector.
pub open spec fn length(v: Point) -> Single {
    Single::hypotenuse(v.0, v.1)
}

/// The vector divided by its length.
#[verifier::opaque]
pub open spec fn direction(v: Point) -> Point {
    (Single::quotient(v.0, length(v)), Single::quotient(v.1, length(v)))
}

/// The direction turned left by a quarter.
pub open spec fn turned(d: Point) -> Point {
    (d.1.negated(), d.0)
}

/// How far the point lies along the direction.
pub open spec fn along(p: Point, d: Point) -> Single {
    Single::sum(Single::product(p.0, d.0), Single::product(p.1, d.1))
}

/// How far each point lies along the direction.
pub open spec fn spread(points: Seq<Point>, d: Point) -> Seq<Single> {
    points.map_values(|p: Point| along(p, d))
}

/// The point at distance `u` along `d` and `v` along the direction to its left.
pub open spec fn placed(u: Single, v: Single, d: Point) -> Point {
    let n = turned(d);
    (
        Single::sum(Single::product(u, d.0), Single::product(v, n.0)),
        Single::sum(Single::product(u, d.1), Single::product(v, n.1)),
    )
}

/// The corners of the rectangle with a side along `d` that encloses the points.
#[verifier::opaque]
pub open spec fn enclosing(points: Seq<Point>, d: Point) -> Seq<Point> {
    let us = spread(points, d);
    let vs = spread(points, turned(d));
    seq![
        placed(least(us), least(vs), d),
        placed(greatest(us), least(vs), d),
        placed(greatest(us), greatest(vs), d),
        placed(least(us), greatest(vs), d),
    ]
}

/// The area of the rectangle with a side along `d` that encloses the points.
#[verifier::opaque]
pub open spec fn enclosing_area(points: Seq<Point>, d: Point) -> Single {
    let us = spread(points, d);
    let vs = spread(points, turned(d));
    Single::product(
        Single::difference(greatest(us), least(us)),
        Single::difference(greatest(vs), least(vs)),
    )
}

/// The edge of the hull that starts at corner `i`.
#[verifier::opaque]
pub open spec fn edge(hull: Seq<Point>, i: int) -> Point {
    offset(hull[i], hull[(i + 1) % hull.len() as int])
}

/// The corner after the last is the first.
proof fn lemma_next(i: int, n: int)
    requires
        0 <= i < n,
    ensures
        (i + 1) % n == (if i + 1 == n { 0 } else { i + 1 }),
{
    if i + 1 == n {
        lemma_mod_self_0(n);
    } else {
        lemma_small_mod((i + 1) as nat, n as nat);
    }
}

/// The smallest enclosing rectangle with a side along one of the first `n` edges: its
/// area and its corners. The first of equal areas counts; edges without a length
/// and areas that are not below infinity do not.
pub open spec fn tightest(hull: Seq<Point>, n: nat) -> (Single, Seq<Point>)
    decreases n,
{
    if n == 0 {
        (Single { bits: crate::single::INFINITY }, seq![origin(), origin(), origin(), origin()])
    } else {
        let rest = tightest(hull, (n - 1) as nat);
        let e = edge(hull, n - 1);
        let area = enclosing_area(hull, direction(e));
        if length(e).below(Single { bits: SHORTEST_EDGE }) || !area.below(rest.0) {
            rest
        } else {
            (area, enclosing(hull, direction(e)))
        }
    }
}

/// Of the rectangles along the edges that are long enough to have a direction, none is smaller
/// than the one that is chosen, and it is along one of them unless none has a finite area.
pub proof fn lemma_tightest(hull: Seq<Point>, n: nat)
    ensures
        !tightest(hull, n).0.nan(),
        forall|j: int|
            0 <= j < n && !length(#[trigger] edge(hull, j)).below(Single { bits: SHORTEST_EDGE })
                ==> !enclosing_area(hull, direction(edge(hull, j))).below(tightest(hull, n).0),
        tightest(hull, n).0.bits == crate::single::INFINITY || exists|j: int|
            {
                &&& 0 <= j < n
                &&& !length(#[trigger] edge(hull, j)).below(Single { bits: SHORTEST_EDGE })
                &&& tightest(hull, n) == (
                    enclosing_area(hull, direction(edge(hull, j))),
                    enclosing(hull, direction(edge(hull, j))),
                )
            },
    decreases n,
{
    if n > 0 {
        lemma_tightest(hull, (n - 1) as nat);
        let rest: (Single, Seq<Point>) = tightest(hull, (n - 1) as nat);
        if tightest(hull, n) == rest && rest.0.bits != crate::single::INFINITY {
            let j: int = choose|j: int|
                {
                    &&& 0 <= j < n - 1
                    &&& !length(#[trigger] edge(hull, j)).below(Single { bits: SHORTEST_EDGE })
                    &&& rest == (
                        enclosing_area(hull, direction(edge(hull, j))),
                        enclosing(hull, direction(edge(hull, j))),
                    )
                };
            assert(!length(edge(hull, j)).below(Single { bits: SHORTEST_EDGE }));
        } else if tightest(hull, n) != rest {
            assert(!length(edge(hull, n - 1)).below(Single { bits: SHORTEST_EDGE }));
        }
    }
}

/// Along the direction, and along the one to its left, every point lies between the two sides
/// of the rectangle that encloses the points. What is not a number lies nowhere.
pub open spec fn between_sides(points: Seq<Point>, d: Point) -> bool {
    let us = spread(points, d);
    let vs = spread(points, turned(d));
    forall|i: int|
        0 <= i < points.len() ==> {
            let u = along(#[trigger] points[i], d);
            let v = along(points[i], turned(d));
            &&& !u.nan() ==> least(us).at_most(u) && u.at_most(greatest(us))
            &&& !v.nan() ==> least(vs).at_most(v) && v.at_most(greatest(vs))
        }
}

/// The edge of the hull that starts at corner `j` is long enough to have a direction.
pub open spec fn directed(hull: Seq<Point>, j: int) -> bool {
    0 <= j < hull.len() && !length(edge(hull, j)).below(Single { bits: SHORTEST_EDGE })
}

/// The rectangle lies along the edge of the hull that starts at corner `j`, holds the corners
/// of the hull, and is no larger than the rectangle along any other edge.
pub open spec fn smallest_along(hull: Seq<Point>, quad: Seq<Point>, j: int) -> bool {
    let d = direction(edge(hull, j));
    &&& directed(hull, j)
    &&& quad == enclosing(hull, d)
    &&& between_sides(hull, d)
    &&& forall|i: int| #[trigger]
        directed(hull, i) ==> !enclosing_area(hull, direction(edge(hull, i))).below(
            enclosing_area(hull, d),
        )
}

/// The rectangle is the smallest along an edge of the hull, and holds its corners.
pub open spec fn is_smallest(hull: Seq<Point>, quad: Seq<Point>) -> bool {
    exists|j: int| #[trigger] smallest_along(hull, quad, j)
}

/// A rectangle that encloses points has them between its sides.
pub proof fn lemma_between_sides(points: Seq<Point>, d: Point)
    ensures
        between_sides(points, d),
{
    let us: Seq<Single> = spread(points, d);
    let vs: Seq<Single> = spread(points, turned(d));
    lemma_extremes(us);
    lemma_extremes(vs);
    assert forall|i: int| 0 <= i < points.len() implies {
        let u = along(#[trigger] points[i], d);
        let v = along(points[i], turned(d));
        &&& !u.nan() ==> least(us).at_most(u) && u.at_most(greatest(us))
        &&& !v.nan() ==> least(vs).at_most(v) && v.at_most(greatest(vs))
    } by {
        assert(us[i] == along(points[i], d) && vs[i] == along(points[i], turned(d)));
    }
}

/// The rectangle that is chosen is the smallest, unless none has a finite area.
pub proof fn lemma_smallest_rectangle(hull: Seq<Point>)
    ensures
        tightest(hull, hull.len()).0.bits == crate::single::INFINITY || is_smallest(
            hull,
            tightest(hull, hull.len()).1,
        ),
{
    let n: nat = hull.len();
    lemma_tightest(hull, n);
    if tightest(hull, n).0.bits != crate::single::INFINITY {
        let j: int = choose|j: int|
            {
                &&& 0 <= j < n
                &&& !length(#[trigger] edge(hull, j)).below(Single { bits: SHORTEST_EDGE })
                &&& tightest(hull, n) == (
                    enclosing_area(hull, direction(edge(hull, j))),
                    enclosing(hull, direction(edge(hull, j))),
                )
            };
        lemma_between_sides(hull, direction(edge(hull, j)));
        assert(smallest_along(hull, tightest(hull, n).1, j));
    }
}

/// The corners of the smallest rectangle around a hull that lies along one of its edges.
pub open spec fn quad_around(hull: Seq<Point>) -> Seq<Point> {
    if hull.len() == 0 {
        seq![origin(), origin(), origin(), origin()]
    } else if hull.len() < 3 {
        seq![hull.first(), hull.last(), hull.last(), hull.first()]
    } else {
        tightest(hull, hull.len()).1
    }
}

/// The least and the greatest distance of the points along the direction.
fn span(points: &Vec<Point>, d: Point) -> (r: (Single, Single))
    ensures
        r.0 == least(spread(points@, d)),
        r.1 == greatest(spread(points@, d)),
{
    let ghost all: Seq<Single> = spread(points@, d);
    let mut low: Single = Single::from_bits(crate::single::INFINITY);
    let mut high: Single = Single::from_bits(crate::single::NEG_INFINITY);
    let mut i: usize = 0;
    assert(all.take(0) =~= Seq::<Single>::empty());
    while i < points.len()
        invariant
            i <= points.len(),
            all == spread(points@, d),
            low == least(all.take(i as int)),
            high == greatest(all.take(i as int)),
        decreases points.len() - i,
    {
        assert(all.take(i + 1).drop_last() =~= all.take(i as int));
        let p: Point = points[i];
        let u: Single = p.0.times(d.0).plus(p.1.times(d.1));
        assert(all.take(i + 1).last() == u);
        low = low.min(u);
        high = high.max(u);
        i = i + 1;
    }
    assert(all.take(i as int) =~= all);
    (low, high)
}

/// The point at distance `u` along `d` and `v` along the direction to its left.
fn place(u: Single, v: Single, d: Point) -> (r: Point)
    ensures
        r == placed(u, v, d),
{
    let n: Point = (d.1.neg(), d.0);
    (u.times(d.0).plus(v.times(n.0)), u.times(d.1).plus(v.times(n.1)))
}

/// The enclosing rectangle along the edge of the hull that starts at corner `i`: its area
/// and its corners. `None` where the edge has no direction.
fn rectangle_along(hull: &Vec<Point>, i: usize) -> (r: Option<(Single, Quad)>)
    requires
        i < hull.len(),
    ensures
        r is None <==> length(edge(hull@, i as int)).below(Single { bits: SHORTEST_EDGE }),
        r matches Some(found) ==> {
            let d = direction(edge(hull@, i as int));
            &&& found.0 == enclosing_area(hull@, d)
            &&& found.1@ == enclosing(hull@, d)
        },
{
    let a: Point = hull[i];
    let b: Point = hull[if i + 1 == hull.len() { 0 } else { i + 1 }];
    proof {
        lemma_next(i as int, hull.len() as int);
        reveal(edge);
        reveal(direction);
        reveal(enclosing);
        reveal(enclosing_area);
    }
    let dx: Single = b.0.minus(a.0);
    let dy: Single = b.1.minus(a.1);
    let len: Single = dx.hypot(dy);
    if len.lt(Single::from_bits(SHORTEST_EDGE)) {
        return None;
    }
    let d: Point = (dx.over(len), dy.over(len));
    let su: (Single, Single) = span(hull, d);
    let sv: (Single, Single) = span(hull, (d.1.neg(), d.0));
    let area: Single = su.1.minus(su.0).times(sv.1.minus(sv.0));
    let quad: Quad = [
        place(su.0, sv.0, d),
        place(su.1, sv.0, d),
        place(su.1, sv.1, d),
        place(su.0, sv.1, d),
    ];
    assert(quad@ =~= enclosing(hull@, d));
    Some((area, quad))
}

/// The smallest rectangle around the points that lies along an edge of their hull. Around
/// pixels there is no smaller one along any direction, up to rounding.
pub fn min_area_quad(points: &[Point]) -> (quad: Quad)
    requires
        ordered(points@),
    ensures
        quad@ == quad_around(hull_of(points@)),
        hull_of(points@).len() >= 3 ==> tightest(hull_of(points@), hull_of(points@).len()).0.bits
            == crate::single::INFINITY || is_smallest(hull_of(points@), quad@),
{
    proof {
        lemma_smallest_rectangle(hull_of(points@));
    }
    let hull: Vec<Point> = convex_hull(points);
    let n: usize = hull.len();
    let zero: Single = Single::from_bits(0);
    let o: Point = (zero, zero);
    if n == 0 {
        let quad: Quad = [o, o, o, o];
        assert(quad@ =~= quad_around(hull@));
        return quad;
    }
    if n < 3 {
        let a: Point = hull[0];
        let b: Point = hull[n - 1];
        let quad: Quad = [a, b, b, a];
        assert(quad@ =~= quad_around(hull@));
        return quad;
    }
    let mut best_area: Single = Single::from_bits(crate::single::INFINITY);
    let mut best: Quad = [o, o, o, o];
    let mut i: usize = 0;
    assert(best@ =~= tightest(hull@, 0).1);
    while i < n
        invariant
            i <= n,
            n == hull.len(),
            best_area == tightest(hull@, i as nat).0,
            best@ == tightest(hull@, i as nat).1,
        decreases n - i,
    {
        match rectangle_along(&hull, i) {
            Some((area, quad)) => {
                if area.lt(best_area) {
                    best_area = area;
                    best = quad;
                }
            },
            None => {},
        }
        i = i + 1;
    }
    best
}

/// The length of the side of a quadrilateral that starts at corner `i`.
pub open spec fn side(quad: Seq<Point>, i: int) -> Single {
    length(edge(quad, i))
}

/// The length of the shortest side.
pub open spec fn shortest_side(quad: Seq<Point>) -> Single {
    least(seq![side(quad, 0), side(quad, 1), side(quad, 2), side(quad, 3)])
}

/// The sum of the four side lengths, in order.
#[verifier::opaque]
pub open spec fn perimeter(quad: Seq<Point>) -> Single {
    Single::sum(
        Single::sum(Single::sum(side(quad, 0), side(quad, 1)), side(quad, 2)),
        side(quad, 3),
    )
}

/// The length of the side that starts at corner `i`.
fn side_of(quad: &Quad, i: usize) -> (r: Single)
    requires
        i < 4,
    ensures
        r == side(quad@, i as int),
{
    let a: Point = quad[i];
    let b: Point = quad[if i == 3 { 0 } else { i + 1 }];
    proof {
        reveal(edge);
        lemma_next(i as int, 4);
    }
    b.0.minus(a.0).hypot(b.1.minus(a.1))
}

/// The length of the shortest side.
pub fn short_side(quad: &Quad) -> (r: Single)
    ensures
        r == shortest_side(quad@),
{
    let sides: [Single; 4] = [
        side_of(quad, 0),
        side_of(quad, 1),
        side_of(quad, 2),
        side_of(quad, 3),
    ];
    let ghost want: Seq<Single> = seq![
        side(quad@, 0),
        side(quad@, 1),
        side(quad@, 2),
        side(quad@, 3),
    ];
    assert(sides@ =~= want);
    minf(sides.as_slice())
}

/// Twice the signed area under the side that starts at corner `i`.
#[verifier::opaque]
pub open spec fn wedge(quad: Seq<Point>, i: int) -> Single {
    let (a, b) = (quad[i], quad[(i + 1) % quad.len() as int]);
    Single::difference(Single::product(a.0, b.1), Single::product(b.0, a.1))
}

/// The area of a quadrilateral, positive where its corners run counterclockwise.
#[verifier::opaque]
pub open spec fn signed_area_of(quad: Seq<Point>) -> Single {
    Single::quotient(
        Single::sum(
            Single::sum(Single::sum(wedge(quad, 0), wedge(quad, 1)), wedge(quad, 2)),
            wedge(quad, 3),
        ),
        Single { bits: TWO },
    )
}

fn wedge_of(quad: &Quad, i: usize) -> (r: Single)
    requires
        i < 4,
    ensures
        r == wedge(quad@, i as int),
{
    let a: Point = quad[i];
    let b: Point = quad[if i == 3 { 0 } else { i + 1 }];
    proof {
        reveal(wedge);
        lemma_next(i as int, 4);
    }
    a.0.times(b.1).minus(b.0.times(a.1))
}

/// The area of a quadrilateral, positive where its corners run counterclockwise.
pub fn signed_area(quad: &Quad) -> (r: Single)
    ensures
        r == signed_area_of(quad@),
{
    proof {
        reveal(signed_area_of);
    }
    wedge_of(quad, 0).plus(wedge_of(quad, 1)).plus(wedge_of(quad, 2)).plus(
        wedge_of(quad, 3),
    ).over(Single::from_bits(TWO))
}

/// The quadrilateral with its corners counterclockwise.
pub open spec fn counterclockwise(quad: Seq<Point>) -> Seq<Point> {
    if signed_area_of(quad).below(zero()) {
        seq![quad[0], quad[3], quad[2], quad[1]]
    } else {
        quad
    }
}

/// How far the sides move outward: area times `ratio` over the perimeter.
#[verifier::opaque]
pub open spec fn reach(quad: Seq<Point>, ratio: Single) -> Single {
    Single::quotient(
        Single::product(signed_area_of(quad).unsigned(), ratio),
        perimeter(quad),
    )
}

/// The start of side `i` after it moved outward by `d`.
#[verifier::opaque]
pub open spec fn pushed(quad: Seq<Point>, i: int, d: Single) -> Point {
    let e = edge(quad, i);
    let len = length(e);
    (
        Single::sum(quad[i].0, Single::product(Single::quotient(e.1, len), d)),
        Single::sum(quad[i].1, Single::product(Single::quotient(e.0.negated(), len), d)),
    )
}

/// The sine of the angle between two directions.
#[verifier::opaque]
pub open spec fn sine(a: Point, b: Point) -> Single {
    Single::difference(Single::product(a.0, b.1), Single::product(a.1, b.0))
}

/// Where the line through `p1` along `d1` meets the line through `p2` along `d2`.
#[verifier::opaque]
pub open spec fn meeting(p1: Point, d1: Point, p2: Point, d2: Point) -> Point {
    let t = Single::quotient(
        Single::difference(
            Single::product(Single::difference(p2.0, p1.0), d2.1),
            Single::product(Single::difference(p2.1, p1.1), d2.0),
        ),
        sine(d1, d2),
    );
    (Single::sum(p1.0, Single::product(t, d1.0)), Single::sum(p1.1, Single::product(t, d1.1)))
}

/// The corner where the moved sides before and after corner `i` meet.
#[verifier::opaque]
pub open spec fn moved_corner(quad: Seq<Point>, i: int, d: Single) -> Point {
    let before = (i + 3) % 4;
    meeting(
        pushed(quad, before, d),
        direction(edge(quad, before)),
        pushed(quad, i, d),
        direction(edge(quad, i)),
    )
}

/// The sides before and after corner `i` are too nearly parallel to meet.
#[verifier::opaque]
pub open spec fn parallel_at(quad: Seq<Point>, i: int) -> bool {
    sine(direction(edge(quad, (i + 3) % 4)), direction(edge(quad, i))).unsigned().below(
        Single { bits: PARALLEL },
    )
}

/// The sides of the quadrilateral can be moved outward: it has an extent, each side has
/// a direction, and neighbouring sides are not parallel.
#[verifier::opaque]
pub open spec fn movable(quad: Seq<Point>) -> bool {
    &&& !perimeter(quad).below(Single { bits: SHORTEST_EDGE })
    &&& forall|i: int| 0 <= i < 4 ==> !(#[trigger] side(quad, i)).below(Single { bits: SHORTEST_EDGE })
    &&& forall|i: int| 0 <= i < 4 ==> !#[trigger] parallel_at(quad, i)
}

/// The quadrilateral with each side moved outward; unchanged where that cannot be done.
pub open spec fn unclipped(quad: Seq<Point>, ratio: Single) -> Seq<Point> {
    let q = counterclockwise(quad);
    let d = reach(q, ratio);
    if movable(q) {
        seq![moved_corner(q, 0, d), moved_corner(q, 1, d), moved_corner(q, 2, d), moved_corner(q, 3, d)]
    } else {
        quad
    }
}

/// Side `i` of a quadrilateral: its length, its start moved outward by `d`, and its direction.
fn push_side(quad: &Quad, i: usize, d: Single) -> (r: (Single, Point, Point))
    requires
        i < 4,
    ensures
        r.0 == side(quad@, i as int),
        r.1 == pushed(quad@, i as int, d),
        r.2 == direction(edge(quad@, i as int)),
{
    proof {
        reveal(pushed);
        reveal(direction);
        reveal(edge);
    }
    let a: Point = quad[i];
    let b: Point = quad[if i == 3 { 0 } else { i + 1 }];
    proof {
        lemma_next(i as int, 4);
    }
    let dx: Single = b.0.minus(a.0);
    let dy: Single = b.1.minus(a.1);
    let len: Single = dx.hypot(dy);
    let nx: Single = dy.over(len);
    let ny: Single = dx.neg().over(len);
    (len, (a.0.plus(nx.times(d)), a.1.plus(ny.times(d))), (dx.over(len), dy.over(len)))
}

/// Where two lines meet, `None` where they are too nearly parallel.
fn meet(p1: Point, d1: Point, p2: Point, d2: Point) -> (r: Option<Point>)
    ensures
        r is None <==> sine(d1, d2).unsigned().below(Single { bits: PARALLEL }),
        r matches Some(p) ==> p == meeting(p1, d1, p2, d2),
{
    proof {
        reveal(meeting);
        reveal(sine);
    }
    let s: Single = d1.0.times(d2.1).minus(d1.1.times(d2.0));
    if s.abs().lt(Single::from_bits(PARALLEL)) {
        return None;
    }
    let t: Single = p2.0.minus(p1.0).times(d2.1).minus(p2.1.minus(p1.1).times(d2.0)).over(s);
    Some((p1.0.plus(t.times(d1.0)), p1.1.plus(t.times(d1.1))))
}

/// The sides of a quadrilateral moved outward by `d`: their starts and their directions.
/// `None` where a side has no direction.
fn push_sides(q: &Quad, d: Single) -> (r: Option<(Quad, Quad)>)
    ensures
        r is None <==> exists|i: int|
            0 <= i < 4 && (#[trigger] side(q@, i)).below(Single { bits: SHORTEST_EDGE }),
        r matches Some(s) ==> forall|i: int|
            0 <= i < 4 ==> #[trigger] s.0@[i] == pushed(q@, i, d),
        r matches Some(s) ==> forall|i: int|
            0 <= i < 4 ==> #[trigger] s.1@[i] == direction(edge(q@, i)),
{
    let tiny: Single = Single::from_bits(SHORTEST_EDGE);
    let a: (Single, Point, Point) = push_side(q, 0, d);
    let b: (Single, Point, Point) = push_side(q, 1, d);
    let c: (Single, Point, Point) = push_side(q, 2, d);
    let e: (Single, Point, Point) = push_side(q, 3, d);
    if a.0.lt(tiny) || b.0.lt(tiny) || c.0.lt(tiny) || e.0.lt(tiny) {
        None
    } else {
        Some(([a.1, b.1, c.1, e.1], [a.2, b.2, c.2, e.2]))
    }
}

/// The corners of a quadrilateral after each side moved outward by `d`; `None` where a side
/// has no direction or neighbouring sides are parallel.
fn move_sides(q: &Quad, d: Single) -> (r: Option<Quad>)
    ensures
        r is Some <==> {
            &&& forall|i: int|
                0 <= i < 4 ==> !(#[trigger] side(q@, i)).below(Single { bits: SHORTEST_EDGE })
            &&& forall|i: int| 0 <= i < 4 ==> !#[trigger] parallel_at(q@, i)
        },
        r matches Some(out) ==> out@ == seq![
            moved_corner(q@, 0, d),
            moved_corner(q@, 1, d),
            moved_corner(q@, 2, d),
            moved_corner(q@, 3, d),
        ],
{
    proof {
        reveal(parallel_at);
        reveal(moved_corner);
    }
    let pushed_sides: Option<(Quad, Quad)> = push_sides(q, d);
    match pushed_sides {
        None => None,
        Some((s, w)) => {
            let c0: Option<Point> = meet(s[3], w[3], s[0], w[0]);
            let c1: Option<Point> = meet(s[0], w[0], s[1], w[1]);
            let c2: Option<Point> = meet(s[1], w[1], s[2], w[2]);
            let c3: Option<Point> = meet(s[2], w[2], s[3], w[3]);
            assert(c0 is None == parallel_at(q@, 0));
            assert(c1 is None == parallel_at(q@, 1));
            assert(c2 is None == parallel_at(q@, 2));
            assert(c3 is None == parallel_at(q@, 3));
            match (c0, c1, c2, c3) {
                (Some(p0), Some(p1), Some(p2), Some(p3)) => Some([p0, p1, p2, p3]),
                _ => None,
            }
        },
    }
}

/// Moves each side of a convex quadrilateral outward by area times `ratio` over perimeter.
pub fn unclip(quad: &Quad, ratio: Single) -> (r: Quad)
    ensures
        r@ == unclipped(quad@, ratio),
{
    proof {
        reveal(perimeter);
        reveal(movable);
        reveal(reach);
    }
    let q: Quad = if signed_area(quad).lt(Single::from_bits(0)) {
        [quad[0], quad[3], quad[2], quad[1]]
    } else {
        *quad
    };
    assert(q@ =~= counterclockwise(quad@));
    let area: Single = signed_area(&q).abs();
    let around: Single = side_of(&q, 0).plus(side_of(&q, 1)).plus(side_of(&q, 2)).plus(
        side_of(&q, 3),
    );
    if around.lt(Single::from_bits(SHORTEST_EDGE)) {
        return *quad;
    }
    let d: Single = area.times(ratio).over(around);
    match move_sides(&q, d) {
        None => *quad,
        Some(out) => out,
    }
}

} // verus!
