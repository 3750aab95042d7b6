//! The mean probability within a rectangle: over every pixel of it, and no other.
use crate::bounds::is_whole;
use crate::ocr::text::detection::{
    columns, corners, extents, masked_mean_of, masked_sum, quad_mask, quad_score_of, relative, rows,
    whole_span,
};
use crate::ocr::text::geometry::Point;
use crate::ocr::text::mean::{all_between, lemma_mean, total};
use crate::single::Single;
use vstd::arithmetic::power2::*;
use vstd::prelude::*;

verus! {

/// The values of a map under the nonzero pixels of a mask `width` wide at column `left` and
/// row `top`, row by row.
pub open spec fn uncovered(
    pred: Seq<Single>,
    pw: int,
    left: int,
    top: int,
    mask: Seq<u8>,
    width: int,
) -> Seq<Single> {
    Seq::new(mask.len(), |k: int| k).filter(|k: int| mask[k] != 0).map_values(
        |k: int| pred[(top + k / width) * pw + (left + k % width)],
    )
}

proof fn lemma_uncovered(
    pred: Seq<Single>,
    pw: int,
    left: int,
    top: int,
    mask: Seq<u8>,
    width: int,
    n: nat,
)
    requires
        n <= mask.len(),
    ensures
        ({
            let values = Seq::new(n, |k: int| k).filter(|k: int| mask[k] != 0).map_values(
                |k: int| pred[(top + k / width) * pw + (left + k % width)],
            );
            masked_sum(pred, pw, left, top, mask, width, n) == (total(values), values.len())
        }),
    decreases n,
{
    reveal(Seq::filter);
    let f = |k: int| pred[(top + k / width) * pw + (left + k % width)];
    let shown = |k: int| mask[k] != 0;
    let all: Seq<int> = Seq::new(n, |k: int| k);
    let values: Seq<Single> = all.filter(shown).map_values(f);
    if n > 0 {
        let before: Seq<int> = Seq::new((n - 1) as nat, |k: int| k);
        lemma_uncovered(pred, pw, left, top, mask, width, (n - 1) as nat);
        assert(all.drop_last() =~= before);
        assert(all.last() == n - 1);
        let rest: Seq<Single> = before.filter(shown).map_values(f);
        if mask[n - 1] != 0 {
            assert(values =~= rest.push(f(n - 1)));
            assert(values.drop_last() =~= rest);
            let k: int = n - 1;
            assert((top + k / width) * pw + left + k % width == (top + k / width) * pw + (left + k
                % width));
        } else {
            assert(values =~= rest);
        }
    } else {
        assert(values =~= Seq::<Single>::empty());
    }
}

/// The mean under a mask is the sum of the map's values under all of its nonzero pixels, row
/// by row, divided by how many these are, and zero where there are none. It lies between any
/// two bounds of these values, up to one part in `2^23` for each of them, and one unit.
pub proof fn lemma_masked_mean(
    pred: Seq<Single>,
    pw: int,
    left: int,
    top: int,
    mask: Seq<u8>,
    width: int,
    low: int,
    high: int,
)
    requires
        0 <= low <= high <= pow2(64 + 149),
    ensures
        ({
            let values = uncovered(pred, pw, left, top, mask, width);
            let n = values.len() as int;
            let mean = masked_mean_of(pred, pw, left, top, mask, width);
            &&& n == 0 ==> mean.bits == 0
            &&& n > 0 ==> mean == Single::quotient(total(values), Single::whole(n))
            &&& 0 < n <= 0x40_0000 && all_between(values, low, high) ==> {
                &&& mean.finite()
                &&& 0x80_0000 * mean.units() <= high * (0x80_0000 + n + 1) + 0x80_0000
                &&& 0x80_0000 * mean.units() + 0x80_0000 >= low * (0x80_0000 - n - 1)
            }
        }),
{
    lemma_uncovered(pred, pw, left, top, mask, width, mask.len());
    let values: Seq<Single> = uncovered(pred, pw, left, top, mask, width);
    let n: int = values.len() as int;
    if 0 < n <= 0x40_0000 && all_between(values, low, high) {
        lemma_mean(values, low, high);
    }
}

/// A number from zero to `2^24` is cut off and filled up to a whole number exactly.
proof fn lemma_whole_around(x: Single)
    requires
        x.finite(),
        0 <= x.units() <= 0x100_0000 * crate::single::unit(),
    ensures
        crate::bounds::is_whole(x.floored(), x.units() / (crate::single::unit() as int)),
        crate::bounds::is_whole(x.ceiled(), -((-x.units()) / (crate::single::unit() as int))),
{
    reveal(Single::floored);
    reveal(Single::ceiled);
    let u: int = crate::single::unit() as int;
    lemma_pow2_pos(149);
    let (a, b): (int, int) = (x.units() / u, (-x.units()) / u);
    let v: int = x.units();
    assert(0 <= a <= 0x100_0000 && -0x100_0000 <= b <= 0) by (nonlinear_arith)
        requires
            a == v / u,
            b == (-v) / u,
            0 <= v <= 0x100_0000 * u,
            u > 0,
    ;
    lemma_rounds_whole(x.negative(), a as nat);
    lemma_rounds_whole(x.negative(), (-b) as nat);
    crate::close::lemma_not_zero(x);
    if x.negative() {
        assert(v == 0);
        assert(a == 0 && b == 0) by (nonlinear_arith)
            requires
                a == v / u,
                b == (-v) / u,
                v == 0,
                u > 0,
        ;
        assert(0 * u == 0);
    }
}

proof fn lemma_rounds_whole(negative: bool, n: nat)
    requires
        n <= 0x100_0000,
    ensures
        ({
            let r = Single::rounded(negative, n * crate::single::unit(), 1);
            r.finite() && crate::single::size(r.units()) == n * crate::single::unit() && (
            !negative ==> r.units() >= 0)
        }),
{
    let u: nat = crate::single::unit();
    lemma_pow2_pos(149);
    lemma2_to64();
    lemma_pow2_adds(24, 149);
    let m: nat = crate::bounds::lemma_whole_on_scale(n);
    crate::single::lemma_nearest_step(m, 1);
    assert(0 <= n * u <= 0x100_0000 * u) by (nonlinear_arith)
        requires
            n <= 0x100_0000,
    ;
    crate::ocr::text::drawing::lemma_rounds_within(n * u, 1, 24);
    crate::bounds::lemma_rounded(negative, n * u, 1);
}

/// The whole part of a whole number.
proof fn lemma_whole_itself(x: Single, n: int)
    requires
        crate::bounds::is_whole(x, n),
        0 <= n <= 0x100_0000,
    ensures
        x.to_whole(i32::MIN as int, i32::MAX as int) == n,
{
    reveal(Single::to_whole);
    let u: int = crate::single::unit() as int;
    lemma_pow2_pos(149);
    let v: int = x.units();
    assert(v >= 0 && v / u == n) by (nonlinear_arith)
        requires
            v == n * u,
            n >= 0,
            u > 0,
    ;
    crate::close::lemma_not_zero(x);
}

/// A stretch on a map spans the columns from the last one that does not lie beyond its start
/// to the first one that its end does not lie beyond.
pub proof fn lemma_span(low: Single, high: Single, limit: int)
    requires
        1 <= limit <= 0x100_0000,
        low.finite(),
        high.finite(),
        0 <= low.units() <= high.units() <= (limit - 1) * crate::single::unit(),
    ensures
        ({
            let (a, b) = whole_span(low, high, limit);
            let u = crate::single::unit();
            &&& a * u <= low.units() < (a + 1) * u
            &&& (b - 1) * u < high.units() <= b * u
        }),
{
    let u: int = crate::single::unit() as int;
    lemma_pow2_pos(149);
    crate::bounds::lemma_less_one(limit);
    let last: Single = Single::difference(
        Single::whole(limit),
        Single { bits: crate::single::ONE },
    );
    let zero: Single = Single { bits: 0 };
    assert(zero.units() == 0);
    let c: int = limit - 1;
    assert(c * u <= 0x100_0000 * u) by (nonlinear_arith)
        requires
            c <= 0x100_0000,
            u > 0,
    ;
    lemma_whole_around(low);
    lemma_whole_around(high);
    let (v, w): (int, int) = (low.units(), high.units());
    let (a, b): (int, int) = (v / u, -((-w) / u));
    lemma_around(v, u, c);
    lemma_around(w, u, c);
    lemma_whole_itself(low.floored(), a);
    lemma_whole_itself(high.ceiled(), b);
    assert(0 <= a * u <= c * u && 0 <= b * u <= c * u) by (nonlinear_arith)
        requires
            0 <= a <= c,
            0 <= b <= c,
            u > 0,
    ;
}

proof fn lemma_around(v: int, u: int, c: int)
    requires
        u > 0,
        0 <= v <= c * u,
    ensures
        0 <= v / u <= c,
        (v / u) * u <= v < (v / u + 1) * u,
        0 <= -((-v) / u) <= c,
        (-((-v) / u) - 1) * u < v <= (-((-v) / u)) * u,
{
    let (q, p): (int, int) = (v / u, (-v) / u);
    assert(q * u <= v < (q + 1) * u && p * u <= -v < (p + 1) * u) by (nonlinear_arith)
        requires
            q == v / u,
            p == (-v) / u,
            u > 0,
    ;
    assert(0 <= q <= c && 0 <= -p <= c) by (nonlinear_arith)
        requires
            q * u <= v < (q + 1) * u,
            p * u <= -v < (p + 1) * u,
            0 <= v <= c * u,
            u > 0,
    ;
    assert((-p - 1) * u < v <= (-p) * u) by (nonlinear_arith)
        requires
            p * u <= -v < (p + 1) * u,
    ;
}

/// A corner falls on the pixel of the mask that is nearest to it, up to one part in `2^10` of
/// a pixel.
pub proof fn lemma_relative(v: Single, from: int)
    requires
        v.finite(),
        0 <= from <= 0x100_0000,
        0 <= v.units() - from * crate::single::unit() <= 0x1000 * crate::single::unit(),
    ensures
        ({
            let r = relative(v, from);
            let u = crate::single::unit();
            let exact = v.units() - from * u;
            &&& 0 <= r <= 0x1001
            &&& 0x800 * (r * u - exact) <= 0x401 * u
            &&& 0x800 * (exact - r * u) <= 0x401 * u
        }),
{
    let u: int = crate::single::unit() as int;
    lemma_pow2_pos(149);
    lemma2_to64();
    lemma_pow2_adds(13, 149);
    lemma_pow2_adds(25, 149);
    lemma_pow2_adds(32, 17);
    lemma_pow2_adds(49, 149);
    crate::bounds::lemma_whole(from);
    let f: Single = Single::whole(from);
    assert(0 <= from * u <= 0x100_0000 * u) by (nonlinear_arith)
        requires
            0 <= from <= 0x100_0000,
            u > 0,
    ;
    let d: Single = Single::difference(v, f);
    crate::ocr::text::drawing::lemma_difference_within(v, f, 25);
    crate::close::lemma_difference_close(v, f);
    let x: int = d.units();
    assert(pow2(49) * pow2(149) == 0x2_0000_0000_0000 * pow2(149)) by (nonlinear_arith)
        requires
            pow2(49) == 0x2_0000_0000_0000,
    ;
    let n: int = crate::close::lemma_rounded_off(d);
    assert(n <= 0x1001) by (nonlinear_arith)
        requires
            2 * (n * u - x) <= u,
            x <= 0x1001 * u,
            u > 0,
            n >= 0,
    ;
    reveal(Single::to_whole);
    assert(n == d.rounded_off().to_whole(i32::MIN as int, i32::MAX as int));
}

/// What lies before the map begins in its first column, and what lies beyond it in its last.
pub proof fn lemma_span_clipped(low: Single, high: Single, limit: int)
    requires
        1 <= limit <= 0x100_0000,
        low.finite(),
        high.finite(),
        -0x100_0000 * crate::single::unit() <= low.units() <= 0x100_0000 * crate::single::unit(),
        -0x100_0000 * crate::single::unit() <= high.units() <= 0x100_0000 * crate::single::unit(),
    ensures
        low.units() < 0 ==> whole_span(low, high, limit).0 == 0,
        low.units() > (limit - 1) * crate::single::unit() ==> whole_span(low, high, limit).0 == limit
            - 1,
        high.units() < 0 ==> whole_span(low, high, limit).1 == 0,
        high.units() > (limit - 1) * crate::single::unit() ==> whole_span(low, high, limit).1
            == limit - 1,
{
    let u: int = crate::single::unit() as int;
    lemma_pow2_pos(149);
    crate::bounds::lemma_less_one(limit);
    let last: Single = Single::difference(
        Single::whole(limit),
        Single { bits: crate::single::ONE },
    );
    let zero: Single = Single { bits: 0 };
    assert(zero.units() == 0);
    let c: int = limit - 1;
    assert(0 <= c * u) by (nonlinear_arith)
        requires
            c >= 0,
            u > 0,
    ;
    lemma_outer_part(low, c);
    lemma_outer_part(high, c);
    crate::bounds::lemma_whole_parts(low);
    crate::bounds::lemma_whole_parts(high);
    lemma_edge_part(low.floored(), last, c);
    lemma_edge_part(high.ceiled(), last, c);
}

/// A number beside a map, or on its edge, moved onto it is at its edge.
proof fn lemma_edge_part(x: Single, last: Single, c: int)
    requires
        is_whole(last, c),
        0 <= c <= 0x100_0000,
        !x.nan(),
    ensures
        ({
            let r = x.clamped(Single { bits: 0 }, last).to_whole(i32::MIN as int, i32::MAX as int);
            &&& x.units() <= 0 ==> r == 0
            &&& x.units() >= c * crate::single::unit() ==> r == c
        }),
{
    let u: int = crate::single::unit() as int;
    lemma_pow2_pos(149);
    let zero: Single = Single { bits: 0 };
    assert(zero.units() == 0);
    assert(0 * u == 0);
    assert(0 <= c * u) by (nonlinear_arith)
        requires
            c >= 0,
            u > 0,
    ;
    let r: Single = x.clamped(zero, last);
    if x.units() <= 0 {
        assert(r.units() == 0);
        crate::ocr::text::upright::lemma_finite_whole(r, 0);
        lemma_whole_itself(r, 0);
    }
    if x.units() >= c * u {
        assert(r.units() == c * u);
        crate::ocr::text::upright::lemma_finite_whole(r, c as nat);
        lemma_whole_itself(r, c);
    }
}

/// Cutting off or filling up does not bring a number onto the map that is beside it, but onto
/// its edge at most.
proof fn lemma_outer_part(x: Single, c: int)
    requires
        x.finite(),
        0 <= c,
        -0x100_0000 * crate::single::unit() <= x.units() <= 0x100_0000 * crate::single::unit(),
    ensures
        x.units() < 0 ==> x.floored().units() <= 0 && !x.floored().nan() && x.ceiled().units() <= 0
            && !x.ceiled().nan(),
        x.units() > c * crate::single::unit() ==> x.floored().units() >= c * crate::single::unit()
            && !x.floored().nan() && x.ceiled().units() >= c * crate::single::unit()
            && !x.ceiled().nan(),
{
    let u: int = crate::single::unit() as int;
    lemma_pow2_pos(149);
    crate::bounds::lemma_whole_parts(x);
    let v: int = x.units();
    if v < 0 {
        reveal(Single::floored);
        reveal(Single::ceiled);
        crate::close::lemma_not_zero(x);
        crate::bounds::lemma_rounded(
            x.negative(),
            crate::single::size(v / u) * crate::single::unit(),
            1,
        );
        crate::bounds::lemma_rounded(
            x.negative(),
            crate::single::size((-v) / u) * crate::single::unit(),
            1,
        );
    } else if v > c * u {
        lemma_whole_around(x);
        lemma_around(v, u, 0x100_0000);
        let (q, p): (int, int) = (v / u, -((-v) / u));
        assert(q * u >= c * u && p * u >= c * u) by (nonlinear_arith)
            requires
                v > c * u,
                v < (q + 1) * u,
                v <= p * u,
                u > 0,
        ;
    }
}

/// The columns and rows that a quadrilateral within a map spans hold all of its corners, and
/// neither begins before nor ends after what they need. On its mask each corner is that much
/// further left and up as the first column and row are from those of the map.
pub proof fn lemma_footprint(quad: Seq<Point>, pw: int, ph: int, i: int)
    requires
        1 <= pw <= 0x100_0000,
        1 <= ph <= 0x100_0000,
        0 <= i < quad.len(),
        forall|k: int|
            0 <= k < quad.len() ==> (#[trigger] quad[k]).0.finite() && 0 <= quad[k].0.units() <= (pw
                - 1) * crate::single::unit() && quad[k].1.finite() && 0 <= quad[k].1.units() <= (ph
                - 1) * crate::single::unit(),
    ensures
        ({
            let (c, r) = (columns(quad, pw), rows(quad, ph));
            let u = crate::single::unit();
            let p = quad[i];
            &&& c.0 * u <= p.0.units() <= c.1 * u
            &&& r.0 * u <= p.1.units() <= r.1 * u
            &&& exists|k: int| 0 <= k < quad.len() && (#[trigger] quad[k]).0.units() < (c.0 + 1) * u
            &&& exists|k: int| 0 <= k < quad.len() && (#[trigger] quad[k]).0.units() > (c.1 - 1) * u
            &&& exists|k: int| 0 <= k < quad.len() && (#[trigger] quad[k]).1.units() < (r.0 + 1) * u
            &&& exists|k: int| 0 <= k < quad.len() && (#[trigger] quad[k]).1.units() > (r.1 - 1) * u
            &&& corners(quad, pw, ph)[i] == (relative(p.0, c.0), relative(p.1, r.0))
        }),
{
    let xs: Seq<Single> = quad.map_values(|p: Point| p.0);
    let ys: Seq<Single> = quad.map_values(|p: Point| p.1);
    assert forall|k: int| 0 <= k < quad.len() implies (#[trigger] xs[k]).finite() && 0
        <= xs[k].units() <= (pw - 1) * crate::single::unit() by {
        assert(quad[k].0.finite());
    }
    assert forall|k: int| 0 <= k < quad.len() implies (#[trigger] ys[k]).finite() && 0
        <= ys[k].units() <= (ph - 1) * crate::single::unit() by {
        assert(quad[k].0.finite());
    }
    let (a, b): (int, int) = lemma_spanned(xs, pw, i);
    let (c, d): (int, int) = lemma_spanned(ys, ph, i);
    assert(quad[a].0 == xs[a] && quad[b].0 == xs[b] && quad[c].1 == ys[c] && quad[d].1 == ys[d]);
    assert(xs[i] == quad[i].0 && ys[i] == quad[i].1);
}

proof fn lemma_spanned(values: Seq<Single>, limit: int, i: int) -> (at: (int, int))
    requires
        1 <= limit <= 0x100_0000,
        0 <= i < values.len(),
        forall|k: int|
            0 <= k < values.len() ==> (#[trigger] values[k]).finite() && 0 <= values[k].units()
                <= (limit - 1) * crate::single::unit(),
    ensures
        ({
            let s = whole_span(
                crate::ocr::text::geometry::least(values),
                crate::ocr::text::geometry::greatest(values),
                limit,
            );
            let u = crate::single::unit();
            &&& 0 <= at.0 < values.len()
            &&& 0 <= at.1 < values.len()
            &&& s.0 * u <= values[i].units() <= s.1 * u
            &&& values[at.0].units() < (s.0 + 1) * u
            &&& values[at.1].units() > (s.1 - 1) * u
        }),
{
    let low: Single = crate::ocr::text::geometry::least(values);
    let high: Single = crate::ocr::text::geometry::greatest(values);
    crate::ocr::text::geometry::lemma_extremes(values);
    assert(values[i].finite());
    assert(low.at_most(values[i]) && values[i].at_most(high));
    crate::bounds::lemma_top();
    crate::bounds::lemma_below_infinity(values[i]);
    assert(values.contains(low) && values.contains(high));
    let a: int = choose|a: int| 0 <= a < values.len() && values[a] == low;
    let b: int = choose|b: int| 0 <= b < values.len() && values[b] == high;
    assert(values[a].finite() && values[b].finite());
    lemma_span(low, high, limit);
    (a, b)
}

/// The score of a rectangle is the mean of the map under its mask, which is as large as what it
/// spans and lies at the first column and row of that.
pub proof fn lemma_score(pred: Seq<Single>, pw: int, ph: int, quad: Seq<Point>)
    requires
        ({
            let (width, height) = extents(quad, pw, ph);
            width > 0 && height > 0
        }),
    ensures
        ({
            let (width, height) = extents(quad, pw, ph);
            let values = uncovered(
                pred,
                pw,
                columns(quad, pw).0,
                rows(quad, ph).0,
                crate::raster::with_polygon(
                    Seq::new((width * height) as nat, |i: int| 0u8),
                    columns(quad, pw).1 - columns(quad, pw).0 + 1,
                    rows(quad, ph).1 - rows(quad, ph).0 + 1,
                    corners(quad, pw, ph),
                    255,
                ),
                columns(quad, pw).1 - columns(quad, pw).0 + 1,
            );
            let score = quad_score_of(pred, pw, ph, quad);
            &&& values.len() == 0 ==> score.bits == 0
            &&& values.len() > 0 ==> score == Single::quotient(
                total(values),
                Single::whole(values.len() as int),
            )
        }),
{
    let (width, height): (int, int) = extents(quad, pw, ph);
    lemma_pow2_pos(64 + 149);
    lemma_masked_mean(
        pred,
        pw,
        columns(quad, pw).0,
        rows(quad, ph).0,
        quad_mask(quad, pw, ph),
        width,
        0,
        0,
    );
}

} // verus!
