//! Every block of likely pixels is found.
use crate::bounds::is_whole;
use crate::close::about;
use crate::ocr::text::block::lemma_block_quad;
use crate::ocr::text::detection::{
    candidate_of, closed, map_points, page_box, quad_score_of, TextDetector, MIN_BOX_SIZE,
    UNCLIP_RATIO,
};
use crate::ocr::text::expanded::{
    around, lemma_add_around, lemma_upright_expands, modest, placed_at,
};
use crate::ocr::text::geometry::{edge, hull_of, length, quad_around, side, unclipped, Point};
use crate::ocr::text::kept::{
    corners_moderate, lemma_line_kept, lemma_page_box, lemma_sides_reach, sides_reach, spans,
};
use crate::ocr::text::upright::{lemma_exact_sum, lemma_upright_sides, upright};
use crate::single::Single;
use vstd::arithmetic::power2::*;
use vstd::prelude::*;

verus! {

/// The ratio by which rectangles expand is 1.4, and the smallest size is 3.
proof fn lemma_settings()
    ensures
        about(Single { bits: UNCLIP_RATIO }, 14, 10, 1),
        is_whole(Single { bits: MIN_BOX_SIZE }, 3),
        is_whole(Single::sum(Single { bits: MIN_BOX_SIZE }, Single::whole(2)), 5),
{
    crate::ocr::decimals::lemma_constants();
    crate::ocr::fitting::lemma_nearest_whole(MIN_BOX_SIZE, 3);
    crate::bounds::lemma_whole(2);
    lemma_exact_sum(Single { bits: MIN_BOX_SIZE }, Single::whole(2), 3, 2);
    let u: nat = crate::single::unit();
    lemma_pow2_pos(149);
    let x: Single = Single { bits: UNCLIP_RATIO };
    let n: nat = 14 * u;
    lemma2_to64();
    lemma_pow2_adds(1, 149);
    crate::ocr::text::drawing::lemma_rounds_within(n, 10, 1);
    crate::bounds::lemma_rounded(false, n, 10);
    crate::bounds::lemma_nearest_close(n, 10);
    crate::single::lemma_step_scaled(0x80_0000, 0);
    crate::single::lemma_step_increases(0x80_0000, UNCLIP_RATIO as nat);
    assert(x.units() * 10 == 10 * x.units());
}

/// A whole number of at least three is not below three.
proof fn lemma_not_below(x: Single, n: int, y: Single, m: int)
    requires
        is_whole(x, n),
        is_whole(y, m),
        n >= m,
    ensures
        !x.below(y),
{
    let u: int = crate::single::unit() as int;
    assert(n * u >= m * u) by (nonlinear_arith)
        requires
            n >= m,
            u >= 0,
    ;
}

/// A vector is at least as long as either of its coordinates.
proof fn lemma_reaches(v: Point, want: int, x: Single)
    requires
        v.0.finite(),
        v.1.finite(),
        v.0.units() >= want || -v.0.units() >= want || v.1.units() >= want || -v.1.units() >= want,
        x.units() <= want,
    ensures
        !length(v).below(x),
{
    crate::ocr::text::drawing::lemma_length(v);
    let l: Single = length(v);
    if v.0.magnitude() < l.magnitude() {
        crate::single::lemma_step_increases(v.0.magnitude(), l.magnitude());
    }
    if v.1.magnitude() < l.magnitude() {
        crate::single::lemma_step_increases(v.1.magnitude(), l.magnitude());
    }
}

/// A side between places more than five apart along an axis is longer than five.
proof fn lemma_side_long(g: Seq<Point>, i: int, px: int, py: int, qx: int, qy: int, five: Single)
    requires
        g.len() == 4,
        0 <= i < 4,
        placed_at(g[i], px, py),
        placed_at(g[(i + 1) % 4], qx, qy),
        modest(px),
        modest(py),
        modest(qx),
        modest(qy),
        ({
            let far = 5 * crate::single::unit();
            let u = crate::single::unit();
            25 * (qx - px - far) >= u || 25 * (px - qx - far) >= u || 25 * (qy - py - far) >= u || 25
                * (py - qy - far) >= u
        }),
        five.units() == 5 * crate::single::unit(),
    ensures
        !side(g, i).below(five),
{
    let (p, q): (Point, Point) = (g[i], g[(i + 1) % 4]);
    let u: int = crate::single::unit() as int;
    lemma_pow2_pos(149);
    lemma_add_around(q.0, p.0, qx, px, 9, 9);
    lemma_add_around(q.1, p.1, qy, py, 9, 9);
    let c: int = 19;
    assert(c * u == 19 * u) by (nonlinear_arith)
        requires
            c == 19,
    ;
    assert(around(Single::difference(q.0, p.0), qx - px, c));
    assert(around(Single::difference(q.1, p.1), qy - py, c));
    let e: Point = edge(g, i);
    assert(e == (Single::difference(q.0, p.0), Single::difference(q.1, p.1))) by {
        reveal(edge);
    }
    lemma_reaches(e, 5 * u, five);
}

/// The sides of an expanded block are longer than five.
proof fn lemma_expanded_sides(g: Seq<Point>, l: int, t: int, r: int, b: int, v: int, five: Single)
    requires
        g.len() == 4,
        placed_at(g[0], l - v, t - v),
        placed_at(g[1], r + v, t - v),
        placed_at(g[2], r + v, b + v),
        placed_at(g[3], l - v, b + v),
        0 <= l <= 4000 * crate::single::unit(),
        0 <= r <= 4000 * crate::single::unit(),
        0 <= t <= 4000 * crate::single::unit(),
        0 <= b <= 4000 * crate::single::unit(),
        r - l >= 3 * crate::single::unit(),
        b - t >= 3 * crate::single::unit(),
        100 * v >= 104 * crate::single::unit(),
        v <= 8010 * crate::single::unit(),
        five.units() == 5 * crate::single::unit(),
    ensures
        sides_reach(g, five),
{
    lemma_pow2_pos(149);
    lemma_side_long(g, 0, l - v, t - v, r + v, t - v, five);
    lemma_side_long(g, 1, r + v, t - v, r + v, b + v, five);
    lemma_side_long(g, 2, r + v, b + v, l - v, b + v, five);
    lemma_side_long(g, 3, l - v, b + v, l - v, t - v, five);
    assert forall|i: int| 0 <= i < 4 implies !(#[trigger] side(g, i)).below(five) by {
        assert(i == 0 || i == 1 || i == 2 || i == 3);
    }
}

/// How far a block of at least three by three pixels expands.
proof fn lemma_block_reach(d: Single, w: int, h: int, n: int, p: int)
    requires
        about(d, n * 14, 20 * p, 3),
        3 <= w <= 4000,
        3 <= h <= 4000,
        -2 <= n - 2 * (w * h) <= 2,
        n == 2 * (w * h) || w * h >= 2000,
        p == 2 * (w + h),
    ensures
        100 * d.units() >= 104 * crate::single::unit(),
        d.units() <= 8010 * crate::single::unit(),
{
    let u: int = crate::single::unit() as int;
    lemma_pow2_pos(149);
    let (v, area): (int, int) = (d.units(), w * h);
    assert(4 * area >= 3 * p && area <= 1000 * p) by (nonlinear_arith)
        requires
            area == w * h,
            p == 2 * (w + h),
            3 <= w <= 4000,
            3 <= h <= 4000,
    ;
    assert(2000 * n >= 2998 * p && n <= 2001 * p);
    assert(100 * v >= 104 * u) by (nonlinear_arith)
        requires
            (0x80_0000 - 3) * ((n * 14) * u) <= 0x80_0000 * (v * (20 * p)),
            2000 * n >= 2998 * p,
            p > 0,
            u > 0,
    ;
    assert(v <= 8010 * u) by (nonlinear_arith)
        requires
            0x80_0000 * (v * (20 * p)) <= (0x80_0000 + 3) * ((n * 14) * u),
            n <= 2001 * p,
            p > 0,
            u > 0,
    ;
}

/// A stretch that reaches from `a` to `b` on the map is at least one pixel long on a page at
/// least half as long as the map.
proof fn lemma_page_gap(
    low: Single,
    high: Single,
    xs: Seq<Single>,
    to: int,
    from: int,
    a: int,
    b: int,
    i: int,
    j: int,
)
    requires
        spans(low, high, xs, to, from),
        0 <= i < xs.len(),
        0 <= j < xs.len(),
        1 <= from <= 4000,
        from <= 2 * to,
        0 <= a,
        a + 3 <= b,
        b + 1 <= from,
        xs[i].units() <= a * crate::single::unit(),
        xs[j].units() >= (b + 1) * crate::single::unit(),
    ensures
        high.units() - low.units() >= crate::single::unit(),
{
    let u: int = crate::single::unit() as int;
    lemma_pow2_pos(149);
    let side: int = to * (from * u);
    let (x, y): (int, int) = (xs[i].units() * to, xs[j].units() * to);
    let (c, d): (int, int) = (xs[i].units(), xs[j].units());
    let tu: int = to * u;
    assert(side == from * tu && tu > 0) by (nonlinear_arith)
        requires
            side == to * (from * u),
            tu == to * u,
            to >= 1,
            u > 0,
    ;
    assert(x <= a * tu && y >= (b + 1) * tu) by (nonlinear_arith)
        requires
            x == c * to,
            y == d * to,
            c <= a * u,
            d >= (b + 1) * u,
            tu == to * u,
            to >= 1,
    ;
    assert((b + 1) * tu <= from * tu && (b + 1) * tu >= a * tu + 4 * tu && a * tu >= 0)
        by (nonlinear_arith)
        requires
            a + 3 <= b,
            b + 1 <= from,
            a >= 0,
            tu > 0,
    ;
    assert(side <= 4000 * tu) by (nonlinear_arith)
        requires
            side == from * tu,
            from <= 4000,
            tu > 0,
    ;
    let (lf, hf): (int, int) = (low.units() * from, high.units() * from);
    let g: int = high.units() - low.units();
    assert(hf - lf == g * from) by (nonlinear_arith)
        requires
            hf == high.units() * from,
            lf == low.units() * from,
            g == high.units() - low.units(),
    ;
    assert(hf - lf >= 3 * tu);
    assert(g >= u) by (nonlinear_arith)
        requires
            g * from >= 3 * tu,
            tu == to * u,
            from <= 2 * to,
            from >= 1,
            to >= 1,
            u > 0,
    ;
}

/// The border runs within a rectangle of pixels of the map and through its corners.
pub open spec fn outlines(border: Seq<(i32, i32)>, l: int, t: int, r: int, b: int) -> bool {
    &&& forall|i: int|
        0 <= i < border.len() ==> l <= (#[trigger] border[i]).0 - 1 <= r && t <= border[i].1 - 1 <= b
    &&& border.contains(((l + 1) as i32, (t + 1) as i32))
    &&& border.contains(((r + 1) as i32, (t + 1) as i32))
    &&& border.contains(((r + 1) as i32, (b + 1) as i32))
    &&& border.contains(((l + 1) as i32, (b + 1) as i32))
}

proof fn lemma_four_points(border: Seq<(i32, i32)>, l: int, t: int, r: int, b: int)
    requires
        outlines(border, l, t, r, b),
        0 <= l < r <= 4000,
        0 <= t < b <= 4000,
    ensures
        border.len() >= 4,
{
    let i: int = choose|i: int|
        0 <= i < border.len() && border[i] == ((l + 1) as i32, (t + 1) as i32);
    let j: int = choose|j: int|
        0 <= j < border.len() && border[j] == ((r + 1) as i32, (t + 1) as i32);
    let k: int = choose|k: int|
        0 <= k < border.len() && border[k] == ((r + 1) as i32, (b + 1) as i32);
    let m: int = choose|m: int|
        0 <= m < border.len() && border[m] == ((l + 1) as i32, (b + 1) as i32);
    assert(i != j && i != k && i != m && j != k && j != m && k != m);
}

/// The box on the page around an expanded block is at least one pixel wide and high, where no
/// side of the page is shorter than half of the map's.
proof fn lemma_block_box(
    g: Seq<Point>,
    ow: u32,
    oh: u32,
    pw: int,
    ph: int,
    l: int,
    t: int,
    r: int,
    b: int,
    v: int,
)
    requires
        g.len() == 4,
        ({
            let u = crate::single::unit();
            &&& placed_at(g[0], l * u - v, t * u - v)
            &&& placed_at(g[1], r * u + v, t * u - v)
            &&& placed_at(g[2], r * u + v, b * u + v)
            &&& placed_at(g[3], l * u - v, b * u + v)
        }),
        0 <= l,
        l + 3 <= r < pw <= 4000,
        0 <= t,
        t + 3 <= b < ph <= 4000,
        100 * v >= 104 * crate::single::unit(),
        v <= 8010 * crate::single::unit(),
        pw <= 2 * ow,
        ph <= 2 * oh,
        ow <= 0x100_0000,
        oh <= 0x100_0000,
    ensures
        ({
            let bbox = page_box(g, ow, oh, pw, ph);
            let xs = Seq::new(4, |i: int| g[i].0);
            let ys = Seq::new(4, |i: int| g[i].1);
            &&& bbox[2].units() - bbox[0].units() >= crate::single::unit()
            &&& bbox[3].units() - bbox[1].units() >= crate::single::unit()
            &&& spans(bbox[0], bbox[2], xs, ow as int, pw)
            &&& spans(bbox[1], bbox[3], ys, oh as int, ph)
        }),
{
    let u: int = crate::single::unit() as int;
    lemma_pow2_pos(149);
    assert(0 <= l * u <= 4000 * u && 0 <= r * u <= 4000 * u && 0 <= t * u <= 4000 * u && 0 <= b * u
        <= 4000 * u) by (nonlinear_arith)
        requires
            0 <= l <= 4000,
            0 <= r <= 4000,
            0 <= t <= 4000,
            0 <= b <= 4000,
            u > 0,
    ;
    assert((r + 1) * u == r * u + u && (b + 1) * u == b * u + u) by (nonlinear_arith);
    assert(corners_moderate(g)) by {
        assert forall|i: int| 0 <= i < g.len() implies {
            let p = #[trigger] g[i];
            &&& p.0.finite() && -0x100_0000 * crate::single::unit() <= p.0.units() <= 0x100_0000
                * crate::single::unit()
            &&& p.1.finite() && -0x100_0000 * crate::single::unit() <= p.1.units() <= 0x100_0000
                * crate::single::unit()
        } by {
            assert(i == 0 || i == 1 || i == 2 || i == 3);
        }
    }
    lemma_page_box(g, ow, oh, pw, ph);
    let bbox: [Single; 4] = page_box(g, ow, oh, pw, ph);
    let xs: Seq<Single> = Seq::new(4, |i: int| g[i].0);
    let ys: Seq<Single> = Seq::new(4, |i: int| g[i].1);
    assert(xs =~= Seq::new(g.len(), |i: int| g[i].0) && ys =~= Seq::new(g.len(), |i: int| g[i].1));
    lemma_page_gap(bbox[0], bbox[2], xs, ow as int, pw, l, r, 0, 1);
    lemma_page_gap(bbox[1], bbox[3], ys, oh as int, ph, t, b, 0, 2);
}

/// With the settings that the model was made for, a block that reaches over at least three
/// columns and three rows beyond its first, and whose mean probability is not below the
/// threshold, is found on a page whose sides are at least half as long as those of the map.
///
/// The line has that probability, and the box on the page around the block after each of its
/// sides moved outward by one distance: 1.4 times its area over its perimeter, where twice the
/// area is off by two at most, and by nothing where the area is below 2000.
pub proof fn lemma_block_found(
    settings: TextDetector,
    ow: u32,
    oh: u32,
    pw: int,
    ph: int,
    pred: Seq<Single>,
    border: Seq<(i32, i32)>,
    l: int,
    t: int,
    r: int,
    b: int,
    p: int,
) -> (moved: (Single, int))
    requires
        settings.unclip_ratio.bits == UNCLIP_RATIO,
        settings.min_box_size.bits == MIN_BOX_SIZE,
        border.len() <= usize::MAX,
        outlines(border, l, t, r, b),
        0 <= l,
        l + 3 <= r < pw <= 4000,
        0 <= t,
        t + 3 <= b < ph <= 4000,
        pw <= 2 * ow,
        ph <= 2 * oh,
        ow <= 0x100_0000,
        oh <= 0x100_0000,
        !quad_score_of(pred, pw, ph, quad_around(hull_of(map_points(border)))).below(
            settings.box_thresh,
        ),
        p == 2 * ((r - l) + (b - t)),
    ensures
        about(moved.0, moved.1 * 14, 20 * p, 3),
        -2 <= moved.1 - 2 * ((r - l) * (b - t)) <= 2,
        moved.1 == 2 * ((r - l) * (b - t)) || (r - l) * (b - t) >= 2000,
        ({
            let quad = quad_around(hull_of(map_points(border)));
            let found = candidate_of(settings, ow, oh, pw, ph, pred, border);
            let g = unclipped(quad, settings.unclip_ratio);
            let xs = Seq::new(4, |i: int| g[i].0);
            let ys = Seq::new(4, |i: int| g[i].1);
            let (u, v) = (crate::single::unit(), moved.0.units());
            &&& upright(quad, l, t, r, b)
            &&& found is Ok
            &&& found->Ok_0 is Some
            &&& found->Ok_0->Some_0.score == quad_score_of(pred, pw, ph, quad)
            &&& placed_at(g[0], l * u - v, t * u - v)
            &&& placed_at(g[1], r * u + v, t * u - v)
            &&& placed_at(g[2], r * u + v, b * u + v)
            &&& placed_at(g[3], l * u - v, b * u + v)
            &&& spans(
                found->Ok_0->Some_0.bbox[0],
                found->Ok_0->Some_0.bbox[2],
                xs,
                ow as int,
                pw,
            )
            &&& spans(
                found->Ok_0->Some_0.bbox[1],
                found->Ok_0->Some_0.bbox[3],
                ys,
                oh as int,
                ph,
            )
        }),
{
    let quad: Seq<Point> = quad_around(hull_of(map_points(border)));
    let ratio: Single = settings.unclip_ratio;
    lemma_settings();
    assert(ratio == Single { bits: UNCLIP_RATIO });
    assert(settings.min_box_size == Single { bits: MIN_BOX_SIZE });
    lemma_block_quad(border, l, t, r, b);
    let (d, n): (Single, int) = lemma_upright_expands(quad, ratio, 14, 10, l, t, r, b, p);
    assert(20 * p == (2 * 10) * p);
    lemma_block_reach(d, r - l, b - t, n, p);
    let g: Seq<Point> = unclipped(quad, ratio);
    lemma_block_sides(settings, quad, g, l, t, r, b, d.units());
    lemma_block_box(g, ow, oh, pw, ph, l, t, r, b, d.units());
    lemma_four_points(border, l, t, r, b);
    lemma_block_open(settings, ow, oh, pw, ph, pred, border, l, t, r, b);
    lemma_line_kept(settings, ow, oh, pw, ph, pred, border);
    (d, n)
}

proof fn lemma_block_sides(
    settings: TextDetector,
    quad: Seq<Point>,
    g: Seq<Point>,
    l: int,
    t: int,
    r: int,
    b: int,
    v: int,
)
    requires
        settings.min_box_size.bits == MIN_BOX_SIZE,
        upright(quad, l, t, r, b),
        g.len() == 4,
        ({
            let u = crate::single::unit();
            &&& placed_at(g[0], l * u - v, t * u - v)
            &&& placed_at(g[1], r * u + v, t * u - v)
            &&& placed_at(g[2], r * u + v, b * u + v)
            &&& placed_at(g[3], l * u - v, b * u + v)
        }),
        0 <= l,
        l + 3 <= r <= 4000,
        0 <= t,
        t + 3 <= b <= 4000,
        100 * v >= 104 * crate::single::unit(),
        v <= 8010 * crate::single::unit(),
    ensures
        sides_reach(quad, settings.min_box_size),
        sides_reach(g, Single::sum(settings.min_box_size, Single::whole(2))),
{
    let u: int = crate::single::unit() as int;
    lemma_pow2_pos(149);
    lemma_settings();
    let three: Single = settings.min_box_size;
    assert(three == Single { bits: MIN_BOX_SIZE });
    lemma_upright_sides(quad, l, t, r, b);
    lemma_not_below(side(quad, 0), r - l, three, 3);
    lemma_not_below(side(quad, 1), b - t, three, 3);
    lemma_not_below(side(quad, 2), r - l, three, 3);
    lemma_not_below(side(quad, 3), b - t, three, 3);
    assert forall|i: int| 0 <= i < 4 implies !(#[trigger] side(quad, i)).below(three) by {
        assert(i == 0 || i == 1 || i == 2 || i == 3);
    }
    let (lu, tu, ru, bu): (int, int, int, int) = (l * u, t * u, r * u, b * u);
    assert(0 <= lu <= 4000 * u && 0 <= ru <= 4000 * u && 0 <= tu <= 4000 * u && 0 <= bu <= 4000 * u
        && ru - lu >= 3 * u && bu - tu >= 3 * u) by (nonlinear_arith)
        requires
            lu == l * u,
            tu == t * u,
            ru == r * u,
            bu == b * u,
            0 <= l,
            l + 3 <= r <= 4000,
            0 <= t,
            t + 3 <= b <= 4000,
            u > 0,
    ;
    lemma_expanded_sides(g, lu, tu, ru, bu, v, Single::sum(three, Single::whole(2)));
}

proof fn lemma_block_open(
    settings: TextDetector,
    ow: u32,
    oh: u32,
    pw: int,
    ph: int,
    pred: Seq<Single>,
    border: Seq<(i32, i32)>,
    l: int,
    t: int,
    r: int,
    b: int,
)
    requires
        settings.min_box_size.bits == MIN_BOX_SIZE,
        border.len() <= usize::MAX,
        outlines(border, l, t, r, b),
        border.len() >= 4,
        0 <= l < r < pw <= 4000,
        0 <= t < b < ph <= 4000,
        sides_reach(quad_around(hull_of(map_points(border))), settings.min_box_size),
    ensures
        !closed(quad_around(hull_of(map_points(border))), pw, ph),
{
    assert(crate::ocr::text::drawing::on_mask(border, pw, ph)) by {
        assert forall|i: int| 0 <= i < border.len() implies 0 <= (#[trigger] border[i]).0 < pw + 2
            && 0 <= border[i].1 < ph + 2 by {}
    }
    crate::ocr::text::drawing::lemma_candidate_drawn(settings, ow, oh, pw, ph, pred, border);
    lemma_sides_reach(quad_around(hull_of(map_points(border))), settings.min_box_size);
    reveal(candidate_of);
}

} // verus!
