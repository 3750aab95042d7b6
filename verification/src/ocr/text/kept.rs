//! Which borders give a line: all that are large and likely enough, and no other.
use crate::ocr::text::detection::{
    candidate_of, closed, found_lines, large_enough, lines_of_borders, lines_of_map, map_points, mask_of,
    on_page, page_box, quad_score_of, TextDetector, TextLine, Undrawable,
};
use crate::ocr::text::geometry::{
    greatest, hull_of, least, lemma_extremes, quad_around, shortest_side, side, unclipped, Point,
};
use crate::single::Single;
use vstd::arithmetic::power2::*;
use vstd::prelude::*;

verus! {

/// No side of the quadrilateral is shorter than this.
pub open spec fn sides_reach(quad: Seq<Point>, length: Single) -> bool {
    forall|i: int| 0 <= i < 4 ==> !(#[trigger] side(quad, i)).below(length)
}

/// The shortest side is long enough where every side is.
pub proof fn lemma_sides_reach(quad: Seq<Point>, length: Single)
    ensures
        shortest_side(quad).below(length) <==> !sides_reach(quad, length),
{
    let sides: Seq<Single> = seq![side(quad, 0), side(quad, 1), side(quad, 2), side(quad, 3)];
    lemma_extremes(sides);
    crate::bounds::lemma_top();
    assert forall|i: int| 0 <= i < 4 implies sides[i] == #[trigger] side(quad, i) by {}
    if shortest_side(quad).below(length) {
        let s: Single = shortest_side(quad);
        if s.bits == crate::single::INFINITY && !sides.contains(s) {
            lemma_infinite(s, length);
        } else {
            let i: int = choose|i: int| 0 <= i < sides.len() && sides[i] == s;
            assert(side(quad, i).below(length));
        }
    } else if !sides_reach(quad, length) {
        let i: int = choose|i: int| 0 <= i < 4 && (#[trigger] side(quad, i)).below(length);
        assert(sides[i].below(length));
        assert(least(sides).at_most(sides[i]));
    }
}

proof fn lemma_infinite(s: Single, x: Single)
    requires
        s.bits == crate::single::INFINITY,
    ensures
        !s.below(x),
{
    crate::bounds::lemma_top();
    if x.finite() {
        crate::bounds::lemma_below_infinity(x);
    }
}

/// Edges at least one pixel apart make a box large enough, and no box is large enough whose
/// edges are closer than one pixel less one part in `2^24`.
pub proof fn lemma_one_pixel(quad: Seq<Point>, ow: u32, oh: u32, pw: int, ph: int)
    ensures
        ({
            let bbox = page_box(quad, ow, oh, pw, ph);
            let (wide, high) = (bbox[2].units() - bbox[0].units(), bbox[3].units() - bbox[1].units());
            let u = crate::single::unit();
            &&& wide >= u && high >= u ==> large_enough(bbox)
            &&& large_enough(bbox) ==> 0x100_0000 * wide >= 0xff_ffff * u && 0x100_0000 * high
                >= 0xff_ffff * u
        }),
{
    let bbox: [Single; 4] = page_box(quad, ow, oh, pw, ph);
    crate::ocr::text::detection::lemma_on_page(quad.map_values(|p: Point| p.0), ow, pw);
    crate::ocr::text::detection::lemma_on_page(quad.map_values(|p: Point| p.1), oh, ph);
    lemma_gap_of_one(bbox[0], bbox[2]);
    lemma_gap_of_one(bbox[1], bbox[3]);
}

proof fn lemma_gap_of_one(low: Single, high: Single)
    requires
        low.finite() && high.finite() || low.bits == crate::single::INFINITY && high.bits
            == crate::single::NEG_INFINITY,
    ensures
        ({
            let wide = !Single::difference(high, low).below(Single { bits: crate::single::ONE });
            let gap = high.units() - low.units();
            &&& gap >= crate::single::unit() ==> wide
            &&& wide ==> 0x100_0000 * gap >= 0xff_ffff * crate::single::unit()
        }),
{
    let one: Single = Single { bits: crate::single::ONE };
    let u: nat = crate::single::unit();
    crate::bounds::lemma_one();
    lemma_pow2_pos(149);
    let gap: int = high.units() - low.units();
    if low.finite() && high.finite() {
        crate::bounds::lemma_difference(high, low);
        let n: nat = crate::single::size(gap);
        let m: nat = crate::single::nearest(n, 1);
        if gap >= u {
            crate::bounds::lemma_nearest_at_least(n, 1, one.magnitude());
            if one.magnitude() < m {
                crate::single::lemma_step_increases(one.magnitude(), m);
            }
        } else if gap > 0 {
            crate::bounds::lemma_nearest_at_most(n, 1, one.magnitude());
            crate::bounds::lemma_nearest_close(n, 1);
            lemma_pow2_strictly_increases(23, 149);
            lemma2_to64();
        }
    } else {
        reveal(Single::sum);
        crate::bounds::lemma_top();
        lemma_pow2_pos(277);
        assert(low.negated().bits == crate::single::NEG_INFINITY);
    }
}

/// Two is two.
pub proof fn lemma_two_is_whole()
    ensures
        Single::whole(2).bits == crate::ocr::text::geometry::TWO,
{
    reveal(Single::whole);
    lemma2_to64();
    crate::single::lemma_step_scaled(0x80_0000, 127);
    lemma_pow2_adds(23, 127);
    lemma_pow2_adds(1, 149);
    assert(crate::single::step(0x4000_0000) == 2 * crate::single::unit());
    crate::single::lemma_nearest_step(0x4000_0000, 1);
}

/// A border of at least four points gives a line where no side of its smallest rectangle is
/// shorter than the smallest size, the mean probability within that rectangle is not below
/// the threshold, no side of the expanded rectangle is shorter than the smallest size and
/// two, and the box around the expanded rectangle is on the page at least one pixel wide and
/// high. The line has that box and that probability.
pub proof fn lemma_line_kept(
    settings: TextDetector,
    ow: u32,
    oh: u32,
    pw: int,
    ph: int,
    pred: Seq<Single>,
    border: Seq<(i32, i32)>,
)
    requires
        ({
            let quad = quad_around(hull_of(map_points(border)));
            let grown = unclipped(quad, settings.unclip_ratio);
            let bbox = page_box(grown, ow, oh, pw, ph);
            let u = crate::single::unit();
            &&& border.len() >= 4
            &&& sides_reach(quad, settings.min_box_size)
            &&& !closed(quad, pw, ph)
            &&& !quad_score_of(pred, pw, ph, quad).below(settings.box_thresh)
            &&& sides_reach(grown, Single::sum(settings.min_box_size, Single::whole(2)))
            &&& bbox[2].units() - bbox[0].units() >= u
            &&& bbox[3].units() - bbox[1].units() >= u
        }),
    ensures
        ({
            let quad = quad_around(hull_of(map_points(border)));
            let grown = unclipped(quad, settings.unclip_ratio);
            let r = candidate_of(settings, ow, oh, pw, ph, pred, border);
            &&& r is Ok
            &&& r->Ok_0 is Some
            &&& r->Ok_0->Some_0.bbox == page_box(grown, ow, oh, pw, ph)
            &&& r->Ok_0->Some_0.score == quad_score_of(pred, pw, ph, quad)
        }),
{
    reveal(candidate_of);
    let quad: Seq<Point> = quad_around(hull_of(map_points(border)));
    let grown: Seq<Point> = unclipped(quad, settings.unclip_ratio);
    lemma_two_is_whole();
    lemma_sides_reach(quad, settings.min_box_size);
    lemma_sides_reach(grown, Single::sum(settings.min_box_size, Single::whole(2)));
    lemma_one_pixel(grown, ow, oh, pw, ph);
}

/// A border gives a line only where all of this holds: it has at least four points, no side
/// of its smallest rectangle is shorter than the smallest size, that rectangle is likely
/// enough, no side of the expanded one is shorter than the smallest size and two, and its box
/// on the page is one pixel wide and high, up to one part in `2^24`. A border of fewer points
/// or with a shorter side gives nothing.
pub proof fn lemma_line_dropped(
    settings: TextDetector,
    ow: u32,
    oh: u32,
    pw: int,
    ph: int,
    pred: Seq<Single>,
    border: Seq<(i32, i32)>,
)
    ensures
        ({
            let quad = quad_around(hull_of(map_points(border)));
            let grown = unclipped(quad, settings.unclip_ratio);
            let bbox = page_box(grown, ow, oh, pw, ph);
            let u = crate::single::unit();
            let r = candidate_of(settings, ow, oh, pw, ph, pred, border);
            &&& border.len() < 4 ==> r == Ok::<Option<TextLine>, Undrawable>(None)
            &&& !sides_reach(quad, settings.min_box_size) ==> r == Ok::<
                Option<TextLine>,
                Undrawable,
            >(None)
            &&& r matches Ok(Some(line)) ==> {
                &&& !line.score.below(settings.box_thresh)
                &&& line.score == quad_score_of(pred, pw, ph, quad)
                &&& sides_reach(grown, Single::sum(settings.min_box_size, Single::whole(2)))
                &&& 0x100_0000 * (line.bbox[2].units() - line.bbox[0].units()) >= 0xff_ffff * u
                &&& 0x100_0000 * (line.bbox[3].units() - line.bbox[1].units()) >= 0xff_ffff * u
                &&& line.bbox == bbox
            }
            &&& r is Err ==> border.len() >= 4 && sides_reach(quad, settings.min_box_size)
                && closed(quad, pw, ph)
        }),
{
    reveal(candidate_of);
    let quad: Seq<Point> = quad_around(hull_of(map_points(border)));
    let grown: Seq<Point> = unclipped(quad, settings.unclip_ratio);
    lemma_two_is_whole();
    lemma_sides_reach(quad, settings.min_box_size);
    lemma_sides_reach(grown, Single::sum(settings.min_box_size, Single::whole(2)));
    lemma_one_pixel(grown, ow, oh, pw, ph);
}

/// The line that a border gives, if any.
pub open spec fn line_of(
    settings: TextDetector,
    ow: u32,
    oh: u32,
    pw: int,
    ph: int,
    pred: Seq<Single>,
    border: Seq<(i32, i32)>,
) -> Option<TextLine> {
    match candidate_of(settings, ow, oh, pw, ph, pred, border) {
        Ok(line) => line,
        Err(_) => None,
    }
}

/// The lines found are those of all borders up to the largest number of them, each border's
/// in its turn. None are found where one of these borders makes a rectangle that cannot be
/// drawn.
pub proof fn lemma_all_found(
    settings: TextDetector,
    ow: u32,
    oh: u32,
    pw: int,
    ph: int,
    pred: Seq<Single>,
    borders: Seq<Seq<(i32, i32)>>,
)
    ensures
        ({
            let n = vstd::math::min(borders.len() as int, settings.max_candidates as int);
            let found = lines_of_borders(settings, ow, oh, pw, ph, pred, borders);
            &&& found is Some <==> forall|i: int|
                0 <= i < n ==> candidate_of(settings, ow, oh, pw, ph, pred, #[trigger] borders[i])
                    is Ok
            &&& found matches Some(lines) ==> lines == borders.take(n).filter_map(
                |border: Seq<(i32, i32)>| line_of(settings, ow, oh, pw, ph, pred, border),
            )
        }),
{
    let n: int = vstd::math::min(borders.len() as int, settings.max_candidates as int);
    lemma_found(settings, ow, oh, pw, ph, pred, borders, n as nat);
}

proof fn lemma_found(
    settings: TextDetector,
    ow: u32,
    oh: u32,
    pw: int,
    ph: int,
    pred: Seq<Single>,
    borders: Seq<Seq<(i32, i32)>>,
    n: nat,
)
    requires
        n <= borders.len(),
    ensures
        ({
            let found = found_lines(settings, ow, oh, pw, ph, pred, borders, n);
            &&& found is Some <==> forall|i: int|
                0 <= i < n ==> candidate_of(settings, ow, oh, pw, ph, pred, #[trigger] borders[i])
                    is Ok
            &&& found matches Some(lines) ==> lines == borders.take(n as int).filter_map(
                |border: Seq<(i32, i32)>| line_of(settings, ow, oh, pw, ph, pred, border),
            )
        }),
    decreases n,
{
    if n > 0 {
        let f = |border: Seq<(i32, i32)>| line_of(settings, ow, oh, pw, ph, pred, border);
        let rest: nat = (n - 1) as nat;
        lemma_found(settings, ow, oh, pw, ph, pred, borders, rest);
        let taken: Seq<Seq<(i32, i32)>> = borders.take(n as int);
        assert(taken.drop_last() =~= borders.take(rest as int));
        assert(taken.last() == borders[n - 1]);
        let found: Option<Seq<TextLine>> = found_lines(settings, ow, oh, pw, ph, pred, borders, n);
        if found is Some {
            let before: Seq<TextLine> = borders.take(rest as int).filter_map(f);
            match line_of(settings, ow, oh, pw, ph, pred, borders[n - 1]) {
                Some(line) => {
                    assert(before.push(line) =~= before + seq![line]);
                },
                None => {},
            }
        }
    } else {
        assert(borders.take(0) =~= Seq::<Seq<(i32, i32)>>::empty());
    }
}

/// A pixel of a map is on its mask one column further right and one row further down: 255
/// where its probability exceeds the threshold, else zero. The mask is zero all around.
pub proof fn lemma_mask(pred: Seq<Single>, pw: int, ph: int, thresh: Single, column: int, row: int)
    requires
        pw >= 1,
        ph >= 1,
        0 <= column < pw + 2,
        0 <= row < ph + 2,
    ensures
        ({
            let mask = mask_of(pred, pw, ph, thresh);
            let pixel = mask[row * (pw + 2) + column];
            &&& mask.len() == (pw + 2) * (ph + 2)
            &&& 0 <= row * (pw + 2) + column < mask.len()
            &&& column == 0 || column == pw + 1 || row == 0 || row == ph + 1 ==> pixel == 0
            &&& 0 < column <= pw && 0 < row <= ph ==> {
                let p = pred[(row - 1) * pw + (column - 1)];
                pixel == if thresh.below(p) {
                    255u8
                } else {
                    0u8
                }
            }
        }),
{
    let w: int = pw + 2;
    let k: int = row * w + column;
    assert(0 <= k < w * (ph + 2)) by (nonlinear_arith)
        requires
            k == row * w + column,
            0 <= column < w,
            0 <= row < ph + 2,
    ;
    vstd::arithmetic::div_mod::lemma_fundamental_div_mod_converse(k, w, row, column);
}

/// The points of a border lie on the map one column further left and one row further up.
pub proof fn lemma_map_points(border: Seq<(i32, i32)>, i: int)
    requires
        0 <= i < border.len(),
        0 <= border[i].0 <= 0x100_0000,
        0 <= border[i].1 <= 0x100_0000,
    ensures
        ({
            let p = map_points(border)[i];
            let u = crate::single::unit();
            &&& map_points(border).len() == border.len()
            &&& p.0.finite() && p.0.units() == (border[i].0 - 1) * u
            &&& p.1.finite() && p.1.units() == (border[i].1 - 1) * u
        }),
{
    let one: Single = Single { bits: crate::single::ONE };
    crate::bounds::lemma_one();
    assert(1 * crate::single::unit() == crate::single::unit());
    crate::bounds::lemma_whole(border[i].0 as int);
    crate::bounds::lemma_whole(border[i].1 as int);
    crate::bounds::lemma_exact_difference(
        Single::whole(border[i].0 as int),
        one,
        border[i].0 as int,
        1,
    );
    crate::bounds::lemma_exact_difference(
        Single::whole(border[i].1 as int),
        one,
        border[i].1 as int,
        1,
    );
}

/// A value on a map is carried over to a page in proportion and moved onto it, up to one part
/// in `2^20` of the page.
pub open spec fn carried(c: Single, v: Single, to: int, from: int) -> bool {
    let side = to * (from * crate::single::unit());
    let want = crate::ocr::layout::rows::moved(v.units() * to, side);
    &&& c.finite()
    &&& 0x10_0000 * (c.units() * from - want) <= side
    &&& 0x10_0000 * (want - c.units() * from) <= side
}

/// A value that is neither huge nor "not a number" is carried over from a map to a page.
pub proof fn lemma_carried(values: Seq<Single>, i: int, to: u32, from: int)
    requires
        0 <= i < values.len(),
        values[i].finite(),
        -0x100_0000 * crate::single::unit() <= values[i].units() <= 0x100_0000
            * crate::single::unit(),
        1 <= to <= 0x100_0000,
        1 <= from <= 0x100_0000,
    ensures
        carried(on_page(values, to, from)[i], values[i], to as int, from),
{
    let u: int = crate::single::unit() as int;
    lemma_pow2_pos(149);
    lemma2_to64();
    let v: Single = values[i];
    let (limit, length): (Single, Single) = (Single::whole(to as int), Single::whole(from));
    let scale: Single = Single::quotient(limit, length);
    crate::bounds::lemma_whole(to as int);
    crate::close::lemma_whole_about(to as int);
    crate::close::lemma_whole_about(from);
    crate::close::lemma_quotient_about(limit, length, to as int, 1, 1, from, 1, 1);
    assert(to * 1 == to && 1 * from == from);
    let (s, x, n): (int, int, int) = (scale.units(), v.units(), to as int);
    crate::close::lemma_about(scale, n, from, 3);
    // neither factor is huge
    lemma_pow2_adds(25, 149);
    let nu: int = n * u;
    let sf: int = s * from;
    assert(nu <= 0x100_0000 * u && nu > 0) by (nonlinear_arith)
        requires
            nu == n * u,
            1 <= n <= 0x100_0000,
            u > 0,
    ;
    assert(s <= sf) by (nonlinear_arith)
        requires
            sf == s * from,
            from >= 1,
            s >= 0,
    ;
    assert((0x80_0000 + 3) * nu == 0x80_0003 * nu);
    assert(crate::ocr::text::drawing::within(scale, 25));
    assert(crate::ocr::text::drawing::within(v, 25));
    crate::ocr::text::drawing::lemma_area_within(v, scale, 25);
    let product: Single = Single::product(v, scale);
    let p: int = product.units();
    crate::close::lemma_product_close(v, scale);
    crate::close::lemma_signed_product(x, s);
    let zero: Single = Single { bits: 0 };
    assert(zero.units() == 0);
    let c: Single = on_page(values, to, from)[i];
    assert(c == product.clamped(zero, limit));
    let side: int = n * (from * u);
    assert(side == nu * from) by (nonlinear_arith)
        requires
            side == n * (from * u),
            nu == n * u,
    ;
    assert(side > 0) by (nonlinear_arith)
        requires
            side == nu * from,
            nu > 0,
            from >= 1,
    ;
    let (y, pf): (int, int) = (x * n, p * from);
    if x < 0 {
        assert(y <= 0) by (nonlinear_arith)
            requires
                y == x * n,
                x < 0,
                n >= 1,
        ;
        assert(c.units() == 0) by {
            assert(x * s <= 0) by (nonlinear_arith)
                requires
                    x <= 0,
                    s >= 0,
            ;
        }
        assert(c.units() * from == 0);
    } else {
        assert(x * s >= 0) by (nonlinear_arith)
            requires
                x >= 0,
                s >= 0,
        ;
        assert(p >= 0);
        let z: int = crate::close::scale_of(product) as int;
        assert(z * u <= (p + 0x80_0000) * u) by (nonlinear_arith)
            requires
                z <= p + 0x80_0000,
                u > 0,
        ;
        lemma_carried_product(x, s, p, n, from, u);
        assert(0x80_0000 * from <= u) by {
            lemma_pow2_adds(47, 102);
            lemma_pow2_adds(32, 15);
            lemma_pow2_pos(102);
            let h: int = pow2(102) as int;
            assert(pow2(47) * pow2(102) == 0x8000_0000_0000 * pow2(102)) by (nonlinear_arith)
                requires
                    pow2(47) == 0x8000_0000_0000,
            ;
        }
        assert(0x4000_0000 * (0x80_0000 * from) <= side) by {
            lemma_pow2_adds(77, 72);
            lemma_pow2_pos(72);
            lemma_pow2_adds(64, 13);
            assert(pow2(77) * pow2(72) == 0x2000_0000_0000_0000_0000 * pow2(72))
                by (nonlinear_arith)
                requires
                    pow2(77) == 0x2000_0000_0000_0000_0000,
            ;
            assert(nu >= u) by (nonlinear_arith)
                requires
                    nu == n * u,
                    n >= 1,
                    u > 0,
            ;
            assert(side >= u) by (nonlinear_arith)
                requires
                    side == nu * from,
                    nu >= u,
                    from >= 1,
                    u > 0,
            ;
        }
        if limit.below(product) {
            assert(pf >= side) by (nonlinear_arith)
                requires
                    pf == p * from,
                    side == nu * from,
                    p >= nu,
                    from >= 1,
            ;
        } else {
            assert(pf <= side) by (nonlinear_arith)
                requires
                    pf == p * from,
                    side == nu * from,
                    p <= nu,
                    from >= 1,
            ;
        }
    }
}

proof fn lemma_carried_product(x: int, s: int, p: int, n: int, from: int, u: int)
    requires
        x >= 0,
        s >= 0,
        p >= 0,
        n >= 1,
        from >= 1,
        u > 0,
        (0x80_0000 - 3) * (n * u) <= 0x80_0000 * (s * from),
        0x80_0000 * (s * from) <= (0x80_0000 + 3) * (n * u),
        0x100_0000 * (p * u - x * s) <= (p + 0x80_0000) * u,
        0x100_0000 * (x * s - p * u) <= (p + 0x80_0000) * u,
    ensures
        0xff_ffff * (p * from) <= 0x100_0006 * (x * n) + 0x80_0000 * from,
        0x100_0001 * (p * from) >= 0xff_fffa * (x * n) - 0x80_0000 * from,
{
    let (xs, pu, sf, nu): (int, int, int, int) = (x * s, p * u, s * from, n * u);
    assert((p + 0x80_0000) * u == pu + 0x80_0000 * u) by (nonlinear_arith)
        requires
            pu == p * u,
    ;
    let (xsf, puf): (int, int) = (xs * from, pu * from);
    let uf: int = u * from;
    assert(0xff_ffff * puf <= 0x100_0000 * xsf + 0x80_0000 * uf && 0x100_0001 * puf >= 0x100_0000
        * xsf - 0x80_0000 * uf) by (nonlinear_arith)
        requires
            puf == pu * from,
            xsf == xs * from,
            uf == u * from,
            0x100_0000 * (pu - xs) <= pu + 0x80_0000 * u,
            0x100_0000 * (xs - pu) <= pu + 0x80_0000 * u,
            from >= 1,
    ;
    let xnu: int = x * nu;
    assert(xsf == x * sf) by (nonlinear_arith)
        requires
            xsf == xs * from,
            xs == x * s,
            sf == s * from,
    ;
    assert(0x7f_fffd * xnu <= 0x80_0000 * xsf && 0x80_0000 * xsf <= 0x80_0003 * xnu)
        by (nonlinear_arith)
        requires
            xsf == x * sf,
            xnu == x * nu,
            0x7f_fffd * nu <= 0x80_0000 * sf,
            0x80_0000 * sf <= 0x80_0003 * nu,
            x >= 0,
    ;
    let (y, pf): (int, int) = (x * n, p * from);
    assert(xnu == y * u) by (nonlinear_arith)
        requires
            xnu == x * nu,
            nu == n * u,
            y == x * n,
    ;
    assert(puf == pf * u) by (nonlinear_arith)
        requires
            puf == pu * from,
            pu == p * u,
            pf == p * from,
    ;
    assert(uf == from * u) by (nonlinear_arith)
        requires
            uf == u * from,
    ;
    assert(0xff_ffff * pf <= 0x100_0006 * y + 0x80_0000 * from) by (nonlinear_arith)
        requires
            0xff_ffff * (pf * u) <= 0x100_0006 * (y * u) + 0x80_0000 * (from * u),
            u > 0,
    ;
    assert(0x100_0001 * pf >= 0xff_fffa * y - 0x80_0000 * from) by (nonlinear_arith)
        requires
            0x100_0001 * (pf * u) >= 0xff_fffa * (y * u) - 0x80_0000 * (from * u),
            u > 0,
    ;
}

/// The corners are finite and not beyond the largest map.
pub open spec fn corners_moderate(quad: Seq<Point>) -> bool {
    forall|i: int|
        0 <= i < quad.len() ==> {
            let p = #[trigger] quad[i];
            &&& p.0.finite() && -0x100_0000 * crate::single::unit() <= p.0.units() <= 0x100_0000
                * crate::single::unit()
            &&& p.1.finite() && -0x100_0000 * crate::single::unit() <= p.1.units() <= 0x100_0000
                * crate::single::unit()
        }
}

/// Both ends of a stretch on a page are values of a map carried over, and no value lies beyond
/// them, up to one part in `2^20` of the page.
pub open spec fn spans(low: Single, high: Single, values: Seq<Single>, to: int, from: int) -> bool {
    let side = to * (from * crate::single::unit());
    &&& exists|i: int| 0 <= i < values.len() && carried(low, #[trigger] values[i], to, from)
    &&& exists|i: int| 0 <= i < values.len() && carried(high, #[trigger] values[i], to, from)
    &&& forall|i: int|
        0 <= i < values.len() ==> {
            let want = crate::ocr::layout::rows::moved((#[trigger] values[i]).units() * to, side);
            &&& 0x10_0000 * (low.units() * from - want) <= side
            &&& 0x10_0000 * (want - high.units() * from) <= side
        }
}

/// The box on the page spans what the corners span on the map, carried over.
pub proof fn lemma_page_box(quad: Seq<Point>, ow: u32, oh: u32, pw: int, ph: int)
    requires
        quad.len() >= 1,
        corners_moderate(quad),
        1 <= ow <= 0x100_0000,
        1 <= oh <= 0x100_0000,
        1 <= pw <= 0x100_0000,
        1 <= ph <= 0x100_0000,
    ensures
        ({
            let bbox = page_box(quad, ow, oh, pw, ph);
            let xs = Seq::new(quad.len(), |i: int| quad[i].0);
            let ys = Seq::new(quad.len(), |i: int| quad[i].1);
            spans(bbox[0], bbox[2], xs, ow as int, pw) && spans(bbox[1], bbox[3], ys, oh as int, ph)
        }),
{
    let xs: Seq<Single> = Seq::new(quad.len(), |i: int| quad[i].0);
    let ys: Seq<Single> = Seq::new(quad.len(), |i: int| quad[i].1);
    assert(quad.map_values(|p: Point| p.0) =~= xs);
    assert(quad.map_values(|p: Point| p.1) =~= ys);
    assert forall|i: int| 0 <= i < xs.len() implies (#[trigger] xs[i]).finite() && -0x100_0000
        * crate::single::unit() <= xs[i].units() <= 0x100_0000 * crate::single::unit() by {
        assert(quad[i].0.finite());
    }
    assert forall|i: int| 0 <= i < ys.len() implies (#[trigger] ys[i]).finite() && -0x100_0000
        * crate::single::unit() <= ys[i].units() <= 0x100_0000 * crate::single::unit() by {
        assert(quad[i].0.finite());
    }
    lemma_carried_extremes(xs, ow, pw);
    lemma_carried_extremes(ys, oh, ph);
}

proof fn lemma_carried_extremes(values: Seq<Single>, to: u32, from: int)
    requires
        values.len() >= 1,
        forall|i: int|
            0 <= i < values.len() ==> (#[trigger] values[i]).finite() && -0x100_0000
                * crate::single::unit() <= values[i].units() <= 0x100_0000 * crate::single::unit(),
        1 <= to <= 0x100_0000,
        1 <= from <= 0x100_0000,
    ensures
        ({
            let vs = on_page(values, to, from);
            spans(least(vs), greatest(vs), values, to as int, from)
        }),
{
    let vs: Seq<Single> = on_page(values, to, from);
    assert forall|i: int| 0 <= i < values.len() implies carried(
        #[trigger] vs[i],
        values[i],
        to as int,
        from,
    ) by {
        assert(values[i].finite());
        lemma_carried(values, i, to, from);
    }
    lemma_extremes(vs);
    assert(vs[0].finite());
    assert(least(vs).at_most(vs[0]) && vs[0].at_most(greatest(vs)));
    crate::bounds::lemma_top();
    crate::bounds::lemma_below_infinity(vs[0]);
    assert(vs.contains(least(vs)) && vs.contains(greatest(vs)));
    let i: int = choose|i: int| 0 <= i < vs.len() && vs[i] == least(vs);
    let j: int = choose|j: int| 0 <= j < vs.len() && vs[j] == greatest(vs);
    assert(carried(vs[i], values[i], to as int, from));
    assert(carried(vs[j], values[j], to as int, from));
    let side: int = to * (from * crate::single::unit());
    assert forall|k: int| 0 <= k < values.len() implies {
        let want = crate::ocr::layout::rows::moved((#[trigger] values[k]).units() * to, side);
        &&& 0x10_0000 * (least(vs).units() * from - want) <= side
        &&& 0x10_0000 * (want - greatest(vs).units() * from) <= side
    } by {
        assert(carried(vs[k], values[k], to as int, from));
        assert(least(vs).at_most(vs[k]) && vs[k].at_most(greatest(vs)));
        let (a, b, c): (int, int, int) = (least(vs).units(), vs[k].units(), greatest(vs).units());
        assert(a * from <= b * from && b * from <= c * from) by (nonlinear_arith)
            requires
                a <= b <= c,
                from >= 1,
        ;
    }
}

/// The lines of a map are those of the borders of its mask, which shows the pixels above the
/// threshold for pixels; a map without pixels has none.
pub proof fn lemma_map_lines(
    settings: TextDetector,
    ow: u32,
    oh: u32,
    pw: int,
    ph: int,
    pred: Seq<Single>,
)
    ensures
        pw == 0 || ph == 0 ==> lines_of_map(settings, ow, oh, pw, ph, pred) == Some(
            Seq::<TextLine>::empty(),
        ),
        pw >= 1 && ph >= 1 ==> ({
            let borders = crate::raster::borders(
                mask_of(pred, pw, ph, settings.thresh),
                pw + 2,
                ph + 2,
            );
            let n = vstd::math::min(borders.len() as int, settings.max_candidates as int);
            lines_of_map(settings, ow, oh, pw, ph, pred) matches Some(lines) ==> lines
                == borders.take(n).filter_map(
                |border: Seq<(i32, i32)>| line_of(settings, ow, oh, pw, ph, pred, border),
            )
        }),
{
    if pw >= 1 && ph >= 1 {
        let borders: Seq<Seq<(i32, i32)>> = crate::raster::borders(
            mask_of(pred, pw, ph, settings.thresh),
            pw + 2,
            ph + 2,
        );
        lemma_all_found(settings, ow, oh, pw, ph, pred, borders);
    }
}

} // verus!
