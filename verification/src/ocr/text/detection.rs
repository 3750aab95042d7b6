//! Finding text lines on a page.
//!
//! The model is fed the page at a size that suits it and answers with a map of
//! probabilities. Lines are read off that map: borders of the likely regions, their
//! smallest rectangles, those that are likely enough expanded and mapped to the page.
use crate::ocr::text::geometry::Point;
use crate::ocr::text::sizes::{resize_for_test, LIMIT_SIDE_LEN, MAX_SIDE_LEN};
use crate::raster::{GrayImage, RgbImage};
use crate::single::Single;
use vstd::arithmetic::power2::*;
use vstd::prelude::*;

verus! {

/// How long the longer side may be unless set otherwise.
pub const DEFAULT_MAX_DET_SIDE: u32 = 1280;

/// The bit patterns of the means 0.485, 0.456 and 0.406 of the planes.
pub const MEAN: [u32; 3] = [0x3ef8_51ec, 0x3ee9_78d5, 0x3ecf_df3b];

/// The bit patterns of the deviations 0.229, 0.224 and 0.225 of the planes.
pub const STD: [u32; 3] = [0x3e6a_7efa, 0x3e65_6042, 0x3e66_6666];

/// The bit pattern of 0.2.
pub const THRESH: u32 = 0x3e4c_cccd;

/// The bit pattern of 0.4.
pub const BOX_THRESH: u32 = 0x3ecc_cccd;

/// The bit pattern of 1.4.
pub const UNCLIP_RATIO: u32 = 0x3fb3_3333;

/// The bit pattern of 3.
pub const MIN_BOX_SIZE: u32 = 0x4040_0000;

/// A line of text that was found.
#[derive(Debug, Clone, Copy)]
pub struct TextLine {
    /// The upright box around it, `[x1, y1, x2, y2]`, in pixels of the page and within it.
    pub bbox: [Single; 4],
    /// How likely it is: the mean probability within its rectangle.
    pub score: Single,
}

/// The settings of the text line detector.
#[derive(Debug, Clone, Copy)]
pub struct TextDetector {
    /// Pixels above this probability belong to text.
    pub thresh: Single,
    /// Rectangles below this mean probability are dropped.
    pub box_thresh: Single,
    /// How far rectangles are expanded.
    pub unclip_ratio: Single,
    /// How many borders are looked at.
    pub max_candidates: usize,
    /// Rectangles with a shorter side are dropped.
    pub min_box_size: Single,
    /// How long the longer side of the page may be.
    pub max_det_side: u32,
}

/// A picture as the model is fed it: the planes blue, green and red, one after the other.
#[derive(Debug)]
pub struct PageInput {
    pub width: u32,
    pub height: u32,
    pub data: Vec<Single>,
}

/// The planes of a picture that already has the size the model is fed.
pub open spec fn page_planes(data: Seq<u8>, pixels: int) -> Seq<Single> {
    crate::ocr::tensor::planes(
        data,
        pixels,
        seq![
            crate::ocr::tensor::tones(Single { bits: MEAN[0] }, Single { bits: STD[0] }),
            crate::ocr::tensor::tones(Single { bits: MEAN[1] }, Single { bits: STD[1] }),
            crate::ocr::tensor::tones(Single { bits: MEAN[2] }, Single { bits: STD[2] }),
        ],
    )
}

/// The planes of a picture that already has the size the model is fed.
pub fn normalise_page(resized: &RgbImage) -> (r: Vec<Single>)
    requires
        resized.wf(),
    ensures
        r@ == page_planes(resized.data@, resized.width * resized.height),
{
    let blue: Vec<Single> = crate::ocr::tensor::tone_table(
        Single::from_bits(MEAN[0]),
        Single::from_bits(STD[0]),
    );
    let green: Vec<Single> = crate::ocr::tensor::tone_table(
        Single::from_bits(MEAN[1]),
        Single::from_bits(STD[1]),
    );
    let red: Vec<Single> = crate::ocr::tensor::tone_table(
        Single::from_bits(MEAN[2]),
        Single::from_bits(STD[2]),
    );
    let plane: usize = resized.data.len() / 3;
    crate::ocr::tensor::to_planes(&resized.data, plane, &blue, &green, &red)
}

impl TextDetector {
    /// The longest side is one that a page can be scaled to.
    pub open spec fn wf(&self) -> bool {
        LIMIT_SIDE_LEN <= self.max_det_side <= MAX_SIDE_LEN
    }

    /// A detector with the settings that the model was made for.
    pub fn new() -> (r: TextDetector)
        ensures
            r.wf(),
            r.thresh.bits == THRESH,
            r.box_thresh.bits == BOX_THRESH,
            r.unclip_ratio.bits == UNCLIP_RATIO,
            r.max_candidates == 3000,
            r.min_box_size.bits == MIN_BOX_SIZE,
            r.max_det_side == DEFAULT_MAX_DET_SIDE,
    {
        TextDetector {
            thresh: Single::from_bits(THRESH),
            box_thresh: Single::from_bits(BOX_THRESH),
            unclip_ratio: Single::from_bits(UNCLIP_RATIO),
            max_candidates: 3000,
            min_box_size: Single::from_bits(MIN_BOX_SIZE),
            max_det_side: DEFAULT_MAX_DET_SIDE,
        }
    }

    /// Sets how long the longer side of the page may be, moved into `[736, 4000]`.
    ///
    /// Larger values find more of the small print on large pages, smaller ones are faster.
    pub fn with_max_det_side(self, max_det_side: u32) -> (r: TextDetector)
        ensures
            r.wf(),
            r == (TextDetector {
                max_det_side: if max_det_side < LIMIT_SIDE_LEN {
                    LIMIT_SIDE_LEN
                } else if max_det_side > MAX_SIDE_LEN {
                    MAX_SIDE_LEN
                } else {
                    max_det_side
                },
                ..self
            }),
    {
        let side: u32 = if max_det_side < LIMIT_SIDE_LEN {
            LIMIT_SIDE_LEN
        } else if max_det_side > MAX_SIDE_LEN {
            MAX_SIDE_LEN
        } else {
            max_det_side
        };
        TextDetector { max_det_side: side, ..self }
    }

    /// What the model is fed for a page: nothing for a page without pixels.
    pub fn input(&self, page: &RgbImage) -> (r: Option<PageInput>)
        requires
            self.wf(),
            page.wf(),
            page.empty() || crate::raster::resizable(
                page.width,
                page.height,
                crate::ocr::text::sizes::fed_sides(page.width, page.height, self.max_det_side).0 as u32,
                crate::ocr::text::sizes::fed_sides(page.width, page.height, self.max_det_side).1 as u32,
            ),
        ensures
            r is None <==> page.empty(),
            r matches Some(input) ==> {
                let sides = crate::ocr::text::sizes::fed_sides(page.width, page.height, self.max_det_side);
                &&& input.width == sides.0
                &&& input.height == sides.1
                &&& input.data@ == page_planes(
                    crate::raster::resampled_rgb(
                        page.data@,
                        page.width as int,
                        page.height as int,
                        sides.0,
                        sides.1,
                    ),
                    sides.0 * sides.1,
                )
                &&& input.data@.len() == 3 * (sides.0 * sides.1)
            },
    {
        if page.width == 0 || page.height == 0 {
            return None;
        }
        let sides: (u32, u32) = resize_for_test(page.width, page.height, self.max_det_side);
        let resized: RgbImage = crate::raster::resize_rgb(page, sides.0, sides.1);
        let data: Vec<Single> = normalise_page(&resized);
        Some(PageInput { width: sides.0, height: sides.1, data })
    }
}

/// The widest and the highest map whose coordinates are exact in binary32.
pub const WIDEST_MAP: usize = 0x100_0000;

/// A map of probabilities, row by row: it has at least one pixel, exact coordinates, and
/// with its border few enough pixels to trace.
pub open spec fn map_wf(pred: Seq<Single>, pw: usize, ph: usize) -> bool {
    &&& 1 <= pw <= WIDEST_MAP
    &&& 1 <= ph <= WIDEST_MAP
    &&& pw * ph <= pred.len()
    &&& crate::raster::traceable((pw + 2) as u32, (ph + 2) as u32)
}

/// Whether lines can be read off a map of these sides.
pub fn can_read_map(pred: &Vec<Single>, pw: usize, ph: usize) -> (r: bool)
    ensures
        r == map_wf(pred@, pw, ph),
{
    if pw < 1 || ph < 1 || pw > WIDEST_MAP || ph > WIDEST_MAP {
        return false;
    }
    proof {
        let (a, b): (int, int) = (pw as int, ph as int);
        assert(0 <= a * b <= 0x100_0000 * 0x100_0000) by (nonlinear_arith)
            requires
                0 <= a <= 0x100_0000,
                0 <= b <= 0x100_0000,
        ;
        assert(0 <= (a + 2) * (b + 2) <= 0x100_0002 * 0x100_0002) by (nonlinear_arith)
            requires
                0 <= a <= 0x100_0000,
                0 <= b <= 0x100_0000,
        ;
    }
    let traced: u64 = (pw as u64 + 2) * (ph as u64 + 2);
    pw as u64 * ph as u64 <= pred.len() as u64 && traced < i32::MAX as u64 && 4 * traced
        <= isize::MAX as u64
}

/// The whole numbers around a stretch from `low` to `high`, within `0 .. limit`.
pub open spec fn whole_span(low: Single, high: Single, limit: int) -> (int, int) {
    let last = Single::difference(Single::whole(limit), Single { bits: crate::single::ONE });
    let zero = Single { bits: 0 };
    (
        low.floored().clamped(zero, last).to_whole(i32::MIN as int, i32::MAX as int),
        high.ceiled().clamped(zero, last).to_whole(i32::MIN as int, i32::MAX as int),
    )
}

/// The columns that a quadrilateral spans on a map `pw` wide, first and last.
pub open spec fn columns(quad: Seq<Point>, pw: int) -> (int, int) {
    let xs = quad.map_values(|p: Point| p.0);
    whole_span(
        crate::ocr::text::geometry::least(xs),
        crate::ocr::text::geometry::greatest(xs),
        pw,
    )
}

/// The rows that a quadrilateral spans on a map `ph` high, first and last.
pub open spec fn rows(quad: Seq<Point>, ph: int) -> (int, int) {
    let ys = quad.map_values(|p: Point| p.1);
    whole_span(
        crate::ocr::text::geometry::least(ys),
        crate::ocr::text::geometry::greatest(ys),
        ph,
    )
}

/// A coordinate relative to `from`, rounded off.
pub open spec fn relative(v: Single, from: int) -> i32 {
    Single::difference(v, Single::whole(from)).rounded_off().to_whole(
        i32::MIN as int,
        i32::MAX as int,
    ) as i32
}

/// The corners of a quadrilateral relative to the first column and row that it spans.
pub open spec fn corners(quad: Seq<Point>, pw: int, ph: int) -> Seq<(i32, i32)> {
    quad.map_values(
        |p: Point| (relative(p.0, columns(quad, pw).0), relative(p.1, rows(quad, ph).0)),
    )
}

/// How many columns and rows a quadrilateral spans. Coordinates that are all "not a number"
/// span from the last to the first, which is none on a map of two.
pub open spec fn extents(quad: Seq<Point>, pw: int, ph: int) -> (int, int) {
    let (c, r) = (columns(quad, pw), rows(quad, ph));
    (c.1 - c.0 + 1, r.1 - r.0 + 1)
}

/// The quadrilateral can be drawn on a mask of the columns and rows that it spans: neither
/// number is negative, its edges can be followed, and where the mask has no rows, no corner is
/// in one of its columns.
pub open spec fn scorable(quad: Seq<Point>, pw: int, ph: int) -> bool {
    let (width, height) = extents(quad, pw, ph);
    &&& width >= 0
    &&& height >= 0
    &&& crate::raster::drawable(corners(quad, pw, ph))
    &&& height == 0 ==> forall|i: int|
        0 <= i < 4 ==> !(0 <= (#[trigger] corners(quad, pw, ph)[i]).0 < width)
}

/// The first corner of the quadrilateral falls on its last.
pub open spec fn closed(quad: Seq<Point>, pw: int, ph: int) -> bool {
    corners(quad, pw, ph)[0] == corners(quad, pw, ph)[3]
}

/// The first `n` pixels of a mask `width` wide that lies at column `left` and row `top` of
/// a map: the sum of the map's values under its nonzero pixels, row by row, and how many
/// these are.
pub open spec fn masked_sum(
    pred: Seq<Single>,
    pw: int,
    left: int,
    top: int,
    mask: Seq<u8>,
    width: int,
    n: nat,
) -> (Single, nat)
    decreases n,
{
    if n == 0 {
        (Single { bits: 0 }, 0)
    } else {
        let rest = masked_sum(pred, pw, left, top, mask, width, (n - 1) as nat);
        let k = n - 1;
        if mask[k] > 0 {
            (
                Single::sum(rest.0, pred[(top + k / width) * pw + left + k % width]),
                rest.1 + 1,
            )
        } else {
            rest
        }
    }
}

/// The mean of the map's values under the nonzero pixels of a mask, zero where it has none.
pub open spec fn masked_mean_of(
    pred: Seq<Single>,
    pw: int,
    left: int,
    top: int,
    mask: Seq<u8>,
    width: int,
) -> Single {
    let total = masked_sum(pred, pw, left, top, mask, width, mask.len());
    if total.1 == 0 {
        Single { bits: 0 }
    } else {
        Single::quotient(total.0, Single::whole(total.1 as int))
    }
}

/// The mask of a quadrilateral: 255 within, over the columns and rows that it spans.
pub open spec fn quad_mask(quad: Seq<Point>, pw: int, ph: int) -> Seq<u8> {
    let (width, height) = extents(quad, pw, ph);
    crate::raster::with_polygon(
        Seq::new((width * height) as nat, |i: int| 0u8),
        width,
        height,
        corners(quad, pw, ph),
        255,
    )
}

/// The mean probability within a quadrilateral, zero where its mask has no pixel.
pub open spec fn quad_score_of(pred: Seq<Single>, pw: int, ph: int, quad: Seq<Point>) -> Single {
    let (width, height) = extents(quad, pw, ph);
    if width == 0 || height == 0 {
        Single { bits: 0 }
    } else {
        masked_mean_of(
            pred,
            pw,
            columns(quad, pw).0,
            rows(quad, ph).0,
            quad_mask(quad, pw, ph),
            width,
        )
    }
}

/// The mean of a map's values under the nonzero pixels of a mask that lies at column
/// `left` and row `top`, zero where it has none.
pub fn masked_mean(pred: &Vec<Single>, pw: usize, left: usize, top: usize, mask: &GrayImage) -> (r:
    Single)
    requires
        mask.wf(),
        mask.width >= 1,
        left + mask.width <= pw,
        (top + mask.height) * pw <= pred.len(),
    ensures
        r == masked_mean_of(
            pred@,
            pw as int,
            left as int,
            top as int,
            mask.data@,
            mask.width as int,
        ),
{
    let width: usize = mask.width as usize;
    let mut sum: Single = Single::from_bits(0);
    let mut count: u64 = 0;
    let mut k: usize = 0;
    let mut row: usize = 0;
    let mut column: usize = 0;
    while k < mask.data.len()
        invariant
            mask.wf(),
            width == mask.width,
            width >= 1,
            left + width <= pw,
            (top + mask.height) * pw <= pred.len(),
            k <= mask.data.len(),
            column < width,
            k == row * width + column,
            count <= k,
            (sum, count as nat) == masked_sum(
                pred@,
                pw as int,
                left as int,
                top as int,
                mask.data@,
                width as int,
                k as nat,
            ),
        decreases mask.data.len() - k,
    {
        proof {
            let (w, h, y, x): (int, int, int, int) = (
                width as int,
                mask.height as int,
                row as int,
                column as int,
            );
            vstd::arithmetic::div_mod::lemma_fundamental_div_mod_converse(k as int, w, y, x);
            assert(y < h) by (nonlinear_arith)
                requires
                    y * w + x < w * h,
                    x >= 0,
                    w >= 1,
            ;
            let (t, p): (int, int) = (top as int, pw as int);
            assert((t + y) * p >= 0 && (t + y) * p + p <= (t + h) * p) by (nonlinear_arith)
                requires
                    0 <= y < h,
                    t >= 0,
                    p >= 0,
            ;
            assert((y + 1) * w == y * w + w) by (nonlinear_arith);
            assert(t + y <= (t + h) * p) by (nonlinear_arith)
                requires
                    0 <= y < h,
                    t >= 0,
                    p >= 1,
            ;
        }
        if mask.data[k] > 0 {
            let at: usize = (top + row) * pw + left + column;
            sum = sum.plus(pred[at]);
            count = count + 1;
        }
        k = k + 1;
        column = column + 1;
        if column == width {
            column = 0;
            row = row + 1;
        }
    }
    if count == 0 {
        Single::from_bits(0)
    } else {
        sum.over(Single::from_u64(count))
    }
}

/// The whole numbers around a stretch lie within its limit.
proof fn lemma_whole_span(low: Single, high: Single, limit: int)
    requires
        !low.nan(),
        !high.nan(),
        1 <= limit <= WIDEST_MAP,
    ensures
        0 <= whole_span(low, high, limit).0 < limit,
        0 <= whole_span(low, high, limit).1 < limit,
{
    let last: Single = Single::difference(
        Single::whole(limit),
        Single { bits: crate::single::ONE },
    );
    let zero: Single = Single { bits: 0 };
    crate::bounds::lemma_less_one(limit);
    crate::bounds::lemma_whole_parts(low);
    crate::bounds::lemma_whole_parts(high);
    lemma_pow2_pos(149);
    let n: nat = (limit - 1) as nat;
    assert(0 <= n * crate::single::unit()) by (nonlinear_arith);
    assert(zero.units() == 0);
    crate::bounds::lemma_whole_part(
        low.floored().clamped(zero, last),
        n,
        i32::MIN as int,
        i32::MAX as int,
    );
    crate::bounds::lemma_whole_part(
        high.ceiled().clamped(zero, last),
        n,
        i32::MIN as int,
        i32::MAX as int,
    );
}

/// The whole numbers around a stretch from `low` to `high`, within `0 .. limit`.
fn span_within(low: Single, high: Single, limit: usize) -> (r: (i32, i32))
    requires
        !low.nan(),
        !high.nan(),
        1 <= limit <= WIDEST_MAP,
    ensures
        (r.0 as int, r.1 as int) == whole_span(low, high, limit as int),
        0 <= r.0 < limit,
        0 <= r.1 < limit,
{
    proof {
        lemma_whole_span(low, high, limit as int);
        crate::bounds::lemma_less_one(limit as int);
        assert(0 <= (limit - 1) * crate::single::unit()) by (nonlinear_arith)
            requires
                limit >= 1,
                crate::single::unit() >= 0,
        ;
    }
    let last: Single = Single::from_u64(limit as u64).minus(Single::from_bits(crate::single::ONE));
    let zero: Single = Single::from_bits(0);
    (low.floor().clamp(zero, last).to_i32(), high.ceil().clamp(zero, last).to_i32())
}

/// A coordinate relative to `from`, rounded off.
fn relative_to(v: Single, from: i32) -> (r: i32)
    ensures
        r == relative(v, from as int),
{
    v.minus(Single::from_i64(from as i64)).round().to_i32()
}

/// Where a quadrilateral lies on a map.
struct Footprint {
    columns: (i32, i32),
    rows: (i32, i32),
    corners: Vec<(i32, i32)>,
}

/// Where a quadrilateral lies on a map.
fn footprint(quad: &crate::ocr::text::geometry::Quad, pw: usize, ph: usize) -> (r: Footprint)
    requires
        1 <= pw <= WIDEST_MAP,
        1 <= ph <= WIDEST_MAP,
    ensures
        (r.columns.0 as int, r.columns.1 as int) == columns(quad@, pw as int),
        (r.rows.0 as int, r.rows.1 as int) == rows(quad@, ph as int),
        r.corners@ == corners(quad@, pw as int, ph as int),
        0 <= r.columns.0 < pw,
        0 <= r.columns.1 < pw,
        0 <= r.rows.0 < ph,
        0 <= r.rows.1 < ph,
{
    let xs: [Single; 4] = [quad[0].0, quad[1].0, quad[2].0, quad[3].0];
    let ys: [Single; 4] = [quad[0].1, quad[1].1, quad[2].1, quad[3].1];
    assert(xs@ =~= quad@.map_values(|p: Point| p.0));
    assert(ys@ =~= quad@.map_values(|p: Point| p.1));
    proof {
        crate::ocr::text::geometry::lemma_extremes(xs@);
        crate::ocr::text::geometry::lemma_extremes(ys@);
    }
    let c: (i32, i32) = span_within(
        crate::ocr::text::geometry::minf(xs.as_slice()),
        crate::ocr::text::geometry::maxf(xs.as_slice()),
        pw,
    );
    let r: (i32, i32) = span_within(
        crate::ocr::text::geometry::minf(ys.as_slice()),
        crate::ocr::text::geometry::maxf(ys.as_slice()),
        ph,
    );
    let mut points: Vec<(i32, i32)> = Vec::new();
    points.push((relative_to(quad[0].0, c.0), relative_to(quad[0].1, r.0)));
    points.push((relative_to(quad[1].0, c.0), relative_to(quad[1].1, r.0)));
    points.push((relative_to(quad[2].0, c.0), relative_to(quad[2].1, r.0)));
    points.push((relative_to(quad[3].0, c.0), relative_to(quad[3].1, r.0)));
    assert(points@ =~= corners(quad@, pw as int, ph as int));
    Footprint { columns: c, rows: r, corners: points }
}

/// Whether a coordinate can be counted up to.
fn reachable(v: i32) -> (r: bool)
    ensures
        r == crate::raster::reachable(v),
{
    -crate::raster::FARTHEST <= v && v <= crate::raster::FARTHEST
}

/// Whether the distance of two coordinates can be told.
fn apart(a: i32, b: i32) -> (r: bool)
    ensures
        r == crate::raster::apart(a, b),
{
    let d: i64 = b as i64 - a as i64;
    i32::MIN as i64 <= d && d <= i32::MAX as i64
}

/// Whether an edge can be followed.
fn followable(p: (i32, i32), q: (i32, i32)) -> (r: bool)
    ensures
        r == crate::raster::followable(p, q),
{
    let top: i32 = crate::raster::TOLD_APART;
    if p.1 == q.1 {
        reachable(p.0) && reachable(q.0)
    } else {
        reachable(p.1) && reachable(q.1) && apart(p.1, q.1) && (reachable(p.0) && reachable(q.0)
            && apart(p.0, q.0) || p.0 == q.0 && -top <= p.1 && p.1 <= top && -top <= q.1 && q.1
            <= top)
    }
}

/// Whether a column lies on a mask `width` wide.
fn on_columns(v: i32, width: i32) -> (r: bool)
    ensures
        r == (0 <= v < width),
{
    0 <= v && v < width
}

/// Whether a quadrilateral can be drawn over the columns and rows that it spans.
pub fn can_score(pw: usize, ph: usize, quad: &crate::ocr::text::geometry::Quad) -> (r: bool)
    requires
        1 <= pw <= WIDEST_MAP,
        1 <= ph <= WIDEST_MAP,
    ensures
        r == scorable(quad@, pw as int, ph as int),
{
    let f: Footprint = footprint(quad, pw, ph);
    let width: i32 = f.columns.1 - f.columns.0 + 1;
    let height: i32 = f.rows.1 - f.rows.0 + 1;
    let (a, b, c, d) = (f.corners[0], f.corners[1], f.corners[2], f.corners[3]);
    let open: bool = a.0 != d.0 || a.1 != d.1;
    let followed: bool = followable(a, b) && followable(b, c) && followable(c, d) && followable(d, a);
    let seen: bool = on_columns(a.0, width) || on_columns(b.0, width) || on_columns(c.0, width)
        || on_columns(d.0, width);
    proof {
        let all: Seq<(i32, i32)> = corners(quad@, pw as int, ph as int);
        assert(all =~= seq![a, b, c, d]);
        assert(all.first() == a && all.last() == d);
        assert(open <==> a != d);
    }
    width >= 0 && height >= 0 && open && followed && !(height == 0 && seen)
}

/// The first corner of a rectangle falls on its last when both are rounded off.
#[derive(Debug, Clone, Copy, PartialEq, Eq)]
pub struct Undrawable;

/// The mean probability within a quadrilateral.
pub fn quad_score(
    pred: &Vec<Single>,
    pw: usize,
    ph: usize,
    quad: &crate::ocr::text::geometry::Quad,
) -> (r: Single)
    requires
        map_wf(pred@, pw, ph),
        scorable(quad@, pw as int, ph as int),
    ensures
        r == quad_score_of(pred@, pw as int, ph as int, quad@),
{
    let f: Footprint = footprint(quad, pw, ph);
    let (c, r) = (f.columns, f.rows);
    let width: u32 = (c.1 - c.0 + 1) as u32;
    let height: u32 = (r.1 - r.0 + 1) as u32;
    if width == 0 || height == 0 {
        return Single::from_bits(0);
    }
    proof {
        let (w, h, p, q): (int, int, int, int) = (width as int, height as int, pw as int, ph as int);
        assert(0 <= w * h <= p * q) by (nonlinear_arith)
            requires
                0 <= w <= p,
                0 <= h <= q,
        ;
        assert((r.0 + h) * p <= q * p) by (nonlinear_arith)
            requires
                0 <= r.0 + h <= q,
                p >= 0,
        ;
        assert(p * q == q * p) by (nonlinear_arith);
        assert(pred.len() <= usize::MAX);
    }
    let mut mask: GrayImage = blank(width, height);
    crate::raster::draw_polygon(&mut mask, &f.corners, 255);
    masked_mean(pred, pw, c.0 as usize, r.0 as usize, &mask)
}

/// A grey picture of zeros.
fn blank(width: u32, height: u32) -> (r: GrayImage)
    requires
        width * height <= usize::MAX,
    ensures
        r.wf(),
        r.width == width,
        r.height == height,
        r.data@ == Seq::new((width * height) as nat, |i: int| 0u8),
{
    let n: usize = width as usize * height as usize;
    let mut data: Vec<u8> = Vec::new();
    let mut i: usize = 0;
    while i < n
        invariant
            i <= n,
            data@ =~= Seq::new(i as nat, |i: int| 0u8),
        decreases n - i,
    {
        data.push(0);
        i = i + 1;
    }
    GrayImage { width, height, data }
}

/// The points of a border on the map: the mask has a frame of one pixel around it.
pub open spec fn map_points(border: Seq<(i32, i32)>) -> Seq<Point> {
    let one = Single { bits: crate::single::ONE };
    border.map_values(
        |p: (i32, i32)|
            (
                Single::difference(Single::whole(p.0 as int), one),
                Single::difference(Single::whole(p.1 as int), one),
            ),
    )
}

/// Coordinates on a map `from` long, on a page `to` long and moved onto it.
pub open spec fn on_page(values: Seq<Single>, to: u32, from: int) -> Seq<Single> {
    let scale = Single::quotient(Single::whole(to as int), Single::whole(from));
    values.map_values(
        |v: Single|
            Single::product(v, scale).clamped(Single { bits: 0 }, Single::whole(to as int)),
    )
}

/// The upright box on the page around a quadrilateral on the map.
pub open spec fn page_box(quad: Seq<Point>, ow: u32, oh: u32, pw: int, ph: int) -> [Single; 4] {
    let xs = on_page(quad.map_values(|p: Point| p.0), ow, pw);
    let ys = on_page(quad.map_values(|p: Point| p.1), oh, ph);
    [
        crate::ocr::text::geometry::least(xs),
        crate::ocr::text::geometry::least(ys),
        crate::ocr::text::geometry::greatest(xs),
        crate::ocr::text::geometry::greatest(ys),
    ]
}

/// The box is at least one pixel wide and high.
pub open spec fn large_enough(bbox: [Single; 4]) -> bool {
    let one = Single { bits: crate::single::ONE };
    !Single::difference(bbox[2], bbox[0]).below(one) && !Single::difference(
        bbox[3],
        bbox[1],
    ).below(one)
}

/// What a border makes: a line, nothing, or a rectangle that cannot be drawn.
#[verifier::opaque]
pub open spec fn candidate_of(
    settings: TextDetector,
    ow: u32,
    oh: u32,
    pw: int,
    ph: int,
    pred: Seq<Single>,
    border: Seq<(i32, i32)>,
) -> Result<Option<TextLine>, Undrawable> {
    let quad = crate::ocr::text::geometry::quad_around(
        crate::ocr::text::geometry::hull_of(map_points(border)),
    );
    let score = quad_score_of(pred, pw, ph, quad);
    let grown = crate::ocr::text::geometry::unclipped(quad, settings.unclip_ratio);
    let least = Single::sum(settings.min_box_size, Single { bits: crate::ocr::text::geometry::TWO });
    let bbox = page_box(grown, ow, oh, pw, ph);
    if border.len() < 4 || crate::ocr::text::geometry::shortest_side(quad).below(
        settings.min_box_size,
    ) {
        Ok(None)
    } else if closed(quad, pw, ph) {
        Err(Undrawable)
    } else if score.below(settings.box_thresh) || crate::ocr::text::geometry::shortest_side(
        grown,
    ).below(least) || !large_enough(bbox) {
        Ok(None)
    } else {
        Ok(Some(TextLine { bbox, score }))
    }
}

/// The lines that the first `n` borders make, `None` where a rectangle cannot be drawn.
pub open spec fn found_lines(
    settings: TextDetector,
    ow: u32,
    oh: u32,
    pw: int,
    ph: int,
    pred: Seq<Single>,
    borders: Seq<Seq<(i32, i32)>>,
    n: nat,
) -> Option<Seq<TextLine>>
    decreases n,
{
    if n == 0 {
        Some(Seq::empty())
    } else {
        match (
            found_lines(settings, ow, oh, pw, ph, pred, borders, (n - 1) as nat),
            candidate_of(settings, ow, oh, pw, ph, pred, borders[n - 1]),
        ) {
            (Some(rest), Ok(Some(line))) => Some(rest.push(line)),
            (Some(rest), Ok(None)) => Some(rest),
            _ => None,
        }
    }
}

/// The lines that borders make, in the order of the borders.
pub open spec fn lines_of_borders(
    settings: TextDetector,
    ow: u32,
    oh: u32,
    pw: int,
    ph: int,
    pred: Seq<Single>,
    borders: Seq<Seq<(i32, i32)>>,
) -> Option<Seq<TextLine>> {
    let n = if borders.len() < settings.max_candidates {
        borders.len()
    } else {
        settings.max_candidates as nat
    };
    found_lines(settings, ow, oh, pw, ph, pred, borders, n)
}

/// The box lies within a page, its right edge beyond its left and its bottom below its top.
pub open spec fn inside_page(bbox: [Single; 4], ow: u32, oh: u32) -> bool {
    &&& !bbox[0].nan()
    &&& !bbox[1].nan()
    &&& !bbox[2].nan()
    &&& !bbox[3].nan()
    &&& 0 <= bbox[0].units() < bbox[2].units() <= Single::whole(ow as int).units()
    &&& 0 <= bbox[1].units() < bbox[3].units() <= Single::whole(oh as int).units()
}

/// Values on a page stay on it, and so do the smallest and the largest of them.
pub proof fn lemma_on_page(values: Seq<Single>, to: u32, from: int)
    ensures
        ({
            let vs = on_page(values, to, from);
            let limit = Single::whole(to as int).units();
            let (low, high) = (
                crate::ocr::text::geometry::least(vs),
                crate::ocr::text::geometry::greatest(vs),
            );
            ||| 0 <= low.units() <= limit && 0 <= high.units() <= limit && low.finite()
                && high.finite()
            ||| low.bits == crate::single::INFINITY && high.bits == crate::single::NEG_INFINITY
        }),
    decreases values.len(),
{
    let vs: Seq<Single> = on_page(values, to, from);
    crate::bounds::lemma_whole_ordered(0, to as nat);
    crate::bounds::lemma_top();
    if values.len() > 0 {
        lemma_on_page(values.drop_last(), to, from);
        assert(vs.drop_last() =~= on_page(values.drop_last(), to, from));
        let v: Single = vs.last();
        let zero: Single = Single { bits: 0 };
        assert(zero.units() == 0);
        assert(!v.nan() ==> 0 <= v.units() <= Single::whole(to as int).units());
        lemma_infinity();
        if !v.nan() && !v.finite() {
            crate::bounds::lemma_below_infinity(Single::whole(to as int));
            assert(false);
        }
        if !v.nan() {
            crate::bounds::lemma_below_infinity(v);
        }
    }
}

/// The values of the infinities.
proof fn lemma_infinity()
    ensures
        (Single { bits: crate::single::INFINITY }).units() == pow2(277),
        (Single { bits: crate::single::NEG_INFINITY }).units() == -(pow2(277) as int),
{
    crate::bounds::lemma_top();
}

/// What is at least one pixel wide and high lies within the page.
proof fn lemma_inside_page(quad: Seq<Point>, ow: u32, oh: u32, pw: int, ph: int)
    ensures
        ({
            let bbox = page_box(quad, ow, oh, pw, ph);
            large_enough(bbox) ==> inside_page(bbox, ow, oh)
        }),
{
    let xs: Seq<Single> = quad.map_values(|p: Point| p.0);
    let ys: Seq<Single> = quad.map_values(|p: Point| p.1);
    let bbox: [Single; 4] = page_box(quad, ow, oh, pw, ph);
    lemma_on_page(xs, ow, pw);
    lemma_on_page(ys, oh, ph);
    if large_enough(bbox) {
        lemma_gap(bbox[0], bbox[2]);
        lemma_gap(bbox[1], bbox[3]);
    }
}

/// Numbers at least one apart are in order.
proof fn lemma_gap(low: Single, high: Single)
    requires
        low.finite() && high.finite() || low.bits == crate::single::INFINITY && high.bits
            == crate::single::NEG_INFINITY,
        !Single::difference(high, low).below(Single { bits: crate::single::ONE }),
    ensures
        low.finite(),
        high.finite(),
        low.units() < high.units(),
{
    let one: Single = Single { bits: crate::single::ONE };
    crate::bounds::lemma_one();
    lemma_pow2_pos(149);
    if low.finite() {
        crate::bounds::lemma_difference(high, low);
    } else {
        reveal(Single::sum);
        lemma_infinity();
        lemma_pow2_pos(277);
        assert(low.negated().bits == crate::single::NEG_INFINITY);
    }
}

impl TextDetector {
    /// The line is likely enough, and its box large enough and within the page.
    pub open spec fn kept(self, line: TextLine, ow: u32, oh: u32) -> bool {
        &&& !line.score.below(self.box_thresh)
        &&& large_enough(line.bbox)
        &&& inside_page(line.bbox, ow, oh)
    }

    /// Every line is kept.
    pub open spec fn all_kept(self, lines: Seq<TextLine>, ow: u32, oh: u32) -> bool {
        forall|i: int| 0 <= i < lines.len() ==> self.kept(#[trigger] lines[i], ow, oh)
    }

    /// The least and the greatest of four coordinates, mapped to the page and moved onto it.
    fn extent(a: Single, b: Single, c: Single, d: Single, to: u32, from: usize) -> (r: (
        Single,
        Single,
    ))
        ensures
            ({
                let vs = on_page(seq![a, b, c, d], to, from as int);
                &&& r.0 == crate::ocr::text::geometry::least(vs)
                &&& r.1 == crate::ocr::text::geometry::greatest(vs)
            }),
    {
        let limit: Single = Single::from_u64(to as u64);
        let scale: Single = limit.over(Single::from_u64(from as u64));
        let zero: Single = Single::from_bits(0);
        proof {
            crate::bounds::lemma_whole_ordered(0, to as nat);
            assert(zero.units() == 0);
        }
        let vs: [Single; 4] = [
            a.times(scale).clamp(zero, limit),
            b.times(scale).clamp(zero, limit),
            c.times(scale).clamp(zero, limit),
            d.times(scale).clamp(zero, limit),
        ];
        assert(vs@ =~= on_page(seq![a, b, c, d], to, from as int));
        (
            crate::ocr::text::geometry::minf(vs.as_slice()),
            crate::ocr::text::geometry::maxf(vs.as_slice()),
        )
    }

    /// What a border makes: a line, nothing, or a rectangle that cannot be drawn.
    pub fn candidate(
        &self,
        ow: u32,
        oh: u32,
        pw: usize,
        ph: usize,
        pred: &Vec<Single>,
        border: &Vec<(i32, i32)>,
    ) -> (r: Result<Option<TextLine>, Undrawable>)
        requires
            map_wf(pred@, pw, ph),
            crate::ocr::text::drawing::on_mask(border@, pw as int, ph as int),
        ensures
            r == candidate_of(*self, ow, oh, pw as int, ph as int, pred@, border@),
            r matches Ok(Some(line)) ==> self.kept(line, ow, oh),
    {
        proof {
            reveal(candidate_of);
        }
        if border.len() < 4 {
            return Ok(None);
        }
        let points: Vec<Point> = points_on_map(border);
        let quad: crate::ocr::text::geometry::Quad = crate::ocr::text::geometry::min_area_quad(
            points.as_slice(),
        );
        if crate::ocr::text::geometry::short_side(&quad).lt(self.min_box_size) {
            return Ok(None);
        }
        proof {
            assert(border.len() <= usize::MAX);
            crate::ocr::text::drawing::lemma_border_scorable(border@, pw as int, ph as int);
        }
        if !can_score(pw, ph, &quad) {
            return Err(Undrawable);
        }
        let score: Single = quad_score(pred, pw, ph, &quad);
        if score.lt(self.box_thresh) {
            return Ok(None);
        }
        let grown: crate::ocr::text::geometry::Quad = crate::ocr::text::geometry::unclip(
            &quad,
            self.unclip_ratio,
        );
        let least: Single = self.min_box_size.plus(
            Single::from_bits(crate::ocr::text::geometry::TWO),
        );
        if crate::ocr::text::geometry::short_side(&grown).lt(least) {
            return Ok(None);
        }
        let xs: (Single, Single) = TextDetector::extent(
            grown[0].0,
            grown[1].0,
            grown[2].0,
            grown[3].0,
            ow,
            pw,
        );
        let ys: (Single, Single) = TextDetector::extent(
            grown[0].1,
            grown[1].1,
            grown[2].1,
            grown[3].1,
            oh,
            ph,
        );
        let bbox: [Single; 4] = [xs.0, ys.0, xs.1, ys.1];
        proof {
            let gx: Seq<Single> = grown@.map_values(|p: Point| p.0);
            let gy: Seq<Single> = grown@.map_values(|p: Point| p.1);
            assert(gx =~= seq![grown@[0].0, grown@[1].0, grown@[2].0, grown@[3].0]);
            assert(gy =~= seq![grown@[0].1, grown@[1].1, grown@[2].1, grown@[3].1]);
            let want: [Single; 4] = page_box(grown@, ow, oh, pw as int, ph as int);
            assert(bbox@ =~= want@);
            assert(bbox =~= want);
            lemma_inside_page(grown@, ow, oh, pw as int, ph as int);
        }
        let one: Single = Single::from_bits(crate::single::ONE);
        if xs.1.minus(xs.0).lt(one) || ys.1.minus(ys.0).lt(one) {
            return Ok(None);
        }
        Ok(Some(TextLine { bbox, score }))
    }
}

/// The points of a border on the map.
fn points_on_map(border: &Vec<(i32, i32)>) -> (r: Vec<Point>)
    ensures
        r@ == map_points(border@),
        crate::ocr::text::geometry::ordered(r@),
{
    let one: Single = Single::from_bits(crate::single::ONE);
    let mut r: Vec<Point> = Vec::new();
    let mut i: usize = 0;
    while i < border.len()
        invariant
            i <= border.len(),
            one.bits == crate::single::ONE,
            r@ =~= map_points(border@).take(i as int),
            crate::ocr::text::geometry::ordered(r@),
        decreases border.len() - i,
    {
        let p: (i32, i32) = border[i];
        proof {
            lemma_less_one_is_number(p.0 as int);
            lemma_less_one_is_number(p.1 as int);
        }
        let x: Single = Single::from_i64(p.0 as i64).minus(one);
        let y: Single = Single::from_i64(p.1 as i64).minus(one);
        r.push((x, y));
        i = i + 1;
    }
    r
}

/// One less than a whole number is a number.
proof fn lemma_less_one_is_number(n: int)
    requires
        i32::MIN <= n <= i32::MAX,
    ensures
        !Single::difference(Single::whole(n), Single { bits: crate::single::ONE }).nan(),
{
    reveal(Single::whole);
    let u: nat = crate::single::unit();
    let s: nat = crate::single::size(n);
    crate::bounds::lemma_rounded(n < 0, s * u, 1);
    crate::bounds::lemma_whole_ordered(0, s);
    crate::bounds::lemma_rounded(false, s * u, 1);
    crate::bounds::lemma_difference(Single::whole(n), Single { bits: crate::single::ONE });
}

/// The mask of a map: 255 where the probability exceeds the threshold, in a frame of zeros.
pub open spec fn mask_of(pred: Seq<Single>, pw: int, ph: int, thresh: Single) -> Seq<u8> {
    Seq::new(
        ((pw + 2) * (ph + 2)) as nat,
        |k: int|
            {
                let (x, y) = (k % (pw + 2) - 1, k / (pw + 2) - 1);
                if 0 <= x < pw && 0 <= y < ph && thresh.below(pred[y * pw + x]) {
                    255u8
                } else {
                    0u8
                }
            },
    )
}

/// The lines that a map shows, `None` where a rectangle cannot be drawn.
pub open spec fn lines_of_map(
    settings: TextDetector,
    ow: u32,
    oh: u32,
    pw: int,
    ph: int,
    pred: Seq<Single>,
) -> Option<Seq<TextLine>> {
    if pw == 0 || ph == 0 {
        Some(Seq::empty())
    } else {
        lines_of_borders(
            settings,
            ow,
            oh,
            pw,
            ph,
            pred,
            crate::raster::borders(mask_of(pred, pw, ph, settings.thresh), pw + 2, ph + 2),
        )
    }
}

/// The detector drops rectangles as the model was made for, on a map that is moderate.
pub open spec fn moderate(settings: TextDetector, pw: int, ph: int) -> bool {
    &&& settings.min_box_size.bits == MIN_BOX_SIZE
    &&& pw <= crate::ocr::text::drawing::MODERATE
    &&& ph <= crate::ocr::text::drawing::MODERATE
}

/// Lines that are kept are so in whatever order they are listed.
proof fn lemma_all_kept(
    settings: TextDetector,
    a: Seq<TextLine>,
    b: Seq<TextLine>,
    ow: u32,
    oh: u32,
)
    requires
        settings.all_kept(a, ow, oh),
        a.to_multiset() == b.to_multiset(),
    ensures
        settings.all_kept(b, ow, oh),
{
    broadcast use vstd::seq_lib::group_to_multiset_ensures;

    assert forall|i: int| 0 <= i < b.len() implies settings.kept(#[trigger] b[i], ow, oh) by {
        assert(b.contains(b[i]));
        assert(b.to_multiset().count(b[i]) > 0);
        assert(a.contains(b[i]));
        let k: int = choose|k: int| 0 <= k < a.len() && a[k] == b[i];
        assert(settings.kept(a[k], ow, oh));
    }
}

/// No pixel of a map exceeds the threshold.
pub open spec fn unlikely(pred: Seq<Single>, pw: int, ph: int, thresh: Single) -> bool {
    forall|i: int| 0 <= i < pw * ph ==> !thresh.below(#[trigger] pred[i])
}

/// The mask of a map without likely pixels is zero everywhere.
proof fn lemma_unlikely(pred: Seq<Single>, pw: int, ph: int, thresh: Single, k: int)
    requires
        unlikely(pred, pw, ph, thresh),
        0 <= k < mask_of(pred, pw, ph, thresh).len(),
    ensures
        mask_of(pred, pw, ph, thresh)[k] == 0,
{
    let (x, y): (int, int) = (k % (pw + 2) - 1, k / (pw + 2) - 1);
    if 0 <= x < pw && 0 <= y < ph {
        assert(0 <= y * pw + x < pw * ph) by (nonlinear_arith)
            requires
                0 <= x < pw,
                0 <= y < ph,
        ;
    }
}

/// The mask of a map: 255 where the probability exceeds the threshold, in a frame of zeros.
fn binarise(pred: &Vec<Single>, pw: usize, ph: usize, thresh: Single) -> (r: GrayImage)
    requires
        map_wf(pred@, pw, ph),
    ensures
        r.wf(),
        r.width == pw + 2,
        r.height == ph + 2,
        r.data@ == mask_of(pred@, pw as int, ph as int, thresh),
{
    let width: usize = pw + 2;
    let height: usize = ph + 2;
    let ghost want: Seq<u8> = mask_of(pred@, pw as int, ph as int, thresh);
    let mut data: Vec<u8> = Vec::new();
    let mut row: usize = 0;
    while row < height
        invariant
            row <= height,
            width == pw + 2,
            height == ph + 2,
            map_wf(pred@, pw, ph),
            want == mask_of(pred@, pw as int, ph as int, thresh),
            data@.len() == row * width,
            data@ == want.take(row * width),
            row * width <= want.len(),
        decreases height - row,
    {
        let mut column: usize = 0;
        proof {
            let (w, h, y): (int, int, int) = (width as int, height as int, row as int);
            assert((y + 1) * w == y * w + w) by (nonlinear_arith);
            assert((y + 1) * w <= w * h) by (nonlinear_arith)
                requires
                    y + 1 <= h,
                    w >= 0,
            ;
        }
        while column < width
            invariant
                column <= width,
                row < height,
                width == pw + 2,
                height == ph + 2,
                map_wf(pred@, pw, ph),
                want == mask_of(pred@, pw as int, ph as int, thresh),
                row * width + width <= want.len(),
                data@.len() == row * width + column,
                data@ == want.take(row * width + column),
            decreases width - column,
        {
            let ghost k: int = row * width + column;
            proof {
                vstd::arithmetic::div_mod::lemma_fundamental_div_mod_converse(
                    k,
                    width as int,
                    row as int,
                    column as int,
                );
            }
            let inner: bool = 1 <= column && column <= pw && 1 <= row && row <= ph;
            let mut value: u8 = 0;
            if inner {
                proof {
                    let (p, q, y): (int, int, int) = (pw as int, ph as int, row - 1);
                    assert(0 <= y * p && y * p + p <= p * q) by (nonlinear_arith)
                        requires
                            0 <= y,
                            y + 1 <= q,
                            p >= 0,
                    ;
                    assert(pred.len() <= usize::MAX);
                }
                if thresh.lt(pred[(row - 1) * pw + (column - 1)]) {
                    value = 255;
                }
            }
            assert(value == want[k]);
            data.push(value);
            assert(data@ =~= want.take(k + 1));
            column = column + 1;
        }
        row = row + 1;
    }
    proof {
        assert(height * width == width * height) by (nonlinear_arith);
        assert(want.take(height * width) =~= want);
    }
    GrayImage { width: width as u32, height: height as u32, data }
}

impl TextDetector {
    /// The lines that borders make, in reading order.
    ///
    /// An error where the first corner of a rectangle falls on its last.
    pub fn lines_from_borders(
        &self,
        ow: u32,
        oh: u32,
        pw: usize,
        ph: usize,
        pred: &Vec<Single>,
        borders: &Vec<Vec<(i32, i32)>>,
    ) -> (r: Result<Vec<TextLine>, Undrawable>)
        requires
            map_wf(pred@, pw, ph),
            forall|i: int|
                0 <= i < borders@.len() ==> crate::ocr::text::drawing::on_mask(
                    (#[trigger] borders@[i])@,
                    pw as int,
                    ph as int,
                ),
        ensures
            ({
                let found = lines_of_borders(
                    *self,
                    ow,
                    oh,
                    pw as int,
                    ph as int,
                    pred@,
                    crate::raster::border_points(borders@),
                );
                &&& r is Err <==> found is None
                &&& r matches Ok(lines) ==> lines@ == crate::ocr::text::reading::in_reading_order(
                    found->Some_0,
                )
            }),
            r matches Ok(lines) ==> self.all_kept(lines@, ow, oh) && lines@.len()
                <= self.max_candidates,
            r matches Ok(lines) ==> crate::ocr::text::reading::downward(lines@)
                && crate::ocr::text::reading::ordered_to(lines@, lines@.len() - 1),
            moderate(*self, pw as int, ph as int) ==> r is Ok,
    {
        let ghost points: Seq<Seq<(i32, i32)>> = crate::raster::border_points(borders@);
        let n: usize = if borders.len() < self.max_candidates {
            borders.len()
        } else {
            self.max_candidates
        };
        proof {
            if moderate(*self, pw as int, ph as int) {
                assert forall|i: int| 0 <= i < points.len() implies crate::ocr::text::drawing::on_mask(
                    #[trigger] points[i],
                    pw as int,
                    ph as int,
                ) && points[i].len() <= usize::MAX by {
                    assert(points[i] == borders@[i]@);
                    assert(borders@[i].len() <= usize::MAX);
                }
                crate::ocr::text::drawing::lemma_lines_found(
                    *self,
                    ow,
                    oh,
                    pw as int,
                    ph as int,
                    pred@,
                    points,
                    n as nat,
                );
            }
        }
        let mut lines: Vec<TextLine> = Vec::new();
        let mut i: usize = 0;
        while i < n
            invariant
                i <= n,
                forall|i: int|
                    0 <= i < borders@.len() ==> crate::ocr::text::drawing::on_mask(
                        (#[trigger] borders@[i])@,
                        pw as int,
                        ph as int,
                    ),
                moderate(*self, pw as int, ph as int) ==> found_lines(
                    *self,
                    ow,
                    oh,
                    pw as int,
                    ph as int,
                    pred@,
                    points,
                    n as nat,
                ) is Some,
                n == (if borders.len() < self.max_candidates {
                    borders.len()
                } else {
                    self.max_candidates
                }),
                map_wf(pred@, pw, ph),
                points == crate::raster::border_points(borders@),
                found_lines(*self, ow, oh, pw as int, ph as int, pred@, points, i as nat) == Some(
                    lines@,
                ),
                self.all_kept(lines@, ow, oh),
                lines@.len() <= i,
            decreases n - i,
        {
            assert(points[i as int] == borders@[i as int]@);
            match self.candidate(ow, oh, pw, ph, pred, &borders[i]) {
                Ok(Some(line)) => {
                    lines.push(line);
                },
                Ok(None) => {},
                Err(e) => {
                    proof {
                        lemma_found_none(
                            *self,
                            ow,
                            oh,
                            pw as int,
                            ph as int,
                            pred@,
                            points,
                            (i + 1) as nat,
                            n as nat,
                        );
                    }
                    return Err(e);
                },
            }
            i = i + 1;
        }
        let ghost before: Seq<TextLine> = lines@;
        crate::ocr::text::reading::sort_reading_order(&mut lines);
        proof {
            lemma_all_kept(*self, before, lines@, ow, oh);
            vstd::seq_lib::to_multiset_len(before);
            vstd::seq_lib::to_multiset_len(lines@);
        }
        Ok(lines)
    }

    /// The lines that a map of probabilities shows, in reading order, for a page of the
    /// given sides.
    ///
    /// An error where the first corner of a rectangle falls on its last, which happens on no
    /// map of moderate size.
    pub fn lines(&self, ow: u32, oh: u32, pw: usize, ph: usize, pred: &Vec<Single>) -> (r: Result<
        Vec<TextLine>,
        Undrawable,
    >)
        requires
            pw == 0 || ph == 0 || map_wf(pred@, pw, ph),
        ensures
            ({
                let found = lines_of_map(*self, ow, oh, pw as int, ph as int, pred@);
                &&& r is Err <==> found is None
                &&& r matches Ok(lines) ==> lines@ == crate::ocr::text::reading::in_reading_order(
                    found->Some_0,
                )
            }),
            r matches Ok(lines) ==> self.all_kept(lines@, ow, oh) && lines@.len()
                <= self.max_candidates,
            r matches Ok(lines) ==> crate::ocr::text::reading::downward(lines@)
                && crate::ocr::text::reading::ordered_to(lines@, lines@.len() - 1),
            moderate(*self, pw as int, ph as int) ==> r is Ok,
            unlikely(pred@, pw as int, ph as int, self.thresh) ==> r is Ok && r->Ok_0@.len()
                == 0,
    {
        if pw == 0 || ph == 0 {
            return Ok(Vec::new());
        }
        let mask: GrayImage = binarise(pred, pw, ph, self.thresh);
        let borders: Vec<Vec<(i32, i32)>> = crate::raster::find_contours(&mask);
        proof {
            if unlikely(pred@, pw as int, ph as int, self.thresh) && borders@.len() > 0 {
                let p: (i32, i32) = borders@[0]@[0];
                let (x, y, w, h): (int, int, int, int) = (
                    p.0 as int,
                    p.1 as int,
                    mask.width as int,
                    mask.height as int,
                );
                assert(0 <= y * w + x < w * h) by (nonlinear_arith)
                    requires
                        0 <= x < w,
                        0 <= y < h,
                ;
                lemma_unlikely(pred@, pw as int, ph as int, self.thresh, y * w + x);
                assert(false);
            }
        }
        assert forall|i: int| 0 <= i < borders@.len() implies crate::ocr::text::drawing::on_mask(
            (#[trigger] borders@[i])@,
            pw as int,
            ph as int,
        ) by {
            assert forall|k: int| 0 <= k < borders@[i]@.len() implies 0 <= (
            #[trigger] borders@[i]@[k]).0 < pw + 2 && 0 <= borders@[i]@[k].1 < ph + 2 by {
            }
        }
        self.lines_from_borders(ow, oh, pw, ph, pred, &borders)
    }
}

/// Once a rectangle cannot be drawn, no lines are found.
proof fn lemma_found_none(
    settings: TextDetector,
    ow: u32,
    oh: u32,
    pw: int,
    ph: int,
    pred: Seq<Single>,
    borders: Seq<Seq<(i32, i32)>>,
    k: nat,
    n: nat,
)
    requires
        k <= n,
        found_lines(settings, ow, oh, pw, ph, pred, borders, k) is None,
    ensures
        found_lines(settings, ow, oh, pw, ph, pred, borders, n) is None,
    decreases n,
{
    if k < n {
        lemma_found_none(settings, ow, oh, pw, ph, pred, borders, k, (n - 1) as nat);
    }
}

} // verus!
