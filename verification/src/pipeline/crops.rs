//! The parts of a page that are read, and what their texts make of the regions.
use crate::ocr::layout::predictor::LayoutBox;
use crate::ocr::text::detection::TextLine;
use crate::pipeline::labels::{formula_text, is_single_line_label, markdown_text};
use crate::pipeline::regions::{assign_lines, find_text_regions};
use crate::raster::RgbImage;
use crate::single::Single;
use vstd::prelude::*;
use vstd::string::*;

verus! {

/// The whole part of a number in the range of `i32`.
pub open spec fn whole_i32(v: Single) -> int {
    v.to_whole(i32::MIN as int, i32::MAX as int)
}

/// An unsigned number read as a signed one of the same bits.
pub open spec fn as_signed(v: u32) -> int {
    if v >= 0x8000_0000u32 {
        v - 0x1_0000_0000
    } else {
        v as int
    }
}

/// A signed number read as an unsigned one of the same bits.
pub open spec fn as_unsigned(v: int) -> int {
    if v < 0 {
        v + 0x1_0000_0000
    } else {
        v
    }
}

/// Where a part begins: `padding` before `v`, and not before zero.
pub open spec fn start_of(v: Single, padding: u32) -> int {
    let at = whole_i32(v) - as_signed(padding);
    if at < 0 {
        0
    } else {
        at
    }
}

/// Where a part ends: `padding` after `v`, and not after `limit`.
pub open spec fn end_of(v: Single, padding: u32, limit: u32) -> int {
    let at = whole_i32(v) + as_signed(padding);
    as_unsigned(
        if at > as_signed(limit) {
            as_signed(limit)
        } else {
            at
        },
    )
}

/// The padded coordinate stays in the range of `i32`.
pub open spec fn paddable(low: Single, high: Single, padding: u32) -> bool {
    &&& i32::MIN <= whole_i32(low) - as_signed(padding) <= i32::MAX
    &&& i32::MIN <= whole_i32(high) + as_signed(padding) <= i32::MAX
}

/// The box can be cut out of a page with these sides: no side ends before it begins.
pub open spec fn croppable(bbox: [Single; 4], width: u32, height: u32, padding: u32) -> bool {
    &&& paddable(bbox[0], bbox[2], padding)
    &&& paddable(bbox[1], bbox[3], padding)
    &&& start_of(bbox[0], padding) <= end_of(bbox[2], padding, width)
    &&& start_of(bbox[1], padding) <= end_of(bbox[3], padding, height)
}

/// At least one.
pub open spec fn at_least_one(n: int) -> int {
    if n < 1 {
        1
    } else {
        n
    }
}

/// The picture is the part of the page around the box, at least one pixel wide and high as
/// far as the page reaches.
pub open spec fn is_crop(image: RgbImage, bbox: [Single; 4], padding: u32, r: RgbImage) -> bool {
    let (x, y) = (start_of(bbox[0], padding), start_of(bbox[1], padding));
    let w = at_least_one(end_of(bbox[2], padding, image.width) - x);
    let h = at_least_one(end_of(bbox[3], padding, image.height) - y);
    &&& r.wf()
    &&& r.width == crate::raster::cut_length(x, w, image.width as int)
    &&& r.height == crate::raster::cut_length(y, h, image.height as int)
    &&& r.data@ == crate::raster::cut_bytes(
        image.data@,
        3,
        image.width as int,
        x,
        y,
        r.width as int,
        r.height as int,
    )
}

/// An unsigned number read as a signed one of the same bits.
fn to_signed(v: u32) -> (r: i64)
    ensures
        r == as_signed(v),
{
    if v >= 0x8000_0000 {
        v as i64 - 0x1_0000_0000
    } else {
        v as i64
    }
}

/// Where a part begins, and whether that can be computed with `i32`.
fn start(v: Single, padding: u32) -> (r: (bool, i64))
    ensures
        r.0 == (i32::MIN <= whole_i32(v) - as_signed(padding) <= i32::MAX),
        r.1 == start_of(v, padding),
{
    let at: i64 = v.to_i32() as i64 - to_signed(padding);
    (
        i32::MIN as i64 <= at && at <= i32::MAX as i64,
        if at < 0 {
            0
        } else {
            at
        },
    )
}

/// Where a part ends, and whether that can be computed with `i32`.
fn end(v: Single, padding: u32, limit: u32) -> (r: (bool, i64))
    ensures
        r.0 == (i32::MIN <= whole_i32(v) + as_signed(padding) <= i32::MAX),
        r.1 == end_of(v, padding, limit),
{
    let at: i64 = v.to_i32() as i64 + to_signed(padding);
    let most: i64 = to_signed(limit);
    let stop: i64 = if at > most {
        most
    } else {
        at
    };
    (
        i32::MIN as i64 <= at && at <= i32::MAX as i64,
        if stop < 0 {
            stop + 0x1_0000_0000
        } else {
            stop
        },
    )
}

/// Whether the box can be cut out of a page with these sides.
pub fn can_crop(bbox: [Single; 4], width: u32, height: u32, padding: u32) -> (r: bool)
    ensures
        r == croppable(bbox, width, height, padding),
{
    let (x1, x2) = (start(bbox[0], padding), end(bbox[2], padding, width));
    let (y1, y2) = (start(bbox[1], padding), end(bbox[3], padding, height));
    x1.0 && x2.0 && y1.0 && y2.0 && x1.1 <= x2.1 && y1.1 <= y2.1
}

/// The part of a page around a box, with some padding.
pub fn crop_with_padding(image: &RgbImage, bbox: [Single; 4], padding: u32) -> (r: RgbImage)
    requires
        image.wf(),
        croppable(bbox, image.width, image.height, padding),
    ensures
        is_crop(*image, bbox, padding, r),
{
    let x: i64 = start(bbox[0], padding).1;
    let y: i64 = start(bbox[1], padding).1;
    let wide: i64 = end(bbox[2], padding, image.width).1 - x;
    let high: i64 = end(bbox[3], padding, image.height).1 - y;
    let w: u32 = if wide < 1 {
        1
    } else {
        wide as u32
    };
    let h: u32 = if high < 1 {
        1
    } else {
        high as u32
    };
    crate::raster::crop_rgb(image, x as u32, y as u32, w, h)
}

/// The part of a page within a box.
pub fn crop(image: &RgbImage, bbox: [Single; 4]) -> (r: RgbImage)
    requires
        image.wf(),
        croppable(bbox, image.width, image.height, 0),
    ensures
        is_crop(*image, bbox, 0, r),
{
    crop_with_padding(image, bbox, 0)
}

/// How many pixels are kept around a formula.
pub const FORMULA_PADDING: u32 = 8;

/// The part of a page that a formula is read from.
pub fn crop_formula(image: &RgbImage, bbox: [Single; 4]) -> (r: RgbImage)
    requires
        image.wf(),
        croppable(bbox, image.width, image.height, FORMULA_PADDING),
    ensures
        is_crop(*image, bbox, FORMULA_PADDING, r),
{
    crop_with_padding(image, bbox, FORMULA_PADDING)
}

/// What lies left of the rounded edge of a page lies on the page.
proof fn lemma_before_edge(v: Single, limit: u32)
    requires
        !v.nan(),
        0 <= v.units() < Single::whole(limit as int).units(),
    ensures
        v.units() <= limit * crate::single::unit(),
{
    let u: nat = crate::single::unit();
    if v.units() > limit * u {
        reveal(Single::whole);
        let m: nat = v.magnitude();
        let num: nat = limit as nat * u;
        assert(num <= crate::single::step(m) * 1);
        crate::bounds::lemma_nearest_at_most(num, 1, m);
        crate::bounds::lemma_rounded(false, num, 1);
        let n: nat = crate::single::nearest(num, 1);
        if n < m {
            crate::single::lemma_step_increases(n, m);
        }
        assert(false);
    }
}

/// A box within a page can be cut out of it, with a little padding too.
pub proof fn lemma_inside_croppable(bbox: [Single; 4], width: u32, height: u32, padding: u32)
    requires
        crate::ocr::text::detection::inside_page(bbox, width, height),
        width <= 0x7fff_ff00,
        height <= 0x7fff_ff00,
        padding <= 0x80,
    ensures
        croppable(bbox, width, height, padding),
{
    lemma_side_croppable(bbox[0], bbox[2], width, padding);
    lemma_side_croppable(bbox[1], bbox[3], height, padding);
}

proof fn lemma_side_croppable(low: Single, high: Single, limit: u32, padding: u32)
    requires
        !low.nan(),
        !high.nan(),
        0 <= low.units() < high.units() <= Single::whole(limit as int).units(),
        limit <= 0x7fff_ff00,
        padding <= 0x80,
    ensures
        paddable(low, high, padding),
        start_of(low, padding) <= end_of(high, padding, limit),
{
    let u: nat = crate::single::unit();
    vstd::arithmetic::power2::lemma_pow2_pos(149);
    lemma_before_edge(low, limit);
    // the edge itself is not beyond 2^31 - 256
    let edge: Single = Single::whole(limit as int);
    assert(edge.units() <= 0x7fff_ff00 * u) by {
        reveal(Single::whole);
        vstd::arithmetic::power2::lemma2_to64();
        vstd::arithmetic::power2::lemma_pow2_adds(8, 149);
        vstd::arithmetic::power2::lemma_pow2_adds(24, 157);
        vstd::arithmetic::power2::lemma_pow2_strictly_increases(181, 277);
        let p: nat = vstd::arithmetic::power2::pow2(157);
        assert(p == 0x100 * u);
        assert(0x7f_ffff * p <= 0x100_0000 * p);
        let m: nat = crate::bounds::lemma_on_scale(0x7f_ffff, 157);
        assert(crate::single::step(m) == 0x7fff_ff00 * u);
        let num: nat = limit as nat * u;
        assert(num <= 0x7fff_ff00 * u) by (nonlinear_arith)
            requires
                num == limit as nat * u,
                limit <= 0x7fff_ff00,
        ;
        assert(crate::single::step(m) * 1 == crate::single::step(m));
        crate::bounds::lemma_nearest_at_most(num, 1, m);
        crate::bounds::lemma_rounded(false, num, 1);
        let n: nat = crate::single::nearest(num, 1);
        if n < m {
            crate::single::lemma_step_increases(n, m);
        }
    }
    reveal(Single::to_whole);
    let (a, b): (nat, nat) = (low.units() as nat, high.units() as nat);
    let l: nat = limit as nat;
    assert(0 <= a / u <= b / u) by (nonlinear_arith)
        requires
            a < b,
            u > 0,
    ;
    assert(a / u <= l) by (nonlinear_arith)
        requires
            a <= l * u,
            u > 0,
    ;
    assert(b / u <= 0x7fff_ff00) by (nonlinear_arith)
        requires
            b <= 0x7fff_ff00 * u,
            u > 0,
    ;
    if low.negative() {
        assert(a == 0);
        assert(a / u == 0) by (nonlinear_arith)
            requires
                a == 0,
                u > 0,
        ;
    }
    assert(!high.negative());
}

/// A part of the page to read, and the place of the region that its text goes to.
#[derive(Debug, Clone, Copy)]
pub struct Cut {
    pub bbox: [Single; 4],
    pub owner: usize,
}

/// The parts to read for the region at `place`: its lines, or the region as a whole where it
/// holds a single line or no line was found in it.
pub open spec fn cuts_at(regions: Seq<LayoutBox>, lines: Seq<TextLine>, place: usize) -> Seq<Cut> {
    let found = crate::pipeline::regions::lines_at(regions, lines, place, lines.len());
    let region = regions[place as int];
    if crate::pipeline::labels::single_line(region.label@) || found.len() == 0 {
        seq![Cut { bbox: region.bbox, owner: place }]
    } else {
        found.map_values(|k: usize| Cut { bbox: lines[k as int].bbox, owner: place })
    }
}

/// The parts to read for the regions at the first `n` places.
pub open spec fn cuts_for(
    regions: Seq<LayoutBox>,
    lines: Seq<TextLine>,
    places: Seq<usize>,
    n: nat,
) -> Seq<Cut>
    decreases n,
{
    if n == 0 {
        Seq::empty()
    } else {
        cuts_for(regions, lines, places, (n - 1) as nat) + cuts_at(regions, lines, places[n - 1])
    }
}

/// The parts of the page to read, region by region.
pub open spec fn all_cuts(regions: Seq<LayoutBox>, lines: Seq<TextLine>) -> Seq<Cut> {
    let places = crate::pipeline::regions::text_regions(regions);
    cuts_for(regions, lines, places, places.len())
}

/// The lines that occur are lines of the page.
proof fn lemma_lines_at(regions: Seq<LayoutBox>, lines: Seq<TextLine>, place: usize, n: nat)
    requires
        n <= lines.len() <= usize::MAX,
    ensures
        forall|k: int|
            0 <= k < crate::pipeline::regions::lines_at(regions, lines, place, n).len() ==> (
            #[trigger] crate::pipeline::regions::lines_at(regions, lines, place, n)[k]) < n,
    decreases n,
{
    if n > 0 {
        lemma_lines_at(regions, lines, place, (n - 1) as nat);
        let rest: Seq<usize> = crate::pipeline::regions::lines_at(
            regions,
            lines,
            place,
            (n - 1) as nat,
        );
        let all: Seq<usize> = crate::pipeline::regions::lines_at(regions, lines, place, n);
        assert forall|k: int| 0 <= k < all.len() implies (#[trigger] all[k]) < n by {
            if k < rest.len() {
                assert(all[k] == rest[k]);
            }
        }
    }
}

/// Lists the parts of the page to read, region by region.
pub fn list_cuts(regions: &Vec<LayoutBox>, lines: &Vec<TextLine>) -> (r: Vec<Cut>)
    requires
        forall|i: int|
            0 <= i < lines@.len() ==> crate::pipeline::regions::comparable(
                regions@,
                #[trigger] lines@[i],
            ),
    ensures
        r@ == all_cuts(regions@, lines@),
        forall|k: int| 0 <= k < r@.len() ==> (#[trigger] r@[k]).owner < regions@.len(),
{
    let places: Vec<usize> = find_text_regions(regions);
    let assigned: Vec<Vec<usize>> = assign_lines(regions, &places, lines);
    let mut r: Vec<Cut> = Vec::new();
    let mut n: usize = 0;
    while n < places.len()
        invariant
            n <= places.len(),
            places@ == crate::pipeline::regions::text_regions(regions@),
            forall|k: int| 0 <= k < places@.len() ==> (#[trigger] places@[k]) < regions@.len(),
            assigned@.len() == regions@.len(),
            forall|k: int|
                0 <= k < assigned@.len() ==> (#[trigger] assigned@[k])@
                    == crate::pipeline::regions::lines_at(
                    regions@,
                    lines@,
                    k as usize,
                    lines@.len(),
                ),
            r@ == cuts_for(regions@, lines@, places@, n as nat),
            forall|k: int| 0 <= k < r@.len() ==> (#[trigger] r@[k]).owner < regions@.len(),
        decreases places.len() - n,
    {
        let place: usize = places[n];
        let region: LayoutBox = regions[place];
        let ghost before: Seq<Cut> = r@;
        let ghost want: Seq<Cut> = cuts_at(regions@, lines@, place);
        assert(assigned@[place as int]@ == crate::pipeline::regions::lines_at(
            regions@,
            lines@,
            place,
            lines@.len(),
        ));
        if is_single_line_label(region.label) || assigned[place].len() == 0 {
            r.push(Cut { bbox: region.bbox, owner: place });
            assert(r@ =~= before + want);
        } else {
            proof {
                assert(lines.len() <= usize::MAX);
                lemma_lines_at(regions@, lines@, place, lines@.len());
            }
            let mut k: usize = 0;
            while k < assigned[place].len()
                invariant
                    k <= assigned@[place as int]@.len(),
                    place < assigned@.len(),
                    place < regions@.len(),
                    forall|j: int|
                        0 <= j < assigned@[place as int]@.len() ==> (
                        #[trigger] assigned@[place as int]@[j]) < lines@.len(),
                    want == assigned@[place as int]@.map_values(
                        |k: usize| Cut { bbox: lines@[k as int].bbox, owner: place },
                    ),
                    r@ =~= before + want.take(k as int),
                    forall|k: int| 0 <= k < r@.len() ==> (#[trigger] r@[k]).owner < regions@.len(),
                decreases assigned@[place as int]@.len() - k,
            {
                let at: usize = assigned[place][k];
                r.push(Cut { bbox: lines[at].bbox, owner: place });
                k = k + 1;
            }
            assert(want.take(k as int) =~= want);
        }
        n = n + 1;
    }
    r
}

/// Cuts the listed parts out of a page.
pub fn cut_all(image: &RgbImage, cuts: &Vec<Cut>) -> (r: Vec<RgbImage>)
    requires
        image.wf(),
        forall|k: int|
            0 <= k < cuts@.len() ==> croppable(
                (#[trigger] cuts@[k]).bbox,
                image.width,
                image.height,
                0,
            ),
    ensures
        r@.len() == cuts@.len(),
        forall|k: int| 0 <= k < r@.len() ==> is_crop(*image, cuts@[k].bbox, 0, #[trigger] r@[k]),
{
    let mut r: Vec<RgbImage> = Vec::new();
    let mut k: usize = 0;
    while k < cuts.len()
        invariant
            k <= cuts.len(),
            image.wf(),
            forall|k: int|
                0 <= k < cuts@.len() ==> croppable(
                    (#[trigger] cuts@[k]).bbox,
                    image.width,
                    image.height,
                    0,
                ),
            r@.len() == k,
            forall|j: int| 0 <= j < k ==> is_crop(*image, cuts@[j].bbox, 0, #[trigger] r@[j]),
        decreases cuts.len() - k,
    {
        r.push(crop(image, cuts[k].bbox));
        k = k + 1;
    }
    r
}

/// The text of a part counts: its confidence reaches the threshold and it is more than
/// white space.
pub open spec fn counts(reading: (Seq<char>, Single), threshold: Single) -> bool {
    threshold.at_most(reading.1) && crate::strings::trimmed(reading.0).len() > 0
}

/// The texts that count for the region at `place`, among the first `n` parts.
pub open spec fn texts_at(
    cuts: Seq<Cut>,
    readings: Seq<(Seq<char>, Single)>,
    threshold: Single,
    place: usize,
    n: nat,
) -> Seq<Seq<char>>
    decreases n,
{
    if n == 0 {
        Seq::empty()
    } else {
        let rest = texts_at(cuts, readings, threshold, place, (n - 1) as nat);
        if cuts[n - 1].owner == place && counts(readings[n - 1], threshold) {
            rest.push(crate::strings::trimmed(readings[n - 1].0))
        } else {
            rest
        }
    }
}

/// The content of the region at `place`, which holds text.
pub open spec fn text_content(
    regions: Seq<LayoutBox>,
    cuts: Seq<Cut>,
    readings: Seq<(Seq<char>, Single)>,
    threshold: Single,
    place: usize,
) -> Seq<char> {
    let n = if cuts.len() < readings.len() {
        cuts.len()
    } else {
        readings.len()
    };
    crate::pipeline::labels::markdown(
        regions[place as int].label@,
        texts_at(cuts, readings, threshold, place, n),
    )
}

/// For every region the texts that count for it.
fn collect_texts(
    count: usize,
    cuts: &Vec<Cut>,
    recognized: &Vec<(String, Single)>,
    threshold: Single,
) -> (r: Vec<Vec<String>>)
    requires
        forall|k: int| 0 <= k < cuts@.len() ==> (#[trigger] cuts@[k]).owner < count,
    ensures
        r@.len() == count,
        forall|i: int|
            0 <= i < count ==> crate::strings::texts((#[trigger] r@[i])@) == texts_at(
                cuts@,
                crate::ocr::text::recognition::readings(recognized@),
                threshold,
                i as usize,
                if cuts@.len() < recognized@.len() {
                    cuts@.len()
                } else {
                    recognized@.len()
                },
            ),
{
    let ghost read: Seq<(Seq<char>, Single)> = crate::ocr::text::recognition::readings(recognized@);
    let mut r: Vec<Vec<String>> = Vec::new();
    let mut i: usize = 0;
    while i < count
        invariant
            i <= count,
            r@.len() == i,
            forall|k: int| 0 <= k < i ==> (#[trigger] r@[k])@ == Seq::<String>::empty(),
        decreases count - i,
    {
        let none: Vec<String> = Vec::new();
        r.push(none);
        i = i + 1;
    }
    let n: usize = if cuts.len() < recognized.len() {
        cuts.len()
    } else {
        recognized.len()
    };
    proof {
        assert forall|i: int| 0 <= i < count implies crate::strings::texts((#[trigger] r@[i])@)
            == texts_at(cuts@, read, threshold, i as usize, 0) by {
            assert(crate::strings::texts(r@[i]@) =~= Seq::<Seq<char>>::empty());
        }
    }
    let mut k: usize = 0;
    while k < n
        invariant
            k <= n,
            n <= cuts.len(),
            n <= recognized.len(),
            read == crate::ocr::text::recognition::readings(recognized@),
            r@.len() == count,
            forall|k: int| 0 <= k < cuts@.len() ==> (#[trigger] cuts@[k]).owner < count,
            forall|i: int|
                0 <= i < count ==> crate::strings::texts((#[trigger] r@[i])@) == texts_at(
                    cuts@,
                    read,
                    threshold,
                    i as usize,
                    k as nat,
                ),
        decreases n - k,
    {
        let owner: usize = cuts[k].owner;
        let ghost before: Seq<Vec<String>> = r@;
        let trimmed: &str = recognized[k].0.as_str().trim();
        let kept: bool = threshold.le(recognized[k].1) && !trimmed.is_empty();
        let ghost text: Seq<char> = trimmed@;
        assert(read[k as int] == (recognized@[k as int].0@, recognized@[k as int].1));
        assert(kept == counts(read[k as int], threshold));
        if kept {
            let line: String = trimmed.to_owned();
            r[owner].push(line);
        }
        proof {
            assert forall|i: int| 0 <= i < count implies crate::strings::texts((#[trigger] r@[i])@)
                == texts_at(cuts@, read, threshold, i as usize, (k + 1) as nat) by {
                assert(crate::strings::texts(before[i]@) == texts_at(
                    cuts@,
                    read,
                    threshold,
                    i as usize,
                    k as nat,
                ));
                if kept && i == owner {
                    assert(crate::strings::texts(r@[i]@) =~= crate::strings::texts(before[i]@).push(
                        text,
                    ));
                } else {
                    assert(r@[i] == before[i]);
                }
            }
        }
        k = k + 1;
    }
    r
}

/// Writes the contents of the regions that hold text.
pub fn fill_text(
    regions: &Vec<LayoutBox>,
    cuts: &Vec<Cut>,
    recognized: &Vec<(String, Single)>,
    threshold: Single,
    contents: &mut Vec<String>,
)
    requires
        old(contents)@.len() == regions@.len(),
        forall|k: int| 0 <= k < cuts@.len() ==> (#[trigger] cuts@[k]).owner < regions@.len(),
    ensures
        final(contents)@.len() == regions@.len(),
        forall|i: int|
            0 <= i < regions@.len() ==> (#[trigger] final(contents)@[i])@ == (
            if crate::pipeline::labels::holds_text(regions@[i].label@) {
                text_content(
                    regions@,
                    cuts@,
                    crate::ocr::text::recognition::readings(recognized@),
                    threshold,
                    i as usize,
                )
            } else {
                old(contents)@[i]@
            }),
{
    let ghost before: Seq<String> = contents@;
    let ghost read: Seq<(Seq<char>, Single)> = crate::ocr::text::recognition::readings(recognized@);
    let texts: Vec<Vec<String>> = collect_texts(regions.len(), cuts, recognized, threshold);
    let mut i: usize = 0;
    while i < regions.len()
        invariant
            i <= regions.len(),
            contents@.len() == regions@.len(),
            before.len() == regions@.len(),
            texts@.len() == regions@.len(),
            read == crate::ocr::text::recognition::readings(recognized@),
            forall|i: int|
                0 <= i < regions@.len() ==> crate::strings::texts((#[trigger] texts@[i])@)
                    == texts_at(
                    cuts@,
                    read,
                    threshold,
                    i as usize,
                    if cuts@.len() < recognized@.len() {
                        cuts@.len()
                    } else {
                        recognized@.len()
                    },
                ),
            forall|k: int|
                0 <= k < regions@.len() ==> (#[trigger] contents@[k])@ == (if k < i
                    && crate::pipeline::labels::holds_text(regions@[k].label@) {
                    text_content(regions@, cuts@, read, threshold, k as usize)
                } else {
                    before[k]@
                }),
        decreases regions.len() - i,
    {
        if crate::pipeline::labels::is_text_label(regions[i].label) {
            let content: String = markdown_text(regions[i].label, &texts[i]);
            assert(crate::strings::texts(texts@[i as int]@) == texts_at(
                cuts@,
                read,
                threshold,
                i,
                if cuts@.len() < recognized@.len() {
                    cuts@.len()
                } else {
                    recognized@.len()
                },
            ));
            contents.set(i, content);
        }
        i = i + 1;
    }
}

/// The places of the regions that hold formulas, among the first `n`.
pub open spec fn formula_places(regions: Seq<LayoutBox>, n: nat) -> Seq<usize>
    decreases n,
{
    if n == 0 {
        Seq::empty()
    } else {
        let rest = formula_places(regions, (n - 1) as nat);
        if regions[n - 1].label@ == "formula"@ {
            rest.push((n - 1) as usize)
        } else {
            rest
        }
    }
}

/// The places of the regions that hold formulas.
pub fn find_formulas(regions: &Vec<LayoutBox>) -> (r: Vec<usize>)
    ensures
        r@ == formula_places(regions@, regions@.len()),
        forall|k: int|
            0 <= k < r@.len() ==> (#[trigger] r@[k]) < regions@.len() && regions@[r@[k] as int].label@
                == "formula"@,
{
    let mut r: Vec<usize> = Vec::new();
    let mut i: usize = 0;
    while i < regions.len()
        invariant
            i <= regions.len(),
            r@ == formula_places(regions@, i as nat),
            forall|k: int|
                0 <= k < r@.len() ==> (#[trigger] r@[k]) < regions@.len()
                    && regions@[r@[k] as int].label@ == "formula"@,
        decreases regions.len() - i,
    {
        if crate::strings::same_text(regions[i].label, "formula") {
            r.push(i);
        }
        i = i + 1;
    }
    r
}

/// Writes the content of a region that holds a formula; nothing changes where it is no more
/// than white space.
pub fn fill_formula(place: usize, latex: &str, contents: &mut Vec<String>)
    requires
        place < old(contents)@.len(),
    ensures
        final(contents)@.len() == old(contents)@.len(),
        final(contents)@[place as int]@ == (if crate::strings::trimmed(latex@).len() > 0 {
            crate::pipeline::labels::formula_block(latex@)
        } else {
            old(contents)@[place as int]@
        }),
        forall|i: int|
            0 <= i < old(contents)@.len() && i != place ==> #[trigger] final(contents)@[i] == old(
                contents,
            )@[i],
{
    if !latex.trim().is_empty() {
        contents.set(place, formula_text(latex));
    }
}

} // verus!
